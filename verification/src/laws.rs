//! Properties that relate several operations on trie nodes, stated over the
//! node model that the operations' contracts use.

use vstd::prelude::*;
use crate::tree::{Tree, prefix_set, lemma_map_finite, lemma_exemplar_in, lemma_child_key};
use crate::nybble::{nybble_at, agree_below, lemma_prefix_iff_agree};

verus! {

/// After inserting `key` with `val`, a lookup of `key` finds `val`, and every
/// other key is found exactly as before.
pub proof fn law_get_after_insert<V>(before: Tree<V>, after: Tree<V>, key: Seq<u8>, val: V, other: Seq<u8>)
    requires
        after.map() == before.map().insert(key, val),
    ensures
        after.has_key(key),
        after.map()[key] == val,
        other != key ==> (after.has_key(other) == before.has_key(other)),
        other != key && before.has_key(other) ==> after.map()[other] == before.map()[other],
{
}

/// Inserting a key that was not stored and then removing it gives back the
/// entries stored before.
pub proof fn law_remove_undoes_insert<V>(before: Tree<V>, inserted: Tree<V>, removed: Tree<V>, key: Seq<u8>, val: V)
    requires
        !before.has_key(key),
        inserted.map() == before.map().insert(key, val),
        removed.map() == inserted.map().remove(key),
    ensures
        removed.map() == before.map(),
{
    assert(removed.map() =~= before.map());
}

/// Inserting a key that was not stored adds one to the count of keys;
/// inserting a stored key leaves the count as it was.
pub proof fn law_count_after_insert<V>(before: Tree<V>, after: Tree<V>, key: Seq<u8>, val: V)
    requires
        after.map() == before.map().insert(key, val),
    ensures
        !before.has_key(key) ==> after.map().dom().len() == before.map().dom().len() + 1,
        before.has_key(key) ==> after.map().dom().len() == before.map().dom().len(),
{
    lemma_map_finite(before);
    if before.has_key(key) {
        assert(after.map().dom() =~= before.map().dom());
    } else {
        assert(after.map().dom() =~= before.map().dom().insert(key));
    }
}

/// Removing a stored key takes one off the count of keys.
pub proof fn law_count_after_remove<V>(before: Tree<V>, after: Tree<V>, key: Seq<u8>)
    requires
        after.map() == before.map().remove(key),
        before.has_key(key),
    ensures
        after.map().dom().len() + 1 == before.map().dom().len(),
{
    lemma_map_finite(before);
    assert(after.map().dom() =~= before.map().dom().remove(key));
}

/// After the entries beginning with `p` are removed, no stored key begins
/// with `p`, and the entries handed back together with those left make up the
/// entries stored before.
pub proof fn law_remove_prefix_splits<V>(before: Tree<V>, left: Map<Seq<u8>, V>, taken: Map<Seq<u8>, V>, p: Seq<u8>)
    requires
        left == before.map().remove_keys(prefix_set(p)),
        taken == before.prefix_map(p),
    ensures
        forall|k: Seq<u8>| #[trigger] left.dom().contains(k) ==> !p.is_prefix_of(k),
        forall|k: Seq<u8>| #[trigger] taken.dom().contains(k) ==> p.is_prefix_of(k),
        left.union_prefer_right(taken) == before.map(),
        left.dom().disjoint(taken.dom()),
{
    assert(left.union_prefer_right(taken) =~= before.map());
}

/// Nodes that are equal by shape and keys store the same keys, and one of
/// them is well formed exactly when the other is.
pub proof fn law_key_eq_same_keys<V>(a: Tree<V>, b: Tree<V>)
    requires
        a.key_eq(b),
    ensures
        a.map().dom() == b.map().dom(),
        a.wf() == b.wf(),
        b.key_eq(a),
    decreases a,
{
    match a {
        Tree::Leaf { key, .. } => {
            assert(a.map().dom() =~= b.map().dom());
        },
        Tree::Branch { choice, slots, children } => {
            let bc = b->children;
            assert forall|i: int| 0 <= i < children.len() implies (#[trigger] children[i]).map().dom()
                == bc[i].map().dom() && children[i].wf() == bc[i].wf() && bc[i].key_eq(children[i]) by {
                law_key_eq_same_keys(children[i], bc[i]);
            }
            assert forall|k: Seq<u8>| #[trigger] a.map().dom().contains(k) == b.map().dom().contains(k) by {
                crate::tree::lemma_map_from_dom(children, 0, k);
                crate::tree::lemma_map_from_dom(bc, 0, k);
                if a.map().dom().contains(k) {
                    let i = choose|i: int| 0 <= i < children.len() && #[trigger] children[i].has_key(k);
                    assert(bc[i].has_key(k));
                }
                if b.map().dom().contains(k) {
                    let i = choose|i: int| 0 <= i < bc.len() && #[trigger] bc[i].has_key(k);
                    assert(children[i].has_key(k));
                }
            }
            assert(a.map().dom() =~= b.map().dom());
            assert forall|i: int| 0 <= i < children.len() && (#[trigger] children[i]) is Branch
                <==> 0 <= i < bc.len() && bc[i] is Branch by {
            }
            if a.wf() {
                assert(b.branch_inv()) by {
                    assert forall|i: int, k: Seq<u8>|
                        0 <= i < bc.len() && #[trigger] bc[i].has_key(k) implies crate::nybble::nybble_at(
                        choice as int,
                        k,
                    ) == slots[i] by {
                        assert(children[i].has_key(k));
                    }
                    assert forall|i: int| 0 <= i < bc.len() && (#[trigger] bc[i]) is Branch implies bc[i]->choice
                        > choice by {
                        assert(children[i] is Branch);
                    }
                }
                assert forall|i: int| 0 <= i < bc.len() implies (#[trigger] bc[i]).wf() by {
                    assert(children[i].wf());
                }
            }
            if b.wf() {
                assert(a.branch_inv()) by {
                    assert forall|i: int, k: Seq<u8>|
                        0 <= i < children.len() && #[trigger] children[i].has_key(k) implies crate::nybble::nybble_at(
                        choice as int,
                        k,
                    ) == slots[i] by {
                        assert(bc[i].has_key(k));
                    }
                    assert forall|i: int| 0 <= i < children.len() && (#[trigger] children[i]) is Branch implies children[i]->choice
                        > choice by {
                        assert(bc[i] is Branch);
                    }
                }
                assert forall|i: int| 0 <= i < children.len() implies (#[trigger] children[i]).wf() by {
                    assert(bc[i].wf());
                }
            }
        },
    }
}

/// Every node is equal to itself by shape and keys.
pub proof fn law_key_eq_reflexive<V>(a: Tree<V>)
    ensures
        a.key_eq(a),
    decreases a,
{
    match a {
        Tree::Leaf { .. } => {},
        Tree::Branch { children, .. } => {
            assert forall|i: int| 0 <= i < children.len() implies (#[trigger] children[i]).key_eq(children[i]) by {
                law_key_eq_reflexive(children[i]);
            }
        },
    }
}

/// A copy of a node is equal to it by shape and keys.
pub proof fn law_clone_key_eq<V: Clone>(a: Tree<V>, b: Tree<V>)
    requires
        a.clone_of(b),
    ensures
        a.key_eq(b),
    decreases a,
{
    match a {
        Tree::Leaf { .. } => {},
        Tree::Branch { children, .. } => {
            assert forall|i: int| 0 <= i < children.len() implies (#[trigger] children[i]).key_eq(b->children[i]) by {
                law_clone_key_eq(children[i], b->children[i]);
            }
        },
    }
}


/// A copy of a node stores the same entries as the node: the same keys, each
/// with a clone of the value it has in the node; and it is well formed
/// exactly when the node is.
pub proof fn law_clone_same_entries<V: Clone>(a: Tree<V>, b: Tree<V>)
    requires
        a.clone_of(b),
    ensures
        b.map().dom() == a.map().dom(),
        forall|k: Seq<u8>| a.map().dom().contains(k) ==> cloned(a.map()[k], #[trigger] b.map()[k]),
        b.wf() == a.wf(),
    decreases a,
{
    law_clone_key_eq(a, b);
    law_key_eq_same_keys(a, b);
    match a {
        Tree::Leaf { key, val } => {
            assert(a.map()[key] == val);
            assert(b.map()[key] == b->val);
        },
        Tree::Branch { children, .. } => {
            let bc = b->children;
            assert forall|j: int| 0 <= j < children.len() implies {
                &&& (#[trigger] bc[j]).map().dom() == children[j].map().dom()
                &&& forall|k: Seq<u8>|
                    children[j].map().dom().contains(k) ==> cloned(children[j].map()[k], #[trigger] bc[j].map()[k])
            } by {
                law_clone_same_entries(children[j], bc[j]);
            }
            lemma_clone_map_from(children, bc, 0);
        },
    }
}

proof fn lemma_clone_map_from<V: Clone>(s: Seq<Tree<V>>, t: Seq<Tree<V>>, i: int)
    requires
        0 <= i,
        s.len() == t.len(),
        forall|j: int| 0 <= j < s.len() ==> {
            &&& (#[trigger] t[j]).map().dom() == s[j].map().dom()
            &&& forall|k: Seq<u8>| s[j].map().dom().contains(k) ==> cloned(s[j].map()[k], #[trigger] t[j].map()[k])
        },
    ensures
        Tree::map_from(t, i).dom() == Tree::map_from(s, i).dom(),
        forall|k: Seq<u8>|
            Tree::map_from(s, i).dom().contains(k) ==> cloned(
                Tree::map_from(s, i)[k],
                #[trigger] Tree::map_from(t, i)[k],
            ),
    decreases s.len() - i,
{
    if i < s.len() {
        lemma_clone_map_from(s, t, i + 1);
        let ms = Tree::map_from(s, i + 1);
        let mt = Tree::map_from(t, i + 1);
        assert(t[i].map().dom() == s[i].map().dom());
        assert(Tree::map_from(t, i).dom() =~= Tree::map_from(s, i).dom());
        assert forall|k: Seq<u8>| Tree::map_from(s, i).dom().contains(k) implies cloned(
            Tree::map_from(s, i)[k],
            #[trigger] Tree::map_from(t, i)[k],
        ) by {
            if ms.dom().contains(k) {
                assert(mt.dom().contains(k));
                assert(cloned(ms[k], mt[k]));
            } else {
                assert(!mt.dom().contains(k));
                assert(s[i].map().dom().contains(k));
                assert(cloned(s[i].map()[k], t[i].map()[k]));
            }
        }
    } else {
        assert(Tree::map_from(t, i).dom() =~= Tree::map_from(s, i).dom());
    }
}

/// Of the seventeen slots of a branch, only the sixteen that stand for a
/// nybble value can hold a branch: slot zero, for the key that ends before
/// the branch's choice, holds at most one key and so is a leaf.
pub proof fn law_head_slot_is_leaf<V>(t: Tree<V>, i: int)
    requires
        t is Branch,
        t.wf(),
        0 <= i < t->children.len(),
        t->slots[i] == 0,
    ensures
        t->children[i] is Leaf,
{
    let c = t->choice as int;
    let child = t->children[i];
    if child is Branch {
        assert(child.wf());
        let k1 = child->children[0].exemplar(Seq::empty()).0;
        let k2 = child->children[1].exemplar(Seq::empty()).0;
        assert(child->children[0].wf());
        assert(child->children[1].wf());
        lemma_exemplar_in(child->children[0], Seq::empty());
        lemma_exemplar_in(child->children[1], Seq::empty());
        lemma_child_key(child, 0, k1);
        lemma_child_key(child, 1, k2);
        assert(k1 != k2);
        lemma_child_key(t, i, k1);
        lemma_child_key(t, i, k2);
        // both keys end at or before the choice and agree below it, so they
        // agree at every position
        crate::tree::lemma_agree_in(t, k1, k2);
        assert(nybble_at(c, k1) == 0 && nybble_at(c, k2) == 0);
        crate::nybble::lemma_nybble_bound(c, k1);
        crate::nybble::lemma_nybble_bound(c, k2);
        assert(agree_below(k1, k2, 2 * k1.len() as int)) by {
            assert forall|n: int| 0 <= n < 2 * k1.len() implies #[trigger] nybble_at(n, k1) == nybble_at(n, k2) by {
                if n >= c {
                    crate::nybble::lemma_nybble_bound(n, k1);
                    crate::nybble::lemma_nybble_bound(n, k2);
                }
            }
        }
        assert(agree_below(k2, k1, 2 * k2.len() as int)) by {
            assert forall|n: int| 0 <= n < 2 * k2.len() implies #[trigger] nybble_at(n, k2) == nybble_at(n, k1) by {
                if n >= c {
                    crate::nybble::lemma_nybble_bound(n, k1);
                    crate::nybble::lemma_nybble_bound(n, k2);
                }
            }
        }
        lemma_prefix_iff_agree(k1, k2);
        lemma_prefix_iff_agree(k2, k1);
        assert(k1 =~= k2);
    }
}

} // verus!
