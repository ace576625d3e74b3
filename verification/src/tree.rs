//! The mathematical model of a trie node: a tree of leaves and branches, its
//! well-formedness, the map it stores, and the paths that lookups follow.

use vstd::prelude::*;
use crate::nybble::{nybble_at, agree_below, key_len_ok};
use crate::sparse::{slots_wf, rank};

verus! {

/// A trie node as a value: a leaf holding one key and its value, or a branch
/// that files its children under the nybble index of their keys at `choice`.
#[verifier::ext_equal]
pub enum Tree<V> {
    Leaf { key: Seq<u8>, val: V },
    Branch { choice: nat, slots: Seq<u8>, children: Seq<Tree<V>> },
}

impl<V> Tree<V> {
    /// The key/value map stored under this node.
    pub open spec fn map(self) -> Map<Seq<u8>, V>
        decreases self, 0nat,
    {
        match self {
            Tree::Leaf { key, val } => map![key => val],
            Tree::Branch { children, .. } => Self::map_from(children, 0),
        }
    }

    /// The union of the maps of `s[i..]`.
    pub open spec fn map_from(s: Seq<Tree<V>>, i: int) -> Map<Seq<u8>, V>
        decreases s, s.len() - i,
    {
        if 0 <= i < s.len() {
            s[i].map().union_prefer_right(Self::map_from(s, i + 1))
        } else {
            Map::empty()
        }
    }

    /// Whether `key` is stored under this node.
    #[verifier::inline]
    pub open spec fn has_key(self, key: Seq<u8>) -> bool {
        self.map().dom().contains(key)
    }

    /// The slot under which a branch files `key`.
    pub open spec fn route(self, key: Seq<u8>) -> u8 {
        nybble_at(self->choice as int, key)
    }

    /// The branch-local invariant: slots well formed and one per child, every
    /// key filed under its own nybble index at `choice`, all keys agreeing
    /// below `choice`, and child branches choosing strictly later positions.
    pub open spec fn branch_inv(self) -> bool {
        match self {
            Tree::Leaf { .. } => true,
            Tree::Branch { choice, slots, children } => {
                &&& slots.len() == children.len()
                &&& slots_wf(slots)
                &&& forall|i: int, k: Seq<u8>|
                    0 <= i < children.len() && #[trigger] children[i].has_key(k)
                        ==> nybble_at(choice as int, k) == slots[i]
                &&& forall|k1: Seq<u8>, k2: Seq<u8>|
                    #[trigger] self.has_key(k1) && #[trigger] self.has_key(k2)
                        ==> agree_below(k1, k2, choice as int)
                &&& forall|i: int|
                    0 <= i < children.len() && (#[trigger] children[i]) is Branch
                        ==> children[i]->choice > choice
            },
        }
    }

    /// Well-formedness of the whole subtree: every branch satisfies its local
    /// invariant and has at least two children, and every key is the length
    /// of a byte slice.
    pub open spec fn wf(self) -> bool
        decreases self,
    {
        match self {
            Tree::Leaf { key, .. } => key_len_ok(key),
            Tree::Branch { choice, slots, children } => {
                &&& self.branch_inv()
                &&& children.len() >= 2
                &&& forall|i: int| 0 <= i < children.len() ==> (#[trigger] children[i]).wf()
            },
        }
    }

    /// The position of the child that `key` is routed to in a branch, or the
    /// first child when its slot is empty.
    pub open spec fn exemplar_pos(self, key: Seq<u8>) -> int {
        let idx = self.route(key);
        if self->slots.contains(idx) {
            rank(self->slots, idx)
        } else {
            0
        }
    }

    /// The leaf that a search for `key` ends on: at each branch the child in
    /// `key`'s slot, or the first child when that slot is empty.
    pub open spec fn exemplar(self, key: Seq<u8>) -> (Seq<u8>, V)
        decreases self,
    {
        match self {
            Tree::Leaf { key: k, val } => (k, val),
            Tree::Branch { choice, slots, children } => {
                let p = self.exemplar_pos(key);
                if 0 <= p < children.len() {
                    children[p].exemplar(key)
                } else {
                    arbitrary()
                }
            },
        }
    }
}

/// Every key under `map_from(s, i)` is under some child from `i` on, and
/// conversely.
pub proof fn lemma_map_from_dom<V>(s: Seq<Tree<V>>, i: int, k: Seq<u8>)
    requires
        0 <= i,
    ensures
        Tree::map_from(s, i).dom().contains(k)
            <==> exists|j: int| i <= j < s.len() && #[trigger] s[j].has_key(k),
    decreases s.len() - i,
{
    if i < s.len() {
        lemma_map_from_dom(s, i + 1, k);
        if Tree::map_from(s, i).dom().contains(k) {
            if s[i].has_key(k) {
            } else {
                let j = choose|j: int| i + 1 <= j < s.len() && #[trigger] s[j].has_key(k);
                assert(i <= j < s.len() && s[j].has_key(k));
            }
        }
        if exists|j: int| i <= j < s.len() && #[trigger] s[j].has_key(k) {
            let j = choose|j: int| i <= j < s.len() && #[trigger] s[j].has_key(k);
            if j > i {
                assert(i + 1 <= j < s.len() && s[j].has_key(k));
            }
        }
    }
}

/// When exactly one child from `i` on holds `k`, `map_from(s, i)` takes its
/// value from that child.
pub proof fn lemma_map_from_val<V>(s: Seq<Tree<V>>, i: int, j: int, k: Seq<u8>)
    requires
        0 <= i <= j < s.len(),
        s[j].has_key(k),
        forall|l: int| i <= l < s.len() && l != j ==> !(#[trigger] s[l].has_key(k)),
    ensures
        Tree::map_from(s, i).dom().contains(k),
        Tree::map_from(s, i)[k] == s[j].map()[k],
    decreases s.len() - i,
{
    lemma_map_from_dom(s, i, k);
    if i < j {
        lemma_map_from_val(s, i + 1, j, k);
    } else {
        lemma_map_from_dom(s, i + 1, k);
        if Tree::map_from(s, i + 1).dom().contains(k) {
            let l = choose|l: int| i + 1 <= l < s.len() && #[trigger] s[l].has_key(k);
            assert(false);
        }
    }
}

/// `map_from` holds finitely many keys.
pub proof fn lemma_map_from_finite<V>(s: Seq<Tree<V>>, i: int)
    ensures
        Tree::map_from(s, i).dom().finite(),
    decreases s, s.len() - i,
{
    if 0 <= i < s.len() {
        lemma_map_finite(s[i]);
        lemma_map_from_finite(s, i + 1);
        assert(Tree::map_from(s, i).dom() =~= s[i].map().dom().union(Tree::map_from(s, i + 1).dom()));
    } else {
        assert(Tree::map_from(s, i).dom() =~= Set::<Seq<u8>>::empty());
    }
}

/// A node holds finitely many keys.
pub proof fn lemma_map_finite<V>(t: Tree<V>)
    ensures
        t.map().dom().finite(),
    decreases t, 1nat,
{
    match t {
        Tree::Leaf { key, val } => {
            assert(t.map().dom() =~= set![key]);
        },
        Tree::Branch { children, .. } => {
            lemma_map_from_finite(children, 0);
        },
    }
}


/// A key under some child of a branch is under the branch, with the child's
/// value, provided no other child holds it.
pub proof fn lemma_child_key<V>(t: Tree<V>, i: int, k: Seq<u8>)
    requires
        t is Branch,
        t.branch_inv(),
        0 <= i < t->children.len(),
        t->children[i].has_key(k),
    ensures
        t.has_key(k),
        t.map()[k] == t->children[i].map()[k],
        t->slots[i] == t.route(k),
        i == rank(t->slots, t.route(k)),
        t->slots.contains(t.route(k)),
{
    let slots = t->slots;
    let children = t->children;
    let idx = t.route(k);
    crate::sparse::lemma_rank(slots, idx);
    assert(slots[i] == idx);
    assert forall|l: int| 0 <= l < children.len() && l != i implies !(#[trigger] children[l].has_key(k)) by {
        if children[l].has_key(k) {
            assert(slots[l] == idx);
        }
    }
    lemma_map_from_val(children, 0, i, k);
}

/// Routing in a branch: a key is stored under the branch exactly when its slot
/// is occupied and the child there holds it, with the child's value.
pub proof fn lemma_route<V>(t: Tree<V>, k: Seq<u8>)
    requires
        t is Branch,
        t.branch_inv(),
    ensures
        t.has_key(k) <==> (t->slots.contains(t.route(k)) && t->children[rank(
            t->slots,
            t.route(k),
        )].has_key(k)),
        t.has_key(k) ==> t.map()[k] == t->children[rank(t->slots, t.route(k))].map()[k],
        t->slots.contains(t.route(k)) ==> 0 <= rank(t->slots, t.route(k)) < t->children.len()
            && t->slots[rank(t->slots, t.route(k))] == t.route(k),
{
    let slots = t->slots;
    let children = t->children;
    let idx = t.route(k);
    crate::sparse::lemma_rank(slots, idx);
    let p = rank(slots, idx);
    lemma_map_from_dom(children, 0, k);
    if t.has_key(k) {
        let j = choose|j: int| 0 <= j < children.len() && #[trigger] children[j].has_key(k);
        lemma_child_key(t, j, k);
    }
    if slots.contains(idx) && children[p].has_key(k) {
        lemma_child_key(t, p, k);
    }
}

/// The leaf a search ends on is stored under the node, with its value.
pub proof fn lemma_exemplar_in<V>(t: Tree<V>, key: Seq<u8>)
    requires
        t.wf(),
    ensures
        t.has_key(t.exemplar(key).0),
        t.map()[t.exemplar(key).0] == t.exemplar(key).1,
        key_len_ok(t.exemplar(key).0),
    decreases t,
{
    match t {
        Tree::Leaf { key: k, val } => {},
        Tree::Branch { choice, slots, children } => {
            let p = t.exemplar_pos(key);
            crate::sparse::lemma_rank(slots, t.route(key));
            assert(0 <= p < children.len());
            assert(children[p].wf());
            lemma_exemplar_in(children[p], key);
            lemma_child_key(t, p, t.exemplar(key).0);
        },
    }
}

/// A search for a stored key ends on that key's own leaf.
pub proof fn lemma_exemplar_of_present<V>(t: Tree<V>, key: Seq<u8>)
    requires
        t.wf(),
        t.has_key(key),
    ensures
        t.exemplar(key).0 == key,
        t.exemplar(key).1 == t.map()[key],
    decreases t,
{
    match t {
        Tree::Leaf { key: k, val } => {},
        Tree::Branch { choice, slots, children } => {
            lemma_route(t, key);
            let p = t.exemplar_pos(key);
            assert(children[p].wf());
            lemma_exemplar_of_present(children[p], key);
        },
    }
}


/// Two keys stored under one well-formed branch agree below its choice.
pub proof fn lemma_agree_in<V>(t: Tree<V>, k1: Seq<u8>, k2: Seq<u8>)
    requires
        t is Branch,
        t.branch_inv(),
        t.has_key(k1),
        t.has_key(k2),
    ensures
        agree_below(k1, k2, t->choice as int),
{
}

/// Replacing one child of a well-formed branch by a well-formed node whose
/// keys are filed under the same slot, agree with the branch's keys below its
/// choice, and (for a branch) choose a later position, gives a well-formed
/// branch. A key is then stored under it exactly as under the new child when
/// it is filed under that slot, and as under the old branch otherwise.
pub proof fn lemma_replace_child<V>(t: Tree<V>, j: int, n: Tree<V>)
    requires
        t is Branch,
        t.wf(),
        0 <= j < t->children.len(),
        n.wf(),
        forall|k: Seq<u8>| #[trigger] n.has_key(k) ==> t.route(k) == t->slots[j],
        forall|k1: Seq<u8>, k2: Seq<u8>|
            #[trigger] n.has_key(k1) && #[trigger] t.has_key(k2) ==> agree_below(k1, k2, t->choice as int),
        n is Branch ==> n->choice > t->choice,
    ensures
        ({
            let t2 = Tree::Branch {
                choice: t->choice,
                slots: t->slots,
                children: t->children.update(j, n),
            };
            &&& t2.wf()
            &&& forall|k: Seq<u8>|
                #[trigger] t2.has_key(k) <==> (if t.route(k) == t->slots[j] {
                    n.has_key(k)
                } else {
                    t.has_key(k)
                })
            &&& forall|k: Seq<u8>|
                #[trigger] t2.has_key(k) ==> t2.map()[k] == (if t.route(k) == t->slots[j] {
                    n.map()[k]
                } else {
                    t.map()[k]
                })
        }),
{
    let c = t->choice;
    let slots = t->slots;
    let children = t->children;
    let children2 = children.update(j, n);
    let t2 = Tree::Branch { choice: c, slots, children: children2 };
    assert forall|k: Seq<u8>|
        #[trigger] t2.has_key(k) <==> (if t.route(k) == slots[j] {
            n.has_key(k)
        } else {
            t.has_key(k)
        }) by {
        lemma_map_from_dom(children2, 0, k);
        lemma_map_from_dom(children, 0, k);
        if t2.has_key(k) {
            let i = choose|i: int| 0 <= i < children2.len() && #[trigger] children2[i].has_key(k);
            if i != j {
                lemma_child_key(t, i, k);
            }
        }
        if t.route(k) == slots[j] {
            if n.has_key(k) {
                assert(children2[j].has_key(k));
            }
        } else if t.has_key(k) {
            let i = choose|i: int| 0 <= i < children.len() && #[trigger] children[i].has_key(k);
            lemma_child_key(t, i, k);
            assert(children2[i].has_key(k));
        }
    }
    let e = t.exemplar(Seq::empty()).0;
    lemma_exemplar_in(t, Seq::empty());
    assert(t2.branch_inv()) by {
        assert forall|i: int, k: Seq<u8>|
            0 <= i < children2.len() && #[trigger] children2[i].has_key(k) implies nybble_at(c as int, k)
            == slots[i] by {
            if i != j {
                lemma_child_key(t, i, k);
            }
        }
        assert forall|k1: Seq<u8>, k2: Seq<u8>|
            #[trigger] t2.has_key(k1) && #[trigger] t2.has_key(k2) implies agree_below(k1, k2, c as int) by {
            if n.has_key(k1) && n.has_key(k2) && t.route(k1) == slots[j] && t.route(k2) == slots[j] {
                crate::nybble::lemma_agree_below(k1, e, k2, c as int, c as int);
                crate::nybble::lemma_agree_below(k2, e, k1, c as int, c as int);
            } else if n.has_key(k1) && t.route(k1) == slots[j] {
                assert(t.has_key(k2));
            } else if n.has_key(k2) && t.route(k2) == slots[j] {
                assert(t.has_key(k1));
                crate::nybble::lemma_agree_below(k2, k1, k1, c as int, c as int);
            } else {
                assert(t.has_key(k1) && t.has_key(k2));
            }
        }
    }
    assert forall|k: Seq<u8>|
        #[trigger] t2.has_key(k) implies t2.map()[k] == (if t.route(k) == slots[j] {
            n.map()[k]
        } else {
            t.map()[k]
        }) by {
        lemma_route(t2, k);
        lemma_route(t, k);
        crate::sparse::lemma_rank(slots, t.route(k));
    }
}

/// Replacing a child by one that holds one more key inserts that key.
pub proof fn lemma_replace_child_insert<V>(t: Tree<V>, j: int, n: Tree<V>, key: Seq<u8>, v: V)
    requires
        t is Branch,
        t.wf(),
        0 <= j < t->children.len(),
        n.wf(),
        n.map() == t->children[j].map().insert(key, v),
        t.route(key) == t->slots[j],
        forall|k2: Seq<u8>| #[trigger] t.has_key(k2) ==> agree_below(key, k2, t->choice as int),
        n is Branch ==> n->choice > t->choice,
    ensures
        ({
            let t2 = Tree::Branch {
                choice: t->choice,
                slots: t->slots,
                children: t->children.update(j, n),
            };
            &&& t2.wf()
            &&& t2.map() == t.map().insert(key, v)
        }),
{
    let c = t->choice;
    let slots = t->slots;
    let children = t->children;
    let t2 = Tree::Branch { choice: c, slots, children: children.update(j, n) };
    assert forall|k: Seq<u8>| #[trigger] n.has_key(k) implies t.route(k) == slots[j] by {
        if k != key {
            assert(children[j].has_key(k));
            lemma_child_key(t, j, k);
        }
    }
    assert forall|k1: Seq<u8>, k2: Seq<u8>|
        #[trigger] n.has_key(k1) && #[trigger] t.has_key(k2) implies agree_below(k1, k2, c as int) by {
        if k1 != key {
            assert(children[j].has_key(k1));
            lemma_child_key(t, j, k1);
        }
    }
    lemma_replace_child(t, j, n);
    let target = t.map().insert(key, v);
    assert forall|k: Seq<u8>| #[trigger] t2.has_key(k) <==> target.dom().contains(k) by {
        lemma_route(t, k);
        crate::sparse::lemma_rank(slots, t.route(k));
        if children[j].has_key(k) {
            lemma_child_key(t, j, k);
        }
    }
    assert forall|k: Seq<u8>| #[trigger] t2.has_key(k) implies t2.map()[k] == target[k] by {
        lemma_route(t, k);
        crate::sparse::lemma_rank(slots, t.route(k));
        if children[j].has_key(k) {
            lemma_child_key(t, j, k);
        }
    }
    assert(t2.map() =~= target);
}

/// Replacing a child by one that holds one key fewer removes that key.
pub proof fn lemma_replace_child_remove<V>(t: Tree<V>, j: int, n: Tree<V>, key: Seq<u8>)
    requires
        t is Branch,
        t.wf(),
        0 <= j < t->children.len(),
        n.wf(),
        n.map() == t->children[j].map().remove(key),
        t.route(key) == t->slots[j],
        n is Branch ==> n->choice > t->choice,
    ensures
        ({
            let t2 = Tree::Branch {
                choice: t->choice,
                slots: t->slots,
                children: t->children.update(j, n),
            };
            &&& t2.wf()
            &&& t2.map() == t.map().remove(key)
        }),
{
    assert(n.map() =~= t->children[j].map().remove_keys(set![key]));
    lemma_replace_child_remove_keys(t, j, n, set![key]);
    assert(t.map().remove_keys(set![key]) =~= t.map().remove(key));
}

/// Replacing a child by one that holds its keys less a set removes those of
/// the set that are filed under the child's slot.
pub proof fn lemma_replace_child_remove_keys<V>(t: Tree<V>, j: int, n: Tree<V>, gone: Set<Seq<u8>>)
    requires
        t is Branch,
        t.wf(),
        0 <= j < t->children.len(),
        n.wf(),
        n.map() == t->children[j].map().remove_keys(gone),
        n is Branch ==> n->choice > t->choice,
        forall|k: Seq<u8>| #[trigger] gone.contains(k) && t.has_key(k) ==> t.route(k) == t->slots[j],
    ensures
        ({
            let t2 = Tree::Branch {
                choice: t->choice,
                slots: t->slots,
                children: t->children.update(j, n),
            };
            &&& t2.wf()
            &&& t2.map() == t.map().remove_keys(gone)
        }),
{
    let c = t->choice;
    let slots = t->slots;
    let children = t->children;
    let t2 = Tree::Branch { choice: c, slots, children: children.update(j, n) };
    assert forall|k: Seq<u8>| #[trigger] n.has_key(k) implies t.route(k) == slots[j] && t.has_key(k)
        && t.map()[k] == n.map()[k] by {
        assert(children[j].has_key(k));
        lemma_child_key(t, j, k);
    }
    lemma_replace_child(t, j, n);
    let target = t.map().remove_keys(gone);
    assert forall|k: Seq<u8>| #[trigger] t2.has_key(k) <==> target.dom().contains(k) by {
        lemma_route(t, k);
        crate::sparse::lemma_rank(slots, t.route(k));
        if children[j].has_key(k) {
            lemma_child_key(t, j, k);
        }
    }
    assert forall|k: Seq<u8>| #[trigger] t2.has_key(k) implies t2.map()[k] == target[k] by {
        lemma_route(t, k);
        crate::sparse::lemma_rank(slots, t.route(k));
        if children[j].has_key(k) {
            lemma_child_key(t, j, k);
        }
    }
    assert(t2.map() =~= target);
}


/// Filing a new leaf under an empty slot of a well-formed branch, when its key
/// agrees with the branch's keys below its choice, inserts that key.
pub proof fn lemma_insert_leaf<V>(t: Tree<V>, key: Seq<u8>, v: V)
    requires
        t is Branch,
        t.wf(),
        !t->slots.contains(t.route(key)),
        key_len_ok(key),
        forall|k2: Seq<u8>| #[trigger] t.has_key(k2) ==> agree_below(key, k2, t->choice as int),
    ensures
        ({
            let p = rank(t->slots, t.route(key));
            let t2 = Tree::Branch {
                choice: t->choice,
                slots: t->slots.insert(p, t.route(key)),
                children: t->children.insert(p, Tree::Leaf { key, val: v }),
            };
            &&& 0 <= p <= t->children.len()
            &&& t2.wf()
            &&& t2.map() == t.map().insert(key, v)
        }),
{
    let c = t->choice;
    let slots = t->slots;
    let children = t->children;
    let idx = t.route(key);
    crate::sparse::lemma_rank(slots, idx);
    crate::nybble::lemma_nybble_bound(c as int, key);
    crate::sparse::lemma_insert_slot(slots, idx);
    let p = rank(slots, idx);
    let leaf = Tree::Leaf { key, val: v };
    let slots2 = slots.insert(p, idx);
    let children2 = children.insert(p, leaf);
    let t2 = Tree::Branch { choice: c, slots: slots2, children: children2 };
    assert(leaf.has_key(key));
    assert forall|k: Seq<u8>| #[trigger] t2.has_key(k) <==> (k == key || t.has_key(k)) by {
        lemma_map_from_dom(children2, 0, k);
        lemma_map_from_dom(children, 0, k);
        if t2.has_key(k) {
            let i = choose|i: int| 0 <= i < children2.len() && #[trigger] children2[i].has_key(k);
            if i < p {
                assert(children[i].has_key(k));
            } else if i > p {
                assert(children[i - 1].has_key(k));
            }
        }
        if k == key {
            assert(children2[p].has_key(k));
        }
        if t.has_key(k) {
            let i = choose|i: int| 0 <= i < children.len() && #[trigger] children[i].has_key(k);
            if i < p {
                assert(children2[i].has_key(k));
            } else {
                assert(children2[i + 1].has_key(k));
            }
        }
    }
    assert(t2.branch_inv()) by {
        assert forall|i: int, k: Seq<u8>|
            0 <= i < children2.len() && #[trigger] children2[i].has_key(k) implies nybble_at(c as int, k)
            == slots2[i] by {
            if i < p {
                lemma_child_key(t, i, k);
            } else if i > p {
                lemma_child_key(t, i - 1, k);
            }
        }
        assert forall|k1: Seq<u8>, k2: Seq<u8>|
            #[trigger] t2.has_key(k1) && #[trigger] t2.has_key(k2) implies agree_below(k1, k2, c as int) by {
            if k1 == key && k2 != key {
                assert(t.has_key(k2));
            } else if k2 == key && k1 != key {
                assert(t.has_key(k1));
                crate::nybble::lemma_agree_below(key, k1, k1, c as int, c as int);
            } else if k1 != key && k2 != key {
                assert(t.has_key(k1) && t.has_key(k2));
            }
        }
    }
    assert forall|i: int| 0 <= i < children2.len() implies (#[trigger] children2[i]).wf() by {
        if i < p {
            assert(children[i].wf());
        } else if i > p {
            assert(children[i - 1].wf());
        }
    }
    let target = t.map().insert(key, v);
    assert forall|k: Seq<u8>| #[trigger] t2.has_key(k) implies t2.map()[k] == target[k] by {
        if k == key {
            lemma_child_key(t2, p, k);
        } else {
            lemma_map_from_dom(children, 0, k);
            let i = choose|i: int| 0 <= i < children.len() && #[trigger] children[i].has_key(k);
            lemma_child_key(t, i, k);
            if i < p {
                lemma_child_key(t2, i, k);
            } else {
                lemma_child_key(t2, i + 1, k);
            }
        }
    }
    assert(t2.map() =~= target);
}

/// Grafting: a new branch at position `m` over a well-formed node, whose keys
/// all have nybble index `nn` at `m` and agree with `key` below `m`, and a new
/// leaf for `key`, whose index at `m` differs, holds the node's keys and `key`.
pub proof fn lemma_graft<V>(n: Tree<V>, m: nat, nn: u8, key: Seq<u8>, v: V, t2: Tree<V>)
    requires
        n.wf(),
        key_len_ok(key),
        forall|k: Seq<u8>| #[trigger] n.has_key(k) ==> nybble_at(m as int, k) == nn,
        nybble_at(m as int, key) != nn,
        forall|k: Seq<u8>| #[trigger] n.has_key(k) ==> agree_below(key, k, m as int),
        n is Branch ==> n->choice > m,
        t2 == (if nn < nybble_at(m as int, key) {
            Tree::Branch {
                choice: m,
                slots: seq![nn, nybble_at(m as int, key)],
                children: seq![n, Tree::Leaf { key, val: v }],
            }
        } else {
            Tree::Branch {
                choice: m,
                slots: seq![nybble_at(m as int, key), nn],
                children: seq![Tree::Leaf { key, val: v }, n],
            }
        }),
    ensures
        t2.wf(),
        t2.map() == n.map().insert(key, v),
{
    let nk = nybble_at(m as int, key);
    let leaf = Tree::Leaf { key, val: v };
    let children2 = t2->children;
    lemma_exemplar_in(n, key);
    let e = n.exemplar(key).0;
    crate::nybble::lemma_nybble_bound(m as int, e);
    crate::nybble::lemma_nybble_bound(m as int, key);
    assert(leaf.has_key(key));
    assert forall|k: Seq<u8>| #[trigger] t2.has_key(k) <==> (k == key || n.has_key(k)) by {
        lemma_map_from_dom(children2, 0, k);
        if k == key {
            if nn < nk {
                assert(children2[1].has_key(k));
            } else {
                assert(children2[0].has_key(k));
            }
        }
        if n.has_key(k) {
            if nn < nk {
                assert(children2[0].has_key(k));
            } else {
                assert(children2[1].has_key(k));
            }
        }
    }
    assert(t2.branch_inv()) by {
        assert(slots_wf(t2->slots));
        assert forall|i: int, k: Seq<u8>|
            0 <= i < children2.len() && #[trigger] children2[i].has_key(k) implies nybble_at(m as int, k)
            == t2->slots[i] by {
        }
        assert forall|i: int| 0 <= i < children2.len() && (#[trigger] children2[i]) is Branch implies children2[i]->choice
            > m by {
        }
        assert forall|k1: Seq<u8>, k2: Seq<u8>|
            #[trigger] t2.has_key(k1) && #[trigger] t2.has_key(k2) implies agree_below(k1, k2, m as int) by {
            if k1 == key && k2 != key {
            } else if k2 == key && k1 != key {
                crate::nybble::lemma_agree_below(key, k1, k1, m as int, m as int);
            } else if k1 != key && k2 != key {
                match n {
                    Tree::Leaf { .. } => {},
                    Tree::Branch { choice, .. } => {
                        lemma_agree_in(n, k1, k2);
                        crate::nybble::lemma_agree_below(k1, k2, k2, choice as int, m as int);
                    },
                }
            }
        }
    }
    assert forall|i: int| 0 <= i < children2.len() implies (#[trigger] children2[i]).wf() by {
    }
    assert forall|k: Seq<u8>| #[trigger] t2.has_key(k) implies t2.map()[k] == n.map().insert(key, v)[k] by {
        if nn < nk {
            if k == key {
                lemma_child_key(t2, 1, k);
            } else {
                lemma_child_key(t2, 0, k);
            }
        } else {
            if k == key {
                lemma_child_key(t2, 0, k);
            } else {
                lemma_child_key(t2, 1, k);
            }
        }
    }
    assert(t2.map() =~= n.map().insert(key, v));
}

/// Taking one child out of a well-formed branch keeps the branch-local
/// invariant and removes exactly that child's keys.
pub proof fn lemma_remove_child<V>(t: Tree<V>, j: int)
    requires
        t is Branch,
        t.wf(),
        0 <= j < t->children.len(),
    ensures
        ({
            let t2 = Tree::Branch {
                choice: t->choice,
                slots: t->slots.remove(j),
                children: t->children.remove(j),
            };
            &&& t2.branch_inv()
            &&& forall|i: int| 0 <= i < t2->children.len() ==> (#[trigger] t2->children[i]).wf()
            &&& t2->children.len() == t->children.len() - 1
            &&& t2.map() == t.map().remove_keys(t->children[j].map().dom())
            &&& t2->children.len() >= 2 ==> t2.wf()
        }),
{
    let c = t->choice;
    let slots = t->slots;
    let children = t->children;
    let slots2 = slots.remove(j);
    let children2 = children.remove(j);
    let t2 = Tree::Branch { choice: c, slots: slots2, children: children2 };
    crate::sparse::lemma_remove_slot(slots, j);
    assert forall|k: Seq<u8>| #[trigger] t2.has_key(k) <==> (t.has_key(k) && !children[j].has_key(k)) by {
        lemma_map_from_dom(children2, 0, k);
        lemma_map_from_dom(children, 0, k);
        if t2.has_key(k) {
            let i = choose|i: int| 0 <= i < children2.len() && #[trigger] children2[i].has_key(k);
            let i0 = if i < j { i } else { i + 1 };
            assert(children[i0].has_key(k));
            lemma_child_key(t, i0, k);
            if children[j].has_key(k) {
                lemma_child_key(t, j, k);
            }
        }
        if t.has_key(k) && !children[j].has_key(k) {
            let i = choose|i: int| 0 <= i < children.len() && #[trigger] children[i].has_key(k);
            if i < j {
                assert(children2[i].has_key(k));
            } else {
                assert(children2[i - 1].has_key(k));
            }
        }
    }
    assert(t2.branch_inv()) by {
        assert forall|i: int, k: Seq<u8>|
            0 <= i < children2.len() && #[trigger] children2[i].has_key(k) implies nybble_at(c as int, k)
            == slots2[i] by {
            if i < j {
                lemma_child_key(t, i, k);
            } else {
                lemma_child_key(t, i + 1, k);
            }
        }
        assert forall|k1: Seq<u8>, k2: Seq<u8>|
            #[trigger] t2.has_key(k1) && #[trigger] t2.has_key(k2) implies agree_below(k1, k2, c as int) by {
            assert(t.has_key(k1) && t.has_key(k2));
        }
        assert forall|i: int| 0 <= i < children2.len() && (#[trigger] children2[i]) is Branch implies children2[i]->choice
            > c by {
            if i >= j {
                assert(children2[i] == children[i + 1]);
            }
        }
    }
    assert forall|i: int| 0 <= i < children2.len() implies (#[trigger] children2[i]).wf() by {
        if i >= j {
            assert(children2[i] == children[i + 1]);
        }
    }
    let target = t.map().remove_keys(children[j].map().dom());
    assert forall|k: Seq<u8>| #[trigger] t2.has_key(k) implies t2.map()[k] == target[k] by {
        lemma_map_from_dom(children2, 0, k);
        let i = choose|i: int| 0 <= i < children2.len() && #[trigger] children2[i].has_key(k);
        let i0 = if i < j { i } else { i + 1 };
        assert(children[i0] == children2[i]);
        lemma_child_key(t2, i, k);
        lemma_child_key(t, i0, k);
    }
    assert(t2.map() =~= target);
}

/// A branch with a single child stores what that child stores.
pub proof fn lemma_single_child<V>(t: Tree<V>)
    requires
        t is Branch,
        t->children.len() == 1,
    ensures
        t.map() == t->children[0].map(),
{
    assert(Tree::map_from(t->children, 1) =~= Map::<Seq<u8>, V>::empty());
    assert(t.map() =~= t->children[0].map());
}

/// The keys that begin with `p`.
pub open spec fn prefix_set(p: Seq<u8>) -> Set<Seq<u8>> {
    Set::new(|k: Seq<u8>| p.is_prefix_of(k))
}

impl<V> Tree<V> {
    /// Some key stored under this node begins with `p`.
    pub open spec fn has_prefix(self, p: Seq<u8>) -> bool {
        exists|k: Seq<u8>| #[trigger] self.has_key(k) && p.is_prefix_of(k)
    }

    /// The entries stored under this node whose keys begin with `p`.
    pub open spec fn prefix_map(self, p: Seq<u8>) -> Map<Seq<u8>, V> {
        self.map().restrict(prefix_set(p))
    }
}

/// In a branch whose choice is at or past the end of `p`, keys agree on all of
/// `p`: if one begins with `p`, all do.
pub proof fn lemma_prefix_whole<V>(t: Tree<V>, p: Seq<u8>)
    requires
        t.wf(),
        t.has_prefix(p),
        t is Leaf || t->choice >= 2 * p.len(),
    ensures
        forall|k: Seq<u8>| #[trigger] t.has_key(k) ==> p.is_prefix_of(k),
        t.prefix_map(p) == t.map(),
{
    let k0 = choose|k: Seq<u8>| #[trigger] t.has_key(k) && p.is_prefix_of(k);
    crate::nybble::lemma_prefix_iff_agree(p, k0);
    assert forall|k: Seq<u8>| #[trigger] t.has_key(k) implies p.is_prefix_of(k) by {
        match t {
            Tree::Leaf { .. } => {},
            Tree::Branch { choice, .. } => {
                lemma_agree_in(t, k0, k);
                crate::nybble::lemma_agree_below(k0, k, k, choice as int, 2 * p.len() as int);
                crate::nybble::lemma_agree_below(p, k0, k, 2 * p.len() as int, 2 * p.len() as int);
                crate::nybble::lemma_prefix_iff_agree(p, k);
            },
        }
    }
    assert(t.prefix_map(p) =~= t.map());
}

/// A key beginning with `p` has, at every position before the end of `p`, the
/// nybble index that `p` has there.
pub proof fn lemma_prefix_nybble(p: Seq<u8>, k: Seq<u8>, n: int)
    requires
        p.is_prefix_of(k),
        0 <= n < 2 * p.len(),
    ensures
        nybble_at(n, k) == nybble_at(n, p),
{
    crate::nybble::lemma_prefix_iff_agree(p, k);
}

/// In a branch whose choice lies inside `p`, the keys beginning with `p` are
/// exactly those of the child in `p`'s slot, which is occupied when some key
/// begins with `p`.
pub proof fn lemma_prefix_descend<V>(t: Tree<V>, p: Seq<u8>)
    requires
        t is Branch,
        t.wf(),
        t->choice < 2 * p.len(),
    ensures
        forall|k: Seq<u8>| p.is_prefix_of(k) ==> #[trigger] t.route(k) == t.route(p),
        t.has_prefix(p) ==> t->slots.contains(t.route(p)),
        t->slots.contains(t.route(p)) ==> ({
            let j = rank(t->slots, t.route(p));
            let child = t->children[j];
            &&& 0 <= j < t->children.len()
            &&& t->slots[j] == t.route(p)
            &&& t.has_prefix(p) == child.has_prefix(p)
            &&& t.prefix_map(p) == child.prefix_map(p)
            &&& forall|k: Seq<u8>| #[trigger] child.has_key(k) ==> t.route(k) == t.route(p)
        }),
{
    let c = t->choice;
    let slots = t->slots;
    let children = t->children;
    let idx = t.route(p);
    assert forall|k: Seq<u8>| p.is_prefix_of(k) implies #[trigger] t.route(k) == idx by {
        lemma_prefix_nybble(p, k, c as int);
    }
    crate::sparse::lemma_rank(slots, idx);
    if t.has_prefix(p) {
        let k0 = choose|k: Seq<u8>| #[trigger] t.has_key(k) && p.is_prefix_of(k);
        lemma_route(t, k0);
    }
    if slots.contains(idx) {
        let j = rank(slots, idx);
        let child = children[j];
        assert forall|k: Seq<u8>| #[trigger] child.has_key(k) implies t.route(k) == idx by {
            lemma_child_key(t, j, k);
        }
        assert forall|k: Seq<u8>| p.is_prefix_of(k) implies (#[trigger] t.has_key(k) <==> child.has_key(k)) && (
        t.has_key(k) ==> t.map()[k] == child.map()[k]) by {
            lemma_route(t, k);
        }
        if child.has_prefix(p) {
            let k0 = choose|k: Seq<u8>| #[trigger] child.has_key(k) && p.is_prefix_of(k);
            assert(t.has_key(k0));
        }
        assert(t.prefix_map(p) =~= child.prefix_map(p));
    }
}

/// When some stored key begins with `p`, so does the leaf a search for `p`
/// ends on.
pub proof fn lemma_exemplar_prefix<V>(t: Tree<V>, p: Seq<u8>)
    requires
        t.wf(),
        t.has_prefix(p),
    ensures
        p.is_prefix_of(t.exemplar(p).0),
    decreases t,
{
    lemma_exemplar_in(t, p);
    match t {
        Tree::Leaf { .. } => {
            lemma_prefix_whole(t, p);
        },
        Tree::Branch { choice, slots, children } => {
            if choice >= 2 * p.len() {
                lemma_prefix_whole(t, p);
            } else {
                lemma_prefix_descend(t, p);
                let j = rank(slots, t.route(p));
                assert(children[j].wf());
                lemma_exemplar_prefix(children[j], p);
            }
        },
    }
}


/// In a well-formed branch, the children from `i` on hold disjoint key sets,
/// so the number of keys from `i` on is child `i`'s plus those after it.
pub proof fn lemma_map_from_len<V>(t: Tree<V>, i: int)
    requires
        t is Branch,
        t.wf(),
        0 <= i < t->children.len(),
    ensures
        Tree::map_from(t->children, i).dom().len() == t->children[i].map().dom().len()
            + Tree::map_from(t->children, i + 1).dom().len(),
{
    let children = t->children;
    let a = children[i].map().dom();
    let b = Tree::map_from(children, i + 1).dom();
    lemma_map_finite(children[i]);
    lemma_map_from_finite(children, i + 1);
    assert(a.disjoint(b)) by {
        assert forall|k: Seq<u8>| a.contains(k) implies !b.contains(k) by {
            lemma_map_from_dom(children, i + 1, k);
            if b.contains(k) {
                let j = choose|j: int| i + 1 <= j < children.len() && #[trigger] children[j].has_key(k);
                lemma_child_key(t, i, k);
                lemma_child_key(t, j, k);
            }
        }
    }
    vstd::set_lib::lemma_set_disjoint_lens(a, b);
    assert(Tree::map_from(children, i).dom() =~= a + b);
}


impl<V> Tree<V> {
    /// The entries stored under this node in the order a traversal visits
    /// them: children in slot order, each child's entries before the next's.
    pub open spec fn entries(self) -> Seq<(Seq<u8>, V)>
        decreases self, 0nat,
    {
        match self {
            Tree::Leaf { key, val } => seq![(key, val)],
            Tree::Branch { children, .. } => Self::entries_from(children, 0),
        }
    }

    /// The entries of `s[i..]`, in order.
    pub open spec fn entries_from(s: Seq<Tree<V>>, i: int) -> Seq<(Seq<u8>, V)>
        decreases s, s.len() - i,
    {
        if 0 <= i < s.len() {
            s[i].entries() + Self::entries_from(s, i + 1)
        } else {
            Seq::empty()
        }
    }
}

/// The traversal of a well-formed node lists each stored key exactly once,
/// with its value.
pub proof fn lemma_entries<V>(t: Tree<V>)
    requires
        t.wf(),
    ensures
        forall|i: int, j: int|
            0 <= i < j < t.entries().len() ==> t.entries()[i].0 != t.entries()[j].0,
        forall|k: Seq<u8>|
            #[trigger] t.has_key(k) <==> exists|i: int| 0 <= i < t.entries().len() && t.entries()[i].0 == k,
        forall|i: int|
            0 <= i < t.entries().len() ==> t.has_key(#[trigger] t.entries()[i].0) && t.map()[t.entries()[i].0]
                == t.entries()[i].1,
    decreases t, 1nat,
{
    match t {
        Tree::Leaf { key, val } => {
            assert(t.entries() =~= seq![(key, val)]);
            assert(t.entries().len() == 1);
            assert forall|k: Seq<u8>| #[trigger] t.has_key(k) <==> exists|i: int|
                0 <= i < t.entries().len() && t.entries()[i].0 == k by {
                if t.has_key(k) {
                    assert(t.entries()[0].0 == k);
                }
            }
        },
        Tree::Branch { children, .. } => {
            lemma_entries_from(t, 0);
            assert(t.entries() == Tree::entries_from(children, 0));
            assert(t.map() == Tree::map_from(children, 0));
        },
    }
}

/// The traversal of the children of a well-formed branch from `i` on lists
/// each key they hold exactly once, with its value.
pub proof fn lemma_entries_from<V>(t: Tree<V>, i: int)
    requires
        t is Branch,
        t.wf(),
        0 <= i,
    ensures
        ({
            let es = Tree::entries_from(t->children, i);
            let m = Tree::map_from(t->children, i);
            &&& forall|a: int, b: int| 0 <= a < b < es.len() ==> es[a].0 != es[b].0
            &&& forall|k: Seq<u8>|
                #[trigger] m.dom().contains(k) <==> exists|a: int| 0 <= a < es.len() && es[a].0 == k
            &&& forall|a: int| 0 <= a < es.len() ==> m.dom().contains(#[trigger] es[a].0) && m[es[a].0] == es[a].1
        }),
    decreases t, 0nat, t->children.len() - i,
{
    let children = t->children;
    let es = Tree::entries_from(children, i);
    let m = Tree::map_from(children, i);
    if i < children.len() {
        let c = children[i];
        assert(c.wf());
        lemma_entries(c);
        lemma_entries_from(t, i + 1);
        let ce = c.entries();
        let rest = Tree::entries_from(children, i + 1);
        let mr = Tree::map_from(children, i + 1);
        assert(es == ce + rest);
        // the child's keys and the later children's keys are disjoint
        assert forall|k: Seq<u8>| c.has_key(k) implies !mr.dom().contains(k) by {
            lemma_map_from_dom(children, i + 1, k);
            if mr.dom().contains(k) {
                let j = choose|j: int| i + 1 <= j < children.len() && #[trigger] children[j].has_key(k);
                lemma_child_key(t, i, k);
                lemma_child_key(t, j, k);
            }
        }
        assert forall|a: int, b: int| 0 <= a < b < es.len() implies es[a].0 != es[b].0 by {
            if a < ce.len() && b >= ce.len() {
                assert(es[a] == ce[a]);
                assert(es[b] == rest[b - ce.len()]);
                assert(c.has_key(ce[a].0));
                assert(mr.dom().contains(rest[b - ce.len()].0));
            } else if a >= ce.len() {
                assert(es[a] == rest[a - ce.len()]);
                assert(es[b] == rest[b - ce.len()]);
            } else {
                assert(es[a] == ce[a]);
                assert(es[b] == ce[b]);
            }
        }
        assert forall|k: Seq<u8>|
            #[trigger] m.dom().contains(k) <==> exists|a: int| 0 <= a < es.len() && es[a].0 == k by {
            if m.dom().contains(k) {
                if c.has_key(k) {
                    let a = choose|a: int| 0 <= a < ce.len() && ce[a].0 == k;
                    assert(es[a] == ce[a]);
                } else {
                    let a = choose|a: int| 0 <= a < rest.len() && rest[a].0 == k;
                    assert(es[a + ce.len()] == rest[a]);
                }
            }
            if exists|a: int| 0 <= a < es.len() && es[a].0 == k {
                let a = choose|a: int| 0 <= a < es.len() && es[a].0 == k;
                if a < ce.len() {
                    assert(es[a] == ce[a]);
                } else {
                    assert(es[a] == rest[a - ce.len()]);
                }
            }
        }
        assert forall|a: int| 0 <= a < es.len() implies m.dom().contains(#[trigger] es[a].0) && m[es[a].0]
            == es[a].1 by {
            if a < ce.len() {
                assert(es[a] == ce[a]);
                assert(c.has_key(ce[a].0));
            } else {
                assert(es[a] == rest[a - ce.len()]);
                assert(mr.dom().contains(rest[a - ce.len()].0));
            }
        }
    } else {
        assert(es =~= Seq::<(Seq<u8>, V)>::empty());
        assert(m =~= Map::<Seq<u8>, V>::empty());
    }
}


impl<V> Tree<V> {
    /// Equality of nodes by shape and keys, values left out: two leaves with
    /// the same key, or two branches with the same choice and slots whose
    /// children are pairwise equal in this sense.
    pub open spec fn key_eq(self, other: Tree<V>) -> bool
        decreases self,
    {
        match self {
            Tree::Leaf { key, .. } => other is Leaf && other->key == key,
            Tree::Branch { choice, slots, children } => {
                &&& other is Branch
                &&& other->choice == choice
                &&& other->slots == slots
                &&& other->children.len() == children.len()
                &&& forall|i: int|
                    0 <= i < children.len() ==> (#[trigger] children[i]).key_eq(other->children[i])
            },
        }
    }
}


impl<V: Clone> Tree<V> {
    /// `other` is a copy of this node: the same shape and keys, each value a
    /// clone of the one it replaces.
    pub open spec fn clone_of(self, other: Tree<V>) -> bool
        decreases self,
    {
        match self {
            Tree::Leaf { key, val } => other is Leaf && other->key == key && cloned(val, other->val),
            Tree::Branch { choice, slots, children } => {
                &&& other is Branch
                &&& other->choice == choice
                &&& other->slots == slots
                &&& other->children.len() == children.len()
                &&& forall|i: int|
                    0 <= i < children.len() ==> (#[trigger] children[i]).clone_of(other->children[i])
            },
        }
    }
}


impl<V> Tree<V> {
    /// The number of nodes in this subtree.
    pub open spec fn size(self) -> nat
        decreases self, 0nat,
    {
        match self {
            Tree::Leaf { .. } => 1,
            Tree::Branch { children, .. } => 1 + Self::size_from(children, 0),
        }
    }

    /// The number of nodes in the subtrees `s[i..]`.
    pub open spec fn size_from(s: Seq<Tree<V>>, i: int) -> nat
        decreases s, s.len() - i,
    {
        if 0 <= i < s.len() {
            s[i].size() + Self::size_from(s, i + 1)
        } else {
            0
        }
    }
}

/// Traversals and sizes of `s[i..]` are those of the subsequence starting at
/// `i`.
pub proof fn lemma_from_shift<V>(s: Seq<Tree<V>>, i: int)
    requires
        0 <= i <= s.len(),
    ensures
        Tree::entries_from(s, i) == Tree::entries_from(s.subrange(i, s.len() as int), 0),
        Tree::size_from(s, i) == Tree::size_from(s.subrange(i, s.len() as int), 0),
    decreases s.len() - i,
{
    let t = s.subrange(i, s.len() as int);
    assert forall|j: int| 0 <= j <= t.len() implies Tree::entries_from(s, i + j) == Tree::entries_from(t, j)
        && Tree::size_from(s, i + j) == Tree::size_from(t, j) by {
        lemma_from_shift_aux(s, i, t, j);
    }
    assert(Tree::entries_from(s, i + 0) == Tree::entries_from(t, 0));
    assert(Tree::size_from(s, i + 0) == Tree::size_from(t, 0));
}

proof fn lemma_from_shift_aux<V>(s: Seq<Tree<V>>, i: int, t: Seq<Tree<V>>, j: int)
    requires
        0 <= i <= s.len(),
        t == s.subrange(i, s.len() as int),
        0 <= j <= t.len(),
    ensures
        Tree::entries_from(s, i + j) == Tree::entries_from(t, j),
        Tree::size_from(s, i + j) == Tree::size_from(t, j),
    decreases t.len() - j,
{
    if j < t.len() {
        lemma_from_shift_aux(s, i, t, j + 1);
        assert(t[j] == s[i + j]);
    } else {
        assert(Tree::entries_from(s, i + j) =~= Tree::entries_from(t, j));
    }
}

/// Taking one child out of a list of children takes its entries out of the
/// list's traversal.
pub proof fn lemma_entries_remove_len<V>(s: Seq<Tree<V>>, p: int)
    requires
        0 <= p < s.len(),
    ensures
        Tree::entries_from(s.remove(p), 0).len() + s[p].entries().len() == Tree::entries_from(s, 0).len(),
{
    lemma_entries_remove_len_from(s, p, 0);
}

proof fn lemma_entries_remove_len_from<V>(s: Seq<Tree<V>>, p: int, i: int)
    requires
        0 <= i <= p < s.len(),
    ensures
        Tree::entries_from(s.remove(p), i).len() + s[p].entries().len() == Tree::entries_from(s, i).len(),
    decreases p - i,
{
    let s2 = s.remove(p);
    if i < p {
        lemma_entries_remove_len_from(s, p, i + 1);
        assert(s2[i] == s[i]);
    } else {
        lemma_from_shift(s2, p);
        lemma_from_shift(s, p + 1);
        assert(s2.subrange(p, s2.len() as int) =~= s.subrange(p + 1, s.len() as int));
    }
}

/// Every node counts at least itself.
pub proof fn lemma_size_positive<V>(t: Tree<V>)
    ensures
        t.size() >= 1,
{
}


/// A well-formed node stores as many keys as its traversal has entries.
pub proof fn lemma_entries_len<V>(t: Tree<V>)
    requires
        t.wf(),
    ensures
        t.entries().len() == t.map().dom().len(),
{
    lemma_entries(t);
    let es = t.entries();
    let ks = es.map_values(|e: (Seq<u8>, V)| e.0);
    assert(ks.no_duplicates()) by {
        assert forall|i: int, j: int| 0 <= i < ks.len() && 0 <= j < ks.len() && i != j implies ks[i] != ks[j] by {
            if i < j {
                assert(es[i].0 != es[j].0);
            } else {
                assert(es[j].0 != es[i].0);
            }
        }
    }
    ks.unique_seq_to_set();
    assert forall|k: Seq<u8>| ks.to_set().contains(k) <==> t.map().dom().contains(k) by {
        if t.map().dom().contains(k) {
            let i = choose|i: int| 0 <= i < es.len() && es[i].0 == k;
            assert(ks[i] == k);
        }
        if ks.to_set().contains(k) {
            let i = choose|i: int| 0 <= i < ks.len() && ks[i] == k;
            assert(es[i].0 == k);
        }
    }
    assert(ks.to_set() =~= t.map().dom());
}


/// Two well-formed slot lists holding the same slots are equal.
pub proof fn lemma_slots_determined(a: Seq<u8>, b: Seq<u8>)
    requires
        slots_wf(a),
        slots_wf(b),
        forall|x: u8| a.contains(x) <==> b.contains(x),
    ensures
        a == b,
    decreases a.len(),
{
    if a.len() == 0 {
        if b.len() > 0 {
            assert(b.contains(b[0]));
        }
        assert(a =~= b);
    } else {
        assert(a.contains(a[0]));
        let j = choose|j: int| 0 <= j < b.len() && b[j] == a[0];
        assert(b.contains(b[0]));
        let i = choose|i: int| 0 <= i < a.len() && a[i] == b[0];
        if j > 0 {
            assert(b[0] < b[j]);
            if i > 0 {
                assert(a[0] < a[i]);
            }
        }
        assert(j == 0);
        let a1 = a.drop_first();
        let b1 = b.drop_first();
        assert forall|x: u8| a1.contains(x) <==> b1.contains(x) by {
            if a1.contains(x) {
                let k = choose|k: int| 0 <= k < a1.len() && a1[k] == x;
                assert(a[k + 1] == x && a[0] < a[k + 1]);
                assert(a.contains(x));
                let l = choose|l: int| 0 <= l < b.len() && b[l] == x;
                assert(l != 0);
                assert(b1[l - 1] == x);
            }
            if b1.contains(x) {
                let k = choose|k: int| 0 <= k < b1.len() && b1[k] == x;
                assert(b[k + 1] == x && b[0] < b[k + 1]);
                assert(b.contains(x));
                let l = choose|l: int| 0 <= l < a.len() && a[l] == x;
                assert(l != 0);
                assert(a1[l - 1] == x);
            }
        }
        lemma_slots_determined(a1, b1);
        assert forall|k: int| 0 <= k < a.len() implies a[k] == b[k] by {
            if k > 0 {
                assert(a[k] == a1[k - 1] && b[k] == b1[k - 1]);
            }
        }
        assert(a =~= b);
    }
}

/// A well-formed branch stores two keys filed under different slots.
pub proof fn lemma_two_keys<V>(t: Tree<V>)
    requires
        t is Branch,
        t.wf(),
    ensures
        t.has_key(t->children[0].exemplar(Seq::empty()).0),
        t.has_key(t->children[1].exemplar(Seq::empty()).0),
        t.route(t->children[0].exemplar(Seq::empty()).0) != t.route(t->children[1].exemplar(Seq::empty()).0),
{
    let k1 = t->children[0].exemplar(Seq::empty()).0;
    let k2 = t->children[1].exemplar(Seq::empty()).0;
    assert(t->children[0].wf());
    assert(t->children[1].wf());
    lemma_exemplar_in(t->children[0], Seq::empty());
    lemma_exemplar_in(t->children[1], Seq::empty());
    lemma_child_key(t, 0, k1);
    lemma_child_key(t, 1, k2);
}

/// A well-formed node is determined by the map it stores: two well-formed
/// nodes storing the same map are the same node.
pub proof fn lemma_wf_determined_by_map<V>(a: Tree<V>, b: Tree<V>)
    requires
        a.wf(),
        b.wf(),
        a.map() == b.map(),
    ensures
        a == b,
    decreases a,
{
    match a {
        Tree::Leaf { key: ka, val: va } => {
            assert(a.has_key(ka));
            match b {
                Tree::Leaf { key: kb, val: vb } => {
                    assert(b.has_key(ka));
                    assert(a.map()[ka] == va);
                    assert(b.map()[kb] == vb);
                },
                Tree::Branch { .. } => {
                    lemma_two_keys(b);
                    let k1 = b->children[0].exemplar(Seq::empty()).0;
                    let k2 = b->children[1].exemplar(Seq::empty()).0;
                    assert(a.has_key(k1) && a.has_key(k2));
                },
            }
        },
        Tree::Branch { choice: ca, slots: sa, children: cha } => {
            if b is Leaf {
                let kb = b->key;
                assert(b.has_key(kb));
                let k1 = cha[0].exemplar(Seq::empty()).0;
                let k2 = cha[1].exemplar(Seq::empty()).0;
                lemma_two_keys(a);
                assert(b.has_key(k1) && b.has_key(k2));
            } else {
                let cb = b->choice;
                let sb = b->slots;
                let chb = b->children;
                // the choices agree: each is the first position where the keys differ
                lemma_two_keys(a);
                lemma_two_keys(b);
                if ca < cb {
                    let k1 = cha[0].exemplar(Seq::empty()).0;
                    let k2 = cha[1].exemplar(Seq::empty()).0;
                    assert(b.has_key(k1) && b.has_key(k2));
                    lemma_agree_in(b, k1, k2);
                    assert(nybble_at(ca as int, k1) == nybble_at(ca as int, k2));
                }
                if cb < ca {
                    let k1 = chb[0].exemplar(Seq::empty()).0;
                    let k2 = chb[1].exemplar(Seq::empty()).0;
                    assert(a.has_key(k1) && a.has_key(k2));
                    lemma_agree_in(a, k1, k2);
                    assert(nybble_at(cb as int, k1) == nybble_at(cb as int, k2));
                }
                assert(ca == cb);
                // the occupied slots agree: those that stored keys are filed under
                assert forall|x: u8| sa.contains(x) <==> sb.contains(x) by {
                    if sa.contains(x) {
                        let i = choose|i: int| 0 <= i < sa.len() && sa[i] == x;
                        assert(cha[i].wf());
                        lemma_exemplar_in(cha[i], Seq::empty());
                        let k = cha[i].exemplar(Seq::empty()).0;
                        lemma_child_key(a, i, k);
                        assert(b.has_key(k));
                        lemma_route(b, k);
                    }
                    if sb.contains(x) {
                        let i = choose|i: int| 0 <= i < sb.len() && sb[i] == x;
                        assert(chb[i].wf());
                        lemma_exemplar_in(chb[i], Seq::empty());
                        let k = chb[i].exemplar(Seq::empty()).0;
                        lemma_child_key(b, i, k);
                        assert(a.has_key(k));
                        lemma_route(a, k);
                    }
                }
                lemma_slots_determined(sa, sb);
                // each child stores the keys of the map filed under its slot
                assert forall|i: int| 0 <= i < cha.len() implies #[trigger] cha[i] == chb[i] by {
                    assert(cha[i].wf());
                    assert(chb[i].wf());
                    crate::sparse::lemma_rank(sa, sa[i]);
                    assert forall|k: Seq<u8>| #[trigger] cha[i].has_key(k) <==> chb[i].has_key(k) by {
                        lemma_route(a, k);
                        lemma_route(b, k);
                        if cha[i].has_key(k) {
                            lemma_child_key(a, i, k);
                        }
                        if chb[i].has_key(k) {
                            lemma_child_key(b, i, k);
                        }
                    }
                    assert forall|k: Seq<u8>| #[trigger] cha[i].has_key(k) implies cha[i].map()[k] == chb[i].map()[k] by {
                        lemma_child_key(a, i, k);
                        lemma_child_key(b, i, k);
                    }
                    assert(cha[i].map() =~= chb[i].map());
                    lemma_wf_determined_by_map(cha[i], chb[i]);
                }
                assert(cha =~= chb);
            }
        },
    }
}

} // verus!
