//! The nodes of a QP-trie: leaves holding a key and its value, and branches
//! that file up to seventeen children under one nybble of their keys.

use vstd::prelude::*;
use crate::nybble::{
    agree_below, bytes_eq, is_first_mismatch, key_len_ok, nybble_at, nybble_index, nybble_mismatch,
    starts_with, NYBBLE_SLOTS,
};
use crate::sparse::{rank, Sparse};
use crate::tree::{
    lemma_child_key, lemma_exemplar_in, lemma_exemplar_of_present, lemma_exemplar_prefix,
    lemma_from_shift, lemma_graft, lemma_insert_leaf, lemma_map_from_len, lemma_prefix_descend,
    lemma_prefix_whole, lemma_remove_child, lemma_replace_child, lemma_replace_child_insert,
    lemma_replace_child_remove, lemma_replace_child_remove_keys, lemma_route, lemma_single_child,
    lemma_size_positive, prefix_set, Tree,
};
use vstd::std_specs::iter::IteratorSpec;

verus! {

/// A leaf in the trie: one key and its value.
pub struct Leaf<V> {
    pub key: Vec<u8>,
    pub val: V,
}

impl<V> Leaf<V> {
    /// The leaf as a trie node value.
    pub open spec fn view(&self) -> Tree<V> {
        Tree::Leaf { key: self.key@, val: self.val }
    }

    /// A leaf holding `key` and `val`.
    pub fn new(key: Vec<u8>, val: V) -> (r: Leaf<V>)
        ensures
            r.key@ == key@,
            r.val == val,
    {
        Leaf { key, val }
    }

    /// The leaf's key as a byte slice.
    pub fn key_slice(&self) -> (r: &[u8])
        ensures
            r@ == self.key@,
    {
        self.key.as_slice()
    }
}

/// A branch node. It files its children under the nybble index of their keys
/// at position `choice`; slot zero holds the key that ends before `choice`.
pub struct Branch<V> {
    pub choice: usize,
    pub entries: Sparse<Node<V>>,
}

/// A node in the trie.
pub enum Node<V> {
    Leaf(Leaf<V>),
    Branch(Branch<V>),
}

impl<V> Branch<V> {
    /// The branch as a trie node value.
    pub open spec fn view(&self) -> Tree<V>
        decreases self,
    {
        Tree::Branch {
            choice: self.choice as nat,
            slots: self.entries.keys@,
            children: Seq::new(
                self.entries.entries@.len(),
                |i: int|
                    if 0 <= i < self.entries.entries@.len() {
                        self.entries.entries@[i].view()
                    } else {
                        arbitrary()
                    },
            ),
        }
    }
}

impl<V> Node<V> {
    /// The node as a trie node value.
    pub open spec fn view(&self) -> Tree<V>
        decreases self,
    {
        match self {
            Node::Leaf(l) => l.view(),
            Node::Branch(b) => b.view(),
        }
    }
}

impl<V> Branch<V> {
    /// The children, in slot order.
    pub open spec fn children(&self) -> Seq<Node<V>> {
        self.entries.entries@
    }

    /// The sparse array and the slot list agree.
    pub open spec fn entries_ok(&self) -> bool {
        self.entries.wf()
    }

    /// An empty branch choosing nybble position `choice`.
    pub fn new(choice: usize) -> (r: Branch<V>)
        ensures
            r@ == (Tree::<V>::Branch { choice: choice as nat, slots: Seq::empty(), children: Seq::empty() }),
            r.entries_ok(),
            r.choice == choice,
    {
        let r = Branch { choice, entries: Sparse::new() };
        assert(r@->children =~= Seq::<Tree<V>>::empty());
        r
    }

    /// The nybble index of `key` at this branch's choice.
    pub fn index(&self, key: &[u8]) -> (r: u8)
        ensures
            r == nybble_at(self.choice as int, key@),
    {
        nybble_index(self.choice, key)
    }

    /// Whether the branch has exactly one child; such a branch is replaced by
    /// that child.
    pub fn is_singleton(&self) -> (r: bool)
        ensures
            r == (self.children().len() == 1),
    {
        self.entries.len() == 1
    }

    /// Whether slot `index` holds a child.
    pub fn has_entry(&self, index: u8) -> (r: bool)
        requires
            self.entries_ok(),
        ensures
            r == self.entries.has(index),
    {
        self.entries.contains(index)
    }

    /// The child in the occupied slot `index`, to be changed in place.
    pub fn entry_mut(&mut self, index: u8) -> (r: &mut Node<V>)
        requires
            old(self).entries_ok(),
            old(self).entries.has(index),
        ensures
            *r == old(self).children()[old(self).entries.pos(index)],
            final(self).choice == old(self).choice,
            final(self).entries.keys@ == old(self).entries.keys@,
            final(self).children() == old(self).children().update(old(self).entries.pos(index), *final(r)),
    {
        self.entries.get_or_any_mut(index)
    }

    /// The child in the slot that `key` is filed under, if there is one.
    pub fn child(&self, key: &[u8]) -> (r: Option<&Node<V>>)
        requires
            self.entries_ok(),
        ensures
            ({
                let idx = nybble_at(self.choice as int, key@);
                &&& self.entries.has(idx) ==> r == Some(&self.children()[self.entries.pos(idx)])
                &&& !self.entries.has(idx) ==> r is None
            }),
    {
        self.entries.get(nybble_index(self.choice, key))
    }

    /// The child in the slot that `key` is filed under, if there is one, to be
    /// changed in place.
    pub fn child_mut(&mut self, key: &[u8]) -> (r: Option<&mut Node<V>>)
        requires
            old(self).entries_ok(),
        ensures
            final(self).choice == old(self).choice,
            final(self).entries.keys@ == old(self).entries.keys@,
            ({
                let idx = nybble_at(old(self).choice as int, key@);
                let p = old(self).entries.pos(idx);
                match r {
                    Some(c) => {
                        &&& old(self).entries.has(idx)
                        &&& *c == old(self).children()[p]
                        &&& final(self).children() == old(self).children().update(p, *final(c))
                    },
                    None => !old(self).entries.has(idx) && final(self).children() == old(self).children(),
                }
            }),
    {
        let idx = nybble_index(self.choice, key);
        self.entries.get_mut(idx)
    }

    /// The child that a search for `key` continues into: the one in `key`'s
    /// slot, or the first child when that slot is empty.
    pub fn exemplar(&self, key: &[u8]) -> (r: &Node<V>)
        requires
            self.entries_ok(),
            self.children().len() > 0,
        ensures
            *r == self.children()[self@.exemplar_pos(key@)],
    {
        self.entries.get_or_any(nybble_index(self.choice, key))
    }

    /// As `exemplar`, to be changed in place.
    pub fn exemplar_mut(&mut self, key: &[u8]) -> (r: &mut Node<V>)
        requires
            old(self).entries_ok(),
            old(self).children().len() > 0,
        ensures
            *r == old(self).children()[old(self)@.exemplar_pos(key@)],
            final(self).choice == old(self).choice,
            final(self).entries.keys@ == old(self).entries.keys@,
            final(self).children() == old(self).children().update(old(self)@.exemplar_pos(key@), *final(r)),
    {
        let idx = nybble_index(self.choice, key);
        self.entries.get_or_any_mut(idx)
    }

    /// Takes the child out of the occupied slot `index`.
    pub fn remove(&mut self, index: u8) -> (r: Node<V>)
        requires
            old(self).entries_ok(),
            old(self).entries.has(index),
        ensures
            r == old(self).children()[old(self).entries.pos(index)],
            final(self).choice == old(self).choice,
            final(self).entries.keys@ == old(self).entries.keys@.remove(old(self).entries.pos(index)),
            final(self).children() == old(self).children().remove(old(self).entries.pos(index)),
            final(self).entries_ok(),
            final(self)@.entries().len() + r@.entries().len() == old(self)@.entries().len(),
    {
        proof {
            crate::sparse::lemma_rank(self.entries.keys@, index);
        }
        let r = self.entries.remove(index);
        proof {
            Self::lemma_children_remove_len(*old(self), *self, old(self).entries.pos(index));
        }
        r
    }

    /// Takes out the only child of a branch that has one.
    pub fn clear_last(&mut self) -> (r: Node<V>)
        requires
            old(self).entries_ok(),
            old(self).children().len() == 1,
        ensures
            r == old(self).children()[0],
            final(self).choice == old(self).choice,
            final(self).entries.keys@ == Seq::<u8>::empty(),
            final(self).children() == Seq::<Node<V>>::empty(),
            final(self).entries_ok(),
            final(self)@.entries().len() == 0,
    {
        let r = self.entries.clear_last();
        assert(self@->children =~= Seq::<Tree<V>>::empty());
        r
    }
}



impl<V> Branch<V> {
    /// The leaf stored under `key`, if there is one.
    pub fn get(&self, key: &[u8]) -> (r: Option<&Leaf<V>>)
        requires
            self@.wf(),
        ensures
            match r {
                Some(l) => self@.has_key(key@) && l.key@ == key@ && l.val == self@.map()[key@],
                None => !self@.has_key(key@),
            },
        decreases self,
    {
        proof {
            lemma_route(self@, key@);
        }
        match self.child(key) {
            Some(child) => {
                assert(child@ == self@->children[self.entries.pos(nybble_at(self.choice as int, key@))]);
                child.get(key)
            },
            None => None,
        }
    }

    /// The leaf that a search for `key` ends on.
    pub fn get_exemplar(&self, key: &[u8]) -> (r: &Leaf<V>)
        requires
            self@.wf(),
        ensures
            (r.key@, r.val) == self@.exemplar(key@),
        decreases self,
    {
        proof {
            crate::sparse::lemma_rank(self.entries.keys@, nybble_at(self.choice as int, key@));
        }
        let child = self.exemplar(key);
        assert(child@ == self@->children[self@.exemplar_pos(key@)]);
        child.get_exemplar(key)
    }

    /// The number of leaves under the branch: one per entry of its traversal,
    /// which for a well-formed branch is the number of keys it stores.
    pub fn count(&self) -> (r: usize)
        requires
            self@.entries().len() <= usize::MAX,
        ensures
            r == self@.entries().len(),
            self@.wf() ==> r == self@.map().dom().len(),
        decreases self,
    {
        let ghost t = self@;
        let ghost children = t->children;
        let mut total: usize = 0;
        let mut i: usize = 0;
        while i < self.entries.entries.len()
            invariant
                t == self@,
                children == t->children,
                children.len() == self.children().len(),
                i <= children.len(),
                total + Tree::entries_from(children, i as int).len() == t.entries().len(),
                t.entries().len() <= usize::MAX,
            decreases children.len() - i,
        {
            let child = &self.entries.entries[i];
            assert(child@ == children[i as int]);
            let c = child.count();
            total = total + c;
            i = i + 1;
        }
        assert(Tree::entries_from(children, i as int).len() == 0);
        proof {
            if t.wf() {
                crate::tree::lemma_entries_len(t);
            }
        }
        total
    }
}

impl<V> Node<V> {
    /// The leaf stored under `key`, if there is one.
    pub fn get(&self, key: &[u8]) -> (r: Option<&Leaf<V>>)
        requires
            self@.wf(),
        ensures
            match r {
                Some(l) => self@.has_key(key@) && l.key@ == key@ && l.val == self@.map()[key@],
                None => !self@.has_key(key@),
            },
        decreases self,
    {
        match self {
            Node::Leaf(leaf) => {
                if bytes_eq(leaf.key_slice(), key) {
                    Some(leaf)
                } else {
                    None
                }
            },
            Node::Branch(branch) => branch.get(key),
        }
    }

    /// The leaf that a search for `key` ends on: the leaf of `key` when it is
    /// stored, and otherwise a leaf whose key shares the longest run of
    /// nybbles with `key` along the search path. It decides where a new key
    /// can be grafted in.
    pub fn get_exemplar(&self, key: &[u8]) -> (r: &Leaf<V>)
        requires
            self@.wf(),
        ensures
            (r.key@, r.val) == self@.exemplar(key@),
        decreases self,
    {
        match self {
            Node::Leaf(leaf) => leaf,
            Node::Branch(branch) => branch.get_exemplar(key),
        }
    }

    /// The number of leaves under the node: one per entry of its traversal,
    /// which for a well-formed node is the number of keys it stores.
    pub fn count(&self) -> (r: usize)
        requires
            self@.entries().len() <= usize::MAX,
        ensures
            r == self@.entries().len(),
            self@.wf() ==> r == self@.map().dom().len(),
        decreases self,
    {
        match self {
            Node::Leaf(_) => {
                assert(self@.map().dom() =~= set![self@->key]);
                1
            },
            Node::Branch(branch) => branch.count(),
        }
    }

    /// The node that holds all and only the entries whose keys begin with
    /// `prefix`, given that some key does.
    pub fn get_prefix_validated(&self, prefix: &[u8]) -> (r: &Node<V>)
        requires
            self@.wf(),
            self@.has_prefix(prefix@),
            key_len_ok(prefix@),
        ensures
            r@.wf(),
            r@.map() == self@.prefix_map(prefix@),
            r@ is Leaf || r@->choice >= 2 * prefix@.len(),
        decreases self,
    {
        match self {
            Node::Leaf(_) => {
                proof {
                    lemma_prefix_whole(self@, prefix@);
                }
                self
            },
            Node::Branch(branch) => {
                if branch.choice >= prefix.len() * 2 {
                    proof {
                        lemma_prefix_whole(self@, prefix@);
                    }
                    self
                } else {
                    proof {
                        lemma_prefix_descend(self@, prefix@);
                    }
                    match branch.child(prefix) {
                        Some(child) => {
                            assert(child@ == self@->children[rank(self@->slots, self@.route(prefix@))]);
                            child.get_prefix_validated(prefix)
                        },
                        None => self,
                    }
                }
            },
        }
    }

    /// The node that holds all and only the entries whose keys begin with
    /// `prefix`, if any key does.
    pub fn get_prefix(&self, prefix: &[u8]) -> (r: Option<&Node<V>>)
        requires
            self@.wf(),
            key_len_ok(prefix@),
        ensures
            r is Some <==> self@.has_prefix(prefix@),
            r matches Some(n) ==> n@.wf() && n@.map() == self@.prefix_map(prefix@),
    {
        match self {
            Node::Leaf(leaf) => {
                if starts_with(leaf.key_slice(), prefix) {
                    assert(self@.has_key(leaf.key@));
                    Some(self.get_prefix_validated(prefix))
                } else {
                    None
                }
            },
            Node::Branch(branch) => {
                let e = branch.get_exemplar(prefix);
                proof {
                    lemma_exemplar_in(self@, prefix@);
                    if self@.has_prefix(prefix@) {
                        lemma_exemplar_prefix(self@, prefix@);
                    }
                }
                if starts_with(e.key_slice(), prefix) {
                    assert(self@.has_key(e.key@));
                    Some(self.get_prefix_validated(prefix))
                } else {
                    None
                }
            },
        }
    }
}


impl<V> Node<V> {
    /// The leaf of a node that is one.
    pub fn unwrap_leaf(self) -> (r: Leaf<V>)
        requires
            self is Leaf,
        ensures
            r == self->Leaf_0,
        decreases 0nat,
    {
        match self {
            Node::Leaf(leaf) => leaf,
            // Ruled out by the precondition.
            other => other.unwrap_leaf(),
        }
    }

    /// The leaf of a node that is one, borrowed.
    pub fn unwrap_leaf_ref(&self) -> (r: &Leaf<V>)
        requires
            self is Leaf,
        ensures
            *r == self->Leaf_0,
        decreases 0nat,
    {
        match self {
            Node::Leaf(leaf) => leaf,
            // Ruled out by the precondition.
            Node::Branch(_) => self.unwrap_leaf_ref(),
        }
    }

    /// The leaf of a node that is one, to be changed in place.
    pub fn unwrap_leaf_mut(&mut self) -> (r: &mut Leaf<V>)
        requires
            *old(self) is Leaf,
        ensures
            *r == (*old(self))->Leaf_0,
            *final(self) == Node::Leaf(*final(r)),
        decreases 0nat,
    {
        match self {
            Node::Leaf(leaf) => leaf,
            // Ruled out by the precondition.
            Node::Branch(_) => self.unwrap_leaf_mut(),
        }
    }

    /// The branch of a node that is one, borrowed.
    pub fn unwrap_branch_ref(&self) -> (r: &Branch<V>)
        requires
            self is Branch,
        ensures
            *r == self->Branch_0,
        decreases 0nat,
    {
        match self {
            Node::Branch(b) => b,
            // Ruled out by the precondition.
            Node::Leaf(_) => self.unwrap_branch_ref(),
        }
    }

    /// The branch of a node that is one, to be changed in place.
    pub fn unwrap_branch_mut(&mut self) -> (r: &mut Branch<V>)
        requires
            *old(self) is Branch,
        ensures
            *r == (*old(self))->Branch_0,
            *final(self) == Node::Branch(*final(r)),
        decreases 0nat,
    {
        match self {
            Node::Branch(b) => b,
            // Ruled out by the precondition.
            Node::Leaf(_) => self.unwrap_branch_mut(),
        }
    }

    /// `new` is `old` with the leaf that a search for `key` ends on replaced
    /// by `leaf`, and nothing else changed.
    pub open spec fn exemplar_replaced(old: Node<V>, new: Node<V>, key: Seq<u8>, leaf: Leaf<V>) -> bool
        decreases old,
    {
        match old {
            Node::Leaf(_) => new == Node::Leaf(leaf),
            Node::Branch(b) => {
                let p = b@.exemplar_pos(key);
                &&& new is Branch
                &&& new->Branch_0.choice == b.choice
                &&& new->Branch_0.entries.keys@ == b.entries.keys@
                &&& 0 <= p < b.children().len()
                &&& new->Branch_0.children() == b.children().update(p, new->Branch_0.children()[p])
                &&& Self::exemplar_replaced(b.children()[p], new->Branch_0.children()[p], key, leaf)
            },
        }
    }
}

/// Replacing the leaf a search ends on by a leaf with the same key keeps the
/// node well formed and sets that key's value.
pub proof fn lemma_exemplar_replaced<V>(old: Node<V>, new: Node<V>, key: Seq<u8>, leaf: Leaf<V>)
    requires
        old@.wf(),
        Node::exemplar_replaced(old, new, key, leaf),
        leaf.key@ == old@.exemplar(key).0,
    ensures
        new@.wf(),
        new@.map() == old@.map().insert(leaf.key@, leaf.val),
        new@ is Branch <==> old@ is Branch,
        old@ is Branch ==> new@->choice == old@->choice,
    decreases old,
{
    match old {
        Node::Leaf(l) => {
            assert(new@.map() =~= old@.map().insert(leaf.key@, leaf.val));
        },
        Node::Branch(b) => {
            let t = old@;
            let b2 = new->Branch_0;
            let p = b@.exemplar_pos(key);
            let child = b.children()[p];
            let child2 = b2.children()[p];
            assert(child@ == t->children[p]);
            assert(t->children[p].wf());
            lemma_exemplar_replaced(child, child2, key, leaf);
            assert(new@->children =~= t->children.update(p, child2@));
            lemma_exemplar_in(child@, key);
            lemma_child_key(t, p, leaf.key@);
            assert forall|k2: Seq<u8>| #[trigger] t.has_key(k2) implies agree_below(
                leaf.key@,
                k2,
                t->choice as int,
            ) by {
                crate::tree::lemma_agree_in(t, leaf.key@, k2);
            }
            lemma_replace_child_insert(t, p, child2@, leaf.key@, leaf.val);
        },
    }
}

impl<V> Branch<V> {
    /// A child put into the list of children adds its entries to the
    /// branch's traversal, whatever branch `a` becomes by it.
    pub proof fn lemma_children_insert_len(a: Branch<V>, p: int, n: Node<V>)
        requires
            0 <= p <= a.children().len(),
        ensures
            forall|b: Branch<V>|
                b.children() == a.children().insert(p, n)
                    ==> #[trigger] b@.entries().len() == a@.entries().len() + n@.entries().len(),
    {
        assert forall|b: Branch<V>| b.children() == a.children().insert(p, n) implies
            #[trigger] b@.entries().len() == a@.entries().len() + n@.entries().len() by {
            assert(b@->children =~= a@->children.insert(p, n@));
            assert(b@->children.remove(p) =~= a@->children);
            crate::tree::lemma_entries_remove_len(b@->children, p);
        }
    }

    /// A child taken out of the list of children takes its entries out of
    /// the branch's traversal.
    pub proof fn lemma_children_remove_len(a: Branch<V>, b: Branch<V>, p: int)
        requires
            0 <= p < a.children().len(),
            b.children() == a.children().remove(p),
        ensures
            b@.entries().len() + a.children()[p]@.entries().len() == a@.entries().len(),
    {
        assert(b@->children =~= a@->children.remove(p));
        crate::tree::lemma_entries_remove_len(a@->children, p);
    }

    /// Files `leaf` under the empty slot its key belongs in and hands it back
    /// in place.
    pub fn insert_leaf(&mut self, leaf: Leaf<V>) -> (r: &mut Leaf<V>)
        requires
            old(self).entries_ok(),
            !old(self).entries.has(nybble_at(old(self).choice as int, leaf.key@)),
        ensures
            ({
                let idx = nybble_at(old(self).choice as int, leaf.key@);
                let p = old(self).entries.pos(idx);
                &&& *r == leaf
                &&& final(self).choice == old(self).choice
                &&& final(self).entries.keys@ == old(self).entries.keys@.insert(p, idx)
                &&& final(self).children() == old(self).children().insert(p, Node::Leaf(*final(r)))
                &&& final(self).entries_ok()
            }),
            final(self)@.entries().len() == old(self)@.entries().len() + 1,
    {
        let idx = nybble_index(self.choice, leaf.key_slice());
        proof {
            crate::nybble::lemma_nybble_bound(self.choice as int, leaf.key@);
        }
        let ghost p = self.entries.pos(idx);
        proof {
            crate::sparse::lemma_rank(self.entries.keys@, idx);
        }
        let r = self.entries.insert(idx, Node::Leaf(leaf)).unwrap_leaf_mut();
        proof {
            Self::lemma_children_insert_len(*old(self), p, Node::Leaf(*final(r)));
        }
        r
    }

    /// Files `branch` under the empty slot `index` and hands it back in place.
    pub fn insert_branch(&mut self, index: u8, branch: Branch<V>) -> (r: &mut Branch<V>)
        requires
            old(self).entries_ok(),
            !old(self).entries.has(index),
            index < NYBBLE_SLOTS,
        ensures
            ({
                let p = old(self).entries.pos(index);
                &&& *r == branch
                &&& final(self).choice == old(self).choice
                &&& final(self).entries.keys@ == old(self).entries.keys@.insert(p, index)
                &&& final(self).children() == old(self).children().insert(p, Node::Branch(*final(r)))
                &&& final(self).entries_ok()
            }),
            final(self)@.entries().len() == old(self)@.entries().len() + final(r)@.entries().len(),
    {
        let ghost p = self.entries.pos(index);
        proof {
            crate::sparse::lemma_rank(self.entries.keys@, index);
        }
        let r = self.entries.insert(index, Node::Branch(branch)).unwrap_branch_mut();
        proof {
            Self::lemma_children_insert_len(*old(self), p, Node::Branch(*final(r)));
        }
        r
    }

    /// The leaf that a search for `key` ends on, to be changed in place.
    pub fn get_exemplar_mut(&mut self, key: &[u8]) -> (r: &mut Leaf<V>)
        requires
            old(self)@.wf(),
        ensures
            (r.key@, r.val) == old(self)@.exemplar(key@),
            Node::exemplar_replaced(Node::Branch(*old(self)), Node::Branch(*final(self)), key@, *final(r)),
            final(r).key@ == r.key@ ==> final(self)@.wf() && final(self)@.map() == old(self)@.map().insert(
                r.key@,
                final(r).val,
            ),
        decreases *old(self),
    {
        assert forall|new: Node<V>, l: Leaf<V>|
            #[trigger] Node::exemplar_replaced(Node::Branch(*old(self)), new, key@, l) && l.key@ == old(
                self,
            )@.exemplar(key@).0 implies new@.wf() && new@.map() == old(self)@.map().insert(l.key@, l.val) by {
            lemma_exemplar_replaced(Node::Branch(*old(self)), new, key@, l);
        }
        proof {
            crate::sparse::lemma_rank(self.entries.keys@, nybble_at(self.choice as int, key@));
        }
        let ghost p = self@.exemplar_pos(key@);
        let child = self.exemplar_mut(key);
        assert(child@ == old(self)@->children[p]);
        child.get_exemplar_mut(key)
    }

    /// The leaf stored under `key`, if there is one, to be changed in place.
    pub fn get_mut(&mut self, key: &[u8]) -> (r: Option<&mut Leaf<V>>)
        requires
            old(self)@.wf(),
        ensures
            match r {
                Some(l) => {
                    &&& old(self)@.has_key(key@)
                    &&& l.key@ == key@
                    &&& l.val == old(self)@.map()[key@]
                    &&& Node::exemplar_replaced(Node::Branch(*old(self)), Node::Branch(*final(self)), key@, *final(l))
                    &&& final(l).key@ == key@ ==> final(self)@.wf() && final(self)@.map() == old(self)@.map().insert(
                        key@,
                        final(l).val,
                    )
                },
                None => !old(self)@.has_key(key@) && *final(self) == *old(self),
            },
    {
        if self.get(key).is_none() {
            return None;
        }
        proof {
            lemma_exemplar_of_present(old(self)@, key@);
        }
        Some(self.get_exemplar_mut(key))
    }
}

impl<V> Node<V> {
    /// The leaf that a search for `key` ends on, to be changed in place.
    pub fn get_exemplar_mut(&mut self, key: &[u8]) -> (r: &mut Leaf<V>)
        requires
            old(self)@.wf(),
        ensures
            (r.key@, r.val) == old(self)@.exemplar(key@),
            Node::exemplar_replaced(*old(self), *final(self), key@, *final(r)),
            final(r).key@ == r.key@ ==> final(self)@.wf() && final(self)@.map() == old(self)@.map().insert(
                r.key@,
                final(r).val,
            ),
        decreases *old(self),
    {
        assert forall|new: Node<V>, l: Leaf<V>|
            #[trigger] Node::exemplar_replaced(*old(self), new, key@, l) && l.key@ == old(self)@.exemplar(
                key@,
            ).0 implies new@.wf() && new@.map() == old(self)@.map().insert(l.key@, l.val) by {
            lemma_exemplar_replaced(*old(self), new, key@, l);
        }
        match self {
            Node::Leaf(leaf) => leaf,
            Node::Branch(branch) => branch.get_exemplar_mut(key),
        }
    }

    /// The leaf stored under `key`, if there is one, to be changed in place.
    pub fn get_mut(&mut self, key: &[u8]) -> (r: Option<&mut Leaf<V>>)
        requires
            old(self)@.wf(),
        ensures
            match r {
                Some(l) => {
                    &&& old(self)@.has_key(key@)
                    &&& l.key@ == key@
                    &&& l.val == old(self)@.map()[key@]
                    &&& Node::exemplar_replaced(*old(self), *final(self), key@, *final(l))
                    &&& final(l).key@ == key@ ==> final(self)@.wf() && final(self)@.map() == old(self)@.map().insert(
                        key@,
                        final(l).val,
                    )
                },
                None => !old(self)@.has_key(key@) && *final(self) == *old(self),
            },
    {
        if self.get(key).is_none() {
            return None;
        }
        proof {
            lemma_exemplar_of_present(old(self)@, key@);
        }
        Some(self.get_exemplar_mut(key))
    }
}


/// Puts `src` in `dest` and hands back what was there.
fn replace<T>(dest: &mut T, src: T) -> (r: T)
    ensures
        r == *old(dest),
        *final(dest) == src,
{
    let mut tmp = src;
    core::mem::swap(dest, &mut tmp);
    tmp
}

impl<V> Node<V> {
    /// `new` is what inserting `key` with value `val` at graft point `graft`
    /// makes of `old`: the search descends through the branches that choose a
    /// position at or before `graft`; it files a new leaf in the empty slot
    /// `key` belongs in, or, on reaching a leaf or a branch choosing a later
    /// position, puts a new branch choosing `graft` in its place that holds the
    /// node reached (under slot `gn`) and the new leaf.
    pub open spec fn grafted(old: Node<V>, new: Node<V>, graft: int, gn: u8, key: Seq<u8>, val: V) -> bool
        decreases old,
    {
        if old is Branch && old->Branch_0.choice <= graft {
            let b = old->Branch_0;
            let b2 = new->Branch_0;
            let idx = nybble_at(b.choice as int, key);
            let p = b.entries.pos(idx);
            &&& new is Branch
            &&& b2.choice == b.choice
            &&& 0 <= p <= b.children().len()
            &&& if b.entries.has(idx) {
                &&& p < b.children().len()
                &&& b2.entries.keys@ == b.entries.keys@
                &&& b2.children() == b.children().update(p, b2.children()[p])
                &&& Self::grafted(b.children()[p], b2.children()[p], graft, gn, key, val)
            } else {
                &&& b2.entries.keys@ == b.entries.keys@.insert(p, idx)
                &&& b2.children() == b.children().insert(p, b2.children()[p])
                &&& b2.children()[p] is Leaf
                &&& b2.children()[p]->Leaf_0.key@ == key
                &&& b2.children()[p]->Leaf_0.val == val
            }
        } else {
            let b2 = new->Branch_0;
            let nk = nybble_at(graft, key);
            let leaf_at = if gn < nk { 1int } else { 0int };
            &&& new is Branch
            &&& b2.choice == graft
            &&& b2.entries.keys@ == (if gn < nk { seq![gn, nk] } else { seq![nk, gn] })
            &&& b2.children().len() == 2
            &&& b2.children()[1 - leaf_at] == old
            &&& b2.children()[leaf_at] is Leaf
            &&& b2.children()[leaf_at]->Leaf_0.key@ == key
            &&& b2.children()[leaf_at]->Leaf_0.val == val
        }
    }
}

/// Inserting a key that is not stored, at the first position where it differs
/// from the leaf its search ends on, keeps the node well formed and adds the
/// key with its value.
pub proof fn lemma_grafted<V>(old: Node<V>, new: Node<V>, graft: int, gn: u8, key: Seq<u8>, val: V)
    requires
        old@.wf(),
        key_len_ok(key),
        !old@.has_key(key),
        is_first_mismatch(old@.exemplar(key).0, key, graft),
        gn == nybble_at(graft, old@.exemplar(key).0),
        Node::grafted(old, new, graft, gn, key, val),
    ensures
        new@.wf(),
        new@.map() == old@.map().insert(key, val),
        new@ is Branch,
        new@->choice == (if old@ is Branch && old@->choice <= graft {
            old@->choice as int
        } else {
            graft
        }),
    decreases old,
{
    let t = old@;
    let e = t.exemplar(key).0;
    lemma_exemplar_in(t, key);
    crate::nybble::lemma_agree_below(e, key, key, graft, graft);
    if old is Branch && old->Branch_0.choice <= graft {
        let b = old->Branch_0;
        let b2 = new->Branch_0;
        let c = b.choice as int;
        let idx = nybble_at(c, key);
        let p = b.entries.pos(idx);
        crate::sparse::lemma_rank(b.entries.keys@, idx);
        assert forall|k2: Seq<u8>| #[trigger] t.has_key(k2) implies agree_below(key, k2, c) by {
            crate::tree::lemma_agree_in(t, e, k2);
            crate::nybble::lemma_agree_below(key, e, k2, graft, c);
            crate::nybble::lemma_agree_below(key, e, k2, c, c);
        }
        if b.entries.has(idx) {
            let child = b.children()[p];
            let child2 = b2.children()[p];
            assert(child@ == t->children[p]);
            assert(t->children[p].wf());
            assert(t.exemplar_pos(key) == p);
            if child@.has_key(key) {
                lemma_child_key(t, p, key);
            }
            lemma_exemplar_in(child@, key);
            lemma_child_key(t, p, e);
            lemma_grafted(child, child2, graft, gn, key, val);
            assert(new@->children =~= t->children.update(p, child2@));
            if graft == c {
                assert(nybble_at(c, e) == nybble_at(c, key));
            }
            lemma_replace_child_insert(t, p, child2@, key, val);
        } else {
            let leaf = Tree::Leaf { key, val };
            assert(b2.children()[p]@ == leaf);
            assert forall|i: int| 0 <= i < new@->children.len() implies new@->children[i] == t->children.insert(
                p,
                leaf,
            )[i] by {
                if i < p {
                    assert(b2.children()[i] == b.children()[i]);
                } else if i > p {
                    assert(b2.children()[i] == b.children()[i - 1]);
                }
            }
            assert(new@->children =~= t->children.insert(p, leaf));
            lemma_insert_leaf(t, key, val);
        }
    } else {
        let nk = nybble_at(graft, key);
        assert forall|k: Seq<u8>| #[trigger] t.has_key(k) implies nybble_at(graft, k) == gn && agree_below(
            key,
            k,
            graft,
        ) by {
            match t {
                Tree::Leaf { .. } => {},
                Tree::Branch { choice, .. } => {
                    crate::tree::lemma_agree_in(t, e, k);
                    crate::nybble::lemma_agree_below(e, k, k, choice as int, graft);
                    crate::nybble::lemma_agree_below(key, e, k, graft, graft);
                },
            }
        }
        let leaf = Tree::Leaf { key, val };
        let b2 = new->Branch_0;
        if gn < nk {
            assert(b2.children()[1]@ == leaf);
            assert(new@->children =~= seq![t, leaf]);
        } else {
            assert(b2.children()[0]@ == leaf);
            assert(new@->children =~= seq![leaf, t]);
        }
        lemma_graft(t, graft as nat, gn, key, val, new@);
    }
}

impl<V> Node<V> {
    /// Inserts `key`, which is not stored, with value `val`, given the graft
    /// point: the first nybble position at which `key` differs from the leaf
    /// its search ends on, and that leaf's nybble index there. Hands back the
    /// stored value in place.
    pub fn insert_with_graft_point(&mut self, graft: usize, graft_nybble: u8, key: Vec<u8>, val: V) -> (r: &mut V)
        requires
            old(self)@.wf(),
            key_len_ok(key@),
            !old(self)@.has_key(key@),
            is_first_mismatch(old(self)@.exemplar(key@).0, key@, graft as int),
            graft_nybble == nybble_at(graft as int, old(self)@.exemplar(key@).0),
        ensures
            *r == val,
            Node::grafted(*old(self), *final(self), graft as int, graft_nybble, key@, *final(r)),
            Node::grafted(*old(self), *final(self), graft as int, graft_nybble, key@, *final(r))
                ==> final(self)@.wf(),
            Node::grafted(*old(self), *final(self), graft as int, graft_nybble, key@, *final(r))
                ==> final(self)@.map() == old(self)@.map().insert(key@, *final(r)),
        decreases *old(self),
    {
        assert forall|new: Node<V>, v: V|
            #[trigger] Node::grafted(*old(self), new, graft as int, graft_nybble, key@, v) implies new@.wf()
            && new@.map() == old(self)@.map().insert(key@, v) by {
            lemma_grafted(*old(self), new, graft as int, graft_nybble, key@, v);
        }

        let descend = match self {
            Node::Branch(b) => b.choice <= graft,
            Node::Leaf(_) => false,
        };
        if descend {
            let ghost t = self@;
            let branch = self.unwrap_branch_mut();
            let index = branch.index(key.as_slice());
            proof {
                lemma_route(t, key@);
                crate::sparse::lemma_rank(branch.entries.keys@, index);
            }
            if branch.has_entry(index) {
                let ghost p = branch.entries.pos(index);
                let child = branch.entry_mut(index);
                proof {
                    assert(child@ == t->children[p]);
                    assert(t->children[p].wf());
                    assert(t.exemplar_pos(key@) == p);
                    if child@.has_key(key@) {
                        lemma_child_key(t, p, key@);
                    }
                }
                child.insert_with_graft_point(graft, graft_nybble, key, val)
            } else {
                &mut branch.insert_leaf(Leaf::new(key, val)).val
            }
        } else {
            let ghost t = self@;
            proof {
                lemma_exemplar_in(t, key@);
                crate::nybble::lemma_nybble_bound(graft as int, t.exemplar(key@).0);
                crate::nybble::lemma_nybble_bound(graft as int, key@);
            }
            let node = replace(self, Node::Branch(Branch::new(graft)));
            let graft_branch = self.unwrap_branch_mut();
            let ghost nk = nybble_at(graft as int, key@);
            match node {
                Node::Leaf(leaf) => {
                    graft_branch.insert_leaf(leaf);
                },
                Node::Branch(branch) => {
                    graft_branch.insert_branch(graft_nybble, branch);
                },
            }
            proof {
                assert(graft_branch.entries.keys@ =~= seq![graft_nybble]);
                crate::sparse::lemma_rank(graft_branch.entries.keys@, nk);
                if graft_nybble < nk {
                    assert(graft_branch.entries.pos(nk) == 1);
                } else {
                    assert(graft_branch.entries.pos(nk) == 0);
                }
                assert(seq![graft_nybble].insert(1, nk) =~= seq![graft_nybble, nk]);
                assert(seq![graft_nybble].insert(0, nk) =~= seq![nk, graft_nybble]);
            }
            &mut graft_branch.insert_leaf(Leaf::new(key, val)).val
        }
    }
}


impl<V> Node<V> {
    /// Inserts `key` with value `val`, handing back the value it replaces, if
    /// `key` was already stored.
    pub fn insert(&mut self, key: Vec<u8>, val: V) -> (r: Option<V>)
        requires
            old(self)@.wf(),
            key_len_ok(key@),
        ensures
            final(self)@.wf(),
            final(self)@.map() == old(self)@.map().insert(key@, val),
            r == (if old(self)@.has_key(key@) {
                Some(old(self)@.map()[key@])
            } else {
                None
            }),
    {
        let ghost t = self@;
        let is_leaf = match self {
            Node::Leaf(_) => true,
            Node::Branch(_) => false,
        };
        if is_leaf {
            let mismatch = nybble_mismatch(self.unwrap_leaf_ref().key_slice(), key.as_slice());
            match mismatch {
                None => {
                    let leaf = self.unwrap_leaf_mut();
                    let prev = replace(&mut leaf.val, val);
                    proof {
                        assert(self@.map() =~= t.map().insert(key@, val));
                    }
                    Some(prev)
                },
                Some(mismatch) => {
                    let ghost lk = t->key;
                    let ghost nn = nybble_at(mismatch as int, lk);
                    let ghost nk = nybble_at(mismatch as int, key@);
                    let leaf = replace(self, Node::Branch(Branch::new(mismatch))).unwrap_leaf();
                    let branch = self.unwrap_branch_mut();
                    branch.insert_leaf(Leaf::new(key, val));
                    proof {
                        assert(branch.entries.keys@ =~= seq![nk]);
                        crate::sparse::lemma_rank(branch.entries.keys@, nn);
                        if nn < nk {
                            assert(branch.entries.pos(nn) == 0);
                        } else {
                            assert(branch.entries.pos(nn) == 1);
                        }
                        assert(seq![nk].insert(0, nn) =~= seq![nn, nk]);
                        assert(seq![nk].insert(1, nn) =~= seq![nk, nn]);
                    }
                    branch.insert_leaf(leaf);
                    proof {
                        let leaf_t = Tree::Leaf { key: key@, val };
                        crate::nybble::lemma_agree_below(lk, key@, key@, mismatch as int, mismatch as int);
                        let b2 = self->Branch_0;
                        if nn < nk {
                            assert(b2.children()[0]@ == t);
                            assert(b2.children()[1]@ == leaf_t);
                            assert(self@->children =~= seq![t, leaf_t]);
                        } else {
                            assert(b2.children()[1]@ == t);
                            assert(b2.children()[0]@ == leaf_t);
                            assert(self@->children =~= seq![leaf_t, t]);
                        }
                        lemma_graft(t, mismatch as nat, nn, key@, val, self@);
                    }
                    None
                },
            }
        } else {
            proof {
                lemma_exemplar_in(t, key@);
                if t.has_key(key@) {
                    lemma_exemplar_of_present(t, key@);
                }
            }
            let (mismatch, mismatch_nybble) = {
                let exemplar = self.get_exemplar(key.as_slice());
                match nybble_mismatch(exemplar.key_slice(), key.as_slice()) {
                    Some(mismatch) => (mismatch, nybble_index(mismatch, exemplar.key_slice())),
                    None => {
                        let exemplar = self.get_exemplar_mut(key.as_slice());
                        let prev = replace(&mut exemplar.val, val);
                        return Some(prev);
                    },
                }
            };
            self.insert_with_graft_point(mismatch, mismatch_nybble, key, val);
            None
        }
    }
}


impl<V> Node<V> {
    /// The map stored in a trie root, which may be empty.
    pub open spec fn root_map(root: Option<Node<V>>) -> Map<Seq<u8>, V> {
        match root {
            Some(n) => n@.map(),
            None => Map::empty(),
        }
    }

    /// The trie node value at a root, if the trie is not empty.
    pub open spec fn root_tree(root: Option<Node<V>>) -> Option<Tree<V>> {
        match root {
            Some(n) => Some(n@),
            None => None,
        }
    }

    /// A trie root is empty or a well-formed node.
    pub open spec fn root_wf(root: Option<Node<V>>) -> bool {
        match root {
            Some(n) => n@.wf(),
            None => true,
        }
    }

    /// Removes `key` from a branch, handing back its leaf if it was stored.
    /// A branch left with one child is replaced by that child; when `key` is
    /// not stored the node is left as it was.
    pub fn remove_validated(&mut self, key: &[u8]) -> (r: Option<Leaf<V>>)
        requires
            old(self)@.wf(),
            *old(self) is Branch,
        ensures
            final(self)@.wf(),
            final(self)@.map() == old(self)@.map().remove(key@),
            match r {
                Some(l) => old(self)@.has_key(key@) && l.key@ == key@ && l.val == old(self)@.map()[key@],
                None => !old(self)@.has_key(key@),
            },
            r is None ==> final(self)@ == old(self)@,
            final(self)@ is Branch ==> final(self)@->choice >= old(self)@->choice,
        decreases *old(self),
    {
        let ghost t = self@;
        proof {
            lemma_route(t, key@);
        }
        let (index, action) = {
            let branch = self.unwrap_branch_ref();
            let index = branch.index(key);
            let action: u8 = match branch.child(key) {
                Some(Node::Leaf(leaf)) => if bytes_eq(leaf.key_slice(), key) {
                    1
                } else {
                    0
                },
                Some(Node::Branch(_)) => 2,
                None => 0,
            };
            (index, action)
        };
        let ghost p = self->Branch_0.entries.pos(index);
        if action == 0 {
            proof {
                if t->slots.contains(index) {
                    assert(self->Branch_0.children()[p]@ == t->children[p]);
                }
                assert(t.map().remove(key@) =~= t.map());
            }
            return None;
        }
        if action == 2 {
            let branch = self.unwrap_branch_mut();
            let child = branch.entry_mut(index);
            proof {
                assert(child@ == t->children[p]);
                assert(t->children[p].wf());
            }
            let r = child.remove_validated(key);
            proof {
                lemma_replace_child_remove(t, p, child@, key@);
                assert(branch@->children =~= t->children.update(p, child@));
                if r is None {
                    assert(t->children.update(p, child@) =~= t->children);
                    assert(branch@ =~= t);
                }
            }
            return r;
        }
        let removed = self.unwrap_branch_mut().remove(index);
        proof {
            assert(removed@ == t->children[p]);
            lemma_remove_child(t, p);
            assert(t->children[p].map().dom() =~= set![key@]);
            assert(t.map().remove_keys(set![key@]) =~= t.map().remove(key@));
            assert(self@->children =~= t->children.remove(p));
            assert(self@->slots =~= t->slots.remove(p));
        }
        let leaf = removed.unwrap_leaf();
        if self.unwrap_branch_ref().is_singleton() {
            let ghost t2 = self@;
            let node = self.unwrap_branch_mut().clear_last();
            proof {
                lemma_single_child(t2);
                assert(node@ == t2->children[0]);
                assert(t2->children[0].wf());
            }
            *self = node;
        }
        Some(leaf)
    }

    /// Removes `key` from the trie rooted at `root`, handing back its leaf if
    /// it was stored. A root leaf that is removed leaves the trie empty; when
    /// `key` is not stored the trie is left as it was.
    pub fn remove(root: &mut Option<Node<V>>, key: &[u8]) -> (r: Option<Leaf<V>>)
        requires
            Node::root_wf(*old(root)),
        ensures
            Node::root_wf(*final(root)),
            Node::root_map(*final(root)) == Node::root_map(*old(root)).remove(key@),
            match r {
                Some(l) => {
                    &&& Node::root_map(*old(root)).dom().contains(key@)
                    &&& l.key@ == key@
                    &&& l.val == Node::root_map(*old(root))[key@]
                },
                None => !Node::root_map(*old(root)).dom().contains(key@),
            },
            r is None ==> Node::root_tree(*final(root)) == Node::root_tree(*old(root)),
    {
        let action: u8 = match root {
            Some(Node::Leaf(leaf)) => if bytes_eq(leaf.key_slice(), key) {
                1
            } else {
                0
            },
            Some(Node::Branch(_)) => 2,
            None => 0,
        };
        if action == 1 {
            match root.take() {
                Some(node) => {
                    proof {
                        assert(Node::<V>::root_map(None).remove(key@) =~= Map::empty());
                        assert(node@.map().remove(key@) =~= Map::empty());
                    }
                    Some(node.unwrap_leaf())
                },
                None => None,
            }
        } else if action == 2 {
            match root {
                Some(node) => node.remove_validated(key),
                None => None,
            }
        } else {
            proof {
                assert(Node::root_map(*old(root)).remove(key@) =~= Node::root_map(*old(root)));
            }
            None
        }
    }
}


impl<V> Node<V> {
    /// Removes and hands back the child of a branch that holds all and only
    /// the entries whose keys begin with `prefix`, given that some key does
    /// and that the branch's choice lies inside `prefix`. A branch left with
    /// one child is replaced by that child.
    pub fn remove_prefix_validated(&mut self, prefix: &[u8]) -> (r: Option<Node<V>>)
        requires
            old(self)@.wf(),
            *old(self) is Branch,
            old(self)@.has_prefix(prefix@),
            key_len_ok(prefix@),
            old(self)@->choice < 2 * prefix@.len(),
        ensures
            final(self)@.wf(),
            final(self)@.map() == old(self)@.map().remove_keys(prefix_set(prefix@)),
            r matches Some(n) && n@.wf() && n@.map() == old(self)@.prefix_map(prefix@),
            final(self)@ is Branch ==> final(self)@->choice >= old(self)@->choice,
        decreases *old(self),
    {
        let ghost t = self@;
        let ghost pset = prefix_set(prefix@);
        proof {
            lemma_prefix_descend(t, prefix@);
        }
        let (index, action) = {
            let branch = self.unwrap_branch_ref();
            let index = branch.index(prefix);
            let action: u8 = match branch.child(prefix) {
                Some(Node::Leaf(leaf)) => if starts_with(leaf.key_slice(), prefix) {
                    1
                } else {
                    0
                },
                Some(Node::Branch(child_branch)) => if child_branch.choice >= prefix.len() * 2 {
                    1
                } else {
                    2
                },
                None => 0,
            };
            (index, action)
        };
        let ghost p = self->Branch_0.entries.pos(index);
        let ghost child_t = t->children[p];
        proof {
            assert(self->Branch_0.children()[p]@ == child_t);
            assert(child_t.wf());
            if child_t is Leaf {
                let k0 = choose|k: Seq<u8>| #[trigger] child_t.has_key(k) && prefix@.is_prefix_of(k);
                assert(k0 == child_t->key);
            }
        }
        if action == 0 {
            return None;
        }
        if action == 2 {
            let branch = self.unwrap_branch_mut();
            let child = branch.entry_mut(index);
            let r = child.remove_prefix_validated(prefix);
            proof {
                lemma_replace_child_remove_keys(t, p, child@, pset);
                assert(branch@->children =~= t->children.update(p, child@));
            }
            return r;
        }
        let removed = self.unwrap_branch_mut().remove(index);
        proof {
            lemma_prefix_whole(child_t, prefix@);
            lemma_remove_child(t, p);
            assert forall|k: Seq<u8>| #[trigger] t.has_key(k) implies (child_t.has_key(k) <==> pset.contains(k)) by {
                if pset.contains(k) {
                    lemma_route(t, k);
                }
            }
            assert(t.map().remove_keys(child_t.map().dom()) =~= t.map().remove_keys(pset));
            assert(removed@ == child_t);
            assert(self@->children =~= t->children.remove(p));
            assert(self@->slots =~= t->slots.remove(p));
        }
        if self.unwrap_branch_ref().is_singleton() {
            let ghost t2 = self@;
            let node = self.unwrap_branch_mut().clear_last();
            proof {
                lemma_single_child(t2);
                assert(node@ == t2->children[0]);
                assert(t2->children[0].wf());
            }
            *self = node;
        }
        Some(removed)
    }

    /// Removes and hands back the node that holds all and only the entries
    /// whose keys begin with `prefix`, if any key does; when none does the trie
    /// is left as it was.
    pub fn remove_prefix(root: &mut Option<Node<V>>, prefix: &[u8]) -> (r: Option<Node<V>>)
        requires
            Node::root_wf(*old(root)),
            key_len_ok(prefix@),
        ensures
            Node::root_wf(*final(root)),
            Node::root_map(*final(root)) == Node::root_map(*old(root)).remove_keys(prefix_set(prefix@)),
            r is Some <==> exists|k: Seq<u8>|
                #[trigger] Node::root_map(*old(root)).dom().contains(k) && prefix@.is_prefix_of(k),
            r matches Some(n) ==> n@.wf() && n@.map() == Node::root_map(*old(root)).restrict(
                prefix_set(prefix@),
            ),
            r is None ==> Node::root_tree(*final(root)) == Node::root_tree(*old(root)),
    {
        let ghost old_root = *root;
        let action: u8 = match root {
            Some(Node::Leaf(leaf)) => if starts_with(leaf.key_slice(), prefix) {
                1
            } else {
                0
            },
            Some(Node::Branch(branch)) => {
                let e = branch.get_exemplar(prefix);
                if starts_with(e.key_slice(), prefix) {
                    if branch.choice >= prefix.len() * 2 {
                        1
                    } else {
                        2
                    }
                } else {
                    0
                }
            },
            None => 0,
        };
        proof {
            if let Some(n) = old_root {
                let t = n@;
                lemma_exemplar_in(t, prefix@);
                if t.has_prefix(prefix@) {
                    lemma_exemplar_prefix(t, prefix@);
                }
                if action == 1 {
                    assert(t.has_key(t.exemplar(prefix@).0));
                    lemma_prefix_whole(t, prefix@);
                }
            }
        }
        if action == 1 {
            proof {
                let t = old_root->0@;
                assert(t.map().remove_keys(prefix_set(prefix@)) =~= Map::empty());
            }
            root.take()
        } else if action == 2 {
            match root {
                Some(node) => node.remove_prefix_validated(prefix),
                None => None,
            }
        } else {
            proof {
                assert(Node::root_map(old_root).remove_keys(prefix_set(prefix@)) =~= Node::root_map(old_root));
            }
            None
        }
    }
}


impl<V> Node<V> {
    /// `sub` may stand in for the node of `old` that holds the entries
    /// beginning with `p`: it is well formed, holds the same keys, and, if a
    /// branch, chooses a position at or past the end of `p`.
    pub open spec fn prefix_replacement_ok(old: Node<V>, p: Seq<u8>, sub: Node<V>) -> bool {
        &&& sub@.wf()
        &&& sub@.map().dom() == old@.prefix_map(p).dom()
        &&& sub@ is Leaf || sub@->choice >= 2 * p.len()
    }

    /// What replacing the node of `old` that holds the entries beginning with
    /// `p` by `sub` gives: a well-formed node storing `sub`'s entries in place
    /// of those, and the other entries of `old` unchanged.
    pub open spec fn prefix_replacement_result(old: Node<V>, new: Node<V>, p: Seq<u8>, sub: Node<V>) -> bool {
        &&& new@.wf()
        &&& new@.map() == old@.map().remove_keys(prefix_set(p)).union_prefer_right(sub@.map())
    }

    /// `new` is `old` with the node that a descent by `p` stops at replaced by
    /// `sub`: the descent follows `p`'s slot through the branches whose choice
    /// lies inside `p`, and stops at a leaf or at a branch choosing a position
    /// at or past the end of `p`.
    pub open spec fn prefix_replaced(old: Node<V>, new: Node<V>, p: Seq<u8>, sub: Node<V>) -> bool
        decreases old,
    {
        match old {
            Node::Leaf(_) => new == sub,
            Node::Branch(b) => {
                if b.choice >= 2 * p.len() {
                    new == sub
                } else {
                    let idx = nybble_at(b.choice as int, p);
                    let j = b.entries.pos(idx);
                    let b2 = new->Branch_0;
                    &&& b.entries.has(idx)
                    &&& 0 <= j < b.children().len()
                    &&& new is Branch
                    &&& b2.choice == b.choice
                    &&& b2.entries.keys@ == b.entries.keys@
                    &&& b2.children() == b.children().update(j, b2.children()[j])
                    &&& Self::prefix_replaced(b.children()[j], b2.children()[j], p, sub)
                }
            },
        }
    }

    /// The node that holds all and only the entries whose keys begin with
    /// `prefix`, given that some key does, to be changed in place.
    pub fn get_prefix_validated_mut(&mut self, prefix: &[u8]) -> (r: &mut Node<V>)
        requires
            old(self)@.wf(),
            old(self)@.has_prefix(prefix@),
            key_len_ok(prefix@),
        ensures
            r@.wf(),
            r@.map() == old(self)@.prefix_map(prefix@),
            r@ is Leaf || r@->choice >= 2 * prefix@.len(),
            Node::prefix_replaced(*old(self), *final(self), prefix@, *final(r)),
            Node::prefix_replaced(*old(self), *final(self), prefix@, *final(r)) && Node::prefix_replacement_ok(
                *old(self),
                prefix@,
                *final(r),
            ) ==> Node::prefix_replacement_result(
                *old(self),
                *final(self),
                prefix@,
                *final(r),
            ),
        decreases *old(self),
    {
        assert forall|new: Node<V>, sub: Node<V>|
            #[trigger] Node::prefix_replaced(*old(self), new, prefix@, sub) && Node::prefix_replacement_ok(
                *old(self),
                prefix@,
                sub,
            ) implies Node::prefix_replacement_result(*old(self), new, prefix@, sub) by {
            lemma_prefix_replaced(*old(self), new, prefix@, sub);
        }
        let ghost t = self@;
        let descend = match self {
            Node::Leaf(_) => false,
            Node::Branch(b) => b.choice < prefix.len() * 2,
        };
        if !descend {
            proof {
                lemma_prefix_whole(t, prefix@);
            }
            return self;
        }
        proof {
            lemma_prefix_descend(t, prefix@);
        }
        let branch = self.unwrap_branch_mut();
        let index = branch.index(prefix);
        let ghost j = branch.entries.pos(index);
        let child = branch.entry_mut(index);
        proof {
            assert(child@ == t->children[j]);
            assert(t->children[j].wf());
        }
        child.get_prefix_validated_mut(prefix)
    }

    /// The node that holds all and only the entries whose keys begin with
    /// `prefix`, if any key does, to be changed in place.
    pub fn get_prefix_mut(&mut self, prefix: &[u8]) -> (r: Option<&mut Node<V>>)
        requires
            old(self)@.wf(),
            key_len_ok(prefix@),
        ensures
            r is Some <==> old(self)@.has_prefix(prefix@),
            match r {
                Some(n) => {
                    &&& n@.wf()
                    &&& n@.map() == old(self)@.prefix_map(prefix@)
                    &&& n@ is Leaf || n@->choice >= 2 * prefix@.len()
                    &&& Node::prefix_replaced(*old(self), *final(self), prefix@, *final(n))
                    &&& Node::prefix_replaced(*old(self), *final(self), prefix@, *final(n))
                        && Node::prefix_replacement_ok(*old(self), prefix@, *final(n))
                        ==> Node::prefix_replacement_result(*old(self), *final(self), prefix@, *final(n))
                },
                None => *final(self) == *old(self),
            },
    {
        let ghost t = self@;
        let has_prefix = match self {
            Node::Leaf(leaf) => starts_with(leaf.key_slice(), prefix),
            Node::Branch(branch) => {
                let exemplar = branch.get_exemplar(prefix);
                starts_with(exemplar.key_slice(), prefix)
            },
        };
        proof {
            lemma_exemplar_in(t, prefix@);
            if t.has_prefix(prefix@) {
                lemma_exemplar_prefix(t, prefix@);
            }
            if has_prefix {
                assert(t.has_key(t.exemplar(prefix@).0));
            }
        }
        if has_prefix {
            Some(self.get_prefix_validated_mut(prefix))
        } else {
            None
        }
    }
}


/// Replacing the node that holds the entries beginning with `p` by a
/// well-formed node holding the same keys (choosing, if a branch, a position at
/// or past the end of `p`) keeps the trie well formed: the entries beginning
/// with `p` are then those of the new node, and the others are unchanged.
pub proof fn lemma_prefix_replaced<V>(old: Node<V>, new: Node<V>, p: Seq<u8>, sub: Node<V>)
    requires
        old@.wf(),
        old@.has_prefix(p),
        Node::prefix_replaced(old, new, p, sub),
        sub@.wf(),
        sub@.map().dom() == old@.prefix_map(p).dom(),
        sub@ is Leaf || sub@->choice >= 2 * p.len(),
    ensures
        new@.wf(),
        new@.map() == old@.map().remove_keys(prefix_set(p)).union_prefer_right(sub@.map()),
        new@.map().dom() == old@.map().dom(),
        new@ is Branch ==> new@->choice >= (if old@ is Branch && old@->choice < 2 * p.len() {
            old@->choice as int
        } else {
            2 * p.len() as int
        }),
    decreases old,
{
    let t = old@;
    let pset = prefix_set(p);
    let target = t.map().remove_keys(pset).union_prefer_right(sub@.map());
    if old is Leaf || old->Branch_0.choice >= 2 * p.len() {
        lemma_prefix_whole(t, p);
        assert(t.map().remove_keys(pset) =~= Map::empty());
        assert(target =~= sub@.map());
        assert(t.prefix_map(p) =~= t.map());
    } else {
        let b = old->Branch_0;
        let b2 = new->Branch_0;
        let c = b.choice as int;
        let idx = nybble_at(c, p);
        let j = b.entries.pos(idx);
        lemma_prefix_descend(t, p);
        let child = b.children()[j];
        let child2 = b2.children()[j];
        assert(child@ == t->children[j]);
        assert(t->children[j].wf());
        lemma_prefix_replaced(child, child2, p, sub);
        assert(new@->children =~= t->children.update(j, child2@));
        let n = child2@;
        assert forall|k: Seq<u8>| #[trigger] n.has_key(k) implies t.route(k) == t->slots[j] && t.has_key(k) by {
            assert(child@.has_key(k));
            lemma_child_key(t, j, k);
        }
        assert forall|k1: Seq<u8>, k2: Seq<u8>|
            #[trigger] n.has_key(k1) && #[trigger] t.has_key(k2) implies agree_below(k1, k2, c) by {
            crate::tree::lemma_agree_in(t, k1, k2);
        }
        lemma_replace_child(t, j, n);
        assert forall|k: Seq<u8>| #[trigger] new@.has_key(k) <==> target.dom().contains(k) by {
            lemma_route(t, k);
            if child@.has_key(k) {
                lemma_child_key(t, j, k);
            }
            if pset.contains(k) {
                assert(t.route(k) == idx);
            }
        }
        assert forall|k: Seq<u8>| #[trigger] new@.has_key(k) implies new@.map()[k] == target[k] by {
            lemma_route(t, k);
            if child@.has_key(k) {
                lemma_child_key(t, j, k);
            }
            if pset.contains(k) {
                assert(t.route(k) == idx);
            }
        }
        assert(new@.map() =~= target);
    }
    assert(new@.map().dom() =~= t.map().dom());
}


/// The entries that a list of borrowed key/value pairs names.
pub open spec fn borrowed_entries<'a, V>(s: Seq<(&'a Vec<u8>, &'a V)>) -> Seq<(Seq<u8>, V)> {
    s.map_values(|p: (&'a Vec<u8>, &'a V)| (p.0@, *p.1))
}

/// The entries that a list of owned key/value pairs holds.
pub open spec fn owned_entries<V>(s: Seq<(Vec<u8>, V)>) -> Seq<(Seq<u8>, V)> {
    s.map_values(|p: (Vec<u8>, V)| (p.0@, p.1))
}

impl<V> Node<V> {
    /// Appends the entries under this node to `out`, in traversal order.
    fn collect_into<'a>(&'a self, out: &mut Vec<(&'a Vec<u8>, &'a V)>)
        ensures
            borrowed_entries(final(out)@) == borrowed_entries(old(out)@) + self@.entries(),
        decreases self,
    {
        match self {
            Node::Leaf(leaf) => {
                out.push((&leaf.key, &leaf.val));
                assert(borrowed_entries(out@) =~= borrowed_entries(old(out)@) + self@.entries());
            },
            Node::Branch(branch) => {
                let ghost start = borrowed_entries(out@);
                let ghost children = self@->children;
                let mut i: usize = 0;
                while i < branch.entries.entries.len()
                    invariant
                        *self == Node::Branch(*branch),
                        children == self@->children,
                        children.len() == branch.children().len(),
                        i <= children.len(),
                        start + Tree::entries_from(children, 0) == borrowed_entries(out@) + Tree::entries_from(
                            children,
                            i as int,
                        ),
                    decreases children.len() - i,
                {
                    let child = &branch.entries.entries[i];
                    assert(child@ == children[i as int]);
                    let ghost before = borrowed_entries(out@);
                    child.collect_into(out);
                    assert(Tree::entries_from(children, i as int) == children[i as int].entries()
                        + Tree::entries_from(children, i + 1));
                    assert(before + Tree::entries_from(children, i as int) =~= borrowed_entries(out@)
                        + Tree::entries_from(children, i + 1));
                    i = i + 1;
                }
                assert(Tree::entries_from(children, i as int) =~= Seq::<(Seq<u8>, V)>::empty());
                assert(borrowed_entries(out@) =~= start + Tree::entries_from(children, 0));
            },
        }
    }

    /// The entries under this node, borrowed, in traversal order: children in
    /// slot order. Each stored key appears once, with its value.
    pub fn iter(&self) -> (r: Vec<(&Vec<u8>, &V)>)
        ensures
            borrowed_entries(r@) == self@.entries(),
    {
        let mut out: Vec<(&Vec<u8>, &V)> = Vec::new();
        self.collect_into(&mut out);
        assert(borrowed_entries(out@) =~= self@.entries());
        out
    }

    /// Moves the entries under this node to the end of `out`, in traversal
    /// order.
    fn drain_into(self, out: &mut Vec<(Vec<u8>, V)>)
        ensures
            owned_entries(final(out)@) == owned_entries(old(out)@) + self@.entries(),
        decreases self,
    {
        let ghost t = self@;
        let ghost me = self;
        match self {
            Node::Leaf(leaf) => {
                out.push((leaf.key, leaf.val));
                assert(owned_entries(out@) =~= owned_entries(old(out)@) + t.entries());
            },
            Node::Branch(branch) => {
                let ghost start = owned_entries(out@);
                let ghost children = t->children;
                let ghost nodes = branch.children();
                let mut rest = branch.entries.entries;
                let len = rest.len();
                let mut i: usize = 0;
                while rest.len() > 0
                    invariant
                        me == self,
                        len == nodes.len(),
                        me is Branch,
                        nodes == me->Branch_0.entries.entries@,
                        children == t->children,
                        children.len() == nodes.len(),
                        forall|j: int| 0 <= j < nodes.len() ==> #[trigger] nodes[j]@ == children[j],
                        i <= children.len(),
                        rest@ == nodes.subrange(i as int, nodes.len() as int),
                        start + Tree::entries_from(children, 0) == owned_entries(out@) + Tree::entries_from(
                            children,
                            i as int,
                        ),
                    decreases rest@.len(),
                {
                    let child = rest.remove(0);
                    assert(child == nodes[i as int]);
                    assert(child@ == children[i as int]);
                    let ghost before = owned_entries(out@);
                    proof {
                        assert(decreases_to!(me => me->Branch_0.entries.entries[i as int]));
                    }
                    child.drain_into(out);
                    assert(Tree::entries_from(children, i as int) == children[i as int].entries()
                        + Tree::entries_from(children, i + 1));
                    assert(before + Tree::entries_from(children, i as int) =~= owned_entries(out@)
                        + Tree::entries_from(children, i + 1));
                    assert(rest@ =~= nodes.subrange(i + 1, nodes.len() as int));
                    i = i + 1;
                }
                assert(Tree::entries_from(children, i as int) =~= Seq::<(Seq<u8>, V)>::empty());
                assert(owned_entries(out@) =~= start + Tree::entries_from(children, 0));
            },
        }
    }

    /// Consumes the node, handing back its entries in traversal order.
    pub fn into_iter(self) -> (r: Vec<(Vec<u8>, V)>)
        ensures
            owned_entries(r@) == self@.entries(),
    {
        let mut out: Vec<(Vec<u8>, V)> = Vec::new();
        let ghost t = self@;
        self.drain_into(&mut out);
        assert(owned_entries(out@) =~= t.entries());
        out
    }
}


impl<V> Branch<V> {
    /// An iterator over the children, in slot order.
    pub fn iter(&self) -> (r: std::slice::Iter<'_, Node<V>>)
        ensures
            r.remaining().unref() == self.children(),
    {
        let s = self.entries.entries.as_slice();
        let r = s.iter();
        proof {
            vstd::std_specs::slice::axiom_spec_slice_iter(s);
            assert(s@.as_ref().unref() =~= s@);
        }
        r
    }
}


impl<V> Branch<V> {
    /// The children, in slot order, to be changed in place.
    pub fn iter_mut(&mut self) -> (r: &mut [Node<V>])
        ensures
            r@ == old(self).children(),
            final(self).choice == old(self).choice,
            final(self).entries.keys@ == old(self).entries.keys@,
            final(self).children() == final(r)@,
    {
        self.entries.entries.as_mut_slice()
    }

    /// Consumes the branch, handing back an iterator over its children in
    /// slot order.
    pub fn into_iter(self) -> (r: std::vec::IntoIter<Node<V>>)
        ensures
            r.remaining() == self.children(),
    {
        let v = self.entries.entries;
        let r = v.into_iter();
        proof {
            vstd::std_specs::vec::axiom_spec_into_iter(v);
        }
        r
    }
}


impl<V> Leaf<V> {
    /// Leaves are equal when their keys are; values are not compared.
    pub fn leaves_eq(&self, rhs: &Leaf<V>) -> (r: bool)
        ensures
            r == (self.key@ == rhs.key@),
    {
        bytes_eq(self.key_slice(), rhs.key_slice())
    }
}

impl<V> Branch<V> {
    /// Branches are equal when they choose the same position, use the same
    /// slots, and their children are pairwise equal.
    pub fn branches_eq(&self, rhs: &Branch<V>) -> (r: bool)
        ensures
            r == self@.key_eq(rhs@),
        decreases self,
    {
        if self.choice != rhs.choice {
            return false;
        }
        if !bytes_eq(self.entries.keys.as_slice(), rhs.entries.keys.as_slice()) {
            return false;
        }
        if self.entries.entries.len() != rhs.entries.entries.len() {
            return false;
        }
        let mut i: usize = 0;
        while i < self.entries.entries.len()
            invariant
                self.children().len() == rhs.children().len(),
                i <= self.children().len(),
                forall|j: int| 0 <= j < i ==> (#[trigger] self@->children[j]).key_eq(rhs@->children[j]),
            decreases self.children().len() - i,
        {
            let a = &self.entries.entries[i];
            let b = &rhs.entries.entries[i];
            assert(a@ == self@->children[i as int]);
            assert(b@ == rhs@->children[i as int]);
            if !a.nodes_eq(b) {
                return false;
            }
            i = i + 1;
        }
        true
    }
}

impl<V> Node<V> {
    /// Nodes are equal when both are leaves with equal keys, or both are
    /// branches that are equal as branches; values are not compared.
    pub fn nodes_eq(&self, rhs: &Node<V>) -> (r: bool)
        ensures
            r == self@.key_eq(rhs@),
        decreases self,
    {
        match (self, rhs) {
            (Node::Leaf(l), Node::Leaf(r)) => l.leaves_eq(r),
            (Node::Branch(l), Node::Branch(r)) => l.branches_eq(r),
            _ => false,
        }
    }
}

impl<V> PartialEq for Leaf<V> {
    fn eq(&self, rhs: &Leaf<V>) -> (r: bool) {
        self.leaves_eq(rhs)
    }
}

impl<V> vstd::std_specs::cmp::PartialEqSpecImpl for Leaf<V> {
    open spec fn obeys_eq_spec() -> bool {
        true
    }

    open spec fn eq_spec(&self, other: &Leaf<V>) -> bool {
        self.key@ == other.key@
    }
}

impl<V> PartialEq for Branch<V> {
    fn eq(&self, rhs: &Branch<V>) -> (r: bool) {
        self.branches_eq(rhs)
    }
}

impl<V> vstd::std_specs::cmp::PartialEqSpecImpl for Branch<V> {
    open spec fn obeys_eq_spec() -> bool {
        true
    }

    open spec fn eq_spec(&self, other: &Branch<V>) -> bool {
        self@.key_eq(other@)
    }
}

impl<V> PartialEq for Node<V> {
    fn eq(&self, rhs: &Node<V>) -> (r: bool) {
        self.nodes_eq(rhs)
    }
}

impl<V> vstd::std_specs::cmp::PartialEqSpecImpl for Node<V> {
    open spec fn obeys_eq_spec() -> bool {
        true
    }

    open spec fn eq_spec(&self, other: &Node<V>) -> bool {
        self@.key_eq(other@)
    }
}


impl<V: Clone> Leaf<V> {
    /// A copy of the leaf: the same key, and a clone of the value.
    pub fn clone_leaf(&self) -> (r: Leaf<V>)
        ensures
            r.key@ == self.key@,
            cloned(self.val, r.val),
    {
        let key = self.key.clone();
        assert(key@ =~= self.key@);
        Leaf { key, val: self.val.clone() }
    }
}

impl<V: Clone> Branch<V> {
    /// A copy of the branch: the same choice and slots, and a copy of each
    /// child.
    pub fn clone_branch(&self) -> (r: Branch<V>)
        ensures
            self@.clone_of(r@),
            r@.map().dom() == self@.map().dom(),
            forall|k: Seq<u8>| self@.map().dom().contains(k) ==> cloned(self@.map()[k], #[trigger] r@.map()[k]),
            r@.wf() == self@.wf(),
            r.entries_ok() == self.entries_ok(),
        decreases self,
    {
        let keys = self.entries.keys.clone();
        assert(keys@ =~= self.entries.keys@);
        let mut entries: Vec<Node<V>> = Vec::new();
        let mut i: usize = 0;
        while i < self.entries.entries.len()
            invariant
                i <= self.children().len(),
                entries@.len() == i,
                forall|j: int| 0 <= j < i ==> (#[trigger] self@->children[j]).clone_of(entries@[j]@),
            decreases self.children().len() - i,
        {
            let child = &self.entries.entries[i];
            assert(child@ == self@->children[i as int]);
            entries.push(child.clone_node());
            i = i + 1;
        }
        let r = Branch { choice: self.choice, entries: Sparse { keys, entries } };
        assert forall|j: int| 0 <= j < self@->children.len() implies (#[trigger] self@->children[j]).clone_of(
            r@->children[j],
        ) by {
            assert(r@->children[j] == entries@[j]@);
        }
        proof {
            crate::laws::law_clone_same_entries(self@, r@);
        }
        r
    }
}

impl<V: Clone> Node<V> {
    /// A copy of the node: the same shape and keys, and a clone of each value.
    pub fn clone_node(&self) -> (r: Node<V>)
        ensures
            self@.clone_of(r@),
            r@.map().dom() == self@.map().dom(),
            forall|k: Seq<u8>| self@.map().dom().contains(k) ==> cloned(self@.map()[k], #[trigger] r@.map()[k]),
            r@.wf() == self@.wf(),
        decreases self,
    {
        let r = match self {
            Node::Leaf(leaf) => Node::Leaf(leaf.clone_leaf()),
            Node::Branch(branch) => Node::Branch(branch.clone_branch()),
        };
        proof {
            crate::laws::law_clone_same_entries(self@, r@);
        }
        r
    }
}

impl<V: Clone> Clone for Leaf<V> {
    fn clone(&self) -> (r: Leaf<V>)
        ensures
            r.key@ == self.key@,
            cloned(self.val, r.val),
    {
        self.clone_leaf()
    }
}

impl<V: Clone> Clone for Branch<V> {
    fn clone(&self) -> (r: Branch<V>)
        ensures
            self@.clone_of(r@),
            r@.map().dom() == self@.map().dom(),
            forall|k: Seq<u8>| self@.map().dom().contains(k) ==> cloned(self@.map()[k], #[trigger] r@.map()[k]),
            r@.wf() == self@.wf(),
    {
        self.clone_branch()
    }
}

impl<V: Clone> Clone for Node<V> {
    fn clone(&self) -> (r: Node<V>)
        ensures
            self@.clone_of(r@),
            r@.map().dom() == self@.map().dom(),
            forall|k: Seq<u8>| self@.map().dom().contains(k) ==> cloned(self@.map()[k], #[trigger] r@.map()[k]),
            r@.wf() == self@.wf(),
    {
        self.clone_node()
    }
}


/// The views of a list of nodes.
pub open spec fn views<V>(s: Seq<Node<V>>) -> Seq<Tree<V>> {
    s.map_values(|n: Node<V>| n@)
}

/// The traversal of a nonempty list of nodes is that of its first node
/// followed by that of the rest.
proof fn lemma_entries_cons<V>(x: Seq<Node<V>>)
    requires
        x.len() > 0,
    ensures
        Tree::entries_from(views(x), 0) == x[0]@.entries() + Tree::entries_from(
            views(x.subrange(1, x.len() as int)),
            0,
        ),
{
    let vs = views(x);
    lemma_from_shift(vs, 1);
    assert(vs.subrange(1, vs.len() as int) =~= views(x.subrange(1, x.len() as int)));
}

/// The traversal of a branch node is that of its children.
proof fn lemma_branch_entries<V>(b: Branch<V>)
    ensures
        Node::Branch(b)@.entries() == Tree::entries_from(views(b.children()), 0),
        Node::Branch(b)@.size() == 1 + Tree::size_from(views(b.children()), 0),
{
    assert(b@->children =~= views(b.children()));
}

/// Appends to `out` the entries under the nodes of `s`, in traversal order,
/// each key borrowed and each value to be changed in place.
#[verifier::rlimit(40)]
fn collect_slice_mut<'a, V>(s: &'a mut [Node<V>], out: &mut Vec<(&'a Vec<u8>, &'a mut V)>)
    ensures
        ({
            let es = Tree::entries_from(views(old(s)@), 0);
            let n = old(out)@.len();
            &&& final(out)@.len() == n + es.len()
            &&& final(out)@.subrange(0, n as int) == old(out)@
            &&& forall|i: int|
                0 <= i < es.len() ==> (#[trigger] final(out)@[n + i]).0@ == es[i].0 && *final(out)@[n + i].1
                    == es[i].1
            &&& final(s)@.len() == old(s)@.len()
            &&& forall|j: int| 0 <= j < old(s)@.len() ==> (#[trigger] final(s)@[j])@.key_eq(old(s)@[j]@)
            &&& Tree::entries_from(views(final(s)@), 0).len() == es.len()
            &&& forall|i: int|
                0 <= i < es.len() ==> #[trigger] Tree::entries_from(views(final(s)@), 0)[i] == (
                    es[i].0,
                    *final(final(out)@[n + i].1),
                )
        }),
    decreases Tree::size_from(views(old(s)@), 0), 1nat,
{
    if s.len() == 0 {
        assert(final(out)@.subrange(0, old(out)@.len() as int) =~= old(out)@);
        return;
    }
    let ghost vs = views(s@);
    proof {
        lemma_from_shift(vs, 1);
        assert(vs.subrange(1, vs.len() as int) =~= views(s@.subrange(1, s@.len() as int)));
        lemma_size_positive(vs[0]);
        lemma_entries_cons(s@);
        assert forall|x: Seq<Node<V>>| x.len() > 0 implies #[trigger] Tree::entries_from(views(x), 0) == x[0]@.entries()
            + Tree::entries_from(views(x.subrange(1, x.len() as int)), 0) by {
            lemma_entries_cons(x);
        }
        assert forall|x: Seq<Node<V>>, y: Seq<Node<V>>| x.len() == 1 implies (#[trigger] (x + y).subrange(
            1,
            (x + y).len() as int,
        )) == y && (x + y)[0] == x[0] && (x + y).len() > 0 by {
            assert((x + y).subrange(1, (x + y).len() as int) =~= y);
        }
    }
    let ghost n = out@.len();
    let ghost es = Tree::entries_from(vs, 0);
    let ghost tail = s@.subrange(1, s@.len() as int);
    let ghost e0 = vs[0].entries();
    let (first, rest) = s.split_at_mut(1);
    match first.first_mut() {
        Some(node) => {
            let ghost er = Tree::entries_from(views(rest@), 0);
            proof {
                assert(rest@ == tail);
                assert(es == e0 + er);
            }
            node.collect_mut(out);
            let ghost out1 = out@;
            collect_slice_mut(rest, out);
            proof {
                assert forall|i: int| 0 <= i < es.len() implies (#[trigger] out@[n + i]).0@ == es[i].0
                    && *out@[n + i].1 == es[i].1 by {
                    if i < e0.len() {
                        assert(out@[n + i] == out1[n + i]);
                    } else {
                        let j = i - e0.len();
                        assert(out@[n + e0.len() + j] == out@[n + i]);
                    }
                }
                assert forall|i: int| 0 <= i < e0.len() implies #[trigger] out@[n + i] == out1[n + i] by {
                    assert(out@.subrange(0, out1.len() as int)[n + i] == out1[n + i]);
                }
                assert(out@.subrange(0, n as int) =~= old(out)@);
            }
        },
        None => {},
    }
}

impl<V> Node<V> {
    /// Appends to `out` the entries under this node, in traversal order, each
    /// key borrowed and each value to be changed in place.
    fn collect_mut<'a>(&'a mut self, out: &mut Vec<(&'a Vec<u8>, &'a mut V)>)
        ensures
            ({
                let es = old(self)@.entries();
                let n = old(out)@.len();
                &&& final(out)@.len() == n + es.len()
                &&& final(out)@.subrange(0, n as int) == old(out)@
                &&& forall|i: int|
                    0 <= i < es.len() ==> (#[trigger] final(out)@[n + i]).0@ == es[i].0 && *final(out)@[n
                        + i].1 == es[i].1
                &&& final(self)@.key_eq(old(self)@)
                &&& final(self)@.entries().len() == es.len()
                &&& forall|i: int|
                    0 <= i < es.len() ==> #[trigger] final(self)@.entries()[i] == (
                        es[i].0,
                        *final(final(out)@[n + i].1),
                    )
            }),
        decreases old(self)@.size(), 0nat,
    {
        proof {
            assert forall|b: Branch<V>| #[trigger] Node::Branch(b)@.entries() == Tree::entries_from(
                views(b.children()),
                0,
            ) by {
                lemma_branch_entries(b);
            }
            assert forall|l: Leaf<V>| #[trigger] Node::Leaf(l)@.entries() == seq![(l.key@, l.val)] by {
            }
            lemma_branch_entries(self->Branch_0);
        }
        match self {
            Node::Leaf(leaf) => {
                out.push((&leaf.key, &mut leaf.val));
            },
            Node::Branch(branch) => {
                let ghost children = branch@->children;
                let s = branch.entries.entries.as_mut_slice();
                proof {
                    assert(views(s@) =~= children);
                }
                collect_slice_mut(s, out);
            },
        }
    }
}


impl<V> Node<V> {
    /// The entries under this node in traversal order, each key borrowed and
    /// each value to be changed in place. The node keeps its shape and keys;
    /// its values become those written through the references.
    pub fn iter_mut(&mut self) -> (r: Vec<(&Vec<u8>, &mut V)>)
        ensures
            r@.len() == old(self)@.entries().len(),
            forall|i: int|
                0 <= i < r@.len() ==> (#[trigger] r@[i]).0@ == old(self)@.entries()[i].0 && *r@[i].1 == old(
                    self,
                )@.entries()[i].1,
            final(self)@.key_eq(old(self)@),
            final(self)@.entries().len() == r@.len(),
            forall|i: int|
                0 <= i < r@.len() ==> #[trigger] final(self)@.entries()[i] == (
                    old(self)@.entries()[i].0,
                    *final(r@[i].1),
                ),
    {
        let mut out: Vec<(&Vec<u8>, &mut V)> = Vec::new();
        self.collect_mut(&mut out);
        proof {
            assert forall|i: int| 0 <= i < out@.len() implies out@[0 + i] == #[trigger] out@[i] by {
            }
        }
        out
    }
}

} // verus!
