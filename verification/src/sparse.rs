//! A sparse array addressed by nybble index: at most `NYBBLE_SLOTS` entries,
//! each filed under a distinct slot, stored densely in slot order.

use vstd::prelude::*;
use crate::nybble::NYBBLE_SLOTS;

verus! {

/// Slot lists as a sparse array keeps them: strictly increasing, each below
/// `NYBBLE_SLOTS`.
pub open spec fn slots_wf(slots: Seq<u8>) -> bool {
    &&& forall|i: int, j: int| 0 <= i < j < slots.len() ==> slots[i] < slots[j]
    &&& forall|i: int| 0 <= i < slots.len() ==> slots[i] < NYBBLE_SLOTS
}

/// Scanning from position `i`, the first position whose slot is not below `idx`.
pub open spec fn rank_from(slots: Seq<u8>, idx: u8, i: int) -> int
    decreases slots.len() - i,
{
    if 0 <= i < slots.len() && slots[i] < idx {
        rank_from(slots, idx, i + 1)
    } else {
        i
    }
}

/// The position at which slot `idx` is, or would be, stored: the number of
/// slots below `idx`.
pub open spec fn rank(slots: Seq<u8>, idx: u8) -> int {
    rank_from(slots, idx, 0)
}

proof fn lemma_rank_from(slots: Seq<u8>, idx: u8, i: int)
    requires
        slots_wf(slots),
        0 <= i <= slots.len(),
        forall|j: int| 0 <= j < i ==> slots[j] < idx,
    ensures
        0 <= rank_from(slots, idx, i) <= slots.len(),
        forall|j: int| 0 <= j < rank_from(slots, idx, i) ==> slots[j] < idx,
        forall|j: int| rank_from(slots, idx, i) <= j < slots.len() ==> slots[j] >= idx,
    decreases slots.len() - i,
{
    if i < slots.len() && slots[i] < idx {
        lemma_rank_from(slots, idx, i + 1);
    } else if i < slots.len() {
        assert forall|j: int| i <= j < slots.len() implies slots[j] >= idx by {
            if j > i {
                assert(slots[i] < slots[j]);
            }
        }
    }
}

/// What `rank` is on a well-formed slot list: every slot before it is below
/// `idx`, every slot from it on is not, and `idx` is present exactly when it
/// sits at that position.
pub proof fn lemma_rank(slots: Seq<u8>, idx: u8)
    requires
        slots_wf(slots),
    ensures
        0 <= rank(slots, idx) <= slots.len(),
        forall|j: int| 0 <= j < rank(slots, idx) ==> slots[j] < idx,
        forall|j: int| rank(slots, idx) <= j < slots.len() ==> slots[j] >= idx,
        slots.contains(idx) <==> (rank(slots, idx) < slots.len() && slots[rank(slots, idx)] == idx),
        forall|j: int| 0 <= j < slots.len() && slots[j] == idx ==> j == rank(slots, idx),
{
    lemma_rank_from(slots, idx, 0);
    let r = rank(slots, idx);
    assert forall|j: int| 0 <= j < slots.len() && slots[j] == idx implies j == r by {
        if j < r {
        } else if j > r {
            assert(slots[r] < slots[j]);
        }
    }
    if slots.contains(idx) {
        let j = choose|j: int| 0 <= j < slots.len() && slots[j] == idx;
        assert(j == r);
    }
}

/// Inserting a slot at its rank keeps a slot list well formed.
pub proof fn lemma_insert_slot(slots: Seq<u8>, idx: u8)
    requires
        slots_wf(slots),
        !slots.contains(idx),
        idx < NYBBLE_SLOTS,
    ensures
        slots_wf(slots.insert(rank(slots, idx), idx)),
        slots.insert(rank(slots, idx), idx).len() == slots.len() + 1,
        slots.insert(rank(slots, idx), idx)[rank(slots, idx)] == idx,
{
    lemma_rank(slots, idx);
    let r = rank(slots, idx);
    let s2 = slots.insert(r, idx);
    assert forall|i: int, j: int| 0 <= i < j < s2.len() implies s2[i] < s2[j] by {
        if r < slots.len() {
            assert(slots[r] != idx);
        }
        if i < r && j == r {
        } else if i == r && j > r {
            assert(s2[j] == slots[j - 1]);
            assert(slots[j - 1] >= idx);
        } else if i < r && j > r {
            assert(s2[j] == slots[j - 1]);
        } else if i > r {
            assert(s2[i] == slots[i - 1]);
            assert(s2[j] == slots[j - 1]);
        }
    }
}

/// Removing a slot keeps a slot list well formed.
pub proof fn lemma_remove_slot(slots: Seq<u8>, p: int)
    requires
        slots_wf(slots),
        0 <= p < slots.len(),
    ensures
        slots_wf(slots.remove(p)),
{
    let s2 = slots.remove(p);
    assert forall|i: int, j: int| 0 <= i < j < s2.len() implies s2[i] < s2[j] by {
        if i >= p {
            assert(s2[i] == slots[i + 1]);
        }
        if j >= p {
            assert(s2[j] == slots[j + 1]);
        }
    }
}

/// A sparse array of at most `NYBBLE_SLOTS` entries. `keys[i]` is the slot of
/// `entries[i]`; slots are strictly increasing.
pub struct Sparse<T> {
    pub keys: Vec<u8>,
    pub entries: Vec<T>,
}

impl<T> Sparse<T> {
    /// One slot per entry, slots in increasing order and in range.
    pub open spec fn wf(&self) -> bool {
        &&& self.keys@.len() == self.entries@.len()
        &&& slots_wf(self.keys@)
    }

    /// Whether slot `idx` holds an entry.
    pub open spec fn has(&self, idx: u8) -> bool {
        self.keys@.contains(idx)
    }

    /// The position in `entries` of slot `idx`.
    pub open spec fn pos(&self, idx: u8) -> int {
        rank(self.keys@, idx)
    }

    /// An empty sparse array.
    pub fn new() -> (r: Sparse<T>)
        ensures
            r.keys@ == Seq::<u8>::empty(),
            r.entries@ == Seq::<T>::empty(),
            r.wf(),
    {
        Sparse { keys: Vec::new(), entries: Vec::new() }
    }

    /// The number of entries.
    pub fn len(&self) -> (r: usize)
        ensures
            r == self.entries@.len(),
    {
        self.entries.len()
    }

    /// The position of slot `idx` in the dense entry list.
    fn actual(&self, idx: u8) -> (r: usize)
        requires
            self.wf(),
        ensures
            r == self.pos(idx),
            r <= self.entries@.len(),
    {
        let mut i: usize = 0;
        while i < self.keys.len() && self.keys[i] < idx
            invariant
                self.wf(),
                i <= self.keys@.len(),
                rank_from(self.keys@, idx, i as int) == rank(self.keys@, idx),
            decreases self.keys@.len() - i,
        {
            i = i + 1;
        }
        proof {
            lemma_rank(self.keys@, idx);
        }
        i
    }

    /// Whether slot `idx` holds an entry.
    pub fn contains(&self, idx: u8) -> (r: bool)
        requires
            self.wf(),
        ensures
            r == self.has(idx),
    {
        proof {
            lemma_rank(self.keys@, idx);
        }
        let i = self.actual(idx);
        i < self.keys.len() && self.keys[i] == idx
    }

    /// The entry in slot `idx`, if there is one.
    pub fn get(&self, idx: u8) -> (r: Option<&T>)
        requires
            self.wf(),
        ensures
            self.has(idx) ==> r == Some(&self.entries@[self.pos(idx)]),
            !self.has(idx) ==> r is None,
    {
        proof {
            lemma_rank(self.keys@, idx);
        }
        let i = self.actual(idx);
        if i < self.keys.len() && self.keys[i] == idx {
            Some(&self.entries[i])
        } else {
            None
        }
    }

    /// The entry in slot `idx`, if there is one, to be changed in place.
    pub fn get_mut(&mut self, idx: u8) -> (r: Option<&mut T>)
        requires
            old(self).wf(),
        ensures
            final(self).keys@ == old(self).keys@,
            match r {
                Some(e) => {
                    &&& old(self).has(idx)
                    &&& *e == old(self).entries@[old(self).pos(idx)]
                    &&& final(self).entries@ == old(self).entries@.update(old(self).pos(idx), *final(e))
                },
                None => !old(self).has(idx) && final(self).entries@ == old(self).entries@,
            },
    {
        proof {
            lemma_rank(self.keys@, idx);
        }
        let i = self.actual(idx);
        if i < self.keys.len() && self.keys[i] == idx {
            Some(&mut self.entries[i])
        } else {
            None
        }
    }

    /// The entry in slot `idx` if there is one, else the first entry.
    pub fn get_or_any(&self, idx: u8) -> (r: &T)
        requires
            self.wf(),
            self.entries@.len() > 0,
        ensures
            *r == self.entries@[if self.has(idx) { self.pos(idx) } else { 0 }],
    {
        proof {
            lemma_rank(self.keys@, idx);
        }
        let i = self.actual(idx);
        if i < self.keys.len() && self.keys[i] == idx {
            &self.entries[i]
        } else {
            &self.entries[0]
        }
    }

    /// The entry in slot `idx` if there is one, else the first entry, to be
    /// changed in place.
    pub fn get_or_any_mut(&mut self, idx: u8) -> (r: &mut T)
        requires
            old(self).wf(),
            old(self).entries@.len() > 0,
        ensures
            final(self).keys@ == old(self).keys@,
            *r == old(self).entries@[if old(self).has(idx) { old(self).pos(idx) } else { 0 }],
            final(self).entries@ == old(self).entries@.update(
                if old(self).has(idx) { old(self).pos(idx) } else { 0 },
                *final(r),
            ),
    {
        proof {
            lemma_rank(self.keys@, idx);
        }
        let i = self.actual(idx);
        if i < self.keys.len() && self.keys[i] == idx {
            &mut self.entries[i]
        } else {
            &mut self.entries[0]
        }
    }

    /// Files `elt` under the empty slot `idx` and hands it back in place.
    pub fn insert(&mut self, idx: u8, elt: T) -> (r: &mut T)
        requires
            old(self).wf(),
            !old(self).has(idx),
            idx < NYBBLE_SLOTS,
        ensures
            final(self).keys@ == old(self).keys@.insert(old(self).pos(idx), idx),
            *r == elt,
            final(self).entries@ == old(self).entries@.insert(old(self).pos(idx), *final(r)),
            final(self).wf(),
    {
        proof {
            lemma_rank(self.keys@, idx);
            lemma_insert_slot(self.keys@, idx);
        }
        let i = self.actual(idx);
        self.keys.insert(i, idx);
        self.entries.insert(i, elt);
        assert(forall|x: T| #[trigger] old(self).entries@.insert(i as int, elt).update(i as int, x)
            =~= old(self).entries@.insert(i as int, x));
        &mut self.entries[i]
    }

    /// Takes the entry out of the occupied slot `idx`.
    pub fn remove(&mut self, idx: u8) -> (r: T)
        requires
            old(self).wf(),
            old(self).has(idx),
        ensures
            r == old(self).entries@[old(self).pos(idx)],
            final(self).keys@ == old(self).keys@.remove(old(self).pos(idx)),
            final(self).entries@ == old(self).entries@.remove(old(self).pos(idx)),
            final(self).wf(),
    {
        proof {
            lemma_rank(self.keys@, idx);
            lemma_remove_slot(self.keys@, rank(self.keys@, idx));
        }
        let i = self.actual(idx);
        self.keys.remove(i);
        self.entries.remove(i)
    }

    /// Takes out the only entry, leaving the array empty.
    pub fn clear_last(&mut self) -> (r: T)
        requires
            old(self).wf(),
            old(self).entries@.len() == 1,
        ensures
            r == old(self).entries@[0],
            final(self).keys@ == Seq::<u8>::empty(),
            final(self).entries@ == Seq::<T>::empty(),
            final(self).wf(),
    {
        self.keys.clear();
        let r = self.entries.remove(0);
        assert(self.entries@ =~= Seq::<T>::empty());
        r
    }
}

} // verus!
