//! The storage itself: the table of groups, the stack of free slots, what
//! they mean, and the operations that read and write values in place.
//!
//! Contracts speak of a storage through `table` and `free_list`, the two
//! sequences it is made of, and through its view, the map from each live
//! index to its value. The operations that change which indices are live are
//! in the modules below.

use crate::group::{InterleavedGroup, SPARSE_RATIO};
use vstd::prelude::*;

pub mod clean;
pub mod grow;
pub mod insert;
pub mod remove;

verus! {

/// Values of type `T` under sparse indices, kept in a table of groups.
pub struct IDVStorage<T> {
    inner: Vec<InterleavedGroup<T>>,
    free_slots: Vec<usize>,
}

impl<T> View for IDVStorage<T> {
    type V = Map<usize, T>;

    /// The live sparse indices, each with its value.
    open spec fn view(&self) -> Map<usize, T> {
        Map::new(
            |idx: usize| self.holds(idx),
            |idx: usize| self.table()[self.slot_of(idx) as int].data.unwrap(),
        )
    }
}

impl<T> IDVStorage<T> {
    /// The backing table, one group per dense slot.
    pub closed spec fn table(&self) -> Seq<InterleavedGroup<T>> {
        self.inner@
    }

    /// The stack of free slots; the last one is handed out first.
    pub closed spec fn free_list(&self) -> Seq<usize> {
        self.free_slots@
    }

    /// The length of the table divided by the number of indices to a group.
    /// The table is grown before an insertion until this is no less than the
    /// index, and so no less than the index of its home group.
    pub open spec fn reach(&self) -> nat {
        self.table().len() / (SPARSE_RATIO as nat)
    }

    /// Whether the table has the home group of `idx`.
    pub open spec fn covers(&self, idx: usize) -> bool {
        idx / SPARSE_RATIO < self.table().len()
    }

    /// The dense slot that the redirect entry of `idx` names. It is the slot
    /// of the value of `idx` while `idx` is live, and stale otherwise.
    pub open spec fn slot_of(&self, idx: usize) -> usize {
        self.table()[(idx / SPARSE_RATIO) as int].redirects@[(idx % SPARSE_RATIO) as int]
    }

    /// Whether `idx` is live: its redirect entry names a slot whose payload
    /// is present and belongs to `idx`.
    pub open spec fn holds(&self, idx: usize) -> bool {
        &&& self.covers(idx)
        &&& self.slot_of(idx) < self.table().len()
        &&& self.table()[self.slot_of(idx) as int].data is Some
        &&& self.table()[self.slot_of(idx) as int].owner == idx
    }

    /// The invariant of the storage: a slot is on the free list exactly when
    /// its payload is empty, no slot is on the list twice, and the reach of
    /// the table is no less than the owner of any payload.
    pub open spec fn wf(&self) -> bool {
        &&& self.table().len() <= usize::MAX
        &&& self.free_list().no_duplicates()
        &&& forall|i: int|
            0 <= i < self.free_list().len() ==> {
                &&& (#[trigger] self.free_list()[i]) < self.table().len()
                &&& self.table()[self.free_list()[i] as int].data is None
            }
        &&& forall|p: int|
            0 <= p < self.table().len() && (#[trigger] self.table()[p]).data is None
                ==> self.free_list().contains(p as usize)
        &&& forall|p: int|
            0 <= p < self.table().len() && (#[trigger] self.table()[p]).data is Some
                ==> self.table()[p].owner <= self.reach()
    }

    /// The number of groups in the table.
    pub fn table_len(&self) -> (n: usize)
        ensures
            n == self.table().len(),
    {
        self.inner.len()
    }

    /// The number of free slots.
    pub fn free_count(&self) -> (n: usize)
        ensures
            n == self.free_list().len(),
    {
        self.free_slots.len()
    }

    /// The dense slot that the redirect entry of `idx` names.
    pub fn resolve_to_internal(&self, idx: usize) -> (slot: usize)
        requires
            self.covers(idx),
        ensures
            slot == self.slot_of(idx),
    {
        let group_idx: usize = idx / SPARSE_RATIO;
        let group_sub: usize = idx % SPARSE_RATIO;
        self.inner[group_idx].redirects[group_sub]
    }

    /// Whether `idx` is live.
    pub fn contains(&self, idx: usize) -> (live: bool)
        ensures
            live == self@.dom().contains(idx),
    {
        if idx / SPARSE_RATIO >= self.inner.len() {
            return false;
        }
        let internal: usize = self.resolve_to_internal(idx);
        internal < self.inner.len() && self.inner[internal].data.is_some()
            && self.inner[internal].owner == idx
    }

    /// The value of `idx`, or `None` where `idx` is not live.
    pub fn c_get(&self, idx: usize) -> (found: Option<&T>)
        ensures
            found == (if self@.dom().contains(idx) {
                Some(&self@[idx])
            } else {
                None
            }),
    {
        if self.contains(idx) {
            let internal: usize = self.resolve_to_internal(idx);
            self.inner[internal].data.as_ref()
        } else {
            None
        }
    }

    /// The value of the live index `idx`, read through its redirect entry
    /// with no check at run time.
    pub fn get(&self, idx: u32) -> (value: &T)
        requires
            self@.dom().contains(idx as usize),
        ensures
            *value == self@[idx as usize],
    {
        let internal: usize = self.resolve_to_internal(idx as usize);
        self.inner[internal].data.as_ref().unwrap()
    }

    /// `post` is `self` with `v` in place of the value of the live index
    /// `idx`. The table is otherwise the same, and so is the free list.
    pub open spec fn revalued(&self, post: Self, idx: usize, v: T) -> bool {
        let slot = self.slot_of(idx) as int;
        &&& post.free_list() == self.free_list()
        &&& post.table().len() == self.table().len()
        &&& forall|p: int|
            0 <= p < self.table().len() && p != slot ==> (#[trigger] post.table()[p])
                == self.table()[p]
        &&& post.table()[slot].redirects == self.table()[slot].redirects
        &&& post.table()[slot].owner == self.table()[slot].owner
        &&& post.table()[slot].data == Some(v)
    }

    /// Access to the value of `idx` for writing, or `None` where `idx` is not
    /// live. What is written becomes the value of `idx`; no other index is
    /// affected.
    pub fn c_get_mut(&mut self, idx: usize) -> (found: Option<&mut T>)
        ensures
            match found {
                Some(value) => {
                    &&& old(self)@.dom().contains(idx)
                    &&& *value == old(self)@[idx]
                    &&& old(self).revalued(*final(self), idx, *final(value))
                    &&& final(self)@ == old(self)@.insert(idx, *final(value))
                    &&& old(self).wf() ==> final(self).wf()
                },
                None => !old(self)@.dom().contains(idx) && *final(self) == *old(self),
            },
    {
        proof {
            let pre = *self;
            assert forall|post: Self, v: T| #[trigger] pre.revalued(post, idx, v) && pre.holds(idx) implies post@
                == pre@.insert(idx, v) && (pre.wf() ==> post.wf()) by {
                pre.lemma_revalued(post, idx, v);
            }
        }
        if self.contains(idx) {
            let internal: usize = self.resolve_to_internal(idx);
            self.inner[internal].data.as_mut()
        } else {
            None
        }
    }

    /// Access to the value of the live index `idx` for writing, with no check
    /// at run time.
    pub fn get_mut(&mut self, idx: u32) -> (value: &mut T)
        requires
            old(self)@.dom().contains(idx as usize),
        ensures
            *value == old(self)@[idx as usize],
            old(self).revalued(*final(self), idx as usize, *final(value)),
            final(self)@ == old(self)@.insert(idx as usize, *final(value)),
            old(self).wf() ==> final(self).wf(),
    {
        proof {
            let pre = *self;
            assert forall|post: Self, v: T| #[trigger] pre.revalued(post, idx as usize, v) implies post@
                == pre@.insert(idx as usize, v) && (pre.wf() ==> post.wf()) by {
                pre.lemma_revalued(post, idx as usize, v);
            }
        }
        let internal: usize = self.resolve_to_internal(idx as usize);
        self.inner[internal].data.as_mut().unwrap()
    }

    /// Writing to the value of a live index keeps the invariant and changes
    /// the value of that index alone.
    pub proof fn lemma_revalued(&self, post: Self, idx: usize, v: T)
        requires
            self.holds(idx),
            self.revalued(post, idx, v),
        ensures
            self.wf() ==> post.wf(),
            post@ == self@.insert(idx, v),
    {
    }
}

impl<T> Default for IDVStorage<T> {
    /// An empty storage: no group, no free slot, no live index.
    fn default() -> (s: Self)
        ensures
            s.wf(),
            s.table().len() == 0,
            s.free_list().len() == 0,
            s@ == Map::<usize, T>::empty(),
    {
        let s = IDVStorage { inner: Vec::new(), free_slots: Vec::new() };
        proof {
            assert(s@ =~= Map::<usize, T>::empty());
        }
        s
    }
}

} // verus!
