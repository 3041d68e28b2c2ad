//! Removal of one index.

use crate::group::SPARSE_RATIO;
use crate::storage::IDVStorage;
use vstd::prelude::*;

verus! {

impl<T> IDVStorage<T> {
    /// `post` is `self` after the live index `idx` was removed: its slot has
    /// lost its payload and is the last on the free list. The redirect entry
    /// of `idx` still names that slot.
    pub open spec fn removed(&self, post: Self, idx: usize) -> bool {
        let slot = self.slot_of(idx);
        &&& post.free_list() == self.free_list().push(slot)
        &&& post.table().len() == self.table().len()
        &&& forall|p: int|
            0 <= p < self.table().len() && p != slot ==> (#[trigger] post.table()[p])
                == self.table()[p]
        &&& post.table()[slot as int].redirects == self.table()[slot as int].redirects
        &&& post.table()[slot as int].owner == self.table()[slot as int].owner
        &&& post.table()[slot as int].data is None
    }

    /// Takes the value of the live index `idx` out of its slot and frees the
    /// slot.
    fn release(&mut self, idx: usize) -> (value: T)
        requires
            old(self).wf(),
            old(self)@.dom().contains(idx),
        ensures
            final(self).wf(),
            value == old(self)@[idx],
            old(self).removed(*final(self), idx),
            final(self)@ == old(self)@.remove(idx),
    {
        let internal: usize = self.resolve_to_internal(idx);
        let value = self.inner[internal].data.take().unwrap();
        self.free_slots.push(internal);
        proof {
            old(self).lemma_removed(*self, idx);
        }
        value
    }

    /// Removes `idx` and returns its value, or returns `None` and changes
    /// nothing where `idx` is not live.
    pub fn c_remove(&mut self, idx: usize) -> (taken: Option<T>)
        requires
            old(self).wf(),
        ensures
            final(self).wf(),
            final(self)@ == old(self)@.remove(idx),
            match taken {
                Some(value) => {
                    &&& old(self)@.dom().contains(idx)
                    &&& value == old(self)@[idx]
                    &&& old(self).removed(*final(self), idx)
                },
                None => !old(self)@.dom().contains(idx) && *final(self) == *old(self),
            },
    {
        if self.contains(idx) {
            Some(self.release(idx))
        } else {
            proof {
                assert(self@.remove(idx) =~= self@);
            }
            None
        }
    }

    /// Removes the live index `idx` and returns its value, with no check at
    /// run time.
    pub fn remove(&mut self, idx: u32) -> (value: T)
        requires
            old(self).wf(),
            old(self)@.dom().contains(idx as usize),
        ensures
            final(self).wf(),
            value == old(self)@[idx as usize],
            old(self).removed(*final(self), idx as usize),
            final(self)@ == old(self)@.remove(idx as usize),
    {
        self.release(idx as usize)
    }

    /// A removal keeps the invariant, ends the life of `idx`, and changes no
    /// other index.
    pub proof fn lemma_removed(&self, post: Self, idx: usize)
        requires
            self.wf(),
            self.holds(idx),
            self.removed(post, idx),
        ensures
            post.wf(),
            post@ == self@.remove(idx),
    {
        let slot = self.slot_of(idx);
        let list = self.free_list();
        assert(!list.contains(slot)) by {
            if list.contains(slot) {
                let i = choose|i: int| 0 <= i < list.len() && list[i] == slot;
                assert(self.table()[list[i] as int].data is None);
            }
        }
        assert forall|i: int| 0 <= i < post.free_list().len() implies {
            &&& (#[trigger] post.free_list()[i]) < post.table().len()
            &&& post.table()[post.free_list()[i] as int].data is None
        } by {
            if i < list.len() {
                assert(post.free_list()[i] == list[i]);
                assert(list.contains(list[i]));
                assert(post.table()[list[i] as int] == self.table()[list[i] as int]);
            }
        }
        assert forall|i: int, j: int| 0 <= i < j < post.free_list().len() implies post.free_list()[i]
            != post.free_list()[j] by {
            assert(post.free_list()[i] == list[i]);
            if j < list.len() {
                assert(post.free_list()[j] == list[j]);
            } else {
                assert(list.contains(list[i]));
            }
        }
        assert forall|p: int|
            0 <= p < post.table().len() && (#[trigger] post.table()[p]).data is None implies post.free_list().contains(
            p as usize,
        ) by {
            if p == slot {
                assert(post.free_list()[list.len() as int] == slot);
            } else {
                assert(post.table()[p] == self.table()[p]);
                assert(list.contains(p as usize));
                let i = choose|i: int| 0 <= i < list.len() && list[i] == p as usize;
                assert(post.free_list()[i] == p as usize);
            }
        }
        assert forall|p: int|
            0 <= p < post.table().len() && (#[trigger] post.table()[p]).data is Some implies post.table()[p].owner
            <= post.reach() by {
            assert(post.table()[p] == self.table()[p]);
        }
        assert(post.wf());
        assert forall|other: usize| other != idx implies post.holds(other) == self.holds(other) && (
        self.holds(other) ==> post@[other] == self@[other]) by {
            let home = (other / SPARSE_RATIO) as int;
            if self.covers(other) {
                assert(post.table()[home].redirects == self.table()[home].redirects);
                let to = self.slot_of(other) as int;
                if to < self.table().len() && to != slot {
                    assert(post.table()[to] == self.table()[to]);
                }
            }
        }
        assert(!post.holds(idx)) by {
            assert(post.table()[(idx / SPARSE_RATIO) as int].redirects == self.table()[(idx
                / SPARSE_RATIO) as int].redirects);
        }
        assert(post@ =~= self@.remove(idx));
    }
}

} // verus!
