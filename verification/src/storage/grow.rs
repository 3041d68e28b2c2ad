//! How the table grows, and how a free slot is taken.

use crate::group::{InterleavedGroup, SPARSE_RATIO};
use crate::storage::IDVStorage;
use vstd::prelude::*;

verus! {

/// How many groups the table gains when a slot is asked for and none is free.
pub const GROWTH_BATCH: u16 = 8;

/// The positions `from, from + 1, .., from + n - 1`, in that order.
pub open spec fn fresh_slots(from: nat, n: nat) -> Seq<usize> {
    Seq::new(n, |i: int| (from + i) as usize)
}

impl<T> IDVStorage<T> {
    /// `post` is `self` with `n` blank groups appended to the table, each
    /// pushed on the free list as it was appended. Nothing else differs, so
    /// the same indices are live with the same values.
    pub open spec fn grown_by(&self, post: Self, n: nat) -> bool {
        &&& post.table().len() == self.table().len() + n
        &&& forall|p: int|
            0 <= p < self.table().len() ==> (#[trigger] post.table()[p]) == self.table()[p]
        &&& forall|p: int|
            self.table().len() <= p < post.table().len() ==> (#[trigger] post.table()[p]).is_blank()
        &&& post.free_list() == self.free_list() + fresh_slots(self.table().len(), n)
    }

    /// Appends `amount` blank groups and registers each as free.
    pub fn expand(&mut self, amount: u16)
        requires
            old(self).wf(),
        ensures
            final(self).wf(),
            old(self).grown_by(*final(self), amount as nat),
            final(self)@ == old(self)@,
    {
        let mut done: u16 = 0;
        while done < amount
            invariant
                done <= amount,
                old(self).grown_by(*self, done as nat),
            decreases amount - done,
        {
            self.inner.push(InterleavedGroup::blank());
            let at: usize = self.inner.len() - 1;
            self.free_slots.push(at);
            done += 1;
            proof {
                assert(self.free_list() =~= old(self).free_list() + fresh_slots(
                    old(self).table().len(),
                    done as nat,
                ));
            }
        }
        proof {
            old(self).lemma_grown(*self, amount as nat);
        }
    }

    /// How many groups the table lacks for its reach to be `idx_cap`.
    pub open spec fn shortfall(&self, idx_cap: usize) -> nat {
        if self.reach() < idx_cap {
            (SPARSE_RATIO * idx_cap - self.table().len()) as nat
        } else {
            0
        }
    }

    /// Grows the table until its reach is no less than `idx_cap`. A table
    /// that reaches as far already is left as it is.
    ///
    /// A table too long to be allocated ends the program, as any failed
    /// allocation does.
    pub fn check_prefill(&mut self, idx_cap: usize)
        requires
            old(self).wf(),
        ensures
            final(self).wf(),
            old(self).grown_by(*final(self), old(self).shortfall(idx_cap)),
            final(self)@ == old(self)@,
    {
        if let Some(wanted) = idx_cap.checked_mul(SPARSE_RATIO) {
            let additional: usize = wanted.saturating_sub(self.inner.len());
            self.inner.reserve(additional);
            self.free_slots.reserve(additional);
        }
        while self.inner.len() / SPARSE_RATIO < idx_cap
            invariant
                self.wf(),
                self.table().len() <= old(self).table().len() + old(self).shortfall(idx_cap),
                old(self).grown_by(*self, (self.table().len() - old(self).table().len()) as nat),
                self@ == old(self)@,
            decreases SPARSE_RATIO * idx_cap - self.table().len(),
        {
            self.expand(1);
            proof {
                assert(self.free_list() =~= old(self).free_list() + fresh_slots(
                    old(self).table().len(),
                    (self.table().len() - old(self).table().len()) as nat,
                ));
            }
        }
    }

    /// The invariant while `held` is taken off the free list and not yet
    /// filled: as `wf`, but that the empty slot `held` is on no list.
    pub(crate) open spec fn wf_holding(&self, held: usize) -> bool {
        &&& self.table().len() <= usize::MAX
        &&& held < self.table().len()
        &&& self.table()[held as int].data is None
        &&& !self.free_list().contains(held)
        &&& self.free_list().no_duplicates()
        &&& forall|i: int|
            0 <= i < self.free_list().len() ==> {
                &&& (#[trigger] self.free_list()[i]) < self.table().len()
                &&& self.table()[self.free_list()[i] as int].data is None
            }
        &&& forall|p: int|
            0 <= p < self.table().len() && (#[trigger] self.table()[p]).data is None && p != held
                ==> self.free_list().contains(p as usize)
        &&& forall|p: int|
            0 <= p < self.table().len() && (#[trigger] self.table()[p]).data is Some
                ==> self.table()[p].owner <= self.reach()
    }

    /// How many groups the table gains when a slot is taken: a batch if no
    /// slot is free, none otherwise.
    pub(crate) open spec fn batch_due(&self) -> nat {
        if self.free_list().len() == 0 {
            GROWTH_BATCH as nat
        } else {
            0
        }
    }

    /// Takes a slot off the free list, growing the table by a batch first if
    /// the list is empty. The slot is the last one pushed.
    pub(crate) fn find_free(&mut self) -> (slot: usize)
        requires
            old(self).wf(),
        ensures
            final(self).wf_holding(slot),
            final(self).table().len() == old(self).table().len() + old(self).batch_due(),
            forall|p: int|
                0 <= p < old(self).table().len() ==> (#[trigger] final(self).table()[p]) == old(
                    self,
                ).table()[p],
            forall|p: int|
                old(self).table().len() <= p < final(self).table().len() ==> (
                #[trigger] final(self).table()[p]).is_blank(),
            final(self).free_list().push(slot) == old(self).free_list() + fresh_slots(
                old(self).table().len(),
                old(self).batch_due(),
            ),
            final(self)@ == old(self)@,
        decreases old(self).batch_due(),
    {
        if let Some(free_slot_idx) = self.free_slots.pop() {
            proof {
                let list = old(self).free_list();
                assert(list =~= self.free_list().push(free_slot_idx));
                assert(list[list.len() - 1] == free_slot_idx);
                assert(list + fresh_slots(old(self).table().len(), 0) =~= list);
                assert forall|p: int|
                    0 <= p < self.table().len() && (#[trigger] self.table()[p]).data is None && p
                        != free_slot_idx implies self.free_list().contains(p as usize) by {
                    assert(old(self).table()[p].data is None);
                    assert(list.contains(p as usize));
                    let i = choose|i: int| 0 <= i < list.len() && list[i] == p as usize;
                    assert(self.free_list()[i] == p as usize);
                }
                assert(self@ =~= old(self)@);
            }
            free_slot_idx
        } else {
            self.expand(GROWTH_BATCH);
            proof {
                assert(old(self).free_list() + fresh_slots(
                    old(self).table().len(),
                    GROWTH_BATCH as nat,
                ) =~= self.free_list());
                assert(self.free_list().len() == GROWTH_BATCH);
            }
            let slot = self.find_free();
            slot
        }
    }

    /// Growing the table keeps the invariant and changes no live index and no
    /// value.
    pub proof fn lemma_grown(&self, post: Self, n: nat)
        requires
            self.wf(),
            self.grown_by(post, n),
        ensures
            post.wf(),
            post@ == self@,
    {
        let len = self.table().len();
        let list = self.free_list();
        assert(post.inner.len() == post.table().len());
        assert forall|i: int| 0 <= i < post.free_list().len() implies {
            &&& (#[trigger] post.free_list()[i]) < post.table().len()
            &&& post.table()[post.free_list()[i] as int].data is None
        } by {
            if i < list.len() {
                assert(post.free_list()[i] == list[i]);
                assert(post.table()[list[i] as int] == self.table()[list[i] as int]);
            } else {
                assert(post.free_list()[i] == len + (i - list.len()));
                assert(post.table()[len + (i - list.len())].is_blank());
            }
        }
        assert forall|i: int, j: int| 0 <= i < j < post.free_list().len() implies post.free_list()[i]
            != post.free_list()[j] by {
            if j < list.len() {
                assert(post.free_list()[i] == list[i] && post.free_list()[j] == list[j]);
            } else {
                assert(post.free_list()[j] == len + (j - list.len()));
                if i < list.len() {
                    assert(post.free_list()[i] == list[i]);
                } else {
                    assert(post.free_list()[i] == len + (i - list.len()));
                }
            }
        }
        assert forall|p: int|
            0 <= p < post.table().len() && (#[trigger] post.table()[p]).data is None implies post.free_list().contains(
            p as usize,
        ) by {
            if p < len {
                assert(self.table()[p].data is None);
                assert(list.contains(p as usize));
                let i = choose|i: int| 0 <= i < list.len() && list[i] == p as usize;
                assert(post.free_list()[i] == p as usize);
            } else {
                assert(post.free_list()[list.len() + (p - len)] == p as usize);
            }
        }
        assert forall|p: int|
            0 <= p < post.table().len() && (#[trigger] post.table()[p]).data is Some implies post.table()[p].owner
            <= post.reach() by {
            if p < len {
                assert(post.table()[p] == self.table()[p]);
            } else {
                assert(post.table()[p].is_blank());
            }
        }
        assert(post.wf());
        assert forall|idx: usize| post.holds(idx) == self.holds(idx) by {
            let home = (idx / SPARSE_RATIO) as int;
            if self.covers(idx) {
                assert(post.table()[home] == self.table()[home]);
                let slot = self.slot_of(idx) as int;
                if slot < self.table().len() {
                    assert(post.table()[slot] == self.table()[slot]);
                } else if slot < post.table().len() {
                    assert(post.table()[slot].is_blank());
                }
            } else if post.covers(idx) {
                assert(post.table()[home].is_blank());
                assert(post.slot_of(idx) == 0);
                if 0 < self.table().len() {
                    assert(post.table()[0] == self.table()[0]);
                } else {
                    assert(post.table()[0].is_blank());
                }
            }
        }
        assert forall|idx: usize| self.holds(idx) implies post@[idx] == self@[idx] by {
            assert(post.table()[(idx / SPARSE_RATIO) as int] == self.table()[(idx / SPARSE_RATIO) as int]);
            assert(post.table()[self.slot_of(idx) as int] == self.table()[self.slot_of(idx) as int]);
        }
        assert(post@ =~= self@);
    }
}

} // verus!
