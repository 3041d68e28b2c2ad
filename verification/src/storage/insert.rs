//! Insertion.

use crate::group::{InterleavedGroup, SPARSE_RATIO};
use crate::storage::grow::{fresh_slots, GROWTH_BATCH};
use crate::storage::IDVStorage;
use vstd::prelude::*;

verus! {

/// The group at `p` of `table`, or a blank group where `table` has none.
pub open spec fn old_or_blank<T>(table: Seq<InterleavedGroup<T>>, p: int) -> InterleavedGroup<T> {
    if 0 <= p < table.len() {
        table[p]
    } else {
        InterleavedGroup { redirects: [0usize, 0usize, 0usize, 0usize], owner: 0, data: None }
    }
}

impl<T> IDVStorage<T> {
    /// How many groups the table gains in `c_insert(idx, ..)`: those it lacks
    /// for its reach to be `idx`; or a batch, if it lacks none and no slot is
    /// free.
    pub open spec fn insert_growth(&self, idx: usize) -> nat {
        let lacking = self.shortfall(idx);
        if lacking == 0 && self.free_list().len() == 0 {
            GROWTH_BATCH as nat
        } else {
            lacking
        }
    }

    /// The free list as `c_insert(idx, ..)` finds it after the table has
    /// grown. It is never empty, and its last slot is the one taken.
    pub open spec fn insert_candidates(&self, idx: usize) -> Seq<usize> {
        self.free_list() + fresh_slots(self.table().len(), self.insert_growth(idx))
    }

    /// `post` is `self` after `c_insert(idx, v)`: the table has grown as
    /// `insert_growth` says, the last candidate slot has left the free list
    /// and holds `v` for `idx`, and the redirect entry of `idx` names it.
    /// Every other payload and redirect entry is as before, or blank where
    /// the group is new.
    pub open spec fn inserted(&self, post: Self, idx: usize, v: T) -> bool {
        let slot = self.insert_candidates(idx).last();
        &&& post.table().len() == self.table().len() + self.insert_growth(idx)
        &&& post.free_list() == self.insert_candidates(idx).drop_last()
        &&& post.slot_of(idx) == slot
        &&& post.table()[slot as int].data == Some(v)
        &&& post.table()[slot as int].owner == idx
        &&& forall|p: int|
            0 <= p < post.table().len() && p != slot ==> {
                &&& (#[trigger] post.table()[p]).data == old_or_blank(self.table(), p).data
                &&& post.table()[p].owner == old_or_blank(self.table(), p).owner
            }
        &&& forall|p: int, sub: int|
            0 <= p < post.table().len() && 0 <= sub < SPARSE_RATIO && !(p == idx / SPARSE_RATIO
                && sub == idx % SPARSE_RATIO) ==> (#[trigger] post.table()[p].redirects@[sub])
                == old_or_blank(self.table(), p).redirects@[sub]
    }

    /// Stores `v` for `idx` in a free slot and points the redirect entry of
    /// `idx` at it. The table grows first where its reach is less than `idx`,
    /// and by a batch where no slot is free.
    ///
    /// Where `idx` was live already, its old value stays in its slot, which no
    /// redirect entry names any more and which is never freed.
    pub fn c_insert(&mut self, idx: usize, v: T)
        requires
            old(self).wf(),
        ensures
            final(self).wf(),
            final(self)@ == old(self)@.insert(idx, v),
            old(self).inserted(*final(self), idx, v),
    {
        self.check_prefill(idx);
        let ghost grown = *self;
        let group_idx: usize = idx / SPARSE_RATIO;
        let group_sub: usize = idx % SPARSE_RATIO;
        let internal_point: usize = self.find_free();
        let ghost taken = *self;
        self.inner[group_idx].redirects[group_sub] = internal_point;
        self.inner[internal_point].owner = idx;
        self.inner[internal_point].data = Some(v);
        proof {
            let lacking = old(self).shortfall(idx);
            let batch = grown.batch_due();
            assert(old(self).insert_growth(idx) == lacking + batch);
            assert(old(self).insert_candidates(idx) =~= grown.free_list() + fresh_slots(
                grown.table().len(),
                batch,
            ));
            assert(old(self).insert_candidates(idx) == taken.free_list().push(internal_point));
            assert(old(self).insert_candidates(idx).last() == internal_point);
            assert(old(self).insert_candidates(idx).drop_last() =~= taken.free_list());
            assert(self.free_list() == taken.free_list());
            assert forall|p: int| 0 <= p < self.table().len() && p != internal_point implies {
                &&& (#[trigger] self.table()[p]).data == old_or_blank(old(self).table(), p).data
                &&& self.table()[p].owner == old_or_blank(old(self).table(), p).owner
            } by {
                assert(self.table()[p].data == taken.table()[p].data);
                if p < grown.table().len() {
                    assert(taken.table()[p] == grown.table()[p]);
                    if p < old(self).table().len() {
                        assert(grown.table()[p] == old(self).table()[p]);
                    } else {
                        assert(grown.table()[p].is_blank());
                    }
                } else {
                    assert(taken.table()[p].is_blank());
                }
            }
            assert forall|p: int, sub: int|
                0 <= p < self.table().len() && 0 <= sub < SPARSE_RATIO && !(p == idx / SPARSE_RATIO
                    && sub == idx % SPARSE_RATIO) implies (#[trigger] self.table()[p].redirects@[sub])
                == old_or_blank(old(self).table(), p).redirects@[sub] by {
                assert(self.table()[p].redirects@[sub] == taken.table()[p].redirects@[sub]);
                if p < grown.table().len() {
                    assert(taken.table()[p] == grown.table()[p]);
                    if p < old(self).table().len() {
                        assert(grown.table()[p] == old(self).table()[p]);
                    } else {
                        assert(grown.table()[p].is_blank());
                    }
                } else {
                    assert(taken.table()[p].is_blank());
                }
            }
            assert(old(self).inserted(*self, idx, v));
            old(self).lemma_inserted(*self, idx, v);
        }
    }

    /// Stores `v` for `idx`; see `c_insert`.
    pub fn insert(&mut self, idx: u32, v: T)
        requires
            old(self).wf(),
        ensures
            final(self).wf(),
            final(self)@ == old(self)@.insert(idx as usize, v),
            old(self).inserted(*final(self), idx as usize, v),
    {
        self.c_insert(idx as usize, v);
    }

    /// An insertion keeps the invariant, makes `idx` live with value `v`, and
    /// changes no other index.
    pub proof fn lemma_inserted(&self, post: Self, idx: usize, v: T)
        requires
            self.wf(),
            self.inserted(post, idx, v),
        ensures
            post.wf(),
            post@ == self@.insert(idx, v),
    {
        let len = self.table().len();
        let cands = self.insert_candidates(idx);
        let slot = cands.last();
        let last = cands.len() - 1;
        assert(post.inner.len() == post.table().len());
        assert(cands.len() > 0);
        assert(post.free_list().len() == last);
        assert forall|i: int| 0 <= i < cands.len() implies (#[trigger] cands[i]) < post.table().len()
            && (cands[i] < len <==> i < self.free_list().len()) by {
            if i < self.free_list().len() {
                assert(cands[i] == self.free_list()[i]);
            } else {
                assert(cands[i] == len + (i - self.free_list().len()));
            }
        }
        assert forall|i: int, j: int| 0 <= i < j < cands.len() implies cands[i] != cands[j] by {
            if j < self.free_list().len() {
                assert(cands[i] == self.free_list()[i] && cands[j] == self.free_list()[j]);
            } else if i >= self.free_list().len() {
                assert(cands[i] == len + (i - self.free_list().len()));
                assert(cands[j] == len + (j - self.free_list().len()));
            }
        }
        assert forall|i: int| 0 <= i < post.free_list().len() implies {
            &&& (#[trigger] post.free_list()[i]) < post.table().len()
            &&& post.table()[post.free_list()[i] as int].data is None
        } by {
            let p = post.free_list()[i] as int;
            assert(p == cands[i]);
            assert(cands[i] != cands[last]);
            assert(post.table()[p].data == old_or_blank(self.table(), p).data);
            if i < self.free_list().len() {
                assert(self.free_list()[i] == p);
            }
        }
        assert forall|p: int|
            0 <= p < post.table().len() && (#[trigger] post.table()[p]).data is None implies post.free_list().contains(
            p as usize,
        ) by {
            assert(p != slot);
            if p < len {
                assert(self.table()[p].data is None);
                assert(self.free_list().contains(p as usize));
                let i = choose|i: int| 0 <= i < self.free_list().len() && self.free_list()[i] == p as usize;
                assert(cands[i] == p);
                assert(post.free_list()[i] == p as usize);
            } else {
                let i = self.free_list().len() + (p - len);
                assert(cands[i] == p);
                assert(post.free_list()[i] == p as usize);
            }
        }
        assert forall|p: int|
            0 <= p < post.table().len() && (#[trigger] post.table()[p]).data is Some implies post.table()[p].owner
            <= post.reach() by {
            if p != slot {
                assert(post.table()[p].data == old_or_blank(self.table(), p).data);
                assert(self.table()[p].data is Some);
            }
        }
        assert(post.wf());

        assert(cands[last] == slot);
        assert(slot < len ==> self.table()[slot as int].data is None) by {
            if slot < len {
                assert(self.free_list()[last] == slot);
            }
        }
        assert forall|other: usize| other != idx implies post.holds(other) == self.holds(other) && (
        self.holds(other) ==> post@[other] == self@[other]) by {
            let home = (other / SPARSE_RATIO) as int;
            let sub = (other % SPARSE_RATIO) as int;
            if post.covers(other) {
                assert(!(home == idx / SPARSE_RATIO && sub == idx % SPARSE_RATIO));
                assert(post.table()[home].redirects@[sub] == old_or_blank(
                    self.table(),
                    home,
                ).redirects@[sub]);
                let to = post.slot_of(other) as int;
                if to < post.table().len() && to != slot {
                    assert(post.table()[to].data == old_or_blank(self.table(), to).data);
                    assert(post.table()[to].owner == old_or_blank(self.table(), to).owner);
                    if !self.covers(other) && to < len {
                        assert(self.table()[to].data is Some ==> self.table()[to].owner
                            / SPARSE_RATIO < len);
                    }
                }
            }
        }
        assert(post.holds(idx));
        assert(post@ =~= self@.insert(idx, v));
    }
}

} // verus!
