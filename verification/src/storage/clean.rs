//! Batch cleanup: removal of every live index that a mask marks.

use crate::group::SPARSE_RATIO;
use crate::mask::{mask_contains, members};
use crate::storage::IDVStorage;
use hibitset::BitSet;
use vstd::prelude::*;

verus! {

/// The number of groups whose indices a mask can mark: a mask marks no index
/// above `u32::MAX`.
pub const MASKED_GROUPS: usize = 0x4000_0000;

/// The sparse indices that a mask marks.
pub open spec fn marked_keys(marked: Set<u32>) -> Set<usize> {
    Set::new(|idx: usize| idx <= u32::MAX && marked.contains(idx as u32))
}

impl<T> IDVStorage<T> {
    /// Whether cleanup with the mask `marked` ends the life of `idx`: `idx`
    /// is live and the mask marks it.
    pub open spec fn doomed(&self, idx: usize, marked: Set<u32>) -> bool {
        self.holds(idx) && marked_keys(marked).contains(idx)
    }

    /// The slots of the live marked indices below `upto`, by ascending index.
    pub open spec fn swept(&self, marked: Set<u32>, upto: nat) -> Seq<usize>
        decreases upto,
    {
        if upto == 0 {
            Seq::empty()
        } else {
            let idx = (upto - 1) as usize;
            let below = self.swept(marked, (upto - 1) as nat);
            if self.doomed(idx, marked) {
                below.push(self.slot_of(idx))
            } else {
                below
            }
        }
    }

    /// One past the last sparse index that cleanup looks at: the table has no
    /// home group for an index from four times its length on, and a mask
    /// marks none above `u32::MAX`.
    pub open spec fn sweep_limit(&self) -> nat {
        if SPARSE_RATIO * self.table().len() <= u32::MAX {
            (SPARSE_RATIO * self.table().len()) as nat
        } else {
            (u32::MAX + 1) as nat
        }
    }

    /// Whether the slot `p` holds the value of a live marked index below
    /// `upto`.
    pub open spec fn vacated(&self, p: int, marked: Set<u32>, upto: nat) -> bool {
        &&& self.table()[p].data is Some
        &&& self.table()[p].owner < upto
        &&& self.doomed(self.table()[p].owner, marked)
        &&& self.slot_of(self.table()[p].owner) == p
    }

    /// `post` is `self` after every live marked index below `upto` was
    /// removed, in ascending order: the slots of those indices have lost
    /// their payloads and follow on the free list in that order. Redirect
    /// entries, owners and all other payloads are as before.
    pub open spec fn swept_to(&self, post: Self, marked: Set<u32>, upto: nat) -> bool {
        &&& post.table().len() == self.table().len()
        &&& post.free_list() == self.free_list() + self.swept(marked, upto)
        &&& forall|p: int|
            0 <= p < self.table().len() ==> {
                &&& (#[trigger] post.table()[p]).redirects == self.table()[p].redirects
                &&& post.table()[p].owner == self.table()[p].owner
                &&& post.table()[p].data == if self.vacated(p, marked, upto) {
                    None
                } else {
                    self.table()[p].data
                }
            }
    }

    /// `post` is `self` after cleanup with the mask `marked`.
    pub open spec fn cleaned(&self, post: Self, marked: Set<u32>) -> bool {
        self.swept_to(post, marked, self.sweep_limit())
    }

    /// Removes every live index that `has` marks and drops its value. For
    /// each group and each of its four sub-slots, by ascending index, the
    /// index `group * 4 + sub_slot` is looked up in `has`; where it is marked
    /// and live, its slot is freed. No other slot is touched.
    pub fn c_clean(&mut self, has: &BitSet)
        requires
            old(self).wf(),
        ensures
            final(self).wf(),
            old(self).cleaned(*final(self), members(*has)),
            final(self)@ == old(self)@.remove_keys(marked_keys(members(*has))),
    {
        let ghost marked = members(*has);
        let groups: usize = self.inner.len();
        let mut group_idx: usize = 0;
        while group_idx < groups && group_idx < MASKED_GROUPS
            invariant
                old(self).wf(),
                self.wf(),
                marked == members(*has),
                groups == old(self).table().len(),
                group_idx <= groups,
                group_idx <= MASKED_GROUPS,
                old(self).swept_to(*self, marked, (SPARSE_RATIO * group_idx) as nat),
            decreases groups - group_idx,
        {
            let mut group_sub: usize = 0;
            while group_sub < SPARSE_RATIO
                invariant
                    old(self).wf(),
                    self.wf(),
                    marked == members(*has),
                    groups == old(self).table().len(),
                    group_idx < groups,
                    group_idx < MASKED_GROUPS,
                    group_sub <= SPARSE_RATIO,
                    old(self).swept_to(*self, marked, (SPARSE_RATIO * group_idx + group_sub) as nat),
                decreases SPARSE_RATIO - group_sub,
            {
                let flat: usize = group_idx * SPARSE_RATIO + group_sub;
                let ghost before = *self;
                if mask_contains(has, flat as u32) {
                    let _ = self.c_remove(flat);
                }
                proof {
                    old(self).lemma_sweep_step(before, *self, marked, flat);
                }
                group_sub += 1;
            }
            group_idx += 1;
        }
        proof {
            assert(SPARSE_RATIO * group_idx == old(self).sweep_limit());
            old(self).lemma_cleaned(*self, marked);
        }
    }

    /// Removes every live index that `has` marks; see `c_clean`.
    pub fn clean(&mut self, has: &BitSet)
        requires
            old(self).wf(),
        ensures
            final(self).wf(),
            old(self).cleaned(*final(self), members(*has)),
            final(self)@ == old(self)@.remove_keys(marked_keys(members(*has))),
    {
        self.c_clean(has);
    }

    /// One step of cleanup: from the state `cur`, reached at `idx`, to the
    /// state `next`, reached at `idx + 1`. Cleanup has not touched `idx` yet,
    /// so `idx` is live in `cur` exactly if it was live at the start, in the
    /// same slot.
    proof fn lemma_sweep_step(&self, cur: Self, next: Self, marked: Set<u32>, idx: usize)
        requires
            self.wf(),
            idx <= u32::MAX,
            self.swept_to(cur, marked, idx as nat),
            if marked.contains(idx as u32) && cur.holds(idx) {
                cur.removed(next, idx)
            } else {
                next == cur
            },
        ensures
            self.swept_to(next, marked, (idx + 1) as nat),
    {
        let upto = (idx + 1) as nat;
        assert(cur.holds(idx) == self.holds(idx) && (cur.covers(idx) ==> cur.slot_of(idx)
            == self.slot_of(idx))) by {
            if self.covers(idx) {
                let home = (idx / SPARSE_RATIO) as int;
                assert(cur.table()[home].redirects == self.table()[home].redirects);
                let to = self.slot_of(idx) as int;
                if to < self.table().len() {
                    assert(cur.table()[to].owner == self.table()[to].owner);
                }
            }
        }
        assert(self.swept(marked, upto) == if self.doomed(idx, marked) {
            self.swept(marked, idx as nat).push(self.slot_of(idx))
        } else {
            self.swept(marked, idx as nat)
        });
        if self.doomed(idx, marked) {
            let slot = self.slot_of(idx) as int;
            assert(next.free_list() =~= self.free_list() + self.swept(marked, upto));
            assert forall|p: int| 0 <= p < self.table().len() implies {
                &&& (#[trigger] next.table()[p]).redirects == self.table()[p].redirects
                &&& next.table()[p].owner == self.table()[p].owner
                &&& next.table()[p].data == if self.vacated(p, marked, upto) {
                    None
                } else {
                    self.table()[p].data
                }
            } by {
                assert(cur.table()[p].owner == self.table()[p].owner);
                if p != slot {
                    assert(next.table()[p] == cur.table()[p]);
                }
            }
        } else {
            assert forall|p: int| 0 <= p < self.table().len() implies self.vacated(p, marked, upto)
                == self.vacated(p, marked, idx as nat) by {}
        }
    }

    /// What `swept` lists: each of its slots held the value of a live marked
    /// index below `upto`, every such slot is in it, and none is in it twice.
    pub proof fn lemma_swept(&self, marked: Set<u32>, upto: nat)
        requires
            upto <= u32::MAX + 1,
        ensures
            self.swept(marked, upto).no_duplicates(),
            forall|i: int|
                0 <= i < self.swept(marked, upto).len() ==> {
                    &&& (#[trigger] self.swept(marked, upto)[i]) < self.table().len()
                    &&& self.vacated(self.swept(marked, upto)[i] as int, marked, upto)
                },
            forall|p: int|
                0 <= p < self.table().len() && self.vacated(p, marked, upto) ==> self.swept(
                    marked,
                    upto,
                ).contains(p as usize),
        decreases upto,
    {
        let sw = self.swept(marked, upto);
        if upto > 0 {
            let idx = (upto - 1) as usize;
            let below = self.swept(marked, (upto - 1) as nat);
            self.lemma_swept(marked, (upto - 1) as nat);
            assert forall|i: int| 0 <= i < sw.len() implies {
                &&& (#[trigger] sw[i]) < self.table().len()
                &&& self.vacated(sw[i] as int, marked, upto)
            } by {
                if i < below.len() {
                    assert(sw[i] == below[i]);
                    assert(self.vacated(below[i] as int, marked, (upto - 1) as nat));
                }
            }
            assert forall|i: int, j: int| 0 <= i < j < sw.len() implies sw[i] != sw[j] by {
                assert(sw[i] == below[i]);
                assert(self.vacated(below[i] as int, marked, (upto - 1) as nat));
                if j < below.len() {
                    assert(sw[j] == below[j]);
                }
            }
            assert forall|p: int| 0 <= p < self.table().len() && self.vacated(p, marked, upto) implies sw.contains(
                p as usize,
            ) by {
                if self.table()[p].owner < upto - 1 {
                    assert(self.vacated(p, marked, (upto - 1) as nat));
                    assert(below.contains(p as usize));
                    let i = choose|i: int| 0 <= i < below.len() && below[i] == p as usize;
                    assert(sw[i] == p as usize);
                } else {
                    assert(self.table()[p].owner == idx);
                    assert(sw[below.len() as int] == p as usize);
                }
            }
        }
    }

    /// Cleanup keeps the invariant and ends the life of exactly the marked
    /// indices; every other index keeps its value.
    pub proof fn lemma_cleaned(&self, post: Self, marked: Set<u32>)
        requires
            self.wf(),
            self.cleaned(post, marked),
        ensures
            post.wf(),
            post@ == self@.remove_keys(marked_keys(marked)),
    {
        let upto = self.sweep_limit();
        let list = self.free_list();
        let sw = self.swept(marked, upto);
        self.lemma_swept(marked, upto);
        assert forall|i: int| 0 <= i < post.free_list().len() implies {
            &&& (#[trigger] post.free_list()[i]) < post.table().len()
            &&& post.table()[post.free_list()[i] as int].data is None
        } by {
            if i < list.len() {
                assert(post.free_list()[i] == list[i]);
                assert(self.table()[list[i] as int].data is None);
                assert(post.table()[list[i] as int].data is None);
            } else {
                assert(post.free_list()[i] == sw[i - list.len()]);
                assert(self.vacated(sw[i - list.len()] as int, marked, upto));
                assert(post.table()[sw[i - list.len()] as int].data is None);
            }
        }
        assert forall|i: int, j: int| 0 <= i < j < post.free_list().len() implies post.free_list()[i]
            != post.free_list()[j] by {
            if j < list.len() {
                assert(post.free_list()[i] == list[i] && post.free_list()[j] == list[j]);
            } else {
                assert(post.free_list()[j] == sw[j - list.len()]);
                assert(self.vacated(sw[j - list.len()] as int, marked, upto));
                if i < list.len() {
                    assert(post.free_list()[i] == list[i]);
                    assert(self.table()[list[i] as int].data is None);
                } else {
                    assert(post.free_list()[i] == sw[i - list.len()]);
                }
            }
        }
        assert forall|p: int|
            0 <= p < post.table().len() && (#[trigger] post.table()[p]).data is None implies post.free_list().contains(
            p as usize,
        ) by {
            if self.vacated(p, marked, upto) {
                assert(sw.contains(p as usize));
                let i = choose|i: int| 0 <= i < sw.len() && sw[i] == p as usize;
                assert(post.free_list()[list.len() + i] == p as usize);
            } else {
                assert(self.table()[p].data is None);
                assert(list.contains(p as usize));
                let i = choose|i: int| 0 <= i < list.len() && list[i] == p as usize;
                assert(post.free_list()[i] == p as usize);
            }
        }
        assert forall|p: int|
            0 <= p < post.table().len() && (#[trigger] post.table()[p]).data is Some implies post.table()[p].owner
            <= post.reach() by {
            assert(self.table()[p].data is Some);
        }
        assert(post.wf());
        assert forall|idx: usize| post.holds(idx) == (self.holds(idx) && !marked_keys(marked).contains(idx))
            && (post.holds(idx) ==> post@[idx] == self@[idx]) by {
            let home = (idx / SPARSE_RATIO) as int;
            if self.covers(idx) {
                assert(post.table()[home].redirects == self.table()[home].redirects);
                let to = self.slot_of(idx) as int;
                if to < self.table().len() {
                    assert(post.table()[to].owner == self.table()[to].owner);
                    if self.holds(idx) {
                        assert(idx < self.sweep_limit() || !marked_keys(marked).contains(idx));
                    }
                }
            }
        }
        assert(post@ =~= self@.remove_keys(marked_keys(marked)));
    }
}

} // verus!
