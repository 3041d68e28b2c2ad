//! What holds of the storage across its operations. Each operation is taken
//! by the relation between the storage before and after it that the
//! operation's own contract states.

use crate::group::SPARSE_RATIO;
use crate::storage::clean::marked_keys;
use crate::storage::grow::GROWTH_BATCH;
use crate::storage::insert::old_or_blank;
use crate::storage::IDVStorage;
use vstd::prelude::*;
use vstd::relations::injective_on;
use vstd::set_lib::{
    lemma_int_range, lemma_map_size, lemma_set_disjoint_lens, lemma_set_subset_finite,
    set_int_range,
};

verus! {

/// One operation of the storage leads from `pre` to `post`: nothing changed
/// (a read, or a checked operation on an index that is not live), the table
/// grew, a value was inserted, the value of a live index was rewritten, a
/// live index was removed, or the storage was cleaned.
pub open spec fn steps_to<T>(pre: IDVStorage<T>, post: IDVStorage<T>) -> bool {
    ||| post == pre
    ||| exists|n: nat| pre.grown_by(post, n)
    ||| exists|idx: usize, v: T| pre.inserted(post, idx, v)
    ||| exists|idx: usize, v: T| pre.holds(idx) && pre.revalued(post, idx, v)
    ||| exists|idx: usize| pre.holds(idx) && pre.removed(post, idx)
    ||| exists|marked: Set<u32>| pre.cleaned(post, marked)
}

/// No operation breaks the invariant, and none makes the table shorter.
pub proof fn law_step_keeps_invariant<T>(pre: IDVStorage<T>, post: IDVStorage<T>)
    requires
        pre.wf(),
        steps_to(pre, post),
    ensures
        post.wf(),
        post.table().len() >= pre.table().len(),
{
    if post == pre {
    } else if exists|n: nat| pre.grown_by(post, n) {
        let n = choose|n: nat| pre.grown_by(post, n);
        pre.lemma_grown(post, n);
    } else if exists|idx: usize, v: T| pre.inserted(post, idx, v) {
        let (idx, v) = choose|idx: usize, v: T| pre.inserted(post, idx, v);
        pre.lemma_inserted(post, idx, v);
    } else if exists|idx: usize, v: T| pre.holds(idx) && pre.revalued(post, idx, v) {
        let (idx, v) = choose|idx: usize, v: T| pre.holds(idx) && pre.revalued(post, idx, v);
        pre.lemma_revalued(post, idx, v);
    } else if exists|idx: usize| pre.holds(idx) && pre.removed(post, idx) {
        let idx = choose|idx: usize| pre.holds(idx) && pre.removed(post, idx);
        pre.lemma_removed(post, idx);
    } else {
        let marked = choose|marked: Set<u32>| pre.cleaned(post, marked);
        pre.lemma_cleaned(post, marked);
    }
}

/// The table reaches every live index: its length divided by the number of
/// indices to a group is no less than the index, hence no less than the index
/// of its home group, and the home group is in the table.
pub proof fn law_table_reaches_live_indices<T>(s: IDVStorage<T>, idx: usize)
    requires
        s.wf(),
        s@.dom().contains(idx),
    ensures
        idx <= s.reach(),
        idx / SPARSE_RATIO <= s.reach(),
        s.covers(idx),
{
    assert(s.table()[s.slot_of(idx) as int].owner == idx);
}

/// An index that was just given a value is live and has that value, whatever
/// the storage held before.
pub proof fn law_insert_then_get<T>(pre: IDVStorage<T>, post: IDVStorage<T>, idx: usize, v: T)
    requires
        pre.wf(),
        pre.inserted(post, idx, v),
    ensures
        post@.dom().contains(idx),
        post@[idx] == v,
{
    pre.lemma_inserted(post, idx, v);
}

/// Two live indices never share a slot.
pub proof fn law_distinct_slots<T>(s: IDVStorage<T>, a: usize, b: usize)
    requires
        s@.dom().contains(a),
        s@.dom().contains(b),
        a != b,
    ensures
        s.slot_of(a) != s.slot_of(b),
{
}

/// After two insertions for different indices, with nothing removed in
/// between, both are live in different slots, each with its own value.
pub proof fn law_two_inserts_independent<T>(
    pre: IDVStorage<T>,
    mid: IDVStorage<T>,
    post: IDVStorage<T>,
    a: usize,
    va: T,
    b: usize,
    vb: T,
)
    requires
        pre.wf(),
        a != b,
        pre.inserted(mid, a, va),
        mid.inserted(post, b, vb),
    ensures
        post@.dom().contains(a),
        post@.dom().contains(b),
        post@[a] == va,
        post@[b] == vb,
        post.slot_of(a) != post.slot_of(b),
{
    pre.lemma_inserted(mid, a, va);
    mid.lemma_inserted(post, b, vb);
}

/// Writing to the value of one index leaves every other index as it was:
/// live or not, in the same slot, with the same value.
pub proof fn law_write_touches_one_index<T>(
    pre: IDVStorage<T>,
    post: IDVStorage<T>,
    idx: usize,
    v: T,
    other: usize,
)
    requires
        pre@.dom().contains(idx),
        pre.revalued(post, idx, v),
        other != idx,
    ensures
        post@.dom().contains(other) == pre@.dom().contains(other),
        pre@.dom().contains(other) ==> post@[other] == pre@[other] && post.slot_of(other)
            == pre.slot_of(other),
{
    pre.lemma_revalued(post, idx, v);
    if pre@.dom().contains(other) {
        let home = (other / SPARSE_RATIO) as int;
        if home != pre.slot_of(idx) {
            assert(post.table()[home] == pre.table()[home]);
        }
    }
}

/// The slot that a removal frees is the one the next insertion takes, if the
/// table reaches as far as the inserted index. The table is then as long as
/// before the removal, and the free list is the same.
pub proof fn law_freed_slot_reused<T>(
    pre: IDVStorage<T>,
    mid: IDVStorage<T>,
    post: IDVStorage<T>,
    gone: usize,
    idx: usize,
    v: T,
)
    requires
        pre.wf(),
        pre@.dom().contains(gone),
        pre.removed(mid, gone),
        idx <= pre.reach(),
        mid.inserted(post, idx, v),
    ensures
        post.slot_of(idx) == pre.slot_of(gone),
        post.table().len() == pre.table().len(),
        post.free_list() == pre.free_list(),
{
    let list = mid.free_list();
    assert(mid.insert_growth(idx) == 0);
    assert(mid.insert_candidates(idx) =~= list);
    assert(list.last() == pre.slot_of(gone));
    assert(list.drop_last() =~= pre.free_list());
}

/// Removing an index and inserting it again leaves the table as long as it
/// was, the index in the slot it had, and the free list as it was: cycles of
/// removal and insertion on the same indices never grow the table.
pub proof fn law_remove_insert_cycle<T>(
    pre: IDVStorage<T>,
    mid: IDVStorage<T>,
    post: IDVStorage<T>,
    idx: usize,
    v: T,
)
    requires
        pre.wf(),
        pre@.dom().contains(idx),
        pre.removed(mid, idx),
        mid.inserted(post, idx, v),
    ensures
        post.table().len() == pre.table().len(),
        post.free_list() == pre.free_list(),
        post.slot_of(idx) == pre.slot_of(idx),
        post@ == pre@.insert(idx, v),
{
    assert(pre.table()[pre.slot_of(idx) as int].owner == idx);
    law_freed_slot_reused(pre, mid, post, idx, idx, v);
    pre.lemma_removed(mid, idx);
    mid.lemma_inserted(post, idx, v);
    assert(pre@.remove(idx).insert(idx, v) =~= pre@.insert(idx, v));
}

/// An insertion makes the table longer only where the table does not reach
/// as far as the index or no slot is free.
pub proof fn law_insert_grows_only_in_need<T>(
    pre: IDVStorage<T>,
    post: IDVStorage<T>,
    idx: usize,
    v: T,
)
    requires
        pre.inserted(post, idx, v),
        idx <= pre.reach(),
        pre.free_list().len() > 0,
    ensures
        post.table().len() == pre.table().len(),
        post.slot_of(idx) == pre.free_list().last(),
{
    assert(pre.insert_candidates(idx) =~= pre.free_list());
}

/// An insertion grows the table by a batch only when every slot holds a
/// value.
pub proof fn law_batch_only_when_full<T>(
    pre: IDVStorage<T>,
    post: IDVStorage<T>,
    idx: usize,
    v: T,
)
    requires
        pre.wf(),
        pre.inserted(post, idx, v),
        idx <= pre.reach(),
        post.table().len() > pre.table().len(),
    ensures
        forall|p: int| 0 <= p < pre.table().len() ==> (#[trigger] pre.table()[p]).data is Some,
{
    assert forall|p: int| 0 <= p < pre.table().len() implies (#[trigger] pre.table()[p]).data is Some by {
        if pre.table()[p].data is None {
            assert(pre.free_list().contains(p as usize));
        }
    }
}

/// Whether every value in the table is the value of a live index: no slot
/// holds a value that no redirect entry leads to.
pub open spec fn leak_free<T>(s: IDVStorage<T>) -> bool {
    forall|p: int|
        0 <= p < s.table().len() && (#[trigger] s.table()[p]).data is Some ==> s.slot_of(
            s.table()[p].owner,
        ) == p
}

/// A storage with an empty table has no leak.
pub proof fn law_empty_is_leak_free<T>(s: IDVStorage<T>)
    requires
        s.table().len() == 0,
    ensures
        leak_free(s),
{
}

/// With no leak, every slot is free or holds the value of a live index: the
/// live indices and the free slots together are as many as the table has
/// slots.
pub proof fn law_slot_accounting<T>(s: IDVStorage<T>)
    requires
        s.wf(),
        leak_free(s),
    ensures
        s@.dom().finite(),
        s@.dom().len() + s.free_list().len() == s.table().len(),
{
    let len = s.table().len() as int;
    let all = Set::new(|p: usize| p < len);
    let full = Set::new(|p: usize| p < len && s.table()[p as int].data is Some);
    let free = s.free_list().to_set();
    let to_slot = |i: int| i as usize;
    let to_owner = |p: usize| s.table()[p as int].owner;

    lemma_int_range(0, len);
    assert(set_int_range(0, len).map(to_slot) =~= all) by {
        assert forall|p: usize| all.contains(p) implies set_int_range(0, len).map(to_slot).contains(
            p,
        ) by {
            assert(set_int_range(0, len).contains(p as int) && to_slot(p as int) == p);
        }
    }
    lemma_map_size(set_int_range(0, len), all, to_slot);

    s.free_list().unique_seq_to_set();
    assert(free.subset_of(all) && full.subset_of(all));
    lemma_set_subset_finite(all, free);
    lemma_set_subset_finite(all, full);
    assert(full.disjoint(free)) by {
        assert forall|p: usize| full.contains(p) implies !free.contains(p) by {
            if free.contains(p) {
                let i = choose|i: int| 0 <= i < s.free_list().len() && s.free_list()[i] == p;
                assert(s.table()[s.free_list()[i] as int].data is None);
            }
        }
    }
    assert(full + free =~= all) by {
        assert forall|p: usize| all.contains(p) implies (full + free).contains(p) by {
            if s.table()[p as int].data is None {
                assert(s.free_list().contains(p));
            }
        }
    }
    lemma_set_disjoint_lens(full, free);

    assert(full.map(to_owner) =~= s@.dom()) by {
        assert forall|idx: usize| s@.dom().contains(idx) implies full.map(to_owner).contains(idx) by {
            assert(full.contains(s.slot_of(idx)) && to_owner(s.slot_of(idx)) == idx);
        }
        assert forall|idx: usize| full.map(to_owner).contains(idx) implies s@.dom().contains(idx) by {
            let p = choose|p: usize| full.contains(p) && to_owner(p) == idx;
            assert(s.table()[p as int].data is Some);
            assert(s.slot_of(idx) == p);
        }
    }
    assert(injective_on(to_owner, full)) by {
        assert forall|p: usize, q: usize|
            full.contains(p) && full.contains(q) && to_owner(p) == to_owner(q) implies p == q by {
            assert(s.table()[p as int].data is Some && s.table()[q as int].data is Some);
        }
    }
    lemma_map_size(full, s@.dom(), to_owner);
}

/// With no leak, an insertion makes the table longer only for its reach to
/// be the inserted index, or by a batch when every slot holds the value of a
/// live index. So while the same indices are removed and inserted again, the
/// table stops growing once it reaches the highest of them and has more
/// slots than there are indices.
pub proof fn law_growth_is_bounded<T>(pre: IDVStorage<T>, post: IDVStorage<T>, idx: usize, v: T)
    requires
        pre.wf(),
        leak_free(pre),
        pre.inserted(post, idx, v),
        post.table().len() > pre.table().len(),
    ensures
        post.table().len() == SPARSE_RATIO * idx || (pre@.dom().len() == pre.table().len()
            && post.table().len() == pre.table().len() + GROWTH_BATCH),
{
    law_slot_accounting(pre);
}

/// An insertion for an index that is live already leaves the old value where
/// it was, in a slot that is not free and that the index no longer leads to.
pub proof fn law_reinsertion_leaks_old_slot<T>(
    pre: IDVStorage<T>,
    post: IDVStorage<T>,
    idx: usize,
    v: T,
)
    requires
        pre.wf(),
        pre@.dom().contains(idx),
        pre.inserted(post, idx, v),
    ensures
        post.slot_of(idx) != pre.slot_of(idx),
        post.table()[pre.slot_of(idx) as int].data == Some(pre@[idx]),
        post.table()[pre.slot_of(idx) as int].owner == idx,
        !post.free_list().contains(pre.slot_of(idx)),
        !leak_free(post),
{
    let old_slot = pre.slot_of(idx);
    let cands = pre.insert_candidates(idx);
    let list = pre.free_list();
    pre.lemma_inserted(post, idx, v);
    assert(cands.last() != old_slot) by {
        if cands.last() < pre.table().len() {
            assert(cands.last() == list[list.len() - 1]);
        }
    }
    assert(post.table()[old_slot as int].data == pre.table()[old_slot as int].data);
    if post.free_list().contains(old_slot) {
        let i = choose|i: int| 0 <= i < post.free_list().len() && post.free_list()[i] == old_slot;
        assert(post.table()[post.free_list()[i] as int].data is None);
    }
}

/// While no live index is inserted again, nothing leaks: growth, insertion
/// for an index that is not live, rewriting, removal and cleanup each leave
/// every value in the table the value of a live index.
pub proof fn law_leaks_only_by_reinsertion<T>(pre: IDVStorage<T>, post: IDVStorage<T>)
    requires
        pre.wf(),
        leak_free(pre),
        steps_to(pre, post),
        forall|idx: usize, v: T| #[trigger] pre.inserted(post, idx, v) ==> !pre@.dom().contains(idx),
    ensures
        leak_free(post),
{
    law_step_keeps_invariant(pre, post);
    assert forall|p: int| 0 <= p < post.table().len() && (#[trigger] post.table()[p]).data is Some implies post.slot_of(
        post.table()[p].owner,
    ) == p by {
        let owner = post.table()[p].owner;
        let home = (owner / SPARSE_RATIO) as int;
        let sub = (owner % SPARSE_RATIO) as int;
        if post == pre {
        } else if exists|n: nat| pre.grown_by(post, n) {
            let n = choose|n: nat| pre.grown_by(post, n);
            if p < pre.table().len() {
                assert(post.table()[p] == pre.table()[p]);
                assert(post.table()[home] == pre.table()[home]);
            } else {
                assert(post.table()[p].is_blank());
            }
        } else if exists|idx: usize, v: T| pre.inserted(post, idx, v) {
            let (idx, v) = choose|idx: usize, v: T| pre.inserted(post, idx, v);
            let slot = pre.insert_candidates(idx).last();
            if p != slot {
                assert(post.table()[p].data == old_or_blank(pre.table(), p).data);
                assert(post.table()[p].owner == old_or_blank(pre.table(), p).owner);
                assert(pre.table()[p].data is Some);
                assert(owner != idx);
                assert(post.table()[home].redirects@[sub] == old_or_blank(
                    pre.table(),
                    home,
                ).redirects@[sub]);
            }
        } else if exists|idx: usize, v: T| pre.holds(idx) && pre.revalued(post, idx, v) {
            let (idx, v) = choose|idx: usize, v: T| pre.holds(idx) && pre.revalued(post, idx, v);
            let at = pre.slot_of(idx) as int;
            assert(post.table()[p].owner == pre.table()[p].owner && pre.table()[p].data is Some) by {
                if p != at {
                    assert(post.table()[p] == pre.table()[p]);
                }
            }
            assert(post.table()[home].redirects == pre.table()[home].redirects) by {
                if home != at {
                    assert(post.table()[home] == pre.table()[home]);
                }
            }
        } else if exists|idx: usize| pre.holds(idx) && pre.removed(post, idx) {
            let idx = choose|idx: usize| pre.holds(idx) && pre.removed(post, idx);
            let at = pre.slot_of(idx) as int;
            assert(p != at);
            assert(post.table()[p] == pre.table()[p]);
            assert(post.table()[home].redirects == pre.table()[home].redirects) by {
                if home != at {
                    assert(post.table()[home] == pre.table()[home]);
                }
            }
        } else {
            let marked = choose|marked: Set<u32>| pre.cleaned(post, marked);
            assert(pre.table()[p].data is Some);
            assert(post.table()[home].redirects == pre.table()[home].redirects);
        }
    }
}

/// Cleanup ends the life of exactly the live indices that the mask marks.
/// Every other index stays live in its slot with its value, and a slot is
/// empty afterwards exactly if it was empty before or held the value of a
/// marked live index.
pub proof fn law_clean_exact<T>(pre: IDVStorage<T>, post: IDVStorage<T>, marked: Set<u32>)
    requires
        pre.wf(),
        pre.cleaned(post, marked),
    ensures
        forall|idx: usize|
            post@.dom().contains(idx) <==> pre@.dom().contains(idx) && !marked_keys(
                marked,
            ).contains(idx),
        forall|idx: usize| #[trigger]
            post@.dom().contains(idx) ==> post@[idx] == pre@[idx] && post.slot_of(idx)
                == pre.slot_of(idx),
        forall|p: int|
            0 <= p < pre.table().len() ==> ((#[trigger] post.table()[p]).data is None <==> (
            pre.table()[p].data is None || exists|idx: usize|
                pre.doomed(idx, marked) && pre.slot_of(idx) == p)),
        forall|p: int|
            0 <= p < pre.table().len() && (#[trigger] post.table()[p]).data is Some
                ==> post.table()[p].data == pre.table()[p].data,
{
    pre.lemma_cleaned(post, marked);
    assert forall|idx: usize| #[trigger] post@.dom().contains(idx) implies post.slot_of(idx)
        == pre.slot_of(idx) by {
        assert(post.table()[(idx / SPARSE_RATIO) as int].redirects == pre.table()[(idx
            / SPARSE_RATIO) as int].redirects);
    }
    assert forall|p: int| 0 <= p < pre.table().len() implies ((#[trigger] post.table()[p]).data is None
        <==> (pre.table()[p].data is None || exists|idx: usize|
        pre.doomed(idx, marked) && pre.slot_of(idx) == p)) by {
        if pre.vacated(p, marked, pre.sweep_limit()) {
            let owner = pre.table()[p].owner;
            assert(pre.doomed(owner, marked) && pre.slot_of(owner) == p);
        } else if pre.table()[p].data is Some {
            if exists|idx: usize| pre.doomed(idx, marked) && pre.slot_of(idx) == p {
                let idx = choose|idx: usize| pre.doomed(idx, marked) && pre.slot_of(idx) == p;
                assert(pre.table()[p].owner == idx);
                assert(idx < pre.sweep_limit());
            }
        }
    }
}

/// An index that cleanup removed is not live until it is inserted again, and
/// then it is.
pub proof fn law_cleaned_until_reinserted<T>(
    pre: IDVStorage<T>,
    mid: IDVStorage<T>,
    post: IDVStorage<T>,
    marked: Set<u32>,
    idx: usize,
    v: T,
)
    requires
        pre.wf(),
        pre.cleaned(mid, marked),
        marked_keys(marked).contains(idx),
        mid.inserted(post, idx, v),
    ensures
        !mid@.dom().contains(idx),
        post@.dom().contains(idx),
        post@[idx] == v,
{
    pre.lemma_cleaned(mid, marked);
    mid.lemma_inserted(post, idx, v);
}

/// Asking twice for a table of some reach, the second time for no more than
/// the first, grows the table at most once: the second call changes nothing.
pub proof fn law_prefill_twice<T>(
    pre: IDVStorage<T>,
    mid: IDVStorage<T>,
    post: IDVStorage<T>,
    first: usize,
    second: usize,
)
    requires
        second <= first,
        pre.grown_by(mid, pre.shortfall(first)),
        mid.grown_by(post, mid.shortfall(second)),
    ensures
        mid.shortfall(second) == 0,
        post.table() == mid.table(),
        post.free_list() == mid.free_list(),
{
    assert(post.table() =~= mid.table());
    assert(post.free_list() =~= mid.free_list());
}

} // verus!
