use hibitset::BitSet;
use idv_storage::{IDVStorage, InterleavedGroup, SPARSE_RATIO};

fn mask_of(ids: &[u32]) -> BitSet {
    let mut mask = BitSet::new();
    for id in ids {
        mask.add(*id);
    }
    mask
}

#[test]
fn blank_group_is_zeroed_and_empty() {
    let g: InterleavedGroup<String> = InterleavedGroup::blank();
    assert_eq!(SPARSE_RATIO, 4);
    assert_eq!(g.redirects, [0, 0, 0, 0]);
    assert_eq!(g.owner, 0);
    assert!(g.data.is_none());
}

#[test]
fn default_storage_is_empty() {
    let s: IDVStorage<u32> = IDVStorage::default();
    assert_eq!(s.table_len(), 0);
    assert_eq!(s.free_count(), 0);
    assert!(!s.contains(0));
    assert!(s.c_get(0).is_none());
}

#[test]
fn insert_then_get_round_trip() {
    let mut s: IDVStorage<String> = IDVStorage::default();
    s.insert(42, "answer".to_string());
    assert_eq!(s.get(42), "answer");
    assert_eq!(s.c_get(42), Some(&"answer".to_string()));
    assert!(s.contains(42));
}

#[test]
fn round_trip_holds_for_many_keys() {
    let mut s: IDVStorage<u64> = IDVStorage::default();
    let keys: [u32; 9] = [0, 1, 2, 3, 4, 7, 64, 1000, 65_537];
    for k in keys {
        s.insert(k, u64::from(k) * 3 + 1);
        assert_eq!(*s.get(k), u64::from(k) * 3 + 1);
    }
    for k in keys {
        assert_eq!(*s.get(k), u64::from(k) * 3 + 1);
    }
}

#[test]
fn insert_without_free_slot_grows_by_a_batch() {
    let mut s: IDVStorage<u8> = IDVStorage::default();
    s.insert(0, 1);
    assert_eq!(s.table_len(), 8);
    assert_eq!(s.free_count(), 7);
    assert_eq!(s.resolve_to_internal(0), 7);
}

#[test]
fn insert_within_reach_takes_the_last_free_slot() {
    let mut s: IDVStorage<u8> = IDVStorage::default();
    s.insert(0, 1);
    s.insert(1, 2);
    s.insert(2, 3);
    assert_eq!(s.table_len(), 8);
    assert_eq!(s.free_count(), 5);
    assert_eq!(s.resolve_to_internal(1), 6);
    assert_eq!(s.resolve_to_internal(2), 5);
}

#[test]
fn insert_beyond_reach_grows_to_four_times_the_index() {
    let mut s: IDVStorage<u8> = IDVStorage::default();
    s.insert(41, 9);
    assert_eq!(s.table_len(), 164);
    assert_eq!(s.free_count(), 163);
    assert_eq!(s.resolve_to_internal(41), 163);
    assert_eq!(*s.get(41), 9);
}

#[test]
fn a_full_table_grows_by_a_batch() {
    let mut s: IDVStorage<u8> = IDVStorage::default();
    s.expand(2);
    s.insert(0, 1);
    s.insert(0, 2);
    assert_eq!(s.table_len(), 2);
    assert_eq!(s.free_count(), 0);
    s.insert(0, 3);
    assert_eq!(s.table_len(), 10);
    assert_eq!(s.free_count(), 7);
    assert_eq!(s.resolve_to_internal(0), 9);
    assert_eq!(*s.get(0), 3);
}

#[test]
fn distinct_keys_get_distinct_slots() {
    let mut s: IDVStorage<u8> = IDVStorage::default();
    s.insert(0, 1);
    s.insert(1, 2);
    s.insert(2, 3);
    s.insert(9, 4);
    let keys: [usize; 4] = [0, 1, 2, 9];
    for a in 0..keys.len() {
        for b in (a + 1)..keys.len() {
            assert_ne!(s.resolve_to_internal(keys[a]), s.resolve_to_internal(keys[b]));
        }
    }
}

#[test]
fn writing_one_key_leaves_the_other() {
    let mut s: IDVStorage<String> = IDVStorage::default();
    s.insert(3, "three".to_string());
    s.insert(4, "four".to_string());
    s.get_mut(3).push_str("!!");
    assert_eq!(s.get(3), "three!!");
    assert_eq!(s.get(4), "four");
    *s.c_get_mut(4).unwrap() = "4".to_string();
    assert_eq!(s.get(3), "three!!");
    assert_eq!(s.get(4), "4");
}

#[test]
fn checked_access_to_absent_index_is_none() {
    let mut s: IDVStorage<u8> = IDVStorage::default();
    s.insert(0, 7);
    assert!(s.c_get(1).is_none());
    assert!(s.c_get(400).is_none());
    assert!(s.c_get_mut(1).is_none());
    assert!(s.c_get_mut(400).is_none());
    assert!(s.c_remove(1).is_none());
    assert!(s.c_remove(400).is_none());
    assert_eq!(s.table_len(), 8);
    assert_eq!(*s.get(0), 7);
}

#[test]
fn remove_returns_the_value_and_ends_the_life() {
    let mut s: IDVStorage<String> = IDVStorage::default();
    s.insert(6, "six".to_string());
    assert_eq!(s.remove(6), "six");
    assert!(!s.contains(6));
    assert!(s.c_get(6).is_none());
    assert!(s.c_remove(6).is_none());
}

#[test]
fn stale_redirect_does_not_reach_the_new_tenant() {
    let mut s: IDVStorage<u8> = IDVStorage::default();
    s.insert(0, 10);
    s.insert(1, 11);
    let slot = s.resolve_to_internal(1);
    assert_eq!(s.c_remove(1), Some(11));
    s.insert(2, 12);
    assert_eq!(s.resolve_to_internal(2), slot);
    assert_eq!(s.resolve_to_internal(1), slot);
    assert!(!s.contains(1));
    assert!(s.c_get(1).is_none());
    assert_eq!(s.c_get(2), Some(&12));
}

#[test]
fn freed_slot_is_reused_by_a_different_key() {
    let mut s: IDVStorage<u8> = IDVStorage::default();
    s.insert(0, 1);
    s.insert(1, 2);
    let len = s.table_len();
    let free = s.free_count();
    let slot = s.resolve_to_internal(1);
    s.remove(1);
    assert_eq!(s.free_count(), free + 1);
    s.insert(2, 4);
    assert_eq!(s.resolve_to_internal(2), slot);
    assert_eq!(s.table_len(), len);
    assert_eq!(s.free_count(), free);
}

#[test]
fn insert_beyond_reach_after_remove_takes_a_fresh_slot() {
    let mut s: IDVStorage<u8> = IDVStorage::default();
    s.insert(0, 1);
    s.insert(1, 2);
    let freed = s.resolve_to_internal(1);
    s.remove(1);
    s.insert(3, 4);
    assert_eq!(s.table_len(), 12);
    assert_eq!(s.resolve_to_internal(3), 11);
    assert_ne!(s.resolve_to_internal(3), freed);
    s.insert(1, 5);
    assert_eq!(s.resolve_to_internal(1), 10);
}

#[test]
fn cycles_on_fixed_keys_do_not_grow_the_table() {
    let mut s: IDVStorage<u32> = IDVStorage::default();
    for k in 0..12u32 {
        s.insert(k, k);
    }
    let len = s.table_len();
    let free = s.free_count();
    for round in 0..50u32 {
        for k in 0..12u32 {
            assert_eq!(s.remove(k), k + round);
            s.insert(k, k + round + 1);
        }
        assert_eq!(s.table_len(), len);
        assert_eq!(s.free_count(), free);
    }
    for k in 0..12u32 {
        assert_eq!(*s.get(k), k + 50);
    }
}

#[test]
fn reinserting_a_live_index_leaks_its_old_slot() {
    let mut s: IDVStorage<u8> = IDVStorage::default();
    s.insert(0, 1);
    s.insert(1, 2);
    let old_slot = s.resolve_to_internal(1);
    let free = s.free_count();
    s.insert(1, 3);
    assert_eq!(*s.get(1), 3);
    assert_ne!(s.resolve_to_internal(1), old_slot);
    assert_eq!(s.free_count(), free - 1);
    s.remove(1);
    assert_eq!(s.free_count(), free);
    assert_eq!(*s.get(0), 1);
    s.insert(2, 4);
    assert_ne!(s.resolve_to_internal(2), old_slot);
}

#[test]
fn expand_appends_free_groups() {
    let mut s: IDVStorage<u8> = IDVStorage::default();
    s.expand(3);
    assert_eq!(s.table_len(), 3);
    assert_eq!(s.free_count(), 3);
    s.expand(0);
    assert_eq!(s.table_len(), 3);
    s.insert(0, 5);
    assert_eq!(s.resolve_to_internal(0), 2);
    assert_eq!(s.table_len(), 3);
    assert_eq!(s.free_count(), 2);
}

#[test]
fn check_prefill_grows_once() {
    let mut s: IDVStorage<u8> = IDVStorage::default();
    s.check_prefill(5);
    assert_eq!(s.table_len(), 20);
    assert_eq!(s.free_count(), 20);
    s.check_prefill(5);
    assert_eq!(s.table_len(), 20);
    assert_eq!(s.free_count(), 20);
    s.check_prefill(2);
    assert_eq!(s.table_len(), 20);
    s.check_prefill(0);
    assert_eq!(s.table_len(), 20);
    assert_eq!(s.free_count(), 20);
    s.check_prefill(6);
    assert_eq!(s.table_len(), 24);
    assert_eq!(s.free_count(), 24);
}

#[test]
fn table_length_never_decreases() {
    let mut s: IDVStorage<u32> = IDVStorage::default();
    let mut last = s.table_len();
    for k in 0..40u32 {
        s.insert(k * 3, k);
        assert!(s.table_len() >= last);
        last = s.table_len();
    }
    for k in 0..40u32 {
        s.remove(k * 3);
        assert!(s.table_len() >= last);
        last = s.table_len();
    }
    s.clean(&mask_of(&[1, 2, 3]));
    assert_eq!(s.table_len(), last);
}

#[test]
fn clean_frees_exactly_the_marked_indices() {
    let mut s: IDVStorage<String> = IDVStorage::default();
    for k in 0..10u32 {
        s.insert(k, format!("v{}", k));
    }
    let len = s.table_len();
    let free = s.free_count();
    s.clean(&mask_of(&[0, 4, 5, 9]));
    for k in [0u32, 4, 5, 9] {
        assert!(!s.contains(k as usize));
        assert!(s.c_get(k as usize).is_none());
    }
    for k in [1u32, 2, 3, 6, 7, 8] {
        assert_eq!(s.get(k), &format!("v{}", k));
    }
    assert_eq!(s.table_len(), len);
    assert_eq!(s.free_count(), free + 4);
}

#[test]
fn clean_tests_group_times_four_plus_sub_slot() {
    let mut s: IDVStorage<u8> = IDVStorage::default();
    s.insert(4, 40);
    s.insert(5, 50);
    s.insert(6, 60);
    s.insert(2, 20);
    s.clean(&mask_of(&[4, 6]));
    assert!(!s.contains(4));
    assert!(!s.contains(6));
    assert_eq!(*s.get(5), 50);
    assert_eq!(*s.get(2), 20);
}

#[test]
fn clean_with_an_empty_mask_changes_nothing() {
    let mut s: IDVStorage<u8> = IDVStorage::default();
    s.insert(0, 1);
    s.insert(7, 2);
    let free = s.free_count();
    s.clean(&BitSet::new());
    assert_eq!(*s.get(0), 1);
    assert_eq!(*s.get(7), 2);
    assert_eq!(s.free_count(), free);
}

#[test]
fn clean_ignores_marked_indices_that_are_not_live() {
    let mut s: IDVStorage<u8> = IDVStorage::default();
    s.insert(0, 1);
    s.insert(1, 2);
    s.remove(1);
    let free = s.free_count();
    s.clean(&mask_of(&[1, 2, 3, 900]));
    assert_eq!(*s.get(0), 1);
    assert_eq!(s.free_count(), free);
}

#[test]
fn cleaned_index_is_live_again_after_insert() {
    let mut s: IDVStorage<u8> = IDVStorage::default();
    s.insert(3, 1);
    s.c_clean(&mask_of(&[3]));
    assert!(s.c_get(3).is_none());
    s.c_insert(3, 2);
    assert_eq!(s.c_get(3), Some(&2));
}

#[test]
fn check_prefill_keeps_what_is_stored() {
    let mut s: IDVStorage<u8> = IDVStorage::default();
    s.insert(3, 30);
    let slot = s.resolve_to_internal(3);
    s.check_prefill(100);
    assert_eq!(s.table_len(), 400);
    assert_eq!(s.resolve_to_internal(3), slot);
    assert_eq!(*s.get(3), 30);
    assert!(!s.contains(99));
}

#[test]
fn three_keys_remove_reinsert_clean() {
    let mut s: IDVStorage<&str> = IDVStorage::default();
    s.insert(0, "a");
    s.insert(1, "b");
    s.insert(5, "c");
    assert_eq!(*s.get(0), "a");
    assert_eq!(*s.get(1), "b");
    assert_eq!(*s.get(5), "c");
    assert!(s.table_len() > 8);

    let freed = s.resolve_to_internal(1);
    assert_eq!(s.remove(1), "b");
    s.insert(1, "d");
    assert_eq!(s.resolve_to_internal(1), freed);
    assert_eq!(*s.get(1), "d");

    let free = s.free_count();
    s.clean(&mask_of(&[5]));
    assert_eq!(*s.get(0), "a");
    assert_eq!(*s.get(1), "d");
    assert!(!s.contains(5));
    assert!(s.c_get(5).is_none());
    assert_eq!(s.free_count(), free + 1);
}

#[test]
fn three_keys_land_in_the_slots_the_contract_names() {
    let mut s: IDVStorage<&str> = IDVStorage::default();
    s.insert(0, "a");
    s.insert(1, "b");
    assert_eq!(s.table_len(), 8);
    s.insert(5, "c");
    assert_eq!(s.table_len(), 20);
    assert_eq!(s.resolve_to_internal(0), 7);
    assert_eq!(s.resolve_to_internal(1), 6);
    assert_eq!(s.resolve_to_internal(5), 19);
    assert_eq!(s.free_count(), 17);
}

#[test]
fn far_index_survives_clean_of_another() {
    let mut s: IDVStorage<u8> = IDVStorage::default();
    s.c_insert(7_000, 1);
    s.c_insert(2, 2);
    s.clean(&mask_of(&[2]));
    assert_eq!(s.c_get(7_000), Some(&1));
    assert!(s.c_get(2).is_none());
}

#[test]
fn live_indices_and_free_slots_fill_the_table() {
    let mut s: IDVStorage<u32> = IDVStorage::default();
    let mut live: usize = 0;
    for k in 0..30u32 {
        s.insert(k * 2, k);
        live += 1;
        assert_eq!(live + s.free_count(), s.table_len());
    }
    for k in 0..10u32 {
        s.remove(k * 2);
        live -= 1;
        assert_eq!(live + s.free_count(), s.table_len());
    }
    s.clean(&mask_of(&[20, 22, 24, 25, 1000]));
    live -= 3;
    assert_eq!(live + s.free_count(), s.table_len());
}

#[test]
fn table_reaches_every_inserted_index() {
    let mut s: IDVStorage<u8> = IDVStorage::default();
    for k in [0u32, 1, 2, 9, 33, 34, 250] {
        s.insert(k, 0);
        assert!(s.table_len() / SPARSE_RATIO >= k as usize);
        assert!(s.table_len() > k as usize / SPARSE_RATIO);
    }
    assert_eq!(s.table_len(), 1000);
}

#[test]
fn get_mut_writes_in_place() {
    let mut s: IDVStorage<u32> = IDVStorage::default();
    s.insert(8, 1);
    let slot = s.resolve_to_internal(8);
    let free = s.free_count();
    *s.get_mut(8) += 41;
    assert_eq!(*s.get(8), 42);
    assert_eq!(s.resolve_to_internal(8), slot);
    assert_eq!(s.free_count(), free);
}

#[test]
fn clean_frees_slots_by_ascending_index() {
    let mut s: IDVStorage<u8> = IDVStorage::default();
    s.insert(0, 0);
    s.insert(1, 1);
    s.insert(2, 2);
    let slot_of_0 = s.resolve_to_internal(0);
    let slot_of_2 = s.resolve_to_internal(2);
    s.clean(&mask_of(&[2, 0]));
    s.insert(1, 9);
    assert_eq!(s.resolve_to_internal(1), slot_of_2);
    s.insert(2, 8);
    assert_eq!(s.resolve_to_internal(2), slot_of_0);
}
