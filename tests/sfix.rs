use fixmap::sfix::{calc_index, SFixMap};

#[test]
fn test_basic_operations() {
    let mut map: SFixMap<String, i32> = SFixMap::<String, i32>::with_capacity(10);

    // Insert
    assert_eq!(map.insert("one".to_string(), 1).unwrap(), None);
    assert_eq!(map.insert("two".to_string(), 2).unwrap(), None);
    assert_eq!(map.insert("x".to_string(), 3).unwrap(), None);

    // Get
    assert_eq!(map.get(&"one".to_string()), Some(&1));
    assert_eq!(map.get(&"x".to_string()), Some(&3));
    assert_eq!(map.get(&"two".to_string()), Some(&2));
    assert_eq!(map.get(&"three".to_string()), None);
}

#[test]
fn sfix_size_is_power_of_two_at_least_three_times_capacity() {
    let small: SFixMap<u64, u64> = SFixMap::with_capacity(10);
    assert_eq!(small.size(), 256);
    let mid: SFixMap<u64, u64> = SFixMap::with_capacity(100);
    assert_eq!(mid.size(), 512);
    let exact: SFixMap<u64, u64> = SFixMap::with_capacity(1000);
    assert_eq!(exact.size(), 4096);
}

#[test]
fn sfix_insert_replaces_and_returns_old_value() {
    let mut map: SFixMap<u64, u64> = SFixMap::with_capacity(10);
    assert_eq!(map.insert(42, 7), Ok(None));
    assert_eq!(map.get(&42), Some(&7));
    assert_eq!(map.insert(42, 9), Ok(Some(7)));
    assert_eq!(map.get(&42), Some(&9));
}

#[test]
fn sfix_remove_then_get_is_none() {
    let mut map: SFixMap<u64, u64> = SFixMap::with_capacity(50);
    for k in 0..100u64 {
        assert_eq!(map.insert(k, k * 10), Ok(None));
    }
    for k in (0..100u64).filter(|k| k % 2 == 1) {
        let (slot, hash8) = calc_index(0, &k, map.size());
        assert_eq!(map.remove(slot, hash8, &k), Some((k, k * 10)));
    }
    for k in 0..100u64 {
        if k % 2 == 1 {
            assert_eq!(map.get(&k), None);
        } else {
            assert_eq!(map.get(&k), Some(&(k * 10)));
        }
    }
    let (slot, hash8) = calc_index(0, &1u64, map.size());
    assert_eq!(map.remove(slot, hash8, &1u64), None);
}

#[test]
fn sfix_fills_every_cell_then_reports_full() {
    // 256 cells in 16 blocks, each block with 15 usable cells.
    let mut map: SFixMap<u64, u64> = SFixMap::with_capacity(10);
    for k in 0..240u64 {
        assert_eq!(map.insert(k, k + 1), Ok(None), "key {}", k);
    }
    for k in 0..240u64 {
        assert_eq!(map.get(&k), Some(&(k + 1)));
    }
    assert_eq!(map.insert(1000, 1), Err("Shard is full"));
    assert_eq!(map.insert(5, 50), Ok(Some(6)));
    assert_eq!(map.get(&1000), None);
}

#[test]
fn sfix_absent_keys_found_nowhere_past_overflow_markers() {
    let mut map: SFixMap<u64, u64> = SFixMap::with_capacity(10);
    for k in 0..200u64 {
        map.insert(k, k).unwrap();
    }
    for k in 200..400u64 {
        assert_eq!(map.get(&k), None);
    }
}

#[test]
fn sfix_reinsert_after_remove_keeps_a_single_copy() {
    let mut map: SFixMap<u64, u64> = SFixMap::with_capacity(10);
    for k in 0..200u64 {
        map.insert(k, k).unwrap();
    }
    for k in 0..100u64 {
        let (slot, hash8) = calc_index(0, &k, map.size());
        assert!(map.remove(slot, hash8, &k).is_some());
    }
    for k in 100..200u64 {
        assert_eq!(map.insert(k, k + 7), Ok(Some(k)));
    }
    for k in 100..200u64 {
        let (slot, hash8) = calc_index(0, &k, map.size());
        assert_eq!(map.remove(slot, hash8, &k), Some((k, k + 7)));
        assert_eq!(map.get(&k), None);
    }
}

#[test]
fn sfix_calc_index_is_block_aligned_with_nonzero_fingerprint() {
    for k in 0..1000u64 {
        let (slot, hash8) = calc_index(17, &k, 512);
        assert!(slot < 512);
        assert_eq!(slot % 16, 0);
        assert_ne!(hash8, 0);
        assert_eq!(calc_index(17, &k, 512), (slot, hash8));
    }
}

#[test]
fn sfix_string_keys_with_seed() {
    let mut map: SFixMap<String, i32> = SFixMap::with_capacity_and_hasher(4, 99);
    map.insert("alpha".to_string(), 1).unwrap();
    map.insert("beta".to_string(), 2).unwrap();
    assert_eq!(map.get(&"alpha".to_string()), Some(&1));
    assert_eq!(map.get(&"beta".to_string()), Some(&2));
    assert_eq!(map.get(&"gamma".to_string()), None);
}

#[test]
fn sfix_takes_three_times_its_capacity() {
    for capacity in [10usize, 100, 1000] {
        let mut map: SFixMap<u64, u64> = SFixMap::with_capacity(capacity);
        for k in 0..(3 * capacity) as u64 {
            assert_eq!(map.insert(k, k), Ok(None), "capacity {} key {}", capacity, k);
        }
        for k in 0..(3 * capacity) as u64 {
            assert_eq!(map.get(&k), Some(&k));
        }
    }
}

#[test]
fn sfix_capacity_85_has_fewer_usable_cells_than_three_times_capacity() {
    // 3 * 85 = 255 rounds up to 256 cells, of which 240 can hold keys.
    let mut map: SFixMap<u64, u64> = SFixMap::with_capacity(85);
    assert_eq!(map.size(), 256);
    for k in 0..240u64 {
        assert_eq!(map.insert(k, k), Ok(None));
    }
    assert_eq!(map.insert(240, 240), Err("Shard is full"));
}

#[test]
fn sfix_get_mut_changes_the_stored_value() {
    let mut map: SFixMap<u64, u64> = SFixMap::with_capacity(10);
    map.insert(3, 30).unwrap();
    let (slot, hash8) = calc_index(map.seed(), &3u64, map.size());
    *map.get_mut(slot, hash8, &3u64).unwrap() += 1;
    assert_eq!(map.get(&3), Some(&31));
    let (slot, hash8) = calc_index(map.seed(), &4u64, map.size());
    assert!(map.get_mut(slot, hash8, &4u64).is_none());
}

#[test]
fn sfix_remove_from_full_table_frees_a_cell() {
    let mut map: SFixMap<u64, u64> = SFixMap::with_capacity(10);
    for k in 0..240u64 {
        map.insert(k, k).unwrap();
    }
    assert_eq!(map.insert(500, 1), Err("Shard is full"));
    let (slot, hash8) = calc_index(map.seed(), &17u64, map.size());
    assert_eq!(map.remove(slot, hash8, &17u64), Some((17, 17)));
    assert_eq!(map.insert(500, 1), Ok(None));
    assert_eq!(map.get(&500), Some(&1));
    assert_eq!(map.get(&17), None);
    let (slot, hash8) = calc_index(map.seed(), &9999u64, map.size());
    assert_eq!(map.remove(slot, hash8, &9999u64), None);
}
