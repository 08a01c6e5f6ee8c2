use fixmap::bfix::BFixMap;

fn scenario_map() -> BFixMap<u64, u64> {
    BFixMap::with_capacity(222 * 1024)
}

#[test]
fn bfix_bucket_count_from_capacity() {
    assert_eq!(scenario_map().bucket_count(), 1024);
    let small: BFixMap<u64, u64> = BFixMap::with_capacity(10);
    assert_eq!(small.bucket_count(), 1024);
    let big: BFixMap<u64, u64> = BFixMap::with_capacity(222 * 3000);
    assert_eq!(big.bucket_count(), 2048);
}

#[test]
fn bfix_insert_get_replace() {
    let mut m = scenario_map();
    assert_eq!(m.insert(42, 7), None);
    assert_eq!(m.get(&42), Some(7));
    assert_eq!(m.insert(42, 9), Some(7));
    assert_eq!(m.get(&42), Some(9));
}

#[test]
fn bfix_thousand_keys_single_thread() {
    let mut m = scenario_map();
    for i in 1..=1000u64 {
        assert_eq!(m.insert(i, i), None);
    }
    for i in 1..=1000u64 {
        assert_eq!(m.get(&i), Some(i));
    }
}

#[test]
fn bfix_thousand_keys_in_eight_interleaved_batches() {
    let mut m = scenario_map();
    for t in 0..8u64 {
        let mut i = 1 + t;
        while i <= 1000 {
            m.insert(i, i);
            i += 8;
        }
    }
    let present = (1..=1000u64).filter(|i| m.get(i).is_some()).count();
    assert_eq!(present, 1000);
}

#[test]
fn bfix_remove_odd_keys() {
    let mut m = scenario_map();
    for i in 1..=100u64 {
        m.insert(i, i);
    }
    for i in (1..=100u64).filter(|i| i % 2 == 1) {
        assert_eq!(m.remove(&i), Some(i));
    }
    for k in 1..=50u64 {
        assert!(m.get(&(2 * k)).is_some());
        if 2 * k + 1 <= 100 {
            assert_eq!(m.get(&(2 * k + 1)), None);
        }
    }
    assert_eq!(m.remove(&1), None);
}

#[test]
fn bfix_remove_from_middle_of_chains() {
    // A small map keeps many keys per chain, so removals unlink interior entries.
    let mut m: BFixMap<u64, u64> = BFixMap::with_capacity(0);
    for i in 0..20_000u64 {
        assert_eq!(m.insert(i, i + 1), None);
    }
    for i in (0..20_000u64).step_by(3) {
        assert_eq!(m.remove(&i), Some(i + 1));
    }
    for i in 0..20_000u64 {
        if i % 3 == 0 {
            assert_eq!(m.get(&i), None);
        } else {
            assert_eq!(m.get(&i), Some(i + 1));
        }
    }
}

#[test]
fn bfix_modify_applies_function_once() {
    let mut m = scenario_map();
    m.insert(5, 10);
    assert!(m.modify(&5, |v| v + 1));
    assert_eq!(m.get(&5), Some(11));
    assert!(!m.modify(&6, |v| v + 1));
    assert_eq!(m.get(&6), None);
}

#[test]
fn bfix_string_keys_and_seed() {
    let mut m: BFixMap<String, i32> = BFixMap::with_capacity_and_hasher(1000, 12345);
    assert_eq!(m.insert("one".to_string(), 1), None);
    assert_eq!(m.insert("two".to_string(), 2), None);
    assert_eq!(m.get(&"one".to_string()), Some(1));
    assert_eq!(m.get(&"two".to_string()), Some(2));
    assert_eq!(m.get(&"three".to_string()), None);
    assert_eq!(m.remove(&"one".to_string()), Some(1));
    assert_eq!(m.get(&"one".to_string()), None);
}
