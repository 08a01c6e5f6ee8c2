use fixmap::key::{bytes_equal, hash_key, u64_to_bytes, MapKey};
use fixmap::numa::{aligned_payload, block_size, moved_payload, numa_node_of_mask};
use fixmap::sizing::{closest_power_of_2_min_1024, next_power_of_2_min_256};
use fixmap::slab::BFixVec;

#[test]
fn closest_power_rounds_to_nearest_with_floor() {
    assert_eq!(closest_power_of_2_min_1024(0), 1024);
    assert_eq!(closest_power_of_2_min_1024(1024), 1024);
    assert_eq!(closest_power_of_2_min_1024(1536), 1024);
    assert_eq!(closest_power_of_2_min_1024(1537), 2048);
    assert_eq!(closest_power_of_2_min_1024(3000), 2048);
    assert_eq!(closest_power_of_2_min_1024(3100), 4096);
    assert_eq!(closest_power_of_2_min_1024(4096), 4096);
}

#[test]
fn next_power_rounds_up_with_floor() {
    assert_eq!(next_power_of_2_min_256(0), 256);
    assert_eq!(next_power_of_2_min_256(30), 256);
    assert_eq!(next_power_of_2_min_256(256), 256);
    assert_eq!(next_power_of_2_min_256(257), 512);
    assert_eq!(next_power_of_2_min_256(3000), 4096);
}

#[test]
fn slab_appends_until_full() {
    let mut v: BFixVec<u32> = BFixVec::new();
    assert_eq!(v.get(0), None);
    for i in 0..512u32 {
        assert_eq!(v.allocate(i * 2), Some(i as usize));
    }
    assert_eq!(v.allocate(7), None);
    assert_eq!(v.size(), 512);
    assert_eq!(v.get(0), Some(&0));
    assert_eq!(v.get(64), Some(&128));
    assert_eq!(v.get(511), Some(&1022));
    assert_eq!(v.get(512), None);
    *v.get_mut_unchecked(3) = 99;
    assert_eq!(*v.get_unchecked(3), 99);
}

#[test]
fn key_bytes_and_equality() {
    assert_eq!(u64_to_bytes(0x0807_0605_0403_0201), vec![1, 2, 3, 4, 5, 6, 7, 8]);
    assert!(bytes_equal(b"abc", b"abc"));
    assert!(!bytes_equal(b"abc", b"abd"));
    assert!(!bytes_equal(b"abc", b"ab"));
    assert!(5u64.key_eq(&5));
    assert!(!5u64.key_eq(&6));
    assert!("x".to_string().key_eq(&"x".to_string()));
    assert_eq!(7u64.key_clone(), 7);
}

#[test]
fn hash_depends_on_seed_and_key_only() {
    assert_eq!(hash_key(1, &42u64), hash_key(1, &42u64));
    assert_ne!(hash_key(1, &42u64), hash_key(2, &42u64));
    assert_ne!(hash_key(1, &42u64), hash_key(1, &43u64));
    assert_eq!(hash_key(3, &"k".to_string()), hash_key(3, &"k".to_string()));
}

#[test]
fn payload_is_aligned_after_cookie() {
    assert_eq!(aligned_payload(1000, 64), 1024);
    assert_eq!(aligned_payload(1008, 16), 1024);
    assert_eq!(aligned_payload(1009, 16), 1040);
    assert_eq!(aligned_payload(0, 8), 16);
    assert_eq!(block_size(100, 8), 124);
    assert_eq!(moved_payload(1000, 1024, 5000), 5024);
}

#[test]
fn numa_node_from_lowest_mask_bit() {
    assert_eq!(numa_node_of_mask(0b1000), 3);
    assert_eq!(numa_node_of_mask(1 << 9), 1);
    assert_eq!(numa_node_of_mask(0), 0);
}
