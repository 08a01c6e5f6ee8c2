use fixmap::bitlock::{
    read_acquire_state, read_release_state, write_acquire_state, write_release_state,
    writer_owns_state, BitLock,
};

#[test]
fn reader_takes_highest_free_bit() {
    assert_eq!(read_acquire_state(0), Some((1 << 63, 1 << 63)));
    let s = 1u64 << 63;
    assert_eq!(read_acquire_state(s), Some((s | 1 << 62, 1 << 62)));
    assert_eq!(read_acquire_state(0b0110), Some((0b0110 | 1 << 63, 1 << 63)));
    assert_eq!(read_acquire_state(!1u64 & !(1 << 5)), Some((!1u64, 1 << 5)));
}

#[test]
fn no_reader_while_writer_flag_or_all_bits_taken() {
    assert_eq!(read_acquire_state(1), None);
    assert_eq!(read_acquire_state(1 | 1 << 40), None);
    assert_eq!(read_acquire_state(!1u64), None);
}

#[test]
fn writer_flag_transitions() {
    assert_eq!(write_acquire_state(0), Some(1));
    assert_eq!(write_acquire_state(1 << 63), Some(1 << 63 | 1));
    assert_eq!(write_acquire_state(1), None);
    assert_eq!(write_release_state(1 | 1 << 9), 1 << 9);
    assert_eq!(read_release_state(1 << 63 | 1 << 62, 1 << 62), 1 << 63);
}

#[test]
fn lock_excludes_readers_and_writer() {
    let lock = BitLock::new();
    let mut t1 = None;
    while t1.is_none() {
        t1 = lock.try_read();
    }
    let t1 = t1.unwrap();
    assert_eq!(t1, 1 << 63);
    let mut raised = false;
    while !raised {
        raised = lock.try_write();
    }
    assert!(!lock.writer_owns());
    assert_eq!(lock.try_read(), None);
    assert!(!lock.try_write());
    lock.release_read(t1);
    assert!(lock.writer_owns());
    lock.release_write();
    assert!(!lock.writer_owns());
    let mut t2 = None;
    while t2.is_none() {
        t2 = lock.try_read();
    }
    assert_eq!(t2, Some(1 << 63));
}

#[test]
fn writer_owns_only_the_bare_flag() {
    assert!(writer_owns_state(1));
    assert!(!writer_owns_state(0));
    assert!(!writer_owns_state(1 | 1 << 63));
}
