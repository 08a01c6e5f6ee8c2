use fixmap::bench::{
    average_latency_ns, next_op, prefill, run_ops, tally, Collection, CollectionHandle, Keys, Mix, Operation, RunConfig,
};
use fixmap::bfix::BFixMap;
use fixmap::nop::{NopCollection, NopHandle};
use std::cell::RefCell;
use std::collections::HashSet;

struct BFixCell(RefCell<BFixMap<u64, u64>>);

impl CollectionHandle for BFixCell {
    fn get(&self, key: &u64) -> bool {
        self.0.borrow().get(key).is_some()
    }

    fn insert(&self, key: u64) -> bool {
        self.0.borrow_mut().insert(key, 0).is_none()
    }

    fn remove(&self, key: &u64) -> bool {
        self.0.borrow_mut().remove(key).is_some()
    }

    fn update(&self, key: &u64) -> bool {
        self.0.borrow_mut().modify(key, |v| v + 1)
    }
}

fn count(ops: &[Operation], op: Operation) -> usize {
    ops.iter().filter(|o| **o == op).count()
}

#[test]
fn mixes_have_fixed_percentages() {
    let m = Mix::read_heavy();
    assert_eq!((m.read, m.insert, m.remove, m.update, m.upsert), (95, 2, 1, 1, 1));
    let m = Mix::read_only();
    assert_eq!((m.read, m.insert, m.remove, m.update, m.upsert), (100, 0, 0, 0, 0));
    let m = Mix::read_99();
    assert_eq!((m.read, m.insert, m.remove, m.update, m.upsert), (99, 1, 0, 0, 0));
    let m = Mix::read_100();
    assert_eq!((m.read, m.insert, m.remove, m.update, m.upsert), (100, 0, 0, 0, 0));
}

#[test]
fn op_template_is_in_fixed_order() {
    let t = Mix::read_heavy().op_template();
    assert_eq!(t.len(), 100);
    assert!(t[..95].iter().all(|o| *o == Operation::Read));
    assert_eq!(&t[95..], &[
        Operation::Insert,
        Operation::Insert,
        Operation::Remove,
        Operation::Update,
        Operation::Upsert,
    ]);
}

#[test]
fn to_ops_keeps_counts_and_shuffles() {
    let mix = Mix::read_heavy();
    let template = mix.op_template();
    let mut moved = false;
    for _ in 0..20 {
        let ops = mix.to_ops();
        assert_eq!(ops.len(), 100);
        assert_eq!(count(&ops, Operation::Read), 95);
        assert_eq!(count(&ops, Operation::Insert), 2);
        assert_eq!(count(&ops, Operation::Remove), 1);
        assert_eq!(count(&ops, Operation::Update), 1);
        assert_eq!(count(&ops, Operation::Upsert), 1);
        if ops != template {
            moved = true;
        }
    }
    assert!(moved);
}

#[test]
fn keys_are_pairwise_distinct() {
    let keys = Keys::new(10_000);
    let mut k2 = keys;
    let all = k2.alloc_n(10_000);
    let set: HashSet<u64> = all.iter().copied().collect();
    assert_eq!(all.len(), 10_000);
    assert_eq!(set.len(), 10_000);
    for (i, k) in all.iter().enumerate() {
        assert_eq!(k ^ all[0], i as u64);
    }
}

#[test]
fn keys_alloc_and_random_follow_the_cursor() {
    let mut keys = Keys::new(10);
    let first = keys.alloc_n(3);
    let second = keys.alloc_n(2);
    assert_eq!(first.len(), 3);
    assert_eq!(second.len(), 2);
    assert_eq!(keys.random(0), first[0]);
    assert_eq!(keys.random(4), second[1]);
    assert_eq!(keys.random(5), first[0]);
    keys.reset();
    let again = keys.alloc_n(3);
    assert_eq!(again, first);
    assert_eq!(keys.random(7), first[1]);
}

#[test]
fn latency_is_total_time_over_operations() {
    assert_eq!(average_latency_ns(3, 1_000), 3_000);
    assert_eq!(average_latency_ns(7, 3), 2_333_333);
    assert_eq!(average_latency_ns(0, 5), 0);
}

#[test]
fn run_config_splits_operations_per_thread() {
    let c = RunConfig {
        thread_count: 3,
        total_ops: 100,
        prefill: 0,
        operations: Mix::read_only().op_template(),
        keys_needed_per_thread: 0,
    };
    assert_eq!(c.ops_per_thread(), 33);
}

#[test]
fn nop_collection_reports_success() {
    let c = NopCollection::with_capacity(10);
    let h: NopHandle = c.pin();
    c.prefill_complete();
    assert!(h.get(&1) && h.insert(2) && h.remove(&3) && h.update(&4));
    let mut keys = Keys::new(8);
    let new_keys = keys.alloc_n(4);
    let ops = Mix::read_heavy().to_ops();
    assert_eq!(run_ops(&h, &keys, &ops, 1_000, &new_keys), 0);
}

#[test]
fn run_ops_counts_failures() {
    let map = BFixCell(RefCell::new(BFixMap::with_capacity(1000)));
    let mut keys = Keys::new(100);
    let present = keys.alloc_n(10);
    for k in present.iter() {
        map.insert(*k);
    }
    // Every insert below is of a key that is already present: each one fails.
    let ops = vec![Operation::Insert];
    assert_eq!(run_ops(&map, &keys, &ops, 25, &present), 25);
    let reads = Mix::read_only().op_template();
    assert_eq!(run_ops(&map, &keys, &reads, 25, &present), 0);
}

#[test]
fn read_only_workload_finds_every_key() {
    let prefill = 200_000;
    let map = BFixCell(RefCell::new(BFixMap::with_capacity(prefill)));
    let mut keys = Keys::new(prefill + 1000);
    keys.reset();
    let inserted = keys.alloc_n(prefill);
    for k in inserted.iter() {
        assert!(map.insert(*k));
    }
    let ops = Mix::read_only().to_ops();
    let new_keys = keys.alloc_n(0);
    assert_eq!(run_ops(&map, &keys, &ops, 2_000_000, &new_keys), 0);
}

#[test]
fn next_op_cycles_through_template_and_new_keys() {
    let ops = vec![Operation::Read, Operation::Insert, Operation::Update];
    assert_eq!(next_op(&ops, 0, 2, 3), (Operation::Read, 2, 2));
    assert_eq!(next_op(&ops, 4, 2, 3), (Operation::Insert, 2, 0));
    assert_eq!(next_op(&ops, 7, 0, 3), (Operation::Insert, 0, 1));
    assert_eq!(next_op(&ops, 5, 1, 3), (Operation::Update, 1, 1));
}

#[test]
fn tally_counts_failures_only() {
    assert_eq!(tally(4, true), 4);
    assert_eq!(tally(4, false), 5);
}

#[test]
fn prefill_cycles_through_keys_and_counts_failures() {
    let map = BFixCell(RefCell::new(BFixMap::with_capacity(1000)));
    let keys = vec![10u64, 20, 30];
    // Seven inserts over three keys: the last four find their key present.
    assert_eq!(prefill(&map, &keys, 7), 4);
    for k in keys.iter() {
        assert!(map.get(k));
    }
    assert_eq!(prefill(&map, &Vec::new(), 0), 0);
}
