//! Fixed-size hash maps for many-core benchmarks, with their workload driver:
//! a sharded map with chained slots over append-only pools, an open-addressed
//! map probed sixteen cells at a time, a reader-writer bit lock, and the
//! arithmetic of a per-NUMA-node allocator.
pub mod bench;
pub mod bfix;
pub mod bitlock;
pub mod chain;
pub mod key;
pub mod nop;
pub mod numa;
pub mod sfix;
pub mod sizing;
pub mod slab;
