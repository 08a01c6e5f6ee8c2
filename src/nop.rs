//! A baseline collection that does nothing and reports every operation as a
//! success.
use crate::bench::{Collection, CollectionHandle};
use vstd::prelude::*;

verus! {

pub struct NopCollection {
    capacity: usize,
}

pub struct NopHandle {}

impl NopCollection {
    pub fn with_capacity(capacity: usize) -> (r: Self)
        ensures
            r.spec_capacity() == capacity,
    {
        NopCollection { capacity }
    }

    pub closed spec fn spec_capacity(&self) -> usize {
        self.capacity
    }
}

impl NopHandle {
    pub fn new() -> (r: Self) {
        NopHandle {  }
    }
}

impl Collection for NopCollection {
    type Handle = NopHandle;

    fn pin(&self) -> NopHandle {
        NopHandle::new()
    }

    fn prefill_complete(&self) {
    }
}

impl CollectionHandle for NopHandle {
    fn get(&self, _key: &u64) -> bool {
        true
    }

    fn insert(&self, _key: u64) -> bool {
        true
    }

    fn remove(&self, _key: &u64) -> bool {
        true
    }

    fn update(&self, _key: &u64) -> bool {
        true
    }
}

} // verus!
