//! An append-only pool of cells stored in lazily materialised fixed-size blocks.
use vstd::prelude::*;

verus! {

pub const BLOCK_SIZE: usize = 64;

pub const NUM_BLOCKS: usize = 8;

/// The number of cells a pool can hold.
pub const SLAB_CAPACITY: usize = 512;

/// Cells live in blocks of `BLOCK_SIZE`; a block is created when the first
/// cell that falls into it is allocated, and cells are never moved or freed.
pub struct BFixVec<T> {
    size: usize,
    blocks: Vec<Vec<T>>,
}

impl<T> View for BFixVec<T> {
    type V = Seq<T>;

    closed spec fn view(&self) -> Seq<T> {
        Seq::new(self.size as nat, |i: int| self.blocks@[i / 64]@[i % 64])
    }
}

impl<T> BFixVec<T> {
    /// Every block but the last is full, and the last holds the rest.
    pub closed spec fn wf(&self) -> bool {
        &&& self.size <= SLAB_CAPACITY
        &&& self.blocks@.len() == (self.size + 63) / 64
        &&& self.blocks@.len() <= NUM_BLOCKS
        &&& forall|b: int|
            0 <= b < self.blocks@.len() ==> #[trigger] self.blocks@[b]@.len() == if b + 1
                < self.blocks@.len() {
                64
            } else {
                self.size - 64 * b
            }
    }

    pub fn new() -> (r: Self)
        ensures
            r.wf(),
            r@ == Seq::<T>::empty(),
    {
        let r = BFixVec { size: 0, blocks: Vec::new() };
        assert(r@ =~= Seq::<T>::empty());
        r
    }

    pub fn size(&self) -> (r: usize)
        requires
            self.wf(),
        ensures
            r == self@.len(),
    {
        self.size
    }

    /// Appends `item` and returns its index; `None`, with nothing changed, when
    /// the pool is full. A full pool keeps its size at `SLAB_CAPACITY` rather
    /// than counting failed allocations past it, so that every index below the
    /// size names a cell. Cells handed out before keep their index and contents.
    pub fn allocate(&mut self, item: T) -> (r: Option<usize>)
        requires
            old(self).wf(),
        ensures
            final(self).wf(),
            old(self)@.len() < SLAB_CAPACITY ==> r == Some(old(self)@.len() as usize)
                && final(self)@ == old(self)@.push(item),
            old(self)@.len() >= SLAB_CAPACITY ==> r is None && final(self)@ == old(self)@,
            old(self)@.is_prefix_of(final(self)@),
    {
        if self.size >= SLAB_CAPACITY {
            return None;
        }
        let index = self.size;
        let block_index = index / BLOCK_SIZE;
        if block_index == self.blocks.len() {
            self.blocks.push(Vec::with_capacity(BLOCK_SIZE));
        }
        let ghost mid = self.blocks@;
        let mut block = self.blocks.pop().unwrap();
        block.push(item);
        self.blocks.push(block);
        self.size = index + 1;
        proof {
            let o = old(self)@;
            assert forall|i: int| 0 <= i < self.size implies #[trigger] self@[i] == o.push(item)[i] by {
                if i < index {
                    assert(i / 64 <= block_index);
                    if i / 64 == block_index {
                        assert(self.blocks@[i / 64]@[i % 64] == mid[i / 64]@[i % 64]);
                    }
                } else {
                    assert(i == index);
                }
            }
            assert(self@ =~= o.push(item));
        }
        Some(index)
    }

    /// The cell at `index`, if it has been allocated.
    pub fn get(&self, index: usize) -> (r: Option<&T>)
        requires
            self.wf(),
        ensures
            match r {
                Some(x) => index < self@.len() && *x == self@[index as int],
                None => index >= self@.len(),
            },
    {
        if index >= self.size {
            return None;
        }
        Some(self.get_unchecked(index))
    }

    pub fn get_unchecked(&self, index: usize) -> (r: &T)
        requires
            self.wf(),
            index < self@.len(),
        ensures
            *r == self@[index as int],
    {
        &self.blocks[index / BLOCK_SIZE][index % BLOCK_SIZE]
    }

    pub fn get_mut_unchecked(&mut self, index: usize) -> (r: &mut T)
        requires
            old(self).wf(),
            index < old(self)@.len(),
        ensures
            *r == old(self)@[index as int],
            final(self).wf(),
            final(self)@ == old(self)@.update(index as int, *final(r)),
    {
        &mut self.blocks[index / BLOCK_SIZE][index % BLOCK_SIZE]
    }
}

/// Allocation only ever appends: the count of cells does not decrease and every
/// cell handed out before keeps its index and its contents.
pub proof fn lemma_allocate_monotonic<T>(before: BFixVec<T>, after: BFixVec<T>, item: T, r: Option<usize>)
    requires
        before.wf(),
        before@.len() < SLAB_CAPACITY ==> r == Some(before@.len() as usize) && after@ == before@.push(item),
        before@.len() >= SLAB_CAPACITY ==> r is None && after@ == before@,
    ensures
        after@.len() >= before@.len(),
        forall|i: int| 0 <= i < before@.len() ==> after@[i] == before@[i],
{
}

} // verus!

verus! {

/// Over any run of allocations, each state's cells are a prefix of every
/// later state's: a cell once handed out keeps its index and contents for the
/// pool's whole life.
pub proof fn lemma_allocation_run<T>(states: Seq<Seq<T>>)
    requires
        forall|i: int| 0 <= i < states.len() - 1 ==> #[trigger] states[i].is_prefix_of(states[i + 1]),
    ensures
        forall|i: int, j: int|
            0 <= i <= j < states.len() ==> #[trigger] states[i].is_prefix_of(#[trigger] states[j]),
    decreases states.len(),
{
    if states.len() > 1 {
        let front = states.drop_last();
        assert forall|i: int| 0 <= i < front.len() - 1 implies #[trigger] front[i].is_prefix_of(front[i + 1]) by {
            assert(states[i].is_prefix_of(states[i + 1]));
        }
        lemma_allocation_run(front);
        let last = states.len() - 1;
        assert forall|i: int, j: int|
            0 <= i <= j < states.len() implies #[trigger] states[i].is_prefix_of(#[trigger] states[j]) by {
            if j < last {
                assert(front[i].is_prefix_of(front[j]));
            } else if i < last {
                assert(front[i].is_prefix_of(front[last - 1]));
                let p = last - 1;
                assert(states[p].is_prefix_of(states[p + 1]));
                assert(states[i].len() <= states[j].len());
                assert forall|k: int| 0 <= k < states[i].len() implies states[i][k] == states[j][k] by {
                    assert(states[i][k] == states[last - 1][k]);
                }
            } else {
                assert(states[i].is_prefix_of(states[j])) by {
                    assert(states[i].len() <= states[j].len());
                }
            }
        }
    } else {
        assert forall|i: int, j: int|
            0 <= i <= j < states.len() implies #[trigger] states[i].is_prefix_of(#[trigger] states[j]) by {
            assert(i == j);
        }
    }
}

} // verus!
