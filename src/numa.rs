//! The arithmetic of the per-NUMA-node allocator: where a payload goes inside
//! the block a heap returned, where its cookie goes, and which node a thread's
//! affinity mask names.
use vstd::prelude::*;
use vstd::std_specs::bits::u64_trailing_zeros;

verus! {

/// Bytes kept before each payload for the heap handle and the block address.
pub const COOKIE_SIZE: usize = 16;

pub const MAX_NUMA_NODES: usize = 8;

/// A power of two, stated on its bits.
pub open spec fn is_alignment(align: usize) -> bool {
    align > 0 && align & ((align - 1) as usize) == 0
}

/// The number of bytes to ask a heap for, for `size` payload bytes aligned
/// to `align`.
pub fn block_size(size: usize, align: usize) -> (r: usize)
    requires
        size + COOKIE_SIZE + align <= usize::MAX,
    ensures
        r == size + COOKIE_SIZE + align,
{
    size + COOKIE_SIZE + align
}

/// The payload address inside a block that starts at `raw`: the first
/// multiple of `align` that leaves room for the cookie before it.
pub fn aligned_payload(raw: usize, align: usize) -> (r: usize)
    requires
        is_alignment(align),
        raw + COOKIE_SIZE + align <= usize::MAX,
    ensures
        r & ((align - 1) as usize) == 0,
        raw + COOKIE_SIZE <= r,
        r < raw + COOKIE_SIZE + align,
{
    let mask = align - 1;
    let x = raw + COOKIE_SIZE;
    let y = x + mask;
    let r = y & !mask;
    assert(r & mask == 0 && x <= r && r <= y) by (bit_vector)
        requires
            align > 0,
            align & mask == 0,
            mask == vstd::prelude::sub(align, 1usize),
            y == vstd::prelude::add(x, mask),
            y >= x,
            r == y & !mask,
    ;
    r
}

/// The cookie of a payload at `payload` and the payload itself lie inside the
/// block that the heap returned for them.
pub proof fn lemma_payload_in_block(raw: usize, align: usize, size: usize, payload: usize)
    requires
        is_alignment(align),
        raw + COOKIE_SIZE + align + size <= usize::MAX,
        raw + COOKIE_SIZE <= payload,
        payload < raw + COOKIE_SIZE + align,
    ensures
        raw <= payload - COOKIE_SIZE,
        payload + size <= raw + size + COOKIE_SIZE + align,
{
}

/// The payload address after a heap moved a block from `old_raw` to
/// `new_raw`: the payload keeps its offset from the start of the block.
pub fn moved_payload(old_raw: usize, old_payload: usize, new_raw: usize) -> (r: usize)
    requires
        old_raw <= old_payload,
        new_raw + (old_payload - old_raw) <= usize::MAX,
    ensures
        r - new_raw == old_payload - old_raw,
{
    new_raw + (old_payload - old_raw)
}

/// The NUMA node named by a thread's affinity mask: the index of its lowest
/// set bit, folded onto the supported nodes.
pub fn numa_node_of_mask(mask: u64) -> (r: usize)
    ensures
        r == (u64_trailing_zeros(mask) as nat) % (MAX_NUMA_NODES as nat),
        r < MAX_NUMA_NODES,
{
    (mask.trailing_zeros() as usize) % MAX_NUMA_NODES
}

} // verus!
