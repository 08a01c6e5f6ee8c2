//! A single-writer open-addressed map. Cells come in blocks of sixteen; the
//! first byte of a block is its overflow marker and the other fifteen hold a
//! one-byte fingerprint of the key in the cell, or zero when the cell is empty.
use crate::key::{hash_key, hash_spec, MapKey};
use crate::sizing::{is_power_of_two, next_power_of_2_min_256};
use vstd::prelude::*;
use vstd::relations::injective_on;
use vstd::set_lib::{lemma_int_range, lemma_len_subset, lemma_map_size, set_int_range};

verus! {

pub const SHARD_BLOCK_BITS: u64 = 4;

pub const SHARD_BLOCK_SIZE: usize = 16;

pub const OVERFLOW_MARKER: u8 = 255;

/// The first block probed for a key model in a table of `size` cells.
pub open spec fn home_block(seed: u64, size: usize, k: Seq<u8>) -> int {
    (hash_spec(seed, k) & (((size - 1) as u64) & !15u64)) as int
}

/// The fingerprint of a key model: the low byte of its hash, never zero.
pub open spec fn fingerprint(seed: u64, k: Seq<u8>) -> u8 {
    if hash_spec(seed, k) & 255u64 == 0 {
        1u8
    } else {
        (hash_spec(seed, k) & 255u64) as u8
    }
}

/// The block reached after `j` steps from `home`, wrapping at `size`.
pub open spec fn blk(size: int, home: int, j: int) -> int {
    if home + 16 * j < size {
        home + 16 * j
    } else {
        home + 16 * j - size
    }
}

/// The number of steps from `home` to block `b`.
pub open spec fn dist(size: int, home: int, b: int) -> int {
    if b >= home {
        (b - home) / 16
    } else {
        (b + size - home) / 16
    }
}

pub proof fn lemma_blk(size: int, home: int, j: int)
    requires
        size % 16 == 0,
        0 <= home < size,
        home % 16 == 0,
        0 <= j < size / 16,
    ensures
        0 <= blk(size, home, j) < size,
        blk(size, home, j) % 16 == 0,
        dist(size, home, blk(size, home, j)) == j,
{
}

pub proof fn lemma_dist(size: int, home: int, b: int)
    requires
        size % 16 == 0,
        0 <= home < size,
        home % 16 == 0,
        0 <= b < size,
        b % 16 == 0,
    ensures
        0 <= dist(size, home, b) < size / 16,
        blk(size, home, dist(size, home, b)) == b,
{
}

proof fn lemma_fingerprint_nonzero(seed: u64, k: Seq<u8>)
    ensures
        fingerprint(seed, k) != 0,
{
    let h = hash_spec(seed, k);
    assert(h & 255u64 != 0 ==> ((h & 255u64) as u8) != 0) by (bit_vector);
}

proof fn lemma_home_bounds(h: u64, size: usize)
    requires
        size >= 16,
    ensures
        (h & (((size - 1) as u64) & !15u64)) < size,
        (h & (((size - 1) as u64) & !15u64)) % 16 == 0,
{
    let m = (size - 1) as u64;
    assert((h & (m & !15u64)) <= m) by (bit_vector);
    assert((h & (m & !15u64)) % 16 == 0) by (bit_vector);
}

/// The first block and the fingerprint of `key` in a table of `size` cells.
pub fn calc_index<K: MapKey>(hash_builder: u64, key: &K, size: usize) -> (r: (usize, u8))
    requires
        size >= 16,
    ensures
        r.0 == home_block(hash_builder, size, key.key_model()),
        r.1 == fingerprint(hash_builder, key.key_model()),
        r.0 < size,
        r.0 % 16 == 0,
        r.1 != 0,
{
    let slot_mask: u64 = ((size - 1) as u64) & (!0u64 << SHARD_BLOCK_BITS);
    assert((!0u64 << 4u64) == !15u64) by (bit_vector);
    let h = hash_key(hash_builder, key);
    proof {
        lemma_home_bounds(h, size);
    }
    let low = h & 0xFF;
    assert(low <= 255) by (bit_vector)
        requires
            low == h & 0xFF,
    ;
    let hash8: u8 = if low == 0 {
        1
    } else {
        low as u8
    };
    ((h & slot_mask) as usize, hash8)
}

type FoundBitMask = u16;

/// Bit `j` of a match mask.
pub open spec fn mask_bit(m: u16, j: u16) -> bool {
    (m >> j) & 1u16 == 1u16
}

proof fn lemma_set_bit(m: u16, j: u16)
    requires
        j < 16,
    ensures
        forall|i: u16| i < 16 ==> #[trigger] mask_bit(m | (1u16 << j), i) == (i == j || mask_bit(m, i)),
{
    assert forall|i: u16| i < 16 implies #[trigger] mask_bit(m | (1u16 << j), i) == (i == j || mask_bit(m, i)) by {
        assert((((m | (1u16 << j)) >> i) & 1u16 == 1u16) == (i == j || (m >> i) & 1u16 == 1u16)) by (bit_vector)
            requires
                i < 16,
                j < 16,
        ;
    }
}

proof fn lemma_clear_head_bit(m: u16)
    ensures
        forall|i: u16| 1 <= i < 16 ==> #[trigger] mask_bit(m & !1u16, i) == mask_bit(m, i),
{
    assert forall|i: u16| 1 <= i < 16 implies #[trigger] mask_bit(m & !1u16, i) == mask_bit(m, i) by {
        assert(((((m & !1u16) >> i) & 1u16) == 1u16) == (((m >> i) & 1u16) == 1u16)) by (bit_vector)
            requires
                1 <= i < 16,
        ;
    }
}

pub struct SFixMap<K, V> {
    size: usize,
    index: Vec<u8>,
    build_hasher: u64,
    keys: Vec<K>,
    values: Vec<V>,
    cells: Ghost<Map<Seq<u8>, int>>,
}

impl<K: MapKey + Default, V: Copy + Default> View for SFixMap<K, V> {
    type V = Map<Seq<u8>, V>;

    closed spec fn view(&self) -> Map<Seq<u8>, V> {
        Map::new(
            |k: Seq<u8>| self.cells@.contains_key(k),
            |k: Seq<u8>| self.values@[self.cells@[k]],
        )
    }
}

impl<K: MapKey + Default, V: Copy + Default> SFixMap<K, V> {
    spec fn km(&self, i: int) -> Seq<u8> {
        self.keys@[i].key_model()
    }

    /// Cell `i` holds a key: it is not a block head and its byte is non-zero.
    spec fn live(&self, i: int) -> bool {
        0 <= i < self.size && i % 16 != 0 && self.index@[i] != 0
    }

    spec fn home(&self, k: Seq<u8>) -> int {
        home_block(self.build_hasher, self.size, k)
    }

    /// Every block probed before the one that holds cell `i` is marked as
    /// overflowed.
    spec fn reachable(&self, i: int) -> bool {
        let home = self.home(self.km(i));
        forall|j: int|
            0 <= j < dist(self.size as int, home, i - i % 16) ==> self.index@[#[trigger] blk(
                self.size as int,
                home,
                j,
            )] == OVERFLOW_MARKER
    }

    spec fn cell_ok(&self, i: int) -> bool {
        let k = self.km(i);
        &&& self.cells@.contains_key(k)
        &&& self.cells@[k] == i
        &&& self.index@[i] == fingerprint(self.build_hasher, k)
        &&& self.reachable(i)
    }

    /// The table and the map agree: each cell that holds a key is the cell
    /// recorded for that key, carries its fingerprint, and lies in a block
    /// that the probe from the key's home block reaches across overflow
    /// markers; and each recorded key is in exactly one cell. The map's value
    /// for a key is the value stored in its cell.
    pub closed spec fn wf(&self) -> bool {
        &&& self.size >= 256
        &&& self.size % 16 == 0
        &&& self.index@.len() == self.size
        &&& self.keys@.len() == self.size
        &&& self.values@.len() == self.size
        &&& self.cells@.dom().finite()
        &&& forall|i: int| #[trigger] self.live(i) ==> self.cell_ok(i)
        &&& forall|k: Seq<u8>|
            #[trigger] self.cells@.contains_key(k) ==> exists|i: int|
                #[trigger] self.live(i) && self.km(i) == k
        &&& forall|i1: int, i2: int|
            #[trigger] self.live(i1) && #[trigger] self.live(i2) && self.km(i1) == self.km(i2)
                ==> i1 == i2
    }

    /// Cell `i` holds a key whose model is `k`.
    pub closed spec fn holds_key_at(&self, i: int, k: Seq<u8>) -> bool {
        self.live(i) && self.km(i) == k
    }

    /// Every cell that can hold a key holds one.
    pub closed spec fn is_full(&self) -> bool {
        forall|i: int| 0 <= i < self.size && i % 16 != 0 ==> #[trigger] self.index@[i] != 0
    }

    pub closed spec fn spec_size(&self) -> usize {
        self.size
    }

    /// The block and fingerprint of `key` under this map's hash.
    pub closed spec fn start_of(&self, k: Seq<u8>) -> (usize, u8) {
        (self.home(k) as usize, fingerprint(self.build_hasher, k))
    }

    /// Creates an empty map whose table has room for `capacity` keys three
    /// times over, rounded up to a power of two of at least 256 cells;
    /// `build_hasher` seeds the key hash.
    pub fn with_capacity_and_hasher(capacity: usize, build_hasher: u64) -> (r: Self)
        requires
            capacity < usize::MAX / 8,
        ensures
            r.wf(),
            r@ == Map::<Seq<u8>, V>::empty(),
            is_power_of_two(r.spec_size() as nat),
            r.spec_size() >= 3 * capacity,
            r.spec_size() >= 256,
            r.spec_size() == 256 || r.spec_size() / 2 < 3 * capacity,
    {
        let size = next_power_of_2_min_256(3 * capacity);
        let mut index: Vec<u8> = Vec::with_capacity(size);
        let mut keys: Vec<K> = Vec::with_capacity(size);
        let mut values: Vec<V> = Vec::with_capacity(size);
        let mut i: usize = 0;
        while i < size
            invariant
                i <= size,
                index@.len() == i,
                keys@.len() == i,
                values@.len() == i,
                forall|j: int| 0 <= j < i ==> index@[j] == 0,
            decreases size - i,
        {
            index.push(0);
            keys.push(K::default());
            values.push(V::default());
            i = i + 1;
        }
        let r = SFixMap {
            size,
            index,
            build_hasher,
            keys,
            values,
            cells: Ghost(Map::<Seq<u8>, int>::empty()),
        };
        assert forall|i: int| #[trigger] r.live(i) implies r.cell_ok(i) by {
            assert(r.index@[i] == 0);
        }
        r
    }

    /// Creates an empty map for `capacity` keys, with seed zero.
    pub fn with_capacity(capacity: usize) -> (r: Self)
        requires
            capacity < usize::MAX / 8,
        ensures
            r.wf(),
            r@ == Map::<Seq<u8>, V>::empty(),
            is_power_of_two(r.spec_size() as nat),
            r.spec_size() >= 3 * capacity,
            r.spec_size() >= 256,
            r.spec_size() == 256 || r.spec_size() / 2 < 3 * capacity,
    {
        Self::with_capacity_and_hasher(capacity, 0)
    }

    /// The seed of the key hash.
    pub fn seed(&self) -> (r: u64)
        ensures
            forall|k: Seq<u8>| #[trigger] self.start_of(k) == (home_block(r, self.spec_size(), k) as usize, fingerprint(r, k)),
    {
        self.build_hasher
    }

    /// The number of cells of the table.
    pub fn size(&self) -> (r: usize)
        ensures
            r == self.spec_size(),
            self.wf() ==> r >= 256 && r % 16 == 0,
    {
        self.size
    }

    /// Compares the sixteen bytes of block `block_index` with `hash8`: bit `j`
    /// of the mask is set when byte `j` matches. Also returns the block's head
    /// byte, its overflow marker.
    fn probe_block(&self, block_index: usize, hash8: u8) -> (r: (FoundBitMask, u8))
        requires
            self.wf(),
            block_index < self.size,
            block_index % 16 == 0,
        ensures
            forall|j: u16| j < 16 ==> #[trigger] mask_bit(r.0, j) == (self.index@[block_index + j] == hash8),
            r.1 == self.index@[block_index as int],
    {
        proof {
            assert(block_index + 16 <= self.size);
        }
        let mut mask: FoundBitMask = 0;
        let mut j: u16 = 0;
        proof {
            assert forall|i: u16| i < 16 implies !#[trigger] mask_bit(0u16, i) by {
                assert((0u16 >> i) & 1u16 == 0) by (bit_vector);
            }
        }
        while j < 16
            invariant
                self.wf(),
                block_index + 16 <= self.size,
                j <= 16,
                forall|i: u16| i < j ==> #[trigger] mask_bit(mask, i) == (self.index@[block_index + i] == hash8),
                forall|i: u16| j <= i < 16 ==> !#[trigger] mask_bit(mask, i),
            decreases 16 - j,
        {
            if self.index[block_index + j as usize] == hash8 {
                proof {
                    lemma_set_bit(mask, j);
                }
                mask = mask | (1u16 << j);
            }
            j = j + 1;
        }
        (mask, self.index[block_index])
    }

    /// The cell of block `bi` whose key is `key`, among the candidates that
    /// `found_mask` marks. Bit 0, the block head, is never a candidate.
    fn unrolled_search(&self, bi: usize, found_mask: FoundBitMask, key: &K) -> (r: Option<usize>)
        requires
            self.wf(),
            bi < self.size,
            bi % 16 == 0,
        ensures
            match r {
                Some(i) => bi < i < bi + 16 && mask_bit(found_mask, (i - bi) as u16) && self.km(
                    i as int,
                ) == key.key_model(),
                None => forall|j: u16|
                    1 <= j < 16 ==> !(mask_bit(found_mask, j) && #[trigger] self.km(bi + j)
                        == key.key_model()),
            },
    {
        proof {
            assert(bi + 16 <= self.size);
        }
        let m = found_mask & !1u16;
        proof {
            lemma_clear_head_bit(found_mask);
        }
        let mut j: u16 = 1;
        while j < 16
            invariant
                self.wf(),
                bi + 16 <= self.size,
                1 <= j <= 16,
                forall|i: u16| 1 <= i < 16 ==> mask_bit(m, i) == mask_bit(found_mask, i),
                forall|i: u16|
                    1 <= i < j ==> !(mask_bit(found_mask, i) && #[trigger] self.km(bi + i)
                        == key.key_model()),
            decreases 16 - j,
        {
            if (m >> j) & 1 == 1 {
                let i = bi + j as usize;
                if self.keys[i].key_eq(key) {
                    return Some(i);
                }
            }
            j = j + 1;
        }
        None
    }

    /// The first empty cell of block `bi`, if there is one.
    fn find_empty(&self, bi: usize) -> (r: Option<usize>)
        requires
            self.wf(),
            bi < self.size,
            bi % 16 == 0,
        ensures
            match r {
                Some(i) => bi < i < bi + 16 && self.index@[i as int] == 0,
                None => forall|i: int| bi < i < bi + 16 ==> #[trigger] self.index@[i] != 0,
            },
    {
        let (found_mask, _) = self.probe_block(bi, 0);
        let m = found_mask & !1u16;
        proof {
            lemma_clear_head_bit(found_mask);
        }
        let mut j: u16 = 1;
        while j < 16
            invariant
                self.wf(),
                bi + 16 <= self.size,
                1 <= j <= 16,
                forall|i: u16| 1 <= i < 16 ==> mask_bit(m, i) == mask_bit(found_mask, i),
                forall|i: u16| i < 16 ==> #[trigger] mask_bit(found_mask, i) == (self.index@[bi + i] == 0),
                forall|i: int| bi < i < bi + j ==> #[trigger] self.index@[i] != 0,
            decreases 16 - j,
        {
            if (m >> j) & 1 == 1 {
                proof {
                    assert(mask_bit(found_mask, j));
                }
                return Some(bi + j as usize);
            }
            proof {
                assert(!mask_bit(found_mask, j));
            }
            j = j + 1;
        }
        None
    }

    /// The cell that holds `key`, probing from block `start` with fingerprint
    /// `hash8`. When those are the key's own block and fingerprint, `None`
    /// means that the key is absent.
    fn lookup(&self, start: usize, hash8: u8, key: &K) -> (r: Option<usize>)
        requires
            self.wf(),
            start < self.size,
            start % 16 == 0,
            hash8 != 0,
        ensures
            match r {
                Some(i) => self.live(i as int) && self.km(i as int) == key.key_model(),
                None => (start as int == self.home(key.key_model()) && hash8 == fingerprint(
                    self.build_hasher,
                    key.key_model(),
                )) ==> !self@.contains_key(key.key_model()),
            },
    {
        let ghost k = key.key_model();
        let ghost correct = start as int == self.home(k) && hash8 == fingerprint(self.build_hasher, k);
        let ghost size = self.size as int;
        let blocks_per_map = self.size / SHARD_BLOCK_SIZE;
        let mut block_index = start;
        let mut j: usize = 0;
        while j < blocks_per_map
            invariant
                self.wf(),
                start < self.size,
                start % 16 == 0,
                hash8 != 0,
                size == self.size,
                k == key.key_model(),
                correct == (start as int == self.home(k) && hash8 == fingerprint(self.build_hasher, k)),
                blocks_per_map == self.size / 16,
                j <= blocks_per_map,
                j < blocks_per_map ==> block_index == blk(size, start as int, j as int),
                correct ==> forall|i: int|
                    #[trigger] self.live(i) && self.km(i) == k ==> dist(size, start as int, i - i % 16)
                        >= j,
            decreases blocks_per_map - j,
        {
            proof {
                lemma_blk(size, start as int, j as int);
            }
            let (found_mask, metadata) = self.probe_block(block_index, hash8);
            match self.unrolled_search(block_index, found_mask, key) {
                Some(i) => {
                    proof {
                        assert(mask_bit(found_mask, (i - block_index) as u16));
                    }
                    return Some(i);
                },
                None => {},
            }
            let ghost b = block_index as int;
            proof {
                if correct {
                    assert forall|i: int| #[trigger] self.live(i) && self.km(i) == k implies dist(
                        size,
                        start as int,
                        i - i % 16,
                    ) >= j + 1 by {
                        assert(self.cell_ok(i));
                        let bi = i - i % 16;
                        assert(bi % 16 == 0 && 0 <= bi < size);
                        lemma_dist(size, start as int, bi);
                        if dist(size, start as int, bi) == j {
                            assert(bi == b);
                            assert(b < i < b + 16);
                            assert(self.index@[i] == fingerprint(self.build_hasher, self.km(i)));
                            assert(self.km(i) == k);
                            assert(hash8 == fingerprint(self.build_hasher, k));
                            assert(self.index@[i] == hash8);
                            let jj = (i - b) as u16;
                            assert(mask_bit(found_mask, jj));
                            assert(!(mask_bit(found_mask, jj) && self.km(b + jj) == k));
                        }
                    }
                }
            }
            if metadata != OVERFLOW_MARKER {
                proof {
                    if correct && self@.contains_key(k) {
                        let i = choose|i: int| #[trigger] self.live(i) && self.km(i) == k;
                        assert(self.cell_ok(i));
                        let bi = i - i % 16;
                        assert(bi % 16 == 0 && 0 <= bi < size);
                        lemma_dist(size, start as int, bi);
                        assert(dist(size, start as int, bi) >= j + 1);
                        assert(self.reachable(i));
                        assert(self.index@[blk(size, start as int, j as int)] == OVERFLOW_MARKER);
                    }
                }
                return None;
            }
            block_index = if block_index + SHARD_BLOCK_SIZE == self.size {
                0
            } else {
                block_index + SHARD_BLOCK_SIZE
            };
            j = j + 1;
        }
        proof {
            if correct && self@.contains_key(k) {
                let i = choose|i: int| #[trigger] self.live(i) && self.km(i) == k;
                let bi = i - i % 16;
                assert(bi % 16 == 0 && 0 <= bi < size);
                lemma_dist(size, start as int, bi);
            }
        }
        None
    }

    /// The value of `key`, probing from block `start` with fingerprint `hash8`.
    /// A value that comes back is the key's; `None` means the key is absent
    /// when `start` and `hash8` are the key's own.
    pub fn get_internal(&self, start: usize, hash8: u8, key: &K) -> (r: Option<&V>)
        requires
            self.wf(),
            start < self.spec_size(),
            start % 16 == 0,
            hash8 != 0,
        ensures
            match r {
                Some(v) => self@.contains_key(key.key_model()) && *v == self@[key.key_model()],
                None => (start, hash8) == self.start_of(key.key_model()) ==> !self@.contains_key(
                    key.key_model(),
                ),
            },
    {
        match self.lookup(start, hash8, key) {
            Some(i) => {
                proof {
                    assert(self.cell_ok(i as int));
                }
                Some(&self.values[i])
            },
            None => {
                proof {
                    let k = key.key_model();
                    if (start, hash8) == self.start_of(k) {
                        lemma_home_bounds(hash_spec(self.build_hasher, k), self.size);
                    }
                }
                None
            },
        }
    }

    /// The value stored for `key`, if any.
    pub fn get(&self, key: &K) -> (r: Option<&V>)
        requires
            self.wf(),
        ensures
            match r {
                Some(v) => self@.contains_key(key.key_model()) && *v == self@[key.key_model()],
                None => !self@.contains_key(key.key_model()),
            },
    {
        let (slot, hash8) = calc_index(self.build_hasher, key, self.size);
        self.get_internal(slot, hash8, key)
    }

    /// `n` has the layout, keys and cells of `self`, and as many values.
    pub closed spec fn same_layout(&self, n: &Self) -> bool {
        &&& n.size == self.size
        &&& n.build_hasher == self.build_hasher
        &&& n.index == self.index
        &&& n.keys == self.keys
        &&& n.cells == self.cells
        &&& n.values@.len() == self.values@.len()
    }

    /// A table with the same layout, keys and cells as a well-formed one, and
    /// values of the same count, is well formed, and as full.
    proof fn lemma_same_layout(o: &Self, n: &Self)
        requires
            o.wf(),
        ensures
            o.same_layout(n) ==> n.wf() && n.is_full() == o.is_full(),
    {
        if o.same_layout(n) {
            Self::lemma_same_layout_holds(o, n);
        }
    }

    proof fn lemma_same_layout_holds(o: &Self, n: &Self)
        requires
            o.wf(),
            o.same_layout(n),
        ensures
            n.wf(),
            n.is_full() == o.is_full(),
    {
        assert forall|i: int| #[trigger] n.live(i) implies n.cell_ok(i) by {
            assert(o.live(i));
            assert(o.cell_ok(i));
            assert(n.km(i) == o.km(i));
            let home = o.home(o.km(i));
            let bi = i - i % 16;
            assert forall|j: int| 0 <= j < dist(n.size as int, home, bi) implies n.index@[
                #[trigger] blk(n.size as int, home, j)] == OVERFLOW_MARKER by {
                assert(o.index@[blk(o.size as int, home, j)] == OVERFLOW_MARKER);
            }
        }
        assert forall|k2: Seq<u8>| #[trigger] n.cells@.contains_key(k2) implies exists|i2: int|
            #[trigger] n.live(i2) && n.km(i2) == k2 by {
            let i2 = choose|i2: int| #[trigger] o.live(i2) && o.km(i2) == k2;
            assert(n.live(i2));
        }
        assert forall|i1: int, i2: int|
            #[trigger] n.live(i1) && #[trigger] n.live(i2) && n.km(i1) == n.km(i2) implies i1
            == i2 by {
            assert(o.live(i1) && o.live(i2));
        }
    }

    /// The value of `key`, to change in place, probing from block `start` with
    /// fingerprint `hash8`. Whatever the caller writes through it becomes the
    /// key's value. `None`, with nothing changed, means the key is absent when
    /// `start` and `hash8` are the key's own.
    pub fn get_mut(&mut self, start: usize, hash8: u8, key: &K) -> (r: Option<&mut V>)
        requires
            old(self).wf(),
            start < old(self).spec_size(),
            start % 16 == 0,
            hash8 != 0,
        ensures
            old(self).same_layout(final(self)),
            final(self).wf(),
            final(self).is_full() == old(self).is_full(),
            final(self).spec_size() == old(self).spec_size(),
            forall|k2: Seq<u8>| #[trigger] final(self).start_of(k2) == old(self).start_of(k2),
            match r {
                Some(v) => old(self)@.contains_key(key.key_model()) && *v == old(self)@[key.key_model()]
                    && final(self)@ == old(self)@.insert(key.key_model(), *final(v)),
                None => final(self)@ == old(self)@ && ((start, hash8) == old(self).start_of(
                    key.key_model(),
                ) ==> !old(self)@.contains_key(key.key_model())),
            },
    {
        proof {
            Self::lemma_same_layout(old(self), final(self));
        }
        match self.lookup(start, hash8, key) {
            Some(i) => {
                let ghost k = key.key_model();
                proof {
                    assert(self.cell_ok(i as int));
                    assert forall|k2: Seq<u8>| #[trigger] self.cells@.contains_key(k2) && k2 != k implies self.cells@[k2] != i by {
                        let i2 = choose|i2: int| #[trigger] self.live(i2) && self.km(i2) == k2;
                        assert(self.cell_ok(i2));
                    }
                }
                let v = &mut self.values[i];
                Some(v)
            },
            None => {
                proof {
                    lemma_home_bounds(hash_spec(self.build_hasher, key.key_model()), self.size);
                }
                None
            },
        }
    }

    /// Removes `key`, probing from block `start` with fingerprint `hash8`, and
    /// returns the key and value that were stored. When `start` and `hash8`
    /// are the key's own, `None` means the key was absent.
    pub fn remove(&mut self, start: usize, hash8: u8, key: &K) -> (r: Option<(K, V)>)
        requires
            old(self).wf(),
            start < old(self).spec_size(),
            start % 16 == 0,
            hash8 != 0,
        ensures
            final(self).wf(),
            final(self).spec_size() == old(self).spec_size(),
            forall|k2: Seq<u8>| #[trigger] final(self).start_of(k2) == old(self).start_of(k2),
            match r {
                Some((k, v)) => old(self)@.contains_key(key.key_model()) && k.key_model()
                    == key.key_model() && v == old(self)@[key.key_model()] && final(self)@ == old(
                    self,
                )@.remove(key.key_model()) && !final(self).is_full(),
                None => *final(self) == *old(self) && ((start, hash8) == old(self).start_of(
                    key.key_model(),
                ) ==> !old(self)@.contains_key(key.key_model())),
            },
    {
        match self.lookup(start, hash8, key) {
            Some(i) => {
                let ghost k = key.key_model();
                let ghost size = self.size as int;
                proof {
                    assert(self.cell_ok(i as int));
                }
                self.index.set(i, 0);
                let mut old_key = K::default();
                self.keys.set_and_swap(i, &mut old_key);
                let old_value = self.values[i];
                self.values.set(i, V::default());
                self.cells = Ghost(self.cells@.remove(k));
                proof {
                    let o = old(self);
                    assert forall|i2: int| #[trigger] self.live(i2) implies self.cell_ok(i2) by {
                        assert(o.live(i2) && i2 != i);
                        assert(o.cell_ok(i2));
                        assert(self.km(i2) == o.km(i2));
                        assert(o.km(i2) != k);
                        let home = o.home(o.km(i2));
                        lemma_home_bounds(hash_spec(self.build_hasher, o.km(i2)), self.size);
                        let bi = i2 - i2 % 16;
                        assert(bi % 16 == 0 && 0 <= bi < size);
                        lemma_dist(size, home, bi);
                        assert forall|j: int| 0 <= j < dist(size, home, bi) implies self.index@[
                            #[trigger] blk(size, home, j)] == OVERFLOW_MARKER by {
                            lemma_blk(size, home, j);
                            assert(o.index@[blk(size, home, j)] == OVERFLOW_MARKER);
                        }
                    }
                    assert forall|k2: Seq<u8>| #[trigger] self.cells@.contains_key(k2) implies exists|i2: int|
                        #[trigger] self.live(i2) && self.km(i2) == k2 by {
                        let i2 = choose|i2: int| #[trigger] o.live(i2) && o.km(i2) == k2;
                        assert(self.live(i2) && self.km(i2) == k2);
                    }
                    assert forall|i1: int, i2: int|
                        #[trigger] self.live(i1) && #[trigger] self.live(i2) && self.km(i1) == self.km(i2)
                            implies i1 == i2 by {
                        assert(o.live(i1) && o.live(i2));
                    }
                    lemma_home_bounds(hash_spec(self.build_hasher, k), self.size);
                }
                proof {
                    assert(!(self.index@[i as int] != 0));
                    assert forall|k2: Seq<u8>| #[trigger] self.start_of(k2) == old(self).start_of(k2) by {}
                }
                Some((old_key, old_value))
            },
            None => {
                proof {
                    lemma_home_bounds(hash_spec(self.build_hasher, key.key_model()), self.size);
                }
                None
            },
        }
    }

    /// Sets the head byte of block `b` to the overflow marker.
    fn mark_overflow(&mut self, b: usize)
        requires
            old(self).wf(),
            b < old(self).size,
            b % 16 == 0,
        ensures
            final(self).wf(),
            final(self).size == old(self).size,
            final(self).build_hasher == old(self).build_hasher,
            final(self).cells == old(self).cells,
            final(self).keys == old(self).keys,
            final(self).values == old(self).values,
            final(self).index@ == old(self).index@.update(b as int, OVERFLOW_MARKER),
    {
        self.index.set(b, OVERFLOW_MARKER);
        proof {
            let o = old(self);
            assert forall|i2: int| #[trigger] self.live(i2) implies self.cell_ok(i2) by {
                assert(o.live(i2));
                assert(o.cell_ok(i2));
                assert(self.index@[i2] == o.index@[i2]);
                assert(self.km(i2) == o.km(i2));
                let home = o.home(o.km(i2));
                let bi = i2 - i2 % 16;
                assert forall|j: int| 0 <= j < dist(self.size as int, home, bi) implies self.index@[
                    #[trigger] blk(self.size as int, home, j)] == OVERFLOW_MARKER by {
                    assert(o.index@[blk(o.size as int, home, j)] == OVERFLOW_MARKER);
                }
            }
            assert forall|k2: Seq<u8>| #[trigger] self.cells@.contains_key(k2) implies exists|i2: int|
                #[trigger] self.live(i2) && self.km(i2) == k2 by {
                let i2 = choose|i2: int| #[trigger] o.live(i2) && o.km(i2) == k2;
                assert(self.live(i2));
            }
            assert forall|i1: int, i2: int|
                #[trigger] self.live(i1) && #[trigger] self.live(i2) && self.km(i1) == self.km(i2)
                    implies i1 == i2 by {
                assert(o.live(i1) && o.live(i2));
            }
        }
    }

    /// Stores `value` under `key`, whose own first block and fingerprint are
    /// `start` and `hash8`. A key that is present has its value replaced and
    /// the old value comes back. Otherwise the key goes into the first empty
    /// cell along its probe sequence, and every full block passed on the way is
    /// marked as overflowed. Fails only when every cell is taken.
    pub fn insert_internal(&mut self, start: usize, hash8: u8, key: K, value: V) -> (r: Result<
        Option<V>,
        &'static str,
    >)
        requires
            old(self).wf(),
            (start, hash8) == old(self).start_of(key.key_model()),
        ensures
            final(self).wf(),
            final(self).spec_size() == old(self).spec_size(),
            forall|k2: Seq<u8>| #[trigger] final(self).start_of(k2) == old(self).start_of(k2),
            old(self)@.contains_key(key.key_model()) ==> r == Ok::<Option<V>, &'static str>(
                Some(old(self)@[key.key_model()]),
            ) && final(self)@ == old(self)@.insert(key.key_model(), value),
            !old(self)@.contains_key(key.key_model()) && !old(self).is_full() ==> r == Ok::<
                Option<V>,
                &'static str,
            >(None) && final(self)@ == old(self)@.insert(key.key_model(), value),
            !old(self)@.contains_key(key.key_model()) && old(self).is_full() ==> r is Err
                && final(self)@ == old(self)@,
    {
        let ghost k = key.key_model();
        let ghost size = self.size as int;
        proof {
            lemma_home_bounds(hash_spec(self.build_hasher, k), self.size);
            lemma_fingerprint_nonzero(self.build_hasher, k);
        }
        match self.lookup(start, hash8, &key) {
            Some(i) => {
                proof {
                    assert(self.cell_ok(i as int));
                }
                let old_value = self.values[i];
                self.values.set(i, value);
                proof {
                    let o = old(self);
                    assert forall|i2: int| #[trigger] self.live(i2) implies self.cell_ok(i2) by {
                        assert(o.live(i2));
                        assert(o.cell_ok(i2));
                        if i2 != i {
                            assert(o.km(i2) != k);
                        }
                        assert(self.index@ == o.index@);
                        assert(self.km(i2) == o.km(i2));
                        let home = o.home(o.km(i2));
                        let bi = i2 - i2 % 16;
                        assert forall|j2: int| 0 <= j2 < dist(size, home, bi) implies self.index@[
                            #[trigger] blk(size, home, j2)] == OVERFLOW_MARKER by {
                            assert(o.index@[blk(size, home, j2)] == OVERFLOW_MARKER);
                        }
                    }
                    assert forall|k2: Seq<u8>| #[trigger] self.cells@.contains_key(k2) implies exists|i2: int|
                        #[trigger] self.live(i2) && self.km(i2) == k2 by {
                        if k2 != k {
                            let i2 = choose|i2: int| #[trigger] o.live(i2) && o.km(i2) == k2;
                            assert(self.live(i2));
                        } else {
                            assert(self.live(i as int));
                        }
                    }
                    assert forall|i1: int, i2: int|
                        #[trigger] self.live(i1) && #[trigger] self.live(i2) && self.km(i1) == self.km(i2)
                            implies i1 == i2 by {
                        assert(o.live(i1) && o.live(i2));
                    }
                }
                return Ok(Some(old_value));
            },
            None => {},
        }
        let ghost o = *self;
        let blocks_per_map = self.size / SHARD_BLOCK_SIZE;
        let mut block_index = start;
        let mut j: usize = 0;
        while j < blocks_per_map
            invariant
                self.wf(),
                o.wf(),
                o == *old(self),
                !o@.contains_key(k),
                k == key.key_model(),
                size == self.size,
                size == o.size,
                start as int == o.home(k),
                hash8 == fingerprint(o.build_hasher, k),
                hash8 != 0,
                start < size,
                start % 16 == 0,
                self.build_hasher == o.build_hasher,
                self.cells == o.cells,
                self.values == o.values,
                forall|i: int| 0 <= i < size && i % 16 != 0 ==> #[trigger] self.index@[i] == o.index@[i],
                blocks_per_map == size / 16,
                j <= blocks_per_map,
                j < blocks_per_map ==> block_index == blk(size, start as int, j as int),
                forall|j2: int| 0 <= j2 < j ==> self.index@[#[trigger] blk(size, start as int, j2)] == OVERFLOW_MARKER,
                forall|i: int|
                    0 <= i < size && i % 16 != 0 && dist(size, start as int, i - i % 16) < j ==> #[trigger] self.index@[i] != 0,
            decreases blocks_per_map - j,
        {
            proof {
                lemma_blk(size, start as int, j as int);
            }
            match self.find_empty(block_index) {
                Some(i) => {
                    let ghost pre = *self;
                    self.index.set(i, hash8);
                    self.keys.set(i, key);
                    self.values.set(i, value);
                    self.cells = Ghost(self.cells@.insert(k, i as int));
                    proof {
                        let b = block_index as int;
                        assert(b + 16 <= size);
                        assert(self.km(i as int) == k);
                        assert(pre.index@[i as int] == o.index@[i as int]);
                        assert forall|i2: int| #[trigger] self.live(i2) implies self.cell_ok(i2) by {
                            if i2 != i {
                                assert(pre.live(i2));
                                assert(pre.cell_ok(i2));
                                assert(pre.km(i2) != k);
                                let home = pre.home(pre.km(i2));
                                lemma_home_bounds(hash_spec(self.build_hasher, pre.km(i2)), self.size);
                                let bi = i2 - i2 % 16;
                                assert(bi % 16 == 0 && 0 <= bi < size);
                                lemma_dist(size, home, bi);
                                assert forall|j2: int| 0 <= j2 < dist(size, home, bi) implies self.index@[
                                    #[trigger] blk(size, home, j2)] == OVERFLOW_MARKER by {
                                    lemma_blk(size, home, j2);
                                    assert(pre.index@[blk(size, home, j2)] == OVERFLOW_MARKER);
                                }
                            } else {
                                assert(i - i % 16 == b);
                                assert(dist(size, start as int, b) == j);
                                assert forall|j2: int| 0 <= j2 < dist(size, start as int, b) implies self.index@[
                                    #[trigger] blk(size, start as int, j2)] == OVERFLOW_MARKER by {
                                    lemma_blk(size, start as int, j2);
                                    assert(pre.index@[blk(size, start as int, j2)] == OVERFLOW_MARKER);
                                }
                            }
                        }
                        assert forall|k2: Seq<u8>| #[trigger] self.cells@.contains_key(k2) implies exists|i2: int|
                            #[trigger] self.live(i2) && self.km(i2) == k2 by {
                            if k2 != k {
                                let i2 = choose|i2: int| #[trigger] pre.live(i2) && pre.km(i2) == k2;
                                assert(self.live(i2) && self.km(i2) == k2);
                            } else {
                                assert(self.live(i as int));
                            }
                        }
                        assert forall|i1: int, i2: int|
                            #[trigger] self.live(i1) && #[trigger] self.live(i2) && self.km(i1) == self.km(i2)
                                implies i1 == i2 by {
                            if i1 != i {
                                assert(pre.live(i1));
                                assert(pre.cell_ok(i1));
                            }
                            if i2 != i {
                                assert(pre.live(i2));
                                assert(pre.cell_ok(i2));
                            }
                        }
                        assert(!o.is_full()) by {
                            assert(o.index@[i as int] == 0);
                        }
                        assert forall|k2: Seq<u8>| #[trigger] self.start_of(k2) == o.start_of(k2) by {}
                    }
                    proof {
                        assert forall|k2: Seq<u8>| #[trigger] pre.cells@.contains_key(k2) && k2 != k implies pre.cells@[k2] != i by {
                            let i2 = choose|i2: int| #[trigger] pre.live(i2) && pre.km(i2) == k2;
                            assert(pre.cell_ok(i2));
                        }
                        assert(self@ =~= o@.insert(k, value));
                    }
                    return Ok(None);
                },
                None => {},
            }
            proof {
                let b = block_index as int;
                assert forall|i: int|
                    0 <= i < size && i % 16 != 0 && dist(size, start as int, i - i % 16) < j + 1 implies #[trigger] self.index@[i] != 0 by {
                    let bi = i - i % 16;
                    assert(bi % 16 == 0 && 0 <= bi < size);
                    lemma_dist(size, start as int, bi);
                    if dist(size, start as int, bi) == j {
                        assert(bi == b);
                    }
                }
            }
            self.mark_overflow(block_index);
            proof {
                assert forall|j2: int| 0 <= j2 < j + 1 implies self.index@[#[trigger] blk(size, start as int, j2)] == OVERFLOW_MARKER by {
                    lemma_blk(size, start as int, j2);
                }
            }
            block_index = if block_index + SHARD_BLOCK_SIZE == self.size {
                0
            } else {
                block_index + SHARD_BLOCK_SIZE
            };
            j = j + 1;
        }
        proof {
            assert forall|i: int| 0 <= i < size && i % 16 != 0 implies #[trigger] o.index@[i] != 0 by {
                let bi = i - i % 16;
                assert(bi % 16 == 0 && 0 <= bi < size);
                lemma_dist(size, start as int, bi);
                assert(self.index@[i] != 0);
            }
            assert(o.is_full());
            assert forall|k2: Seq<u8>| #[trigger] self.start_of(k2) == o.start_of(k2) by {}
        }
        proof {
            assert(self@ =~= o@);
        }
        Err("Shard is full")
    }

    /// Stores `value` under `key`; see `insert_internal`.
    pub fn insert(&mut self, key: K, value: V) -> (r: Result<Option<V>, &'static str>)
        requires
            old(self).wf(),
        ensures
            final(self).wf(),
            final(self).spec_size() == old(self).spec_size(),
            old(self)@.contains_key(key.key_model()) ==> r == Ok::<Option<V>, &'static str>(
                Some(old(self)@[key.key_model()]),
            ) && final(self)@ == old(self)@.insert(key.key_model(), value),
            !old(self)@.contains_key(key.key_model()) && !old(self).is_full() ==> r == Ok::<
                Option<V>,
                &'static str,
            >(None) && final(self)@ == old(self)@.insert(key.key_model(), value),
            !old(self)@.contains_key(key.key_model()) && old(self).is_full() ==> r is Err
                && final(self)@ == old(self)@,
    {
        let (slot, hash8) = calc_index(self.build_hasher, &key, self.size);
        self.insert_internal(slot, hash8, key, value)
    }
}

} // verus!

verus! {

/// Probing agrees with the map it stands for: a key whose insertion succeeded
/// maps to the value inserted last, a removed key is absent, and a key that no
/// cell holds is absent whatever overflow markers other keys have left.
pub proof fn lemma_probing_correct<K: MapKey + Default, V: Copy + Default>(
    m0: SFixMap<K, V>,
    m1: SFixMap<K, V>,
    m2: SFixMap<K, V>,
    k: Seq<u8>,
    v: V,
    other: Seq<u8>,
)
    requires
        m0.wf(),
        m1.wf(),
        m2.wf(),
        m1@ == m0@.insert(k, v),
        m2@ == m1@.remove(k),
        forall|i: int| !m1.holds_key_at(i, other),
    ensures
        m1@.contains_key(k) && m1@[k] == v,
        !m2@.contains_key(k),
        !m1@.contains_key(other),
        other != k,
        !m2@.contains_key(other),
{
    if m1@.contains_key(other) {
        let i = choose|i: int| #[trigger] m1.live(i) && m1.km(i) == other;
        assert(m1.holds_key_at(i, other));
    }
}

} // verus!

verus! {

/// The `j`-th cell that can hold a key: cells skip the head of each block.
pub open spec fn usable_cell(j: int) -> int {
    (j / 15) * 16 + j % 15 + 1
}

impl<K: MapKey + Default, V: Copy + Default> SFixMap<K, V> {
    /// A full table holds a distinct key in each of its usable cells, fifteen
    /// of every sixteen.
    pub proof fn lemma_full_holds_many(&self)
        requires
            self.wf(),
            self.is_full(),
        ensures
            self@.dom().len() >= 15 * (self.spec_size() / 16),
    {
        let n = self.size / 16;
        let c = 15 * n;
        let x = set_int_range(0, c as int);
        lemma_int_range(0, c as int);
        let f = |j: int| self.km(usable_cell(j));
        assert forall|j: int| #[trigger] x.contains(j) implies self.live(usable_cell(j)) by {
            let q = j / 15;
            let r = j % 15;
            assert(0 <= q < n);
            assert(usable_cell(j) == q * 16 + r + 1);
            assert((q * 16 + r + 1) % 16 == r + 1) by (nonlinear_arith)
                requires
                    0 <= q,
                    0 <= r < 15,
            ;
            assert(q * 16 + r + 1 < n * 16) by (nonlinear_arith)
                requires
                    0 <= q < n,
                    0 <= r < 15,
            ;
            assert(self.index@[usable_cell(j)] != 0);
        }
        assert(injective_on(f, x)) by {
            assert forall|j1: int, j2: int|
                x.contains(j1) && x.contains(j2) && #[trigger] f(j1) == #[trigger] f(j2) implies j1
                == j2 by {
                assert(self.live(usable_cell(j1)));
                assert(self.live(usable_cell(j2)));
                assert(usable_cell(j1) == usable_cell(j2));
                let q1 = j1 / 15;
                let q2 = j2 / 15;
                let r1 = j1 % 15;
                let r2 = j2 % 15;
                assert(q1 * 16 + r1 == q2 * 16 + r2);
                assert(q1 == q2) by (nonlinear_arith)
                    requires
                        q1 * 16 + r1 == q2 * 16 + r2,
                        0 <= r1 < 15,
                        0 <= r2 < 15,
                ;
            }
        }
        let y = x.map(f);
        lemma_map_size(x, y, f);
        assert forall|k: Seq<u8>| #[trigger] y.contains(k) implies self@.dom().contains(k) by {
            let j = choose|j: int| x.contains(j) && k == f(j);
            assert(self.live(usable_cell(j)));
            assert(self.cell_ok(usable_cell(j)));
        }
        assert(self@.dom() =~= self.cells@.dom());
        lemma_len_subset(y, self@.dom());
    }
}

/// A table whose usable cells number at least three times the capacity it was
/// built for takes that many distinct keys: while fewer are stored, it is not
/// full, so an insert of a new key succeeds.
pub proof fn lemma_room_for_three_times_capacity<K: MapKey + Default, V: Copy + Default>(
    m: &SFixMap<K, V>,
    capacity: nat,
)
    requires
        m.wf(),
        3 * capacity <= 15 * (m.spec_size() / 16),
        m@.dom().len() < 3 * capacity,
    ensures
        !m.is_full(),
{
    if m.is_full() {
        m.lemma_full_holds_many();
    }
}

} // verus!

verus! {

/// Each key of the map sits in exactly one cell of the table.
pub proof fn lemma_key_in_one_cell<K: MapKey + Default, V: Copy + Default>(
    m: &SFixMap<K, V>,
    k: Seq<u8>,
)
    requires
        m.wf(),
    ensures
        m@.contains_key(k) <==> exists|i: int| #[trigger] m.holds_key_at(i, k),
        forall|i1: int, i2: int|
            #[trigger] m.holds_key_at(i1, k) && #[trigger] m.holds_key_at(i2, k) ==> i1 == i2,
{
    if m@.contains_key(k) {
        let i = choose|i: int| #[trigger] m.live(i) && m.km(i) == k;
        assert(m.holds_key_at(i, k));
    }
    assert forall|i: int| #[trigger] m.holds_key_at(i, k) implies m@.contains_key(k) by {
        assert(m.cell_ok(i));
    }
    assert forall|i1: int, i2: int|
        #[trigger] m.holds_key_at(i1, k) && #[trigger] m.holds_key_at(i2, k) implies i1 == i2 by {
        assert(m.live(i1) && m.live(i2));
    }
}

} // verus!
