//! A sharded map with a fixed number of shards. Each shard holds 256 chain
//! heads and an append-only pool of entries; chains link entries by one-based
//! pool indices.
use crate::chain::{
    chain, lemma_chain_frame, lemma_chain_push, lemma_chain_same_links, lemma_chain_shape,
    lemma_chain_step, lemma_chain_unlink, links_backward, Entry,
};
use crate::key::{hash_key, hash_spec, MapKey};
use crate::sizing::{closest_power_of_2_min_1024, closest_power_spec, is_power_of_two};
use crate::slab::{BFixVec, SLAB_CAPACITY};
use vstd::prelude::*;

verus! {

pub const SLOT_BITS: u64 = 8;

pub const SLOT_COUNT: usize = 256;

pub const SLOT_MASK: u64 = 255;

/// The capacity that one shard is sized for.
pub const CAPACITY_PER_SHARD: usize = 222;

/// The shard a key model falls into.
pub open spec fn loc_shard(seed: u64, bucket_count: usize, k: Seq<u8>) -> int {
    ((hash_spec(seed, k) >> SLOT_BITS) & ((bucket_count - 1) as u64)) as int
}

/// The slot of its shard a key model falls into.
pub open spec fn loc_slot(seed: u64, k: Seq<u8>) -> int {
    (hash_spec(seed, k) & SLOT_MASK) as int
}

/// Masking never yields more than the mask.
pub proof fn lemma_mask_bound(x: u64, m: u64)
    ensures
        x & m <= m,
{
    assert(x & m <= m) by (bit_vector);
}

struct Shard<K, V> {
    slots: Vec<u16>,
    entries: BFixVec<Entry<K, V>>,
}

impl<K: MapKey, V: Copy + Default> Shard<K, V> {
    /// The pool indices of the chain rooted at slot `t`.
    spec fn chain_of(&self, t: int) -> Seq<int> {
        chain(self.entries@, self.slots@[t] as int)
    }

    spec fn km(&self, i: int) -> Seq<u8> {
        self.entries@[i].key.key_model()
    }

    spec fn cell_ok(
        &self,
        s: int,
        seed: u64,
        bc: usize,
        model: Map<Seq<u8>, V>,
        t: int,
        i: int,
    ) -> bool {
        let km = self.km(i);
        &&& loc_shard(seed, bc, km) == s
        &&& loc_slot(seed, km) == t
        &&& model.contains_key(km)
        &&& model[km] == self.entries@[i].value
    }

    /// The shard is shard `s` of a map with `bc` shards, hash seed `seed` and
    /// contents `model`: its chains hold exactly the keys of `model` that fall
    /// into it, each once, in the chain of its slot.
    spec fn inv(&self, s: int, seed: u64, bc: usize, model: Map<Seq<u8>, V>) -> bool {
        &&& self.slots@.len() == SLOT_COUNT
        &&& self.entries.wf()
        &&& links_backward(self.entries@)
        &&& forall|t: int| 0 <= t < SLOT_COUNT ==> #[trigger] self.slots@[t] <= self.entries@.len()
        &&& forall|t: int, p: int|
            0 <= t < SLOT_COUNT && 0 <= p < self.chain_of(t).len() ==> self.cell_ok(
                s,
                seed,
                bc,
                model,
                t,
                #[trigger] self.chain_of(t)[p],
            )
        &&& forall|t: int, p1: int, p2: int|
            0 <= t < SLOT_COUNT && 0 <= p1 < p2 < self.chain_of(t).len() ==> self.km(
                #[trigger] self.chain_of(t)[p1],
            ) != self.km(#[trigger] self.chain_of(t)[p2])
        &&& forall|k: Seq<u8>|
            #[trigger] model.contains_key(k) && loc_shard(seed, bc, k) == s ==> exists|p: int|
                0 <= p < self.chain_of(loc_slot(seed, k)).len() && self.km(
                    self.chain_of(loc_slot(seed, k))[p],
                ) == k
    }

    fn new() -> (r: Self)
        ensures
            forall|s: int, seed: u64, bc: usize| #[trigger] r.inv(s, seed, bc, Map::<Seq<u8>, V>::empty()),
            r.entries@.len() == 0,
    {
        let mut slots: Vec<u16> = Vec::with_capacity(SLOT_COUNT);
        let mut i: usize = 0;
        while i < SLOT_COUNT
            invariant
                i <= SLOT_COUNT,
                slots@.len() == i,
                forall|t: int| 0 <= t < i ==> slots@[t] == 0,
            decreases SLOT_COUNT - i,
        {
            slots.push(0);
            i = i + 1;
        }
        let r = Shard { slots, entries: BFixVec::new() };
        assert forall|t: int| 0 <= t < SLOT_COUNT implies #[trigger] r.chain_of(t).len() == 0 by {
            assert(r.slots@[t] == 0);
        }
        r
    }

    fn allocate_entry(&mut self, e: Entry<K, V>) -> (r: Option<usize>)
        requires
            old(self).entries.wf(),
        ensures
            final(self).slots == old(self).slots,
            final(self).entries.wf(),
            old(self).entries@.len() < SLAB_CAPACITY ==> r == Some(old(self).entries@.len() as usize)
                && final(self).entries@ == old(self).entries@.push(e),
            old(self).entries@.len() >= SLAB_CAPACITY ==> r is None && final(self).entries@ == old(
                self,
            ).entries@,
    {
        self.entries.allocate(e)
    }

    /// Entries are never reclaimed while the map lives.
    fn free_entry(&self, _i: usize) {
    }

    /// A change of the contents at a key of another shard leaves the
    /// invariant of this shard alone.
    proof fn lemma_other_key(&self, s: int, seed: u64, bc: usize, model: Map<Seq<u8>, V>, k: Seq<u8>, v: V)
        requires
            self.inv(s, seed, bc, model),
            loc_shard(seed, bc, k) != s,
        ensures
            self.inv(s, seed, bc, model.insert(k, v)),
            self.inv(s, seed, bc, model.remove(k)),
    {
        let m1 = model.insert(k, v);
        let m2 = model.remove(k);
        assert forall|t: int, p: int|
            0 <= t < SLOT_COUNT && 0 <= p < self.chain_of(t).len() implies self.cell_ok(
            s,
            seed,
            bc,
            m1,
            t,
            #[trigger] self.chain_of(t)[p],
        ) && self.cell_ok(s, seed, bc, m2, t, self.chain_of(t)[p]) by {
            assert(self.cell_ok(s, seed, bc, model, t, self.chain_of(t)[p]));
        }
        assert forall|k2: Seq<u8>|
            #[trigger] m1.contains_key(k2) && loc_shard(seed, bc, k2) == s implies exists|p: int|
                0 <= p < self.chain_of(loc_slot(seed, k2)).len() && self.km(
                    self.chain_of(loc_slot(seed, k2))[p],
                ) == k2 by {
            assert(model.contains_key(k2));
        }
        assert forall|k2: Seq<u8>|
            #[trigger] m2.contains_key(k2) && loc_shard(seed, bc, k2) == s implies exists|p: int|
                0 <= p < self.chain_of(loc_slot(seed, k2)).len() && self.km(
                    self.chain_of(loc_slot(seed, k2))[p],
                ) == k2 by {
            assert(model.contains_key(k2));
        }
    }

    /// Links a new entry for a key that the map does not hold at the head of
    /// its slot. Fails, changing nothing, when the pool is full.
    fn insert_new(
        &mut self,
        t: usize,
        head: usize,
        key: K,
        value: V,
        Ghost(s): Ghost<int>,
        Ghost(seed): Ghost<u64>,
        Ghost(bc): Ghost<usize>,
        Ghost(model): Ghost<Map<Seq<u8>, V>>,
    ) -> (r: bool)
        requires
            old(self).inv(s, seed, bc, model),
            t < SLOT_COUNT,
            head == old(self).slots@[t as int],
            loc_shard(seed, bc, key.key_model()) == s,
            loc_slot(seed, key.key_model()) == t,
            !model.contains_key(key.key_model()),
        ensures
            r == old(self).has_room(),
            r ==> final(self).inv(s, seed, bc, model.insert(key.key_model(), value)),
            !r ==> final(self).inv(s, seed, bc, model),
            final(self).entries@.len() == old(self).entries@.len() + if r { 1int } else { 0int },
            r ==> final(self).chain_of(t as int) == seq![old(self).entries@.len() as int].add(
                old(self).chain_of(t as int),
            ),
            forall|t2: int|
                0 <= t2 < SLOT_COUNT && (t2 != t || !r) ==> #[trigger] final(self).chain_of(t2)
                    == old(self).chain_of(t2),
    {
        let ghost km = key.key_model();
        let ghost es = self.entries@;
        let ghost c = self.chain_of(t as int);
        let e = Entry { key, value, next: head as u16 };
        let ghost ge = e;
        match self.allocate_entry(e) {
            None => {
                proof {
                    assert(self.entries@ == es);
                    assert forall|t2: int| 0 <= t2 < SLOT_COUNT implies #[trigger] self.chain_of(t2)
                        == old(self).chain_of(t2) by {}
                    assert forall|t2: int, p: int|
                        0 <= t2 < SLOT_COUNT && 0 <= p < self.chain_of(t2).len() implies self.cell_ok(
                        s,
                        seed,
                        bc,
                        model,
                        t2,
                        #[trigger] self.chain_of(t2)[p],
                    ) by {
                        assert(old(self).cell_ok(s, seed, bc, model, t2, old(self).chain_of(t2)[p]));
                    }
                    assert forall|t2: int, p1: int, p2: int|
                        0 <= t2 < SLOT_COUNT && 0 <= p1 < p2 < self.chain_of(t2).len() implies self.km(
                        #[trigger] self.chain_of(t2)[p1],
                    ) != self.km(#[trigger] self.chain_of(t2)[p2]) by {
                        assert(old(self).km(old(self).chain_of(t2)[p1]) != old(self).km(old(self).chain_of(t2)[p2]));
                    }
                    assert forall|k2: Seq<u8>|
                        #[trigger] model.contains_key(k2) && loc_shard(seed, bc, k2) == s implies exists|p: int|
                            0 <= p < self.chain_of(loc_slot(seed, k2)).len() && self.km(
                                self.chain_of(loc_slot(seed, k2))[p],
                            ) == k2 by {
                        let t2 = loc_slot(seed, k2);
                        lemma_mask_bound(hash_spec(seed, k2), SLOT_MASK);
                        let p = choose|p: int|
                            0 <= p < old(self).chain_of(t2).len() && old(self).km(
                                old(self).chain_of(t2)[p],
                            ) == k2;
                        assert(self.chain_of(t2)[p] == old(self).chain_of(t2)[p]);
                    }
                }
                false
            },
            Some(n) => {
                self.slots.set(t, (n + 1) as u16);
                proof {
                    let es2 = self.entries@;
                    let m2 = model.insert(km, value);
                    assert(es2 == es.push(ge));
                    assert(links_backward(es2)) by {
                        assert forall|i: int| 0 <= i < es2.len() implies (#[trigger] es2[i]).next
                            as int <= i by {
                            if i < n {
                                assert(es2[i] == es[i]);
                            }
                        }
                    }
                    lemma_chain_push(es, ge, head as int);
                    lemma_chain_step(es2, n + 1);
                    assert(self.chain_of(t as int) == seq![n as int].add(c));
                    assert forall|t2: int| 0 <= t2 < SLOT_COUNT && t2 != t implies #[trigger] self.chain_of(t2) == old(self).chain_of(t2) by {
                        lemma_chain_push(es, ge, old(self).slots@[t2] as int);
                    }
                    lemma_chain_shape(es, head as int);
                    assert forall|t2: int, p: int|
                        0 <= t2 < SLOT_COUNT && 0 <= p < self.chain_of(t2).len() implies self.cell_ok(
                        s,
                        seed,
                        bc,
                        m2,
                        t2,
                        #[trigger] self.chain_of(t2)[p],
                    ) by {
                        if t2 != t {
                            lemma_chain_shape(es, old(self).slots@[t2] as int);
                            let i = old(self).chain_of(t2)[p];
                            assert(old(self).cell_ok(s, seed, bc, model, t2, i));
                            assert(es2[i] == es[i]);
                        } else if p > 0 {
                            let i = c[p - 1];
                            assert(self.chain_of(t2)[p] == i);
                            assert(old(self).cell_ok(s, seed, bc, model, t2, i));
                            assert(es2[i] == es[i]);
                        } else {
                            assert(self.chain_of(t2)[p] == n);
                        }
                    }
                    assert forall|t2: int, p1: int, p2: int|
                        0 <= t2 < SLOT_COUNT && 0 <= p1 < p2 < self.chain_of(t2).len() implies self.km(
                        #[trigger] self.chain_of(t2)[p1],
                    ) != self.km(#[trigger] self.chain_of(t2)[p2]) by {
                        if t2 != t {
                            lemma_chain_shape(es, old(self).slots@[t2] as int);
                            let i1 = old(self).chain_of(t2)[p1];
                            let i2 = old(self).chain_of(t2)[p2];
                            assert(es2[i1] == es[i1]);
                            assert(es2[i2] == es[i2]);
                        } else {
                            let i2 = c[p2 - 1];
                            assert(self.chain_of(t2)[p2] == i2);
                            assert(es2[i2] == es[i2]);
                            assert(old(self).cell_ok(s, seed, bc, model, t2, i2));
                            if p1 > 0 {
                                let i1 = c[p1 - 1];
                                assert(self.chain_of(t2)[p1] == i1);
                                assert(es2[i1] == es[i1]);
                            } else {
                                assert(self.chain_of(t2)[p1] == n);
                            }
                        }
                    }
                    assert forall|k2: Seq<u8>|
                        #[trigger] m2.contains_key(k2) && loc_shard(seed, bc, k2) == s implies exists|p: int|
                            0 <= p < self.chain_of(loc_slot(seed, k2)).len() && self.km(
                                self.chain_of(loc_slot(seed, k2))[p],
                            ) == k2 by {
                        let t2 = loc_slot(seed, k2);
                        lemma_mask_bound(hash_spec(seed, k2), SLOT_MASK);
                        if k2 == km {
                            assert(self.chain_of(t2)[0] == n);
                        } else {
                            assert(model.contains_key(k2));
                            let p = choose|p: int|
                                0 <= p < old(self).chain_of(t2).len() && old(self).km(
                                    old(self).chain_of(t2)[p],
                                ) == k2;
                            lemma_chain_shape(es, old(self).slots@[t2] as int);
                            let i = old(self).chain_of(t2)[p];
                            assert(es2[i] == es[i]);
                            if t2 == t {
                                assert(self.chain_of(t2)[p + 1] == i);
                            } else {
                                assert(self.chain_of(t2)[p] == i);
                            }
                        }
                    }
                }
                true
            },
        }
    }

    /// Replaces the value of the entry at position `q` of the chain of slot
    /// `t` and returns the value it held.
    fn replace_value(
        &mut self,
        t: usize,
        i: usize,
        value: V,
        Ghost(q): Ghost<int>,
        Ghost(s): Ghost<int>,
        Ghost(seed): Ghost<u64>,
        Ghost(bc): Ghost<usize>,
        Ghost(model): Ghost<Map<Seq<u8>, V>>,
    ) -> (r: V)
        requires
            old(self).inv(s, seed, bc, model),
            t < SLOT_COUNT,
            0 <= q < old(self).chain_of(t as int).len(),
            old(self).chain_of(t as int)[q] == i,
        ensures
            model.contains_key(old(self).km(i as int)),
            r == model[old(self).km(i as int)],
            loc_shard(seed, bc, old(self).km(i as int)) == s,
            final(self).inv(s, seed, bc, model.insert(old(self).km(i as int), value)),
            final(self).entries@.len() == old(self).entries@.len(),
            forall|t2: int|
                0 <= t2 < SLOT_COUNT ==> #[trigger] final(self).chain_of(t2) == old(self).chain_of(t2),
    {
        let ghost es = self.entries@;
        let ghost km = self.km(i as int);
        let ghost c = self.chain_of(t as int);
        proof {
            lemma_chain_shape(es, self.slots@[t as int] as int);
            assert(self.cell_ok(s, seed, bc, model, t as int, c[q]));
        }
        let e = self.entries.get_mut_unchecked(i);
        let old_value = e.value;
        e.value = value;
        proof {
            let es2 = self.entries@;
            let m2 = model.insert(km, value);
            assert(es2 == es.update(i as int, es2[i as int]));
            assert forall|j: int| 0 <= j < es.len() implies (#[trigger] es[j]).next == es2[j].next
                && es[j].key == es2[j].key && (j != i ==> es[j] == es2[j]) by {}
            assert(links_backward(es2)) by {
                assert forall|j: int| 0 <= j < es2.len() implies (#[trigger] es2[j]).next as int
                    <= j by {
                    assert(es[j].next == es2[j].next);
                }
            }
            assert forall|t2: int| 0 <= t2 < SLOT_COUNT implies #[trigger] self.chain_of(t2)
                == old(self).chain_of(t2) by {
                lemma_chain_same_links(es, es2, self.slots@[t2] as int);
            }
            assert forall|t2: int, p: int|
                0 <= t2 < SLOT_COUNT && 0 <= p < self.chain_of(t2).len() implies self.cell_ok(
                s,
                seed,
                bc,
                m2,
                t2,
                #[trigger] self.chain_of(t2)[p],
            ) by {
                let j = old(self).chain_of(t2)[p];
                assert(old(self).cell_ok(s, seed, bc, model, t2, j));
                lemma_chain_shape(es, old(self).slots@[t2] as int);
                if j != i {
                    if t2 == t {
                        if p < q {
                            assert(old(self).km(c[p]) != old(self).km(c[q]));
                        } else {
                            assert(old(self).km(c[q]) != old(self).km(c[p]));
                        }
                    }
                }
            }
            assert forall|t2: int, p1: int, p2: int|
                0 <= t2 < SLOT_COUNT && 0 <= p1 < p2 < self.chain_of(t2).len() implies self.km(
                #[trigger] self.chain_of(t2)[p1],
            ) != self.km(#[trigger] self.chain_of(t2)[p2]) by {
                lemma_chain_shape(es, old(self).slots@[t2] as int);
                assert(old(self).km(old(self).chain_of(t2)[p1]) != old(self).km(old(self).chain_of(t2)[p2]));
            }
            assert forall|k2: Seq<u8>|
                #[trigger] m2.contains_key(k2) && loc_shard(seed, bc, k2) == s implies exists|p: int|
                    0 <= p < self.chain_of(loc_slot(seed, k2)).len() && self.km(
                        self.chain_of(loc_slot(seed, k2))[p],
                    ) == k2 by {
                let t2 = loc_slot(seed, k2);
                lemma_mask_bound(hash_spec(seed, k2), SLOT_MASK);
                assert(model.contains_key(k2));
                let p = choose|p: int|
                    0 <= p < old(self).chain_of(t2).len() && old(self).km(
                        old(self).chain_of(t2)[p],
                    ) == k2;
                lemma_chain_shape(es, old(self).slots@[t2] as int);
                assert(self.chain_of(t2)[p] == old(self).chain_of(t2)[p]);
            }
        }
        old_value
    }

    /// Unlinks the entry at position `q` of the chain of slot `t`, either from
    /// the slot head or from the entry before it, and returns its value. The
    /// entry keeps its cell in the pool, with a default value.
    fn unlink(
        &mut self,
        t: usize,
        found: usize,
        prev: Option<usize>,
        Ghost(q): Ghost<int>,
        Ghost(s): Ghost<int>,
        Ghost(seed): Ghost<u64>,
        Ghost(bc): Ghost<usize>,
        Ghost(model): Ghost<Map<Seq<u8>, V>>,
    ) -> (r: V)
        requires
            old(self).inv(s, seed, bc, model),
            t < SLOT_COUNT,
            0 <= q < old(self).chain_of(t as int).len(),
            old(self).chain_of(t as int)[q] == found,
            prev == if q == 0 {
                None::<usize>
            } else {
                Some(old(self).chain_of(t as int)[q - 1] as usize)
            },
        ensures
            model.contains_key(old(self).km(found as int)),
            r == model[old(self).km(found as int)],
            loc_shard(seed, bc, old(self).km(found as int)) == s,
            final(self).inv(s, seed, bc, model.remove(old(self).km(found as int))),
            final(self).entries@.len() == old(self).entries@.len(),
            final(self).chain_of(t as int) == old(self).chain_of(t as int).remove(q),
            forall|t2: int|
                0 <= t2 < SLOT_COUNT && t2 != t ==> #[trigger] final(self).chain_of(t2) == old(
                    self,
                ).chain_of(t2),
    {
        let ghost es = self.entries@;
        let ghost km = self.km(found as int);
        let ghost c = self.chain_of(t as int);
        let ghost head = self.slots@[t as int] as int;
        proof {
            lemma_chain_shape(es, head);
            assert(self.cell_ok(s, seed, bc, model, t as int, c[q]));
        }
        let next = self.entries.get_unchecked(found).next;
        match prev {
            None => {
                self.slots.set(t, next);
                proof {
                    assert(c[0] == head - 1);
                    lemma_chain_step(es, head);
                    assert(self.chain_of(t as int) =~= c.remove(0));
                }
            },
            Some(p) => {
                let pe = self.entries.get_mut_unchecked(p);
                pe.next = next;
                proof {
                    let es2 = self.entries@;
                    assert(es2 == es.update(p as int, es2[p as int]));
                    lemma_chain_unlink(es, head, q, es2[p as int]);
                    assert(self.chain_of(t as int) == c.remove(q));
                    assert(c[q - 1] > c[q]);
                    assert(old(self).cell_ok(s, seed, bc, model, t as int, c[q - 1]));
                    assert forall|t2: int| 0 <= t2 < SLOT_COUNT && t2 != t implies #[trigger] self.chain_of(t2)
                        == old(self).chain_of(t2) by {
                        let c2 = old(self).chain_of(t2);
                        assert(!c2.contains(p as int)) by {
                            if c2.contains(p as int) {
                                let pp = choose|pp: int| 0 <= pp < c2.len() && c2[pp] == p as int;
                                assert(old(self).cell_ok(s, seed, bc, model, t2, c2[pp]));
                            }
                        }
                        lemma_chain_frame(es, p as int, es2[p as int], old(self).slots@[t2] as int);
                    }
                }
            },
        }
        proof {
            let es2 = self.entries@;
            assert forall|t2: int| 0 <= t2 < SLOT_COUNT && t2 != t implies #[trigger] self.chain_of(t2)
                == old(self).chain_of(t2) by {}
            assert forall|j: int| 0 <= j < es.len() implies (#[trigger] es2[j]).key == es[j].key
                && es2[j].value == es[j].value by {}
            assert(links_backward(es2)) by {
                assert forall|j: int| 0 <= j < es2.len() implies (#[trigger] es2[j]).next as int
                    <= j by {
                    assert(es[j].next as int <= j);
                    if prev.is_some() && j == prev.unwrap() {
                        assert(c[q - 1] > c[q]);
                        assert(es[found as int].next as int <= found);
                    }
                }
            }
            assert(forall|t2: int| 0 <= t2 < SLOT_COUNT ==> #[trigger] self.slots@[t2] <= es2.len()) by {
                assert(es[found as int].next as int <= found);
            }
            assert(Self::unlinked(old(self), self, t as int, q));
        }
        let ghost linked = *self;
        let e = self.entries.get_mut_unchecked(found);
        let old_value = e.value;
        e.value = V::default();
        proof {
            let es2 = linked.entries@;
            let es3 = self.entries@;
            assert(es3 == es2.update(found as int, es3[found as int]));
            assert forall|t2: int| 0 <= t2 < SLOT_COUNT implies #[trigger] self.chain_of(t2)
                == linked.chain_of(t2) by {
                lemma_chain_same_links(es2, es3, self.slots@[t2] as int);
            }
            assert(links_backward(es3)) by {
                assert forall|j: int| 0 <= j < es3.len() implies (#[trigger] es3[j]).next as int
                    <= j by {
                    assert(es2[j].next == es3[j].next);
                }
            }
            assert(old_value == es[found as int].value);
            assert(Self::unlinked(old(self), self, t as int, q));
            Self::lemma_unlinked(old(self), self, t as int, q, s, seed, bc, model);
        }
        old_value
    }

    /// `n` is `o` with the entry at position `q` of the chain of slot `t` taken
    /// out of that chain, and every other chain, key and value unchanged.
    spec fn unlinked(o: &Self, n: &Self, t: int, q: int) -> bool {
        &&& 0 <= t < SLOT_COUNT
        &&& 0 <= q < o.chain_of(t).len()
        &&& n.slots@.len() == SLOT_COUNT
        &&& n.entries.wf()
        &&& links_backward(n.entries@)
        &&& forall|t2: int| 0 <= t2 < SLOT_COUNT ==> #[trigger] n.slots@[t2] <= n.entries@.len()
        &&& n.entries@.len() == o.entries@.len()
        &&& forall|j: int|
            0 <= j < o.entries@.len() ==> (#[trigger] n.entries@[j]).key == o.entries@[j].key
                && (j != o.chain_of(t)[q] ==> n.entries@[j].value == o.entries@[j].value)
        &&& n.chain_of(t) == o.chain_of(t).remove(q)
        &&& forall|t2: int|
            0 <= t2 < SLOT_COUNT && t2 != t ==> #[trigger] n.chain_of(t2) == o.chain_of(t2)
    }

    #[verifier::spinoff_prover]
    proof fn lemma_unlinked_cells(o: &Self, n: &Self, t: int, q: int, s: int, seed: u64, bc: usize, model: Map<Seq<u8>, V>)
        requires
            o.inv(s, seed, bc, model),
            Self::unlinked(o, n, t, q),
        ensures
            forall|t2: int, p: int|
                0 <= t2 < SLOT_COUNT && 0 <= p < n.chain_of(t2).len() ==> n.cell_ok(
                    s,
                    seed,
                    bc,
                    model.remove(o.km(o.chain_of(t)[q])),
                    t2,
                    #[trigger] n.chain_of(t2)[p],
                ),
    {
        let es = o.entries@;
        let c = o.chain_of(t);
        let km = o.km(c[q]);
        let es2 = n.entries@;
        let m2 = model.remove(km);
        let c2 = n.chain_of(t);
        lemma_chain_shape(es, o.slots@[t] as int);
            assert forall|t2: int, p: int|
                0 <= t2 < SLOT_COUNT && 0 <= p < n.chain_of(t2).len() implies n.cell_ok(
                s,
                seed,
                bc,
                m2,
                t2,
                #[trigger] n.chain_of(t2)[p],
            ) by {
                lemma_chain_shape(es, o.slots@[t2] as int);
                if t2 == t {
                    let op = if p < q { p } else { p + 1 };
                    assert(c2[p] == c[op]);
                    assert(o.cell_ok(s, seed, bc, model, t2, c[op]));
                    if op < q {
                        assert(o.km(c[op]) != o.km(c[q]));
                    } else {
                        assert(o.km(c[q]) != o.km(c[op]));
                    }
                } else {
                    let j = o.chain_of(t2)[p];
                    assert(o.cell_ok(s, seed, bc, model, t2, j));
                }
            }
    }

    #[verifier::spinoff_prover]
    #[verifier::rlimit(80)]
    proof fn lemma_unlinked_distinct(o: &Self, n: &Self, t: int, q: int, s: int, seed: u64, bc: usize, model: Map<Seq<u8>, V>)
        requires
            o.inv(s, seed, bc, model),
            Self::unlinked(o, n, t, q),
        ensures
            forall|t2: int, p1: int, p2: int|
                0 <= t2 < SLOT_COUNT && 0 <= p1 < p2 < n.chain_of(t2).len() ==> n.km(
                    #[trigger] n.chain_of(t2)[p1],
                ) != n.km(#[trigger] n.chain_of(t2)[p2]),
    {
        let es = o.entries@;
        let c = o.chain_of(t);
        let km = o.km(c[q]);
        let es2 = n.entries@;
        let m2 = model.remove(km);
        let c2 = n.chain_of(t);
        lemma_chain_shape(es, o.slots@[t] as int);
            assert forall|t2: int, p1: int, p2: int|
                0 <= t2 < SLOT_COUNT && 0 <= p1 < p2 < n.chain_of(t2).len() implies n.km(
                #[trigger] n.chain_of(t2)[p1],
            ) != n.km(#[trigger] n.chain_of(t2)[p2]) by {
                lemma_chain_shape(es, o.slots@[t2] as int);
                if t2 == t {
                    let o1 = if p1 < q { p1 } else { p1 + 1 };
                    let o2 = if p2 < q { p2 } else { p2 + 1 };
                    assert(c2[p1] == c[o1]);
                    assert(c2[p2] == c[o2]);
                    assert(o.km(c[o1]) != o.km(c[o2]));
                } else {
                    assert(o.km(o.chain_of(t2)[p1]) != o.km(
                        o.chain_of(t2)[p2],
                    ));
                }
            }
    }

    #[verifier::spinoff_prover]
    #[verifier::rlimit(80)]
    proof fn lemma_unlinked_complete(o: &Self, n: &Self, t: int, q: int, s: int, seed: u64, bc: usize, model: Map<Seq<u8>, V>)
        requires
            o.inv(s, seed, bc, model),
            Self::unlinked(o, n, t, q),
        ensures
            forall|k2: Seq<u8>|
                #[trigger] model.remove(o.km(o.chain_of(t)[q])).contains_key(k2) && loc_shard(seed, bc, k2) == s ==> exists|p: int|
                    0 <= p < n.chain_of(loc_slot(seed, k2)).len() && n.km(
                        n.chain_of(loc_slot(seed, k2))[p],
                    ) == k2,
    {
        let es = o.entries@;
        let c = o.chain_of(t);
        let km = o.km(c[q]);
        let es2 = n.entries@;
        let m2 = model.remove(km);
        let c2 = n.chain_of(t);
        lemma_chain_shape(es, o.slots@[t] as int);
            assert forall|k2: Seq<u8>|
                #[trigger] m2.contains_key(k2) && loc_shard(seed, bc, k2) == s implies exists|p: int|
                    0 <= p < n.chain_of(loc_slot(seed, k2)).len() && n.km(
                        n.chain_of(loc_slot(seed, k2))[p],
                    ) == k2 by {
                let t2 = loc_slot(seed, k2);
                lemma_mask_bound(hash_spec(seed, k2), SLOT_MASK);
                assert(model.contains_key(k2));
                let p = choose|p: int|
                    0 <= p < o.chain_of(t2).len() && o.km(
                        o.chain_of(t2)[p],
                    ) == k2;
                lemma_chain_shape(es, o.slots@[t2] as int);
                if t2 == t {
                    assert(p != q);
                    if p < q {
                        assert(c2[p] == c[p]);
                    } else {
                        assert(c2[p - 1] == c[p]);
                    }
                } else {
                    assert(n.chain_of(t2)[p] == o.chain_of(t2)[p]);
                }
            }
    }

    /// The invariant after the entry at position `q` of the chain of slot `t`
    /// has left that chain, with every other chain, key and value unchanged.
    proof fn lemma_unlinked(o: &Self, n: &Self, t: int, q: int, s: int, seed: u64, bc: usize, model: Map<Seq<u8>, V>)
        requires
            o.inv(s, seed, bc, model),
            Self::unlinked(o, n, t, q),
        ensures
            n.inv(s, seed, bc, model.remove(o.km(o.chain_of(t)[q]))),
    {
        Self::lemma_unlinked_cells(o, n, t, q, s, seed, bc, model);
        Self::lemma_unlinked_distinct(o, n, t, q, s, seed, bc, model);
        Self::lemma_unlinked_complete(o, n, t, q, s, seed, bc, model);
    }

    /// Whether the shard's pool can take one more entry.
    spec fn has_room(&self) -> bool {
        self.entries@.len() < SLAB_CAPACITY
    }
}

/// Walks the chain of `slot` looking for `key`. Returns the index of the
/// entry that holds it, the index of the entry before that one (or of the last
/// entry when the key is absent), and the head the walk started from.
#[verifier::spinoff_prover]
fn find_index<K: MapKey, V: Copy + Default>(
    shard: &Shard<K, V>,
    slot: usize,
    key: &K,
    Ghost(s): Ghost<int>,
    Ghost(seed): Ghost<u64>,
    Ghost(bc): Ghost<usize>,
    Ghost(model): Ghost<Map<Seq<u8>, V>>,
) -> (r: (Option<usize>, Option<usize>, usize))
    requires
        shard.inv(s, seed, bc, model),
        slot < SLOT_COUNT,
    ensures
        r.2 == shard.slots@[slot as int],
        match r.0 {
            Some(i) => exists|q: int|
                0 <= q < shard.chain_of(slot as int).len() && #[trigger] shard.chain_of(slot as int)[q] == i
                    && shard.km(i as int) == key.key_model() && r.1 == if q == 0 {
                    None::<usize>
                } else {
                    Some(shard.chain_of(slot as int)[q - 1] as usize)
                },
            None => (forall|q: int|
                0 <= q < shard.chain_of(slot as int).len() ==> shard.km(
                    #[trigger] shard.chain_of(slot as int)[q],
                ) != key.key_model()) && r.1 == if shard.chain_of(slot as int).len() == 0 {
                None::<usize>
            } else {
                Some(
                    shard.chain_of(slot as int)[shard.chain_of(slot as int).len() - 1] as usize,
                )
            },
        },
{
    let ghost c = shard.chain_of(slot as int);
    let ghost es = shard.entries@;
    let head = shard.slots[slot] as usize;
    proof {
        lemma_chain_shape(es, head as int);
    }
    if head == 0 {
        return (None, None, head);
    }
    let mut ii: usize = head - 1;
    let mut prev: Option<usize> = None;
    let ghost mut q: int = 0;
    loop
        invariant
            shard.entries.wf(),
            links_backward(es),
            c == shard.chain_of(slot as int),
            es == shard.entries@,
            slot < SLOT_COUNT,
            head == shard.slots@[slot as int],
            0 <= q < c.len(),
            c[q] == ii,
            chain(es, ii + 1) == c.subrange(q, c.len() as int),
            forall|j: int| 0 <= j < q ==> shard.km(#[trigger] c[j]) != key.key_model(),
            prev == if q == 0 {
                None::<usize>
            } else {
                Some(c[q - 1] as usize)
            },
        decreases ii,
    {
        proof {
            lemma_chain_shape(es, head as int);
        }
        let entry = shard.entries.get_unchecked(ii);
        if entry.key.key_eq(key) {
            return (Some(ii), prev, head);
        }
        prev = Some(ii);
        let next = entry.next;
        proof {
            lemma_chain_step(es, ii + 1);
            assert(chain(es, ii + 1) == seq![ii as int].add(chain(es, next as int)));
            let x = chain(es, next as int);
            let sub = c.subrange(q, c.len() as int);
            assert(sub == seq![ii as int].add(x));
            assert(x.len() == c.len() - q - 1);
            assert forall|j: int| 0 <= j < x.len() implies x[j] == c[q + 1 + j] by {
                assert(sub[j + 1] == x[j]);
            }
            assert(x =~= c.subrange(q + 1, c.len() as int));
        }
        if next == 0 {
            proof {
                assert(c.len() == q + 1);
                assert forall|j: int| 0 <= j < c.len() implies shard.km(#[trigger] c[j])
                    != key.key_model() by {
                    if j == q {
                    }
                }
            }
            return (None, prev, head);
        }
        ii = (next - 1) as usize;
        proof {
            q = q + 1;
        }
    }
}

} // verus!

verus! {

/// A map with a fixed number of shards chosen from the capacity at
/// construction; it holds more keys than that capacity, but never re-shards.
/// Changes take `&mut self`: callers that share it across threads put it
/// behind a lock. Keys are hashed with a seed; bits 8 and up of the
/// hash pick the shard and the low byte picks the slot in it.
pub struct BFixMap<K, V> {
    shards: Vec<Shard<K, V>>,
    build_hasher: u64,
    bucket_count: usize,
    model: Ghost<Map<Seq<u8>, V>>,
}

impl<K: MapKey, V: Copy + Default> View for BFixMap<K, V> {
    type V = Map<Seq<u8>, V>;

    closed spec fn view(&self) -> Map<Seq<u8>, V> {
        self.model@
    }
}

impl<K: MapKey, V: Copy + Default> BFixMap<K, V> {
    /// Every shard holds, in the chains of its slots, exactly the keys of the
    /// map that hash into it.
    pub closed spec fn wf(&self) -> bool {
        &&& self.bucket_count >= 1
        &&& self.shards@.len() == self.bucket_count
        &&& forall|s: int|
            0 <= s < self.shards@.len() ==> (#[trigger] self.shards@[s]).inv(
                s,
                self.build_hasher,
                self.bucket_count,
                self.model@,
            )
    }

    pub closed spec fn spec_bucket_count(&self) -> usize {
        self.bucket_count
    }

    /// The shard that `k` falls into.
    pub closed spec fn shard_of(&self, k: Seq<u8>) -> int {
        loc_shard(self.build_hasher, self.bucket_count, k)
    }

    /// The slot of its shard that `k` falls into.
    pub closed spec fn slot_of(&self, k: Seq<u8>) -> int {
        loc_slot(self.build_hasher, k)
    }

    /// The pool indices visited from the head of slot `t` of shard `s`.
    pub closed spec fn chain_indices(&self, s: int, t: int) -> Seq<int> {
        self.shards@[s].chain_of(t)
    }

    /// The key model held at position `p` of that chain.
    pub closed spec fn chain_key(&self, s: int, t: int, p: int) -> Seq<u8> {
        self.shards@[s].km(self.chain_indices(s, t)[p])
    }

    /// The number of entries handed out by the pool of shard `s`.
    pub closed spec fn pool_size(&self, s: int) -> nat {
        self.shards@[s].entries@.len()
    }

    /// Whether the shard that `k` falls into can take one more entry.
    pub open spec fn has_room_for(&self, k: Seq<u8>) -> bool {
        self.pool_size(self.shard_of(k)) < SLAB_CAPACITY
    }

    /// Every chain of `next` but the one of slot `t` of shard `s` is the chain
    /// of `self`.
    pub open spec fn chains_kept(&self, next: &Self, s: int, t: int) -> bool {
        forall|s2: int, t2: int|
            0 <= s2 < self.spec_bucket_count() && 0 <= t2 < SLOT_COUNT && !(s2 == s && t2 == t)
                ==> #[trigger] next.chain_indices(s2, t2) == self.chain_indices(s2, t2)
    }

    /// Pool sizes after a change at `k`: one more entry in the shard of `k`
    /// when `added`, none elsewhere.
    pub open spec fn pools_after(&self, next: &Self, k: Seq<u8>, added: bool) -> bool {
        &&& forall|k2: Seq<u8>| #[trigger] next.shard_of(k2) == self.shard_of(k2)
        &&& forall|k2: Seq<u8>| #[trigger] next.slot_of(k2) == self.slot_of(k2)
        &&& next.spec_bucket_count() == self.spec_bucket_count()
        &&& forall|s: int|
            0 <= s < self.spec_bucket_count() ==> #[trigger] next.pool_size(s) == self.pool_size(s)
                + if added && s == self.shard_of(k) {
                1int
            } else {
                0int
            }
    }

    proof fn lemma_pools_after(o: &Self, n: &Self, s: int, k: Seq<u8>, added: bool)
        requires
            n.shards@.len() == o.shards@.len(),
            o.shards@.len() == o.bucket_count,
            n.build_hasher == o.build_hasher,
            n.bucket_count == o.bucket_count,
            s == o.shard_of(k),
            forall|s2: int| 0 <= s2 < o.shards@.len() && s2 != s ==> n.shards@[s2] == o.shards@[s2],
            n.shards@[s].entries@.len() == o.shards@[s].entries@.len() + if added { 1int } else { 0int },
        ensures
            o.pools_after(n, k, added),
    {
    }

    proof fn lemma_chains_after(o: &Self, n: &Self, s: int, t: int)
        requires
            n.shards@.len() == o.shards@.len(),
            o.shards@.len() == o.bucket_count,
            n.bucket_count == o.bucket_count,
            0 <= s < o.shards@.len(),
            forall|s2: int| 0 <= s2 < o.shards@.len() && s2 != s ==> n.shards@[s2] == o.shards@[s2],
            forall|t2: int|
                0 <= t2 < SLOT_COUNT && t2 != t ==> #[trigger] n.shards@[s].chain_of(t2)
                    == o.shards@[s].chain_of(t2),
        ensures
            o.chains_kept(n, s, t),
    {
        assert forall|s2: int, t2: int|
            0 <= s2 < o.spec_bucket_count() && 0 <= t2 < SLOT_COUNT && !(s2 == s && t2 == t)
                implies #[trigger] n.chain_indices(s2, t2) == o.chain_indices(s2, t2) by {
            if s2 == s {
                assert(n.shards@[s].chain_of(t2) == o.shards@[s].chain_of(t2));
            } else {
                assert(n.shards@[s2] == o.shards@[s2]);
            }
        }
    }

    proof fn lemma_loc_bounds(&self, k: Seq<u8>)
        requires
            self.wf(),
        ensures
            0 <= self.shard_of(k) < self.bucket_count,
            0 <= self.slot_of(k) < SLOT_COUNT,
    {
        let h = hash_spec(self.build_hasher, k);
        lemma_mask_bound(h >> SLOT_BITS, (self.bucket_count - 1) as u64);
        lemma_mask_bound(h, SLOT_MASK);
    }

    /// Creates an empty map sized for `capacity` entries; `build_hasher` seeds
    /// the key hash.
    pub fn with_capacity_and_hasher(capacity: usize, build_hasher: u64) -> (r: Self)
        ensures
            r.wf(),
            r@ == Map::<Seq<u8>, V>::empty(),
            is_power_of_two(r.spec_bucket_count() as nat),
            r.spec_bucket_count() >= 1024,
            r.spec_bucket_count() == closest_power_spec((capacity / CAPACITY_PER_SHARD) as nat),
            forall|s: int| 0 <= s < r.spec_bucket_count() ==> #[trigger] r.pool_size(s) == 0,
            forall|k: Seq<u8>| 0 <= #[trigger] r.shard_of(k) < r.spec_bucket_count(),
    {
        let bucket_count = closest_power_of_2_min_1024(capacity / CAPACITY_PER_SHARD);
        let mut shards: Vec<Shard<K, V>> = Vec::with_capacity(bucket_count);
        let mut i: usize = 0;
        while i < bucket_count
            invariant
                i <= bucket_count,
                shards@.len() == i,
                forall|s: int| 0 <= s < i ==> (#[trigger] shards@[s]).inv(s, build_hasher, bucket_count, Map::<Seq<u8>, V>::empty()),
                forall|s: int| 0 <= s < i ==> (#[trigger] shards@[s]).entries@.len() == 0,
            decreases bucket_count - i,
        {
            let sh = Shard::new();
            proof {
                assert(sh.inv(i as int, build_hasher, bucket_count, Map::<Seq<u8>, V>::empty()));
            }
            shards.push(sh);
            i = i + 1;
        }
        let r = BFixMap {
            shards,
            build_hasher,
            bucket_count,
            model: Ghost(Map::<Seq<u8>, V>::empty()),
        };
        proof {
            assert forall|k: Seq<u8>| 0 <= #[trigger] r.shard_of(k) < r.spec_bucket_count() by {
                lemma_mask_bound(hash_spec(build_hasher, k) >> SLOT_BITS, (bucket_count - 1) as u64);
            }
        }
        r
    }

    /// Creates an empty map sized for `capacity` entries, with seed zero.
    pub fn with_capacity(capacity: usize) -> (r: Self)
        ensures
            r.wf(),
            r@ == Map::<Seq<u8>, V>::empty(),
            r.spec_bucket_count() == closest_power_spec((capacity / CAPACITY_PER_SHARD) as nat),
            forall|s: int| 0 <= s < r.spec_bucket_count() ==> #[trigger] r.pool_size(s) == 0,
            forall|k: Seq<u8>| 0 <= #[trigger] r.shard_of(k) < r.spec_bucket_count(),
    {
        Self::with_capacity_and_hasher(capacity, 0)
    }

    pub fn bucket_count(&self) -> (r: usize)
        ensures
            r == self.spec_bucket_count(),
    {
        self.bucket_count
    }

    /// The shard and slot of `key`.
    fn calc_index(&self, key: &K) -> (r: (usize, usize))
        requires
            self.wf(),
        ensures
            r.0 == self.shard_of(key.key_model()),
            r.1 == self.slot_of(key.key_model()),
            r.0 < self.bucket_count,
            r.1 < SLOT_COUNT,
    {
        let h = hash_key(self.build_hasher, key);
        let shard_mask = (self.bucket_count - 1) as u64;
        proof {
            self.lemma_loc_bounds(key.key_model());
        }
        (((h >> SLOT_BITS) & shard_mask) as usize, (h & SLOT_MASK) as usize)
    }

    /// The value stored for `key`, if any.
    pub fn get(&self, key: &K) -> (r: Option<V>)
        requires
            self.wf(),
        ensures
            r == if self@.contains_key(key.key_model()) {
                Some(self@[key.key_model()])
            } else {
                None
            },
    {
        let (s, t) = self.calc_index(key);
        let ghost k = key.key_model();
        let shard = &self.shards[s];
        proof {
            assert(shard.inv(s as int, self.build_hasher, self.bucket_count, self.model@));
        }
        let (found, _, _) = find_index(
            shard,
            t,
            key,
            Ghost(s as int),
            Ghost(self.build_hasher),
            Ghost(self.bucket_count),
            Ghost(self.model@),
        );
        match found {
            Some(i) => {
                proof {
                    let q = choose|q: int|
                        0 <= q < shard.chain_of(t as int).len() && #[trigger] shard.chain_of(
                            t as int,
                        )[q] == i;
                    assert(shard.cell_ok(
                        s as int,
                        self.build_hasher,
                        self.bucket_count,
                        self.model@,
                        t as int,
                        shard.chain_of(t as int)[q],
                    ));
                    lemma_chain_shape(shard.entries@, shard.slots@[t as int] as int);
                }
                Some(shard.entries.get_unchecked(i).value)
            },
            None => {
                proof {
                    if self.model@.contains_key(k) {
                        let p = choose|p: int|
                            0 <= p < shard.chain_of(t as int).len() && shard.km(
                                shard.chain_of(t as int)[p],
                            ) == k;
                        assert(shard.km(shard.chain_of(t as int)[p]) != k);
                    }
                }
                None
            },
        }
    }

    /// Stores `value` under `key`. Returns the value it replaces, if the key was
    /// present. A key that is absent is added when its shard's pool has room;
    /// when the pool is full nothing changes and `None` comes back as well.
    pub fn insert(&mut self, key: K, value: V) -> (r: Option<V>)
        requires
            old(self).wf(),
        ensures
            final(self).wf(),
            final(self).spec_bucket_count() == old(self).spec_bucket_count(),
            old(self)@.contains_key(key.key_model()) ==> r == Some(old(self)@[key.key_model()])
                && final(self)@ == old(self)@.insert(key.key_model(), value),
            !old(self)@.contains_key(key.key_model()) && old(self).has_room_for(key.key_model())
                ==> r is None && final(self)@ == old(self)@.insert(key.key_model(), value),
            !old(self)@.contains_key(key.key_model()) && !old(self).has_room_for(key.key_model())
                ==> r is None && final(self)@ == old(self)@,
            old(self).pools_after(
                final(self),
                key.key_model(),
                !old(self)@.contains_key(key.key_model()) && old(self).has_room_for(key.key_model()),
            ),
            old(self).chains_kept(
                final(self),
                old(self).shard_of(key.key_model()),
                old(self).slot_of(key.key_model()),
            ),
            old(self)@.contains_key(key.key_model()) || !old(self).has_room_for(key.key_model())
                ==> final(self).chain_indices(
                old(self).shard_of(key.key_model()),
                old(self).slot_of(key.key_model()),
            ) == old(self).chain_indices(
                old(self).shard_of(key.key_model()),
                old(self).slot_of(key.key_model()),
            ),
            !old(self)@.contains_key(key.key_model()) && old(self).has_room_for(key.key_model())
                ==> final(self).chain_indices(
                old(self).shard_of(key.key_model()),
                old(self).slot_of(key.key_model()),
            ) == seq![old(self).pool_size(old(self).shard_of(key.key_model())) as int].add(
                old(self).chain_indices(
                    old(self).shard_of(key.key_model()),
                    old(self).slot_of(key.key_model()),
                ),
            ),
    {
        let (s, t) = self.calc_index(&key);
        let ghost k = key.key_model();
        let ghost model = self.model@;
        let ghost seed = self.build_hasher;
        let ghost bc = self.bucket_count;
        proof {
            assert(self.shards@[s as int].inv(s as int, seed, bc, model));
        }
        let (found, _, head) = find_index(
            &self.shards[s],
            t,
            &key,
            Ghost(s as int),
            Ghost(seed),
            Ghost(bc),
            Ghost(model),
        );
        match found {
            Some(i) => {
                let ghost q = choose|q: int|
                    0 <= q < self.shards@[s as int].chain_of(t as int).len()
                        && #[trigger] self.shards@[s as int].chain_of(t as int)[q] == i
                        && self.shards@[s as int].km(i as int) == k;
                let old_value = self.shards[s].replace_value(
                    t,
                    i,
                    value,
                    Ghost(q),
                    Ghost(s as int),
                    Ghost(seed),
                    Ghost(bc),
                    Ghost(model),
                );
                self.model = Ghost(model.insert(k, value));
                proof {
                    assert forall|s2: int| 0 <= s2 < self.shards@.len() implies (
                    #[trigger] self.shards@[s2]).inv(s2, seed, bc, self.model@) by {
                        if s2 != s {
                            assert(old(self).shards@[s2].inv(s2, seed, bc, model));
                            old(self).shards@[s2].lemma_other_key(s2, seed, bc, model, k, value);
                        }
                    }
                }
                proof {
                    Self::lemma_pools_after(old(self), self, s as int, k, false);
                    Self::lemma_chains_after(old(self), self, s as int, t as int);
                }
                Some(old_value)
            },
            None => {
                proof {
                    if model.contains_key(k) {
                        let sh = self.shards@[s as int];
                        let p = choose|p: int|
                            0 <= p < sh.chain_of(t as int).len() && sh.km(sh.chain_of(t as int)[p])
                                == k;
                        assert(sh.km(sh.chain_of(t as int)[p]) != k);
                    }
                }
                let added = self.shards[s].insert_new(
                    t,
                    head,
                    key,
                    value,
                    Ghost(s as int),
                    Ghost(seed),
                    Ghost(bc),
                    Ghost(model),
                );
                if added {
                    self.model = Ghost(model.insert(k, value));
                    proof {
                        assert forall|s2: int| 0 <= s2 < self.shards@.len() implies (
                        #[trigger] self.shards@[s2]).inv(s2, seed, bc, self.model@) by {
                            if s2 != s {
                                assert(old(self).shards@[s2].inv(s2, seed, bc, model));
                                old(self).shards@[s2].lemma_other_key(s2, seed, bc, model, k, value);
                            }
                        }
                    }
                } else {
                    proof {
                        assert forall|s2: int| 0 <= s2 < self.shards@.len() implies (
                        #[trigger] self.shards@[s2]).inv(s2, seed, bc, self.model@) by {
                            if s2 != s {
                                assert(old(self).shards@[s2].inv(s2, seed, bc, model));
                            }
                        }
                    }
                }
                proof {
                    Self::lemma_pools_after(old(self), self, s as int, k, added);
                    Self::lemma_chains_after(old(self), self, s as int, t as int);
                }
                None
            },
        }
    }

    /// Removes `key` and returns the value it held, if it was present. The
    /// entry's cell is not reused.
    pub fn remove(&mut self, key: &K) -> (r: Option<V>)
        requires
            old(self).wf(),
        ensures
            final(self).wf(),
            final(self).spec_bucket_count() == old(self).spec_bucket_count(),
            r == if old(self)@.contains_key(key.key_model()) {
                Some(old(self)@[key.key_model()])
            } else {
                None
            },
            final(self)@ == old(self)@.remove(key.key_model()),
            old(self).pools_after(final(self), key.key_model(), false),
            old(self).chains_kept(
                final(self),
                old(self).shard_of(key.key_model()),
                old(self).slot_of(key.key_model()),
            ),
            !old(self)@.contains_key(key.key_model()) ==> final(self).chain_indices(
                old(self).shard_of(key.key_model()),
                old(self).slot_of(key.key_model()),
            ) == old(self).chain_indices(
                old(self).shard_of(key.key_model()),
                old(self).slot_of(key.key_model()),
            ),
            old(self)@.contains_key(key.key_model()) ==> exists|q: int|
                0 <= q < old(self).chain_indices(
                    old(self).shard_of(key.key_model()),
                    old(self).slot_of(key.key_model()),
                ).len() && #[trigger] old(self).chain_key(
                    old(self).shard_of(key.key_model()),
                    old(self).slot_of(key.key_model()),
                    q,
                ) == key.key_model() && final(self).chain_indices(
                    old(self).shard_of(key.key_model()),
                    old(self).slot_of(key.key_model()),
                ) == old(self).chain_indices(
                    old(self).shard_of(key.key_model()),
                    old(self).slot_of(key.key_model()),
                ).remove(q),
    {
        let (s, t) = self.calc_index(key);
        let ghost k = key.key_model();
        let ghost model = self.model@;
        let ghost seed = self.build_hasher;
        let ghost bc = self.bucket_count;
        proof {
            assert(self.shards@[s as int].inv(s as int, seed, bc, model));
        }
        let (found, prev, _) = find_index(
            &self.shards[s],
            t,
            key,
            Ghost(s as int),
            Ghost(seed),
            Ghost(bc),
            Ghost(model),
        );
        match found {
            Some(i) => {
                let ghost q = choose|q: int|
                    0 <= q < self.shards@[s as int].chain_of(t as int).len()
                        && #[trigger] self.shards@[s as int].chain_of(t as int)[q] == i
                        && self.shards@[s as int].km(i as int) == k && prev == if q == 0 {
                        None::<usize>
                    } else {
                        Some(self.shards@[s as int].chain_of(t as int)[q - 1] as usize)
                    };
                let old_value = self.shards[s].unlink(
                    t,
                    i,
                    prev,
                    Ghost(q),
                    Ghost(s as int),
                    Ghost(seed),
                    Ghost(bc),
                    Ghost(model),
                );
                self.shards[s].free_entry(i);
                self.model = Ghost(model.remove(k));
                proof {
                    assert forall|s2: int| 0 <= s2 < self.shards@.len() implies (
                    #[trigger] self.shards@[s2]).inv(s2, seed, bc, self.model@) by {
                        if s2 != s {
                            assert(old(self).shards@[s2].inv(s2, seed, bc, model));
                            old(self).shards@[s2].lemma_other_key(s2, seed, bc, model, k, old_value);
                        }
                    }
                }
                proof {
                    Self::lemma_pools_after(old(self), self, s as int, k, false);
                    Self::lemma_chains_after(old(self), self, s as int, t as int);
                    assert(old(self).chain_key(s as int, t as int, q) == k);
                }
                Some(old_value)
            },
            None => {
                proof {
                    if model.contains_key(k) {
                        let sh = self.shards@[s as int];
                        let p = choose|p: int|
                            0 <= p < sh.chain_of(t as int).len() && sh.km(sh.chain_of(t as int)[p])
                                == k;
                        assert(sh.km(sh.chain_of(t as int)[p]) != k);
                    }
                    assert(model.remove(k) =~= model);
                }
                proof {
                    Self::lemma_pools_after(old(self), self, s as int, k, false);
                    Self::lemma_chains_after(old(self), self, s as int, t as int);
                }
                None
            },
        }
    }

    /// Replaces the value stored for `key` by `f` applied to it. Returns whether
    /// the key was present; when it was not, nothing changes.
    pub fn modify<F: FnOnce(V) -> V>(&mut self, key: &K, f: F) -> (r: bool)
        requires
            old(self).wf(),
            forall|v: V| #[trigger] f.requires((v,)),
        ensures
            final(self).wf(),
            final(self).spec_bucket_count() == old(self).spec_bucket_count(),
            r == old(self)@.contains_key(key.key_model()),
            r ==> exists|nv: V|
                #[trigger] f.ensures((old(self)@[key.key_model()],), nv) && final(self)@ == old(
                    self,
                )@.insert(key.key_model(), nv),
            !r ==> final(self)@ == old(self)@,
            old(self).pools_after(final(self), key.key_model(), false),
            old(self).chains_kept(
                final(self),
                old(self).shard_of(key.key_model()),
                old(self).slot_of(key.key_model()),
            ),
            final(self).chain_indices(
                old(self).shard_of(key.key_model()),
                old(self).slot_of(key.key_model()),
            ) == old(self).chain_indices(
                old(self).shard_of(key.key_model()),
                old(self).slot_of(key.key_model()),
            ),
    {
        let (s, t) = self.calc_index(key);
        let ghost k = key.key_model();
        let ghost model = self.model@;
        let ghost seed = self.build_hasher;
        let ghost bc = self.bucket_count;
        proof {
            assert(self.shards@[s as int].inv(s as int, seed, bc, model));
        }
        let (found, _, _) = find_index(
            &self.shards[s],
            t,
            key,
            Ghost(s as int),
            Ghost(seed),
            Ghost(bc),
            Ghost(model),
        );
        match found {
            Some(i) => {
                let ghost q = choose|q: int|
                    0 <= q < self.shards@[s as int].chain_of(t as int).len()
                        && #[trigger] self.shards@[s as int].chain_of(t as int)[q] == i
                        && self.shards@[s as int].km(i as int) == k;
                proof {
                    let sh = self.shards@[s as int];
                    assert(sh.cell_ok(s as int, seed, bc, model, t as int, sh.chain_of(t as int)[q]));
                    lemma_chain_shape(sh.entries@, sh.slots@[t as int] as int);
                }
                let current = self.shards[s].entries.get_unchecked(i).value;
                let updated = f(current);
                self.shards[s].replace_value(
                    t,
                    i,
                    updated,
                    Ghost(q),
                    Ghost(s as int),
                    Ghost(seed),
                    Ghost(bc),
                    Ghost(model),
                );
                self.model = Ghost(model.insert(k, updated));
                proof {
                    assert forall|s2: int| 0 <= s2 < self.shards@.len() implies (
                    #[trigger] self.shards@[s2]).inv(s2, seed, bc, self.model@) by {
                        if s2 != s {
                            assert(old(self).shards@[s2].inv(s2, seed, bc, model));
                            old(self).shards@[s2].lemma_other_key(s2, seed, bc, model, k, updated);
                        }
                    }
                }
                proof {
                    Self::lemma_pools_after(old(self), self, s as int, k, false);
                    Self::lemma_chains_after(old(self), self, s as int, t as int);
                    assert(f.ensures((old(self)@[k],), updated));
                }
                true
            },
            None => {
                proof {
                    if model.contains_key(k) {
                        let sh = self.shards@[s as int];
                        let p = choose|p: int|
                            0 <= p < sh.chain_of(t as int).len() && sh.km(sh.chain_of(t as int)[p])
                                == k;
                        assert(sh.km(sh.chain_of(t as int)[p]) != k);
                    }
                }
                proof {
                    Self::lemma_pools_after(old(self), self, s as int, k, false);
                    Self::lemma_chains_after(old(self), self, s as int, t as int);
                }
                false
            },
        }
    }
}

} // verus!

verus! {

/// Every key of the map appears exactly once in the chain of its own shard and
/// slot.
pub proof fn lemma_key_once_in_chain<K: MapKey, V: Copy + Default>(m: &BFixMap<K, V>, k: Seq<u8>)
    requires
        m.wf(),
        m@.contains_key(k),
    ensures
        0 <= m.shard_of(k) < m.spec_bucket_count(),
        0 <= m.slot_of(k) < SLOT_COUNT,
        exists|p: int|
            0 <= p < m.chain_indices(m.shard_of(k), m.slot_of(k)).len() && m.chain_key(
                m.shard_of(k),
                m.slot_of(k),
                p,
            ) == k,
        forall|p1: int, p2: int|
            0 <= p1 < m.chain_indices(m.shard_of(k), m.slot_of(k)).len() && 0 <= p2 < m.chain_indices(
                m.shard_of(k),
                m.slot_of(k),
            ).len() && #[trigger] m.chain_key(m.shard_of(k), m.slot_of(k), p1) == k
                && #[trigger] m.chain_key(m.shard_of(k), m.slot_of(k), p2) == k ==> p1 == p2,
{
    m.lemma_loc_bounds(k);
    let s = m.shard_of(k);
    let sh = m.shards@[s];
    assert(sh.inv(s, m.build_hasher, m.bucket_count, m.model@));
    let w = choose|p: int|
        0 <= p < sh.chain_of(loc_slot(m.build_hasher, k)).len() && sh.km(
            sh.chain_of(loc_slot(m.build_hasher, k))[p],
        ) == k;
    assert(m.chain_key(s, m.slot_of(k), w) == k);
    assert forall|p1: int, p2: int|
        0 <= p1 < m.chain_indices(s, m.slot_of(k)).len() && 0 <= p2 < m.chain_indices(
            s,
            m.slot_of(k),
        ).len() && #[trigger] m.chain_key(s, m.slot_of(k), p1) == k && #[trigger] m.chain_key(
            s,
            m.slot_of(k),
            p2,
        ) == k implies p1 == p2 by {
        let c = sh.chain_of(m.slot_of(k));
        if p1 < p2 {
            assert(sh.km(c[p1]) != sh.km(c[p2]));
        } else if p2 < p1 {
            assert(sh.km(c[p2]) != sh.km(c[p1]));
        }
    }
}

/// Following a chain from its head visits distinct entries of the shard's
/// pool in strictly decreasing order, so it ends within as many steps as the
/// pool has entries.
pub proof fn lemma_chain_integrity<K: MapKey, V: Copy + Default>(m: &BFixMap<K, V>, s: int, t: int)
    requires
        m.wf(),
        0 <= s < m.spec_bucket_count(),
        0 <= t < SLOT_COUNT,
    ensures
        m.chain_indices(s, t).len() <= m.pool_size(s),
        forall|p: int|
            0 <= p < m.chain_indices(s, t).len() ==> 0 <= #[trigger] m.chain_indices(s, t)[p]
                < m.pool_size(s),
        forall|p1: int, p2: int|
            0 <= p1 < p2 < m.chain_indices(s, t).len() ==> #[trigger] m.chain_indices(s, t)[p1]
                > #[trigger] m.chain_indices(s, t)[p2],
{
    let sh = m.shards@[s];
    assert(sh.inv(s, m.build_hasher, m.bucket_count, m.model@));
    lemma_chain_shape(sh.entries@, sh.slots@[t] as int);
}

} // verus!

verus! {

/// Every key held in a chain is a key of the map, in the shard and slot it
/// hashes to; so a key that the map no longer holds is in no chain.
pub proof fn lemma_chain_keys_in_map<K: MapKey, V: Copy + Default>(
    m: &BFixMap<K, V>,
    s: int,
    t: int,
    p: int,
)
    requires
        m.wf(),
        0 <= s < m.spec_bucket_count(),
        0 <= t < SLOT_COUNT,
        0 <= p < m.chain_indices(s, t).len(),
    ensures
        m@.contains_key(m.chain_key(s, t, p)),
        m.shard_of(m.chain_key(s, t, p)) == s,
        m.slot_of(m.chain_key(s, t, p)) == t,
{
    let sh = m.shards@[s];
    assert(sh.inv(s, m.build_hasher, m.bucket_count, m.model@));
    assert(sh.cell_ok(s, m.build_hasher, m.bucket_count, m.model@, t, sh.chain_of(t)[p]));
}

} // verus!
