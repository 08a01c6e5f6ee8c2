//! Keys of the maps: an abstract byte model, equality on that model, and a
//! deterministic seeded hash of it.
use std::collections::hash_map::DefaultHasher;
use std::hash::Hasher;
use vstd::prelude::*;
use vstd::std_specs::hash::DefaultHasherAdditionalSpecFns;
use vstd::utf8::encode_utf8;

verus! {

/// The eight little-endian bytes of a 64-bit word.
pub open spec fn u64_bytes(x: u64) -> Seq<u8> {
    seq![
        x as u8,
        (x >> 8u64) as u8,
        (x >> 16u64) as u8,
        (x >> 24u64) as u8,
        (x >> 32u64) as u8,
        (x >> 40u64) as u8,
        (x >> 48u64) as u8,
        (x >> 56u64) as u8,
    ]
}

/// The hash of a key model under a seed: the seed's bytes and then the key's
/// bytes, written to a `DefaultHasher`.
pub open spec fn hash_spec(seed: u64, key: Seq<u8>) -> u64 {
    DefaultHasher::spec_finish(seq![u64_bytes(seed), key])
}

/// Two words with the same bytes are the same word.
pub proof fn lemma_u64_bytes_injective(a: u64, b: u64)
    requires
        u64_bytes(a) == u64_bytes(b),
    ensures
        a == b,
{
    assert(u64_bytes(a)[0] == u64_bytes(b)[0]);
    assert(u64_bytes(a)[1] == u64_bytes(b)[1]);
    assert(u64_bytes(a)[2] == u64_bytes(b)[2]);
    assert(u64_bytes(a)[3] == u64_bytes(b)[3]);
    assert(u64_bytes(a)[4] == u64_bytes(b)[4]);
    assert(u64_bytes(a)[5] == u64_bytes(b)[5]);
    assert(u64_bytes(a)[6] == u64_bytes(b)[6]);
    assert(u64_bytes(a)[7] == u64_bytes(b)[7]);
    assert(a == b) by (bit_vector)
        requires
            a as u8 == b as u8,
            (a >> 8u64) as u8 == (b >> 8u64) as u8,
            (a >> 16u64) as u8 == (b >> 16u64) as u8,
            (a >> 24u64) as u8 == (b >> 24u64) as u8,
            (a >> 32u64) as u8 == (b >> 32u64) as u8,
            (a >> 40u64) as u8 == (b >> 40u64) as u8,
            (a >> 48u64) as u8 == (b >> 48u64) as u8,
            (a >> 56u64) as u8 == (b >> 56u64) as u8,
    ;
}

/// The bytes of a word, in a vector.
pub fn u64_to_bytes(x: u64) -> (r: Vec<u8>)
    ensures
        r@ == u64_bytes(x),
{
    let mut r: Vec<u8> = Vec::with_capacity(8);
    r.push(x as u8);
    r.push((x >> 8u64) as u8);
    r.push((x >> 16u64) as u8);
    r.push((x >> 24u64) as u8);
    r.push((x >> 32u64) as u8);
    r.push((x >> 40u64) as u8);
    r.push((x >> 48u64) as u8);
    r.push((x >> 56u64) as u8);
    assert(r@ =~= u64_bytes(x));
    r
}

/// What a map needs of its keys. Two keys are the same key exactly when their
/// byte models are equal, and the hash is computed from the model alone.
pub trait MapKey: Sized {
    spec fn key_model(&self) -> Seq<u8>;

    fn hash_into(&self, hasher: &mut DefaultHasher)
        ensures
            final(hasher)@ == old(hasher)@.push(self.key_model()),
    ;

    fn key_eq(&self, other: &Self) -> (r: bool)
        ensures
            r == (self.key_model() == other.key_model()),
    ;

    fn key_clone(&self) -> (r: Self)
        ensures
            r.key_model() == self.key_model(),
    ;
}

impl MapKey for u64 {
    open spec fn key_model(&self) -> Seq<u8> {
        u64_bytes(*self)
    }

    fn hash_into(&self, hasher: &mut DefaultHasher) {
        let b = u64_to_bytes(*self);
        hasher.write(b.as_slice());
    }

    fn key_eq(&self, other: &Self) -> (r: bool) {
        proof {
            if u64_bytes(*self) == u64_bytes(*other) {
                lemma_u64_bytes_injective(*self, *other);
            }
        }
        *self == *other
    }

    fn key_clone(&self) -> (r: Self) {
        *self
    }
}

/// Byte-wise equality of two slices.
pub fn bytes_equal(a: &[u8], b: &[u8]) -> (r: bool)
    ensures
        r == (a@ == b@),
{
    if a.len() != b.len() {
        return false;
    }
    let mut i: usize = 0;
    while i < a.len()
        invariant
            a@.len() == b@.len(),
            i <= a@.len(),
            forall|j: int| 0 <= j < i ==> a@[j] == b@[j],
        decreases a@.len() - i,
    {
        if a[i] != b[i] {
            return false;
        }
        i = i + 1;
    }
    assert(a@ =~= b@);
    true
}

impl MapKey for String {
    open spec fn key_model(&self) -> Seq<u8> {
        encode_utf8(self@)
    }

    fn hash_into(&self, hasher: &mut DefaultHasher) {
        hasher.write(self.as_str().as_bytes());
    }

    fn key_eq(&self, other: &Self) -> (r: bool) {
        bytes_equal(self.as_str().as_bytes(), other.as_str().as_bytes())
    }

    fn key_clone(&self) -> (r: Self) {
        self.clone()
    }
}

/// Hashes a key under a seed.
pub fn hash_key<K: MapKey>(seed: u64, key: &K) -> (h: u64)
    ensures
        h == hash_spec(seed, key.key_model()),
{
    let mut hasher = DefaultHasher::new();
    let sb = u64_to_bytes(seed);
    hasher.write(sb.as_slice());
    key.hash_into(&mut hasher);
    assert(hasher@ =~= seq![u64_bytes(seed), key.key_model()]);
    hasher.finish()
}

} // verus!
