//! Table sizes: powers of two with a floor.
use vstd::prelude::*;

verus! {

pub open spec fn is_power_of_two(n: nat) -> bool
    decreases n,
{
    if n == 1 {
        true
    } else if n >= 2 && n % 2 == 0 {
        is_power_of_two(n / 2)
    } else {
        false
    }
}

proof fn lemma_double_power_of_two(n: nat)
    requires
        is_power_of_two(n),
    ensures
        is_power_of_two(2 * n),
{
    assert((2 * n) / 2 == n);
    reveal_with_fuel(is_power_of_two, 2);
}

/// Doubles `p` while the double does not exceed `v`.
pub open spec fn floor_pow2(p: nat, v: nat) -> nat
    decreases v - p,
{
    if p >= 1 && 2 * p <= v {
        floor_pow2(2 * p, v)
    } else {
        p
    }
}

/// The power of two nearest to `max(value, 1024)`, the smaller one on a tie.
pub open spec fn closest_power_spec(value: nat) -> nat {
    let v = if value >= 1024 { value } else { 1024 };
    let p = floor_pow2(1024, v);
    if v - p <= 2 * p - v {
        p
    } else {
        2 * p
    }
}

/// The power of two nearest to `max(value, 1024)`; on a tie between the two
/// neighbours, the smaller.
pub fn closest_power_of_2_min_1024(value: usize) -> (r: usize)
    requires
        value < usize::MAX / 2,
    ensures
        is_power_of_two(r as nat),
        r >= 1024,
        r == closest_power_spec(value as nat),
        ({
            let v = if value >= 1024 { value as int } else { 1024int };
            &&& r <= v ==> v < 2 * r && v - r <= 2 * r - v
            &&& r > v ==> r / 2 <= v && v - r / 2 > r - v && r % 2 == 0
        }),
{
    let v: usize = if value >= 1024 { value } else { 1024 };
    let mut p: usize = 1024;
    proof {
        reveal_with_fuel(is_power_of_two, 11);
    }
    while p <= v / 2
        invariant
            1024 <= p <= v,
            v < usize::MAX / 2,
            is_power_of_two(p as nat),
            p % 2 == 0,
            floor_pow2(p as nat, v as nat) == floor_pow2(1024, v as nat),
        decreases v - p,
    {
        proof {
            lemma_double_power_of_two(p as nat);
        }
        p = p * 2;
    }
    if v - p <= p - (v - p) {
        p
    } else {
        proof {
            lemma_double_power_of_two(p as nat);
        }
        p * 2
    }
}

/// The smallest power of two that is at least `max(value, 256)`.
pub fn next_power_of_2_min_256(value: usize) -> (r: usize)
    requires
        value < usize::MAX / 2,
    ensures
        is_power_of_two(r as nat),
        r >= 256,
        r >= value,
        r % 256 == 0,
        r == 256 || r / 2 < value,
{
    let v: usize = if value >= 256 { value } else { 256 };
    let mut p: usize = 256;
    proof {
        reveal_with_fuel(is_power_of_two, 9);
    }
    while p < v
        invariant
            256 <= p,
            p == 256 || p / 2 < v,
            v < usize::MAX / 2,
            v >= 256,
            v >= value,
            is_power_of_two(p as nat),
            p % 256 == 0,
            p <= 2 * v,
        decreases 2 * v - p,
    {
        proof {
            lemma_double_power_of_two(p as nat);
        }
        p = p * 2;
    }
    p
}

} // verus!
