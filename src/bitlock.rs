//! A 64-bit word used as a spin lock for many readers and one writer. Bit 0
//! is the writer's flag; each of bits 1 to 63 is held by at most one reader.
use std::sync::atomic::{AtomicU64, Ordering};
use vstd::prelude::*;

verus! {

pub const WRITER_BIT: u64 = 1;

/// The highest of bits 1 to `b` that is clear in `state`, as a mask.
pub open spec fn highest_zero_bit(state: u64, b: nat) -> Option<u64>
    decreases b,
{
    if b == 0 || b > 63 {
        None
    } else if state & (1u64 << (b as u64)) == 0 {
        Some(1u64 << (b as u64))
    } else {
        highest_zero_bit(state, (b - 1) as nat)
    }
}

/// A reader may enter when no writer flag is set and some reader bit is free;
/// it takes the highest free bit as its token.
pub open spec fn read_acquire_spec(state: u64) -> Option<(u64, u64)> {
    if state & WRITER_BIT != 0 {
        None
    } else {
        match highest_zero_bit(state, 63) {
            Some(t) => Some((state | t, t)),
            None => None,
        }
    }
}

/// A writer may raise its flag when no other writer holds it.
pub open spec fn write_acquire_spec(state: u64) -> Option<u64> {
    if state & WRITER_BIT != 0 {
        None
    } else {
        Some(state | WRITER_BIT)
    }
}

/// A raised writer flag owns the data once every reader has left.
pub open spec fn writer_owns(state: u64) -> bool {
    state == WRITER_BIT
}

/// A reader token is one of bits 1 to 63.
pub open spec fn is_reader_token(t: u64) -> bool {
    exists|b: u64| 1 <= b <= 63 && t == 1u64 << b
}

proof fn lemma_highest_zero_bit_token(state: u64, b: nat)
    ensures
        highest_zero_bit(state, b) matches Some(t) ==> is_reader_token(t) && state & t == 0,
    decreases b,
{
    if b == 0 || b > 63 {
    } else if state & (1u64 << (b as u64)) == 0 {
        let bb = b as u64;
        assert(1 <= bb <= 63);
    } else {
        lemma_highest_zero_bit_token(state, (b - 1) as nat);
    }
}

/// The new state and the token of a reader that enters from `state`.
pub fn read_acquire_state(state: u64) -> (r: Option<(u64, u64)>)
    ensures
        r == read_acquire_spec(state),
{
    if state & WRITER_BIT != 0 {
        return None;
    }
    let mut b: u64 = 63;
    while b >= 1
        invariant
            b <= 63,
            state & WRITER_BIT == 0,
            highest_zero_bit(state, 63) == highest_zero_bit(state, b as nat),
        decreases b,
    {
        let t: u64 = 1u64 << b;
        if state & t == 0 {
            return Some((state | t, t));
        }
        b = b - 1;
    }
    None
}

/// The state after the reader holding `token` leaves.
pub fn read_release_state(state: u64, token: u64) -> (r: u64)
    ensures
        r == state & !token,
{
    state & !token
}

/// The state after a writer raises its flag, if it may.
pub fn write_acquire_state(state: u64) -> (r: Option<u64>)
    ensures
        r == write_acquire_spec(state),
{
    if state & WRITER_BIT != 0 {
        None
    } else {
        Some(state | WRITER_BIT)
    }
}

/// Whether a raised writer flag owns the data in `state`.
pub fn writer_owns_state(state: u64) -> (r: bool)
    ensures
        r == writer_owns(state),
{
    state == WRITER_BIT
}

/// The state after the writer lowers its flag.
pub fn write_release_state(state: u64) -> (r: u64)
    ensures
        r == state & !WRITER_BIT,
{
    state & !WRITER_BIT
}

/// Readers and the writer exclude each other: no reader enters while the
/// writer flag is up, a reader that enters leaves the flag down and holds a
/// reader bit, a writer cannot raise a second flag, and the writer owns the
/// data only when no reader bit is set.
pub proof fn lemma_bitlock_exclusion(state: u64)
    ensures
        state & WRITER_BIT != 0 ==> read_acquire_spec(state) is None,
        state & WRITER_BIT != 0 ==> write_acquire_spec(state) is None,
        read_acquire_spec(state) matches Some((ns, t)) ==> (ns & WRITER_BIT == 0 && ns & t == t
            && state & t == 0 && is_reader_token(t) && !writer_owns(ns)),
        writer_owns(state) ==> state & !WRITER_BIT == 0,
        state & !WRITER_BIT != 0 && state & WRITER_BIT == 0 ==> !writer_owns(state | WRITER_BIT),
{
    lemma_highest_zero_bit_token(state, 63);
    if let Some((ns, t)) = read_acquire_spec(state) {
        let b = choose|b: u64| 1 <= b <= 63 && t == 1u64 << b;
        assert(ns & WRITER_BIT == 0 && ns & t == t && ns != 1) by (bit_vector)
            requires
                state & 1 == 0,
                1 <= b <= 63,
                t == 1u64 << b,
                ns == state | t,
        ;
    }
    assert(state == 1 ==> state & !1u64 == 0) by (bit_vector);
    assert(state & !1u64 != 0 ==> (state & 1 == 0 ==> (state | 1) != 1)) by (bit_vector);
}

/// The lock word.
pub struct BitLock {
    state: AtomicU64,
}

impl BitLock {
    pub fn new() -> (r: Self) {
        BitLock { state: AtomicU64::new(0) }
    }

    /// One attempt to enter as a reader; the token to leave with on success.
    pub fn try_read(&self) -> (r: Option<u64>)
        ensures
            r matches Some(t) ==> is_reader_token(t),
    {
        let current = self.state.load(Ordering::Acquire);
        match read_acquire_state(current) {
            None => None,
            Some((next, token)) => {
                proof {
                    lemma_highest_zero_bit_token(current, 63);
                }
                match self.state.compare_exchange_weak(
                    current,
                    next,
                    Ordering::Acquire,
                    Ordering::Relaxed,
                ) {
                    Ok(_) => Some(token),
                    Err(_) => None,
                }
            },
        }
    }

    /// Leaves as the reader holding `token`.
    pub fn release_read(&self, token: u64) {
        self.state.fetch_and(!token, Ordering::Release);
    }

    /// One attempt to raise the writer flag.
    pub fn try_write(&self) -> (r: bool) {
        let current = self.state.load(Ordering::Relaxed);
        match write_acquire_state(current) {
            None => false,
            Some(next) => match self.state.compare_exchange_weak(
                current,
                next,
                Ordering::Acquire,
                Ordering::Relaxed,
            ) {
                Ok(_) => true,
                Err(_) => false,
            },
        }
    }

    /// Whether the raised writer flag now owns the data.
    pub fn writer_owns(&self) -> (r: bool) {
        writer_owns_state(self.state.load(Ordering::Acquire))
    }

    /// Lowers the writer flag.
    pub fn release_write(&self) {
        self.state.fetch_and(!WRITER_BIT, Ordering::Release);
    }
}

} // verus!
