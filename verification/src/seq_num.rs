//! 16-bit packet sequence numbers with modular ("wraparound") ordering.
//!
//! A sequence number `a` is newer than `b` iff `(a - b) mod 2^16` lies in
//! the open interval `(0, 2^15)`. All "is newer" and "is in window"
//! decisions of the protocol use this ordering.

use vstd::prelude::*;

verus! {

/// A packet sequence number.
pub type SequenceNumber = u16;

/// The modulus of the sequence space.
pub const SEQUENCE_MODULUS: u32 = 0x10000;

/// Half the sequence space: the width of the comparison window.
pub const SEQUENCE_HALF: u32 = 0x8000;

/// Distance from `b` forward to `a` in the circular sequence space.
pub open spec fn seq_distance(a: u16, b: u16) -> int {
    (a - b) % (SEQUENCE_MODULUS as int)
}

/// `a` is newer than `b` under modular comparison: the forward distance
/// from `b` to `a` is in the open interval `(0, 2^15)`.
pub open spec fn seq_newer(a: u16, b: u16) -> bool {
    0 < seq_distance(a, b) < SEQUENCE_HALF as int
}

/// The sequence number following `s`, wrapping at 2^16.
pub open spec fn seq_next(s: u16) -> u16 {
    if s == 0xffff {
        0
    } else {
        (s + 1) as u16
    }
}

/// Computes the forward distance from `b` to `a` in the sequence space.
pub fn sequence_distance(a: u16, b: u16) -> (d: u32)
    ensures
        d == seq_distance(a, b),
        d < SEQUENCE_MODULUS,
{
    if a >= b {
        (a - b) as u32
    } else {
        proof {
            assert((a - b) % 0x10000 == a + 0x10000 - b) by (nonlinear_arith)
                requires
                    0 <= a < b < 0x10000,
            ;
        }
        (a as u32 + SEQUENCE_MODULUS) - b as u32
    }
}

/// Decides whether `a` is newer than `b` under modular comparison.
pub fn sequence_greater_than(a: u16, b: u16) -> (r: bool)
    ensures
        r == seq_newer(a, b),
{
    let d = sequence_distance(a, b);
    0 < d && d < SEQUENCE_HALF
}

/// Increments a sequence number, wrapping at 2^16.
pub fn next_sequence(s: u16) -> (n: u16)
    ensures
        n == seq_next(s),
        seq_newer(n, s),
{
    proof {
        assert(seq_distance(seq_next(s), s) == 1) by (nonlinear_arith)
            requires
                0 <= s < 0x10000,
        ;
    }
    if s == 0xffff {
        0
    } else {
        s + 1
    }
}

/// The sequence number `k` positions before `a` in the circular space.
pub open spec fn spec_seq_sub(a: u16, k: u16) -> u16 {
    (((a - k) % (SEQUENCE_MODULUS as int))) as u16
}

/// Computes the sequence number `k` positions before `a`; the forward
/// distance from the result back to `a` is exactly `k`.
pub fn sequence_sub(a: u16, k: u16) -> (r: u16)
    ensures
        r == spec_seq_sub(a, k),
        seq_distance(a, r) == k,
{
    proof {
        let rr = spec_seq_sub(a, k);
        assert((a - k) % 0x10000 == if a >= k {
            a - k
        } else {
            a + 0x10000 - k
        }) by (nonlinear_arith)
            requires
                0 <= a < 0x10000,
                0 <= k < 0x10000,
        ;
        assert((a - rr) % 0x10000 == k) by (nonlinear_arith)
            requires
                0 <= a < 0x10000,
                0 <= k < 0x10000,
                rr == (a - k) % 0x10000,
        ;
    }
    if a >= k {
        a - k
    } else {
        ((a as u32 + SEQUENCE_MODULUS) - k as u32) as u16
    }
}

/// Stepping forward by fewer than 2^15 positions always yields a strictly
/// newer sequence number, so outgoing sequence numbers form an increasing
/// chain with no repeats inside a 2^15 window.
pub proof fn lemma_sequence_monotonic(s: u16, k: int)
    requires
        0 < k < SEQUENCE_HALF as int,
    ensures
        seq_newer((((s + k) % (SEQUENCE_MODULUS as int)) as u16), s),
{
    let n = ((s + k) % (SEQUENCE_MODULUS as int)) as u16;
    assert((n - s) % 0x10000 == k) by (nonlinear_arith)
        requires
            0 <= s < 0x10000,
            0 < k < 0x8000,
            n == (s + k) % 0x10000,
    ;
}

/// Newness is irreflexive and asymmetric: a number is never newer than
/// itself, and two numbers are never each newer than the other.
pub proof fn lemma_newer_asymmetric(a: u16, b: u16)
    ensures
        !seq_newer(a, a),
        !(seq_newer(a, b) && seq_newer(b, a)),
{
    assert((a - a) % 0x10000 == 0);
    if a != b {
        assert((a - b) % 0x10000 + (b - a) % 0x10000 == 0x10000) by (nonlinear_arith)
            requires
                0 <= a < 0x10000,
                0 <= b < 0x10000,
                a != b,
        ;
    }
}

} // verus!
