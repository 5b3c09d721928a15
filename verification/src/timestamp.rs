//! Millisecond timestamps: the client-generated session identifier echoed
//! during the handshake. Serialized as eight big-endian bytes.
//!
//! The runtime never samples a clock itself: the host passes the current
//! time in as a plain millisecond count.

use vstd::prelude::*;
use crate::wire::{lemma_u64_be_round_trip, read_u64_be, spec_u64_be, spec_u64_from_be, write_u64_be};

verus! {

/// A millisecond count since a fixed epoch. Equality is byte-exact.
#[derive(Clone, Copy, PartialEq, Eq, Structural, Debug)]
pub struct Timestamp {
    /// Milliseconds since the epoch.
    pub ms: u64,
}

impl Timestamp {
    /// Builds a timestamp from a millisecond count supplied by the host.
    pub fn from_ms(ms: u64) -> (t: Timestamp)
        ensures
            t.ms == ms,
    {
        Timestamp { ms }
    }

    /// Appends the eight big-endian bytes of this timestamp to `out`.
    pub fn write(&self, out: &mut Vec<u8>)
        ensures
            final(out)@ == old(out)@ + spec_u64_be(self.ms),
    {
        write_u64_be(out, self.ms);
    }

    /// Reads a timestamp from the first eight bytes of `data`; shorter
    /// input yields `None`.
    pub fn read(data: &[u8]) -> (r: Option<Timestamp>)
        ensures
            r == if data@.len() >= 8 {
                Some(Timestamp { ms: spec_u64_from_be(data@.subrange(0, 8)) })
            } else {
                None::<Timestamp>
            },
    {
        if data.len() < 8 {
            return None;
        }
        Some(Timestamp { ms: read_u64_be(data, 0) })
    }
}

/// Timestamp round trip: reading back the written bytes yields the same
/// timestamp, whatever follows them.
pub proof fn lemma_timestamp_round_trip(t: Timestamp, rest: Seq<u8>)
    ensures
        (spec_u64_be(t.ms) + rest).len() >= 8,
        spec_u64_from_be((spec_u64_be(t.ms) + rest).subrange(0, 8)) == t.ms,
{
    assert((spec_u64_be(t.ms) + rest).subrange(0, 8) =~= spec_u64_be(t.ms));
    lemma_u64_be_round_trip(t.ms);
}

} // verus!
