//! Big-endian integer fields of the wire format.

use vstd::prelude::*;

verus! {

/// The two big-endian bytes of a 16-bit value.
pub open spec fn spec_u16_be(v: u16) -> Seq<u8> {
    seq![(v >> 8) as u8, v as u8]
}

/// The 16-bit value read from two big-endian bytes.
pub open spec fn spec_u16_from_be(hi: u8, lo: u8) -> u16 {
    (((hi as u16) << 8) | (lo as u16)) as u16
}

/// The four big-endian bytes of a 32-bit value.
pub open spec fn spec_u32_be(v: u32) -> Seq<u8> {
    seq![(v >> 24) as u8, (v >> 16) as u8, (v >> 8) as u8, v as u8]
}

/// The 32-bit value read from four big-endian bytes.
pub open spec fn spec_u32_from_be(b0: u8, b1: u8, b2: u8, b3: u8) -> u32 {
    (((b0 as u32) << 24) | ((b1 as u32) << 16) | ((b2 as u32) << 8) | (b3 as u32)) as u32
}

/// The eight big-endian bytes of a 64-bit value.
pub open spec fn spec_u64_be(v: u64) -> Seq<u8> {
    seq![
        (v >> 56) as u8,
        (v >> 48) as u8,
        (v >> 40) as u8,
        (v >> 32) as u8,
        (v >> 24) as u8,
        (v >> 16) as u8,
        (v >> 8) as u8,
        v as u8,
    ]
}

/// The 64-bit value read from eight big-endian bytes.
pub open spec fn spec_u64_from_be(b: Seq<u8>) -> u64
    recommends
        b.len() == 8,
{
    (((b[0] as u64) << 56) | ((b[1] as u64) << 48) | ((b[2] as u64) << 40) | ((b[3] as u64) << 32)
        | ((b[4] as u64) << 24) | ((b[5] as u64) << 16) | ((b[6] as u64) << 8) | (b[7] as u64)) as u64
}

/// Reading back the big-endian bytes of a 16-bit value yields the value.
pub proof fn lemma_u16_be_round_trip(v: u16)
    ensures
        spec_u16_from_be(spec_u16_be(v)[0], spec_u16_be(v)[1]) == v,
{
    assert((((((v >> 8) as u8) as u16) << 8) | ((v as u8) as u16)) as u16 == v) by (bit_vector);
}

/// Reading back the big-endian bytes of a 32-bit value yields the value.
pub proof fn lemma_u32_be_round_trip(v: u32)
    ensures
        spec_u32_from_be(
            spec_u32_be(v)[0],
            spec_u32_be(v)[1],
            spec_u32_be(v)[2],
            spec_u32_be(v)[3],
        ) == v,
{
    assert(((((((v >> 24) as u8) as u32) << 24) | ((((v >> 16) as u8) as u32) << 16) | ((((v
        >> 8) as u8) as u32) << 8) | ((v as u8) as u32)) as u32) == v) by (bit_vector);
}

/// Reading back the big-endian bytes of a 64-bit value yields the value.
pub proof fn lemma_u64_be_round_trip(v: u64)
    ensures
        spec_u64_from_be(spec_u64_be(v)) == v,
{
    let b = spec_u64_be(v);
    assert(((((((v >> 56) as u8) as u64) << 56) | ((((v >> 48) as u8) as u64) << 48) | ((((v
        >> 40) as u8) as u64) << 40) | ((((v >> 32) as u8) as u64) << 32) | ((((v
        >> 24) as u8) as u64) << 24) | ((((v >> 16) as u8) as u64) << 16) | ((((v
        >> 8) as u8) as u64) << 8) | ((v as u8) as u64)) as u64) == v) by (bit_vector);
    assert(b[0] == (v >> 56) as u8);
}

/// Appends the two big-endian bytes of `v` to `out`.
pub fn write_u16_be(out: &mut Vec<u8>, v: u16)
    ensures
        final(out)@ == old(out)@ + spec_u16_be(v),
{
    let hi = (v >> 8) as u8;
    let lo = (v & 0xff) as u8;
    proof {
        assert((v & 0xff) as u8 == v as u8) by (bit_vector);
    }
    out.push(hi);
    out.push(lo);
    proof {
        assert(out@ =~= old(out)@ + spec_u16_be(v));
    }
}

/// Reads a 16-bit value from the two big-endian bytes at `at`.
pub fn read_u16_be(data: &[u8], at: usize) -> (v: u16)
    requires
        at + 2 <= data@.len(),
    ensures
        v == spec_u16_from_be(data@[at as int], data@[at as int + 1]),
{
    let hi = data[at];
    let lo = data[at + 1];
    ((hi as u16) << 8) | (lo as u16)
}

/// Appends the four big-endian bytes of `v` to `out`.
pub fn write_u32_be(out: &mut Vec<u8>, v: u32)
    ensures
        final(out)@ == old(out)@ + spec_u32_be(v),
{
    out.push((v >> 24) as u8);
    out.push((v >> 16) as u8);
    out.push((v >> 8) as u8);
    out.push(v as u8);
    proof {
        assert(out@ =~= old(out)@ + spec_u32_be(v));
    }
}

/// Reads a 32-bit value from the four big-endian bytes at `at`.
pub fn read_u32_be(data: &[u8], at: usize) -> (v: u32)
    requires
        at + 4 <= data@.len(),
    ensures
        v == spec_u32_from_be(
            data@[at as int],
            data@[at as int + 1],
            data@[at as int + 2],
            data@[at as int + 3],
        ),
{
    let b0 = data[at];
    let b1 = data[at + 1];
    let b2 = data[at + 2];
    let b3 = data[at + 3];
    ((b0 as u32) << 24) | ((b1 as u32) << 16) | ((b2 as u32) << 8) | (b3 as u32)
}

/// Appends the eight big-endian bytes of `v` to `out`.
pub fn write_u64_be(out: &mut Vec<u8>, v: u64)
    ensures
        final(out)@ == old(out)@ + spec_u64_be(v),
{
    out.push((v >> 56) as u8);
    out.push((v >> 48) as u8);
    out.push((v >> 40) as u8);
    out.push((v >> 32) as u8);
    out.push((v >> 24) as u8);
    out.push((v >> 16) as u8);
    out.push((v >> 8) as u8);
    out.push(v as u8);
    proof {
        assert(out@ =~= old(out)@ + spec_u64_be(v));
    }
}

/// Reads a 64-bit value from the eight big-endian bytes at `at`.
pub fn read_u64_be(data: &[u8], at: usize) -> (v: u64)
    requires
        at + 8 <= data@.len(),
    ensures
        v == spec_u64_from_be(data@.subrange(at as int, at as int + 8)),
{
    let ghost b = data@.subrange(at as int, at as int + 8);
    let r = (((data[at] as u64) << 56) | ((data[at + 1] as u64) << 48) | ((data[at + 2] as u64)
        << 40) | ((data[at + 3] as u64) << 32) | ((data[at + 4] as u64) << 24) | ((data[at
        + 5] as u64) << 16) | ((data[at + 6] as u64) << 8) | (data[at + 7] as u64));
    proof {
        assert(b[0] == data@[at as int]);
        assert(b[1] == data@[at as int + 1]);
        assert(b[2] == data@[at as int + 2]);
        assert(b[3] == data@[at as int + 3]);
        assert(b[4] == data@[at as int + 4]);
        assert(b[5] == data@[at as int + 5]);
        assert(b[6] == data@[at as int + 6]);
        assert(b[7] == data@[at as int + 7]);
    }
    r
}

} // verus!
