//! The fixed packet header: type, local sequence, remote ack, ack bitfield.
//!
//! Sequenced packets (data, heartbeat, ping, pong) carry a 9-byte header;
//! connectionless handshake frames carry only the 1-byte packet type.

use vstd::prelude::*;
use crate::packet_type::{
    PacketType, lemma_packet_type_round_trip, packet_type_from_u8, packet_type_to_u8,
    spec_packet_type_from_u8, spec_packet_type_to_u8,
};
use crate::wire::{
    lemma_u16_be_round_trip, lemma_u32_be_round_trip, read_u16_be, read_u32_be, spec_u16_be,
    spec_u16_from_be, spec_u32_be, spec_u32_from_be, write_u16_be, write_u32_be,
};

verus! {

/// Size in bytes of the header of a sequenced packet.
pub const HEADER_SIZE: usize = 9;

/// The header of a sequenced packet.
#[derive(Clone, Copy, PartialEq, Eq, Structural, Debug)]
pub struct PacketHeader {
    /// What kind of packet follows.
    pub packet_type: PacketType,
    /// The sender's sequence number for this packet.
    pub local_seq: u16,
    /// The highest sequence number the sender has observed from the peer.
    pub remote_ack: u16,
    /// Bit `i` set iff `remote_ack - (i + 1)` was also observed.
    pub ack_bitfield: u32,
}

/// The nine header bytes, big-endian fields in order.
pub open spec fn spec_header_bytes(h: PacketHeader) -> Seq<u8> {
    seq![spec_packet_type_to_u8(h.packet_type)] + spec_u16_be(h.local_seq) + spec_u16_be(
        h.remote_ack,
    ) + spec_u32_be(h.ack_bitfield)
}

/// The header read from the first nine bytes of `data`, if they are well
/// formed (long enough, known packet type).
pub open spec fn spec_parse_header(data: Seq<u8>) -> Option<PacketHeader> {
    if data.len() < HEADER_SIZE {
        None
    } else {
        match spec_packet_type_from_u8(data[0]) {
            Some(t) => Some(
                PacketHeader {
                    packet_type: t,
                    local_seq: spec_u16_from_be(data[1], data[2]),
                    remote_ack: spec_u16_from_be(data[3], data[4]),
                    ack_bitfield: spec_u32_from_be(data[5], data[6], data[7], data[8]),
                },
            ),
            None => None,
        }
    }
}

/// Appends the nine header bytes to `out`.
pub fn write_header(out: &mut Vec<u8>, h: &PacketHeader)
    ensures
        final(out)@ == old(out)@ + spec_header_bytes(*h),
{
    out.push(packet_type_to_u8(h.packet_type));
    write_u16_be(out, h.local_seq);
    write_u16_be(out, h.remote_ack);
    write_u32_be(out, h.ack_bitfield);
    proof {
        assert(out@ =~= old(out)@ + spec_header_bytes(*h));
    }
}

/// Parses the header at the front of `data`; malformed input yields `None`.
pub fn parse_header(data: &[u8]) -> (r: Option<PacketHeader>)
    ensures
        r == spec_parse_header(data@),
{
    if data.len() < HEADER_SIZE {
        return None;
    }
    match packet_type_from_u8(data[0]) {
        Some(t) => {
            let local_seq = read_u16_be(data, 1);
            let remote_ack = read_u16_be(data, 3);
            let ack_bitfield = read_u32_be(data, 5);
            Some(PacketHeader { packet_type: t, local_seq, remote_ack, ack_bitfield })
        },
        None => None,
    }
}

/// Header round trip: parsing the encoding of any header, followed by any
/// body, yields exactly that header.
pub proof fn lemma_header_round_trip(h: PacketHeader, body: Seq<u8>)
    ensures
        spec_parse_header(spec_header_bytes(h) + body) == Some(h),
{
    let data = spec_header_bytes(h) + body;
    assert(data.len() >= HEADER_SIZE);
    assert(data[0] == spec_packet_type_to_u8(h.packet_type));
    lemma_packet_type_round_trip(h.packet_type);
    assert(data[1] == spec_u16_be(h.local_seq)[0]);
    assert(data[2] == spec_u16_be(h.local_seq)[1]);
    lemma_u16_be_round_trip(h.local_seq);
    assert(data[3] == spec_u16_be(h.remote_ack)[0]);
    assert(data[4] == spec_u16_be(h.remote_ack)[1]);
    lemma_u16_be_round_trip(h.remote_ack);
    assert(data[5] == spec_u32_be(h.ack_bitfield)[0]);
    assert(data[6] == spec_u32_be(h.ack_bitfield)[1]);
    assert(data[7] == spec_u32_be(h.ack_bitfield)[2]);
    assert(data[8] == spec_u32_be(h.ack_bitfield)[3]);
    lemma_u32_be_round_trip(h.ack_bitfield);
}

/// Frames a connectionless packet: the 1-byte packet type, then the body.
pub fn write_connectionless_payload(packet_type: PacketType, body: &[u8]) -> (out: Vec<u8>)
    ensures
        out@ == seq![spec_packet_type_to_u8(packet_type)] + body@,
{
    let mut out: Vec<u8> = Vec::new();
    out.push(packet_type_to_u8(packet_type));
    let mut i: usize = 0;
    while i < body.len()
        invariant
            i <= body@.len(),
            out@ == seq![spec_packet_type_to_u8(packet_type)] + body@.subrange(0, i as int),
        decreases body@.len() - i,
    {
        out.push(body[i]);
        i = i + 1;
        proof {
            assert(out@ =~= seq![spec_packet_type_to_u8(packet_type)] + body@.subrange(
                0,
                i as int,
            ));
        }
    }
    proof {
        assert(body@.subrange(0, body@.len() as int) =~= body@);
    }
    out
}

} // verus!
