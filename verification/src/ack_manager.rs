//! Sequencing and acknowledgement: assigns outgoing sequence numbers,
//! frames headers, digests the peer's ack fields, and reports which sent
//! packets were newly delivered and which have been lost.
//!
//! A sent packet is "outstanding" while a record for it sits in the sent
//! ring. An incoming header acknowledges the 33 sequences ending at its
//! `remote_ack`; an outstanding sequence more than 32 behind `remote_ack`
//! has fallen out of the window and is declared lost. Either way the
//! record is resolved and removed, so each packet is reported at most once.

use vstd::prelude::*;
use crate::header::{HEADER_SIZE, PacketHeader, parse_header, spec_header_bytes, spec_parse_header, write_header};
use crate::packet_type::PacketType;
use crate::seq_num::{
    next_sequence, seq_distance, seq_newer, seq_next, sequence_distance, sequence_greater_than,
    sequence_sub, spec_seq_sub, SEQUENCE_HALF,
};
use crate::sequence_buffer::{BUFFER_CAPACITY, SequenceBuffer};
use crate::state_mask::spec_bit;

verus! {

/// Width of the acknowledgement window: `remote_ack` itself plus the 32
/// bitfield positions behind it.
pub const ACK_WINDOW: u16 = 33;

/// Whether the header fields `(remote_ack, ack_bitfield)` acknowledge
/// sequence `s`.
pub open spec fn spec_header_acks(remote_ack: u16, ack_bitfield: u32, s: u16) -> bool {
    let d = seq_distance(remote_ack, s);
    d == 0 || (1 <= d <= 32 && spec_bit(ack_bitfield, (d - 1) as u8))
}

/// Whether sequence `s` has fallen out of the acknowledgement window of a
/// header whose highest acknowledged sequence is `remote_ack`.
pub open spec fn spec_out_of_window(remote_ack: u16, s: u16) -> bool {
    ACK_WINDOW as int <= seq_distance(remote_ack, s) < SEQUENCE_HALF as int
}

/// The receive-side ack bitfield after observing a sequence `d` positions
/// newer than the previous `remote_seq`: old bits shift back by `d` and
/// the previous `remote_seq` itself enters at position `d - 1`.
pub open spec fn spec_shift_bits(bits: u32, d: int) -> u32 {
    if d > 32 {
        0u32
    } else if d == 32 {
        1u32 << 31
    } else {
        ((bits << (d as u32)) | (1u32 << ((d - 1) as u32))) as u32
    }
}

/// The receive-side ack state `(remote_seq, remote_ack_bits)` after a
/// packet with sequence `incoming` arrives.
pub open spec fn spec_receive_update(remote_seq: u16, bits: u32, incoming: u16) -> (u16, u32) {
    if seq_newer(incoming, remote_seq) {
        (incoming, spec_shift_bits(bits, seq_distance(incoming, remote_seq)))
    } else {
        let d = seq_distance(remote_seq, incoming);
        if 1 <= d <= 32 {
            (remote_seq, (bits | (1u32 << ((d - 1) as u32))) as u32)
        } else {
            (remote_seq, bits)
        }
    }
}

/// The acknowledgement bookkeeping of one connection.
pub struct AckManager {
    local_seq: u16,
    remote_seq: u16,
    remote_ack_bits: u32,
    sent_records: SequenceBuffer<()>,
}

impl AckManager {
    /// The sequence number the next outgoing packet will carry.
    pub closed spec fn local_sequence(self) -> u16 {
        self.local_seq
    }

    /// The highest sequence observed from the peer.
    pub closed spec fn remote_sequence(self) -> u16 {
        self.remote_seq
    }

    /// Bit `i` set iff `remote_sequence - (i + 1)` was also observed.
    pub closed spec fn remote_bits(self) -> u32 {
        self.remote_ack_bits
    }

    /// Whether packet `s` was sent and is still unresolved (neither
    /// acknowledged nor declared lost, and not yet evicted from the ring).
    pub closed spec fn outstanding(self, s: u16) -> bool {
        self.sent_records.spec_get(s) is Some
    }

    /// The sent ring is well formed.
    pub closed spec fn wf(self) -> bool {
        self.sent_records.wf()
    }

    /// A fresh manager: next outgoing sequence 0, nothing observed yet.
    /// `remote_seq` starts one behind sequence 0, so a peer that has heard
    /// nothing acknowledges only the unused sequence 0xffff.
    pub fn new() -> (m: AckManager)
        ensures
            m.wf(),
            m.local_sequence() == 0,
            m.remote_sequence() == 0xffff,
            m.remote_bits() == 0,
            forall|s: u16| !m.outstanding(s),
    {
        AckManager {
            local_seq: 0,
            remote_seq: 0xffff,
            remote_ack_bits: 0,
            sent_records: SequenceBuffer::new(),
        }
    }

    /// The sequence number the next outgoing packet will be assigned.
    pub fn local_sequence_num(&self) -> (s: u16)
        ensures
            s == self.local_sequence(),
    {
        self.local_seq
    }

    /// Frames an outgoing packet: header with this packet's sequence
    /// number and the current ack view, then the body. The sequence
    /// advances by one, so consecutive packets carry strictly increasing
    /// sequence numbers modulo 2^16, and the new packet becomes
    /// outstanding.
    pub fn process_outgoing(&mut self, packet_type: PacketType, body: &[u8]) -> (r: Vec<u8>)
        requires
            old(self).wf(),
        ensures
            final(self).wf(),
            r@ == spec_header_bytes(
                PacketHeader {
                    packet_type,
                    local_seq: old(self).local_sequence(),
                    remote_ack: old(self).remote_sequence(),
                    ack_bitfield: old(self).remote_bits(),
                },
            ) + body@,
            final(self).local_sequence() == seq_next(old(self).local_sequence()),
            seq_newer(final(self).local_sequence(), old(self).local_sequence()),
            final(self).remote_sequence() == old(self).remote_sequence(),
            final(self).remote_bits() == old(self).remote_bits(),
            final(self).outstanding(old(self).local_sequence()),
            // Only the assigned sequence and its ring slot are touched.
            forall|s: u16|
                (s != old(self).local_sequence()
                    && (s as int % BUFFER_CAPACITY as int)
                    != (old(self).local_sequence() as int % BUFFER_CAPACITY as int))
                    ==> ((#[trigger] final(self).outstanding(s)) == old(self).outstanding(s)),
    {
        let header = PacketHeader {
            packet_type,
            local_seq: self.local_seq,
            remote_ack: self.remote_seq,
            ack_bitfield: self.remote_ack_bits,
        };
        let mut out: Vec<u8> = Vec::new();
        write_header(&mut out, &header);
        let mut i: usize = 0;
        while i < body.len()
            invariant
                i <= body@.len(),
                out@ == spec_header_bytes(header) + body@.subrange(0, i as int),
            decreases body@.len() - i,
        {
            out.push(body[i]);
            i = i + 1;
            proof {
                assert(out@ =~= spec_header_bytes(header) + body@.subrange(0, i as int));
            }
        }
        proof {
            assert(body@.subrange(0, body@.len() as int) =~= body@);
        }
        self.sent_records.insert(self.local_seq, ());
        self.local_seq = next_sequence(self.local_seq);
        out
    }

    /// Digests an incoming sequenced packet. Returns the body without its
    /// header, the sequences newly acknowledged by the header's ack
    /// fields, and the outstanding sequences that have now fallen out of
    /// the acknowledgement window; each resolved packet leaves the sent
    /// ring, so no sequence is ever reported twice. A frame too short for
    /// a header or with an unknown packet type is rejected.
    #[verifier::loop_isolation(false)]
    #[verifier::rlimit(100)]
    pub fn process_incoming(&mut self, payload: &[u8]) -> (r: Option<
        (PacketHeader, Vec<u8>, Vec<u16>, Vec<u16>),
    >)
        requires
            old(self).wf(),
        ensures
            final(self).wf(),
            final(self).local_sequence() == old(self).local_sequence(),
            r is Some <==> spec_parse_header(payload@) is Some,
            r is None ==> *final(self) == *old(self),
            r matches Some((h, body, acked, lost)) ==> {
                &&& Some(h) == spec_parse_header(payload@)
                &&& body@ == payload@.subrange(HEADER_SIZE as int, payload@.len() as int)
                &&& (final(self).remote_sequence(), final(self).remote_bits())
                    == spec_receive_update(
                    old(self).remote_sequence(),
                    old(self).remote_bits(),
                    h.local_seq,
                )
                // Soundness: every reported sequence was outstanding and is
                // reported for the right reason.
                &&& forall|j: int|
                    0 <= j < acked@.len() ==> old(self).outstanding(#[trigger] acked@[j])
                        && spec_header_acks(h.remote_ack, h.ack_bitfield, acked@[j])
                &&& forall|j: int|
                    0 <= j < lost@.len() ==> old(self).outstanding(#[trigger] lost@[j])
                        && spec_out_of_window(h.remote_ack, lost@[j])
                // Completeness: every outstanding sequence the header
                // acknowledges is reported delivered, and every outstanding
                // sequence out of the window is reported lost.
                &&& forall|s: u16|
                    old(self).outstanding(s) && spec_header_acks(h.remote_ack, h.ack_bitfield, s)
                        ==> acked@.contains(s)
                &&& forall|s: u16|
                    old(self).outstanding(s) && spec_out_of_window(h.remote_ack, s)
                        ==> lost@.contains(s)
                // Resolved packets leave the ring; unresolved ones stay.
                &&& forall|s: u16|
                    (#[trigger] final(self).outstanding(s)) == (old(self).outstanding(s)
                        && !spec_header_acks(h.remote_ack, h.ack_bitfield, s)
                        && !spec_out_of_window(h.remote_ack, s))
            },
    {
        let header = match parse_header(payload) {
            Some(h) => h,
            None => {
                return None;
            },
        };
        // Copy the body after the header.
        let mut body: Vec<u8> = Vec::new();
        let mut i: usize = HEADER_SIZE;
        while i < payload.len()
            invariant
                HEADER_SIZE <= i <= payload@.len(),
                body@ == payload@.subrange(HEADER_SIZE as int, i as int),
            decreases payload@.len() - i,
        {
            body.push(payload[i]);
            i = i + 1;
            proof {
                assert(body@ =~= payload@.subrange(HEADER_SIZE as int, i as int));
            }
        }

        // Fold the incoming sequence into the receive-side ack view.
        if sequence_greater_than(header.local_seq, self.remote_seq) {
            let d = sequence_distance(header.local_seq, self.remote_seq);
            let shifted: u32 = if d > 32 {
                0
            } else if d == 32 {
                1u32 << 31
            } else {
                (self.remote_ack_bits << d) | (1u32 << (d - 1))
            };
            self.remote_ack_bits = shifted;
            self.remote_seq = header.local_seq;
        } else {
            let d = sequence_distance(self.remote_seq, header.local_seq);
            if 1 <= d && d <= 32 {
                self.remote_ack_bits = self.remote_ack_bits | (1u32 << (d - 1));
            }
        }

        let ghost rs = self.remote_seq;
        let ghost rb = self.remote_ack_bits;
        proof {
            assert((rs, rb) == spec_receive_update(
                old(self).remote_seq,
                old(self).remote_ack_bits,
                header.local_seq,
            ));
        }

        // Resolve deliveries: the header acknowledges remote_ack itself and
        // every set bit position behind it.
        let mut acked: Vec<u16> = Vec::new();
        let mut k: u16 = 0;
        while k < ACK_WINDOW
            invariant
                k <= ACK_WINDOW,
                self.sent_records.wf(),
                self.local_seq == old(self).local_seq,
                self.remote_seq == rs,
                self.remote_ack_bits == rb,
                forall|s: u16|
                    (#[trigger] self.sent_records.spec_get(s) is Some)
                    == (old(self).outstanding(s)
                        && !(seq_distance(header.remote_ack, s) < k as int
                        && spec_header_acks(header.remote_ack, header.ack_bitfield, s))),
                forall|j: int|
                    0 <= j < acked@.len() ==> old(self).outstanding(#[trigger] acked@[j])
                        && spec_header_acks(header.remote_ack, header.ack_bitfield, acked@[j]),
                forall|s: u16|
                    old(self).outstanding(s) && seq_distance(header.remote_ack, s) < k as int
                        && spec_header_acks(header.remote_ack, header.ack_bitfield, s)
                        ==> acked@.contains(s),
            decreases ACK_WINDOW - k,
        {
            let ghost acked_pre = acked@;
            let s = sequence_sub(header.remote_ack, k);
            let acked_by_header = if k == 0 {
                true
            } else {
                header.ack_bitfield & (1u32 << ((k - 1) as u32)) != 0
            };
            proof {
                if k > 0 {
                    assert(spec_bit(header.ack_bitfield, (k - 1) as u8) == (header.ack_bitfield & (
                    1u32 << ((k - 1) as u32)) != 0));
                }
            }
            if acked_by_header {
                let present = self.sent_records.get(s).is_some();
                if present {
                    self.sent_records.remove(s);
                    acked.push(s);
                }
            }
            k = k + 1;
            proof {
                assert forall|s2: u16|
                    old(self).outstanding(s2) && seq_distance(header.remote_ack, s2) < k as int
                        && spec_header_acks(header.remote_ack, header.ack_bitfield, s2)
                        implies acked@.contains(s2) by {
                    if seq_distance(header.remote_ack, s2) < k as int - 1 {
                        let w = choose|w: int|
                            0 <= w < acked_pre.len() && acked_pre[w] == s2;
                        assert(acked@[w] == s2);
                    } else {
                        assert(s2 == spec_seq_sub(header.remote_ack, (k - 1) as u16))
                            by (nonlinear_arith)
                            requires
                                0 <= s2 < 0x10000,
                                0 <= header.remote_ack < 0x10000,
                                0 <= k - 1 < 0x10000,
                                (header.remote_ack - s2) % 0x10000 == k - 1,
                        ;
                        assert(acked@.last() == s2);
                    }
                }
                assert forall|s2: u16|
                    (#[trigger] self.sent_records.spec_get(s2) is Some)
                    == (old(self).outstanding(s2)
                        && !(seq_distance(header.remote_ack, s2) < k as int
                        && spec_header_acks(header.remote_ack, header.ack_bitfield, s2))) by {
                    if seq_distance(header.remote_ack, s2) == k - 1 {
                        assert(s2 == spec_seq_sub(header.remote_ack, (k - 1) as u16))
                            by (nonlinear_arith)
                            requires
                                0 <= s2 < 0x10000,
                                0 <= header.remote_ack < 0x10000,
                                0 <= k - 1 < 0x10000,
                                (header.remote_ack - s2) % 0x10000 == k - 1,
                        ;
                    }
                }
            }
        }

        // Declare losses: outstanding sequences more than 32 behind the
        // header's remote_ack have fallen out of the window.
        let mut lost: Vec<u16> = Vec::new();
        let ghost mid = *self;
        let mut idx: usize = 0;
        while idx < BUFFER_CAPACITY
            invariant
                idx <= BUFFER_CAPACITY,
                self.sent_records.wf(),
                self.local_seq == mid.local_seq,
                self.remote_seq == mid.remote_seq,
                self.remote_ack_bits == mid.remote_ack_bits,
                forall|j: int|
                    idx as int <= j < BUFFER_CAPACITY as int ==> #[trigger] self.sent_records.slots()[j]
                        == mid.sent_records.slots()[j],
                forall|s: u16|
                    (#[trigger] self.sent_records.spec_get(s) is Some) == (
                    mid.sent_records.spec_get(s) is Some && !((s as int % BUFFER_CAPACITY as int)
                        < idx as int && spec_out_of_window(header.remote_ack, s))),
                forall|j: int|
                    0 <= j < lost@.len() ==> mid.sent_records.spec_get(#[trigger] lost@[j]) is Some
                        && spec_out_of_window(header.remote_ack, lost@[j]),
                forall|s: u16|
                    mid.sent_records.spec_get(s) is Some && (s as int % BUFFER_CAPACITY as int)
                        < idx as int && spec_out_of_window(header.remote_ack, s)
                        ==> lost@.contains(s),
            decreases BUFFER_CAPACITY - idx,
        {
            let ghost lost_pre = lost@;
            let ghost slot_pre = self.sent_records.slots()[idx as int];
            let entry = match self.sent_records.slot(idx) {
                Some((s, _)) => Some(*s),
                None => None,
            };
            match entry {
                Some(s) => {
                    let d = sequence_distance(header.remote_ack, s);
                    if ACK_WINDOW as u32 <= d && d < SEQUENCE_HALF {
                        self.sent_records.remove(s);
                        lost.push(s);
                    }
                },
                None => {},
            }
            proof {
                let ghost ii = idx as int + 1;
                assert forall|s2: u16|
                    mid.sent_records.spec_get(s2) is Some && (s2 as int % BUFFER_CAPACITY as int)
                        < ii && spec_out_of_window(header.remote_ack, s2) implies lost@.contains(
                    s2,
                ) by {
                    if (s2 as int % BUFFER_CAPACITY as int) < idx as int {
                        let w = choose|w: int| 0 <= w < lost_pre.len() && lost_pre[w] == s2;
                        assert(lost@[w] == s2);
                    } else {
                        // s2 sits in the slot scanned this iteration.
                        assert(mid.sent_records.slots()[idx as int] == slot_pre);
                        assert(slot_pre is Some && slot_pre->Some_0.0 == s2);
                        assert(lost@.last() == s2);
                    }
                }
            }
            idx = idx + 1;
        }
        Some((header, body, acked, lost))
    }
}

} // verus!
