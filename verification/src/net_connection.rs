//! One peer-to-peer connection: acknowledgement tracking, the reliable
//! event channel, entity replication, and the heartbeat and timeout
//! timers, behind a tick-driven interface.
//!
//! The host supplies the current time as a plain millisecond count; the
//! connection itself never touches a clock or a socket.

use vstd::prelude::*;
use crate::ack_manager::AckManager;
use crate::client_entity_manager::{ClientEntityManager, ClientEntityMessage};
use crate::entity_manager::{OutgoingEntityMessage, PendingEntityMessage, ServerEntityManager};
use crate::event_manager::{EventManager, EventRecord};
use crate::header::{HEADER_SIZE, PacketHeader};
use crate::manifest::{entity_wf, Entity, EntityManifest, EventManifest};
use crate::packet_io::{read_packet_body, EntityWireMessage, PacketWriter, MAX_PAYLOAD};
use crate::packet_type::PacketType;
use crate::seq_num::{seq_newer, seq_next, SequenceNumber};
use crate::server_addr::SocketAddress;
use crate::state_mask::{spec_bit, StateMask};
use crate::timer::{spec_ringing, Timer};
use crate::timestamp::Timestamp;

verus! {

/// Which side of the connection this peer plays.
#[derive(Clone, Copy, PartialEq, Eq, Structural, Debug)]
pub enum HostType {
    /// The authoritative side: replicates entities out.
    Server,
    /// The consuming side: receives entity state.
    Client,
}

/// The per-peer entity layer, one variant per host type.
pub enum EntityManager {
    /// Server side: dirty masks and outgoing replication messages.
    Server(ServerEntityManager),
    /// Client side: the local entity store.
    Client(ClientEntityManager),
}

/// The per-peer protocol state bundle.
pub struct NetConnection {
    /// The client-generated timestamp naming this session.
    pub connection_timestamp: Timestamp,
    address: SocketAddress,
    heartbeat_manager: Timer,
    timeout_manager: Timer,
    ack_manager: AckManager,
    event_manager: EventManager,
    entity_manager: EntityManager,
}

/// `rec` is the record of some in-flight entry whose packet was
/// outstanding and fell out of the acknowledgement window: a record the
/// header's processing writes off as lost and queues again.
pub open spec fn spec_lost_record(
    flight: Seq<crate::event_manager::InFlightEvent>,
    acks: AckManager,
    remote_ack: u16,
    rec: EventRecord,
) -> bool {
    exists|w: int|
        0 <= w < flight.len() && (#[trigger] flight[w]).record == rec && acks.outstanding(
            flight[w].packet_seq,
        ) && crate::ack_manager::spec_out_of_window(remote_ack, flight[w].packet_seq)
}

/// The header acknowledges some packet whose in-flight snapshot covers
/// bit `b` of `key`, or carries a delete of `key`.
pub open spec fn spec_header_settles_bit(
    flight: Seq<PendingEntityMessage>,
    remote_ack: u16,
    ack_bitfield: u32,
    key: u16,
    b: u8,
) -> bool {
    exists|w: int|
        0 <= w < flight.len() && crate::ack_manager::spec_header_acks(
            remote_ack,
            ack_bitfield,
            (#[trigger] flight[w]).packet_seq,
        ) && flight[w].message.key == key && (spec_bit(flight[w].message.mask.bits, b)
            || flight[w].message.action is Delete)
}

impl NetConnection {
    /// The acknowledgement layer's state.
    pub closed spec fn acks(self) -> AckManager {
        self.ack_manager
    }

    /// The reliable event channel's state.
    pub closed spec fn events(self) -> EventManager {
        self.event_manager
    }

    /// The entity layer's state.
    pub closed spec fn entities(self) -> EntityManager {
        self.entity_manager
    }

    /// The heartbeat timer.
    pub closed spec fn heartbeat(self) -> Timer {
        self.heartbeat_manager
    }

    /// The timeout timer.
    pub closed spec fn timeout(self) -> Timer {
        self.timeout_manager
    }

    /// The peer's address.
    pub closed spec fn peer(self) -> SocketAddress {
        self.address
    }

    /// The session timestamp.
    pub closed spec fn stamp(self) -> Timestamp {
        self.connection_timestamp
    }

    /// The connection's internal invariant.
    pub open spec fn wf(self) -> bool {
        &&& self.acks().wf()
        &&& self.events().wf()
        &&& match self.entities() {
            EntityManager::Server(m) => m.wf(),
            EntityManager::Client(m) => m.wf(),
        }
    }

    /// Builds a connection for one peer: a server connection replicates
    /// entities out, a client connection stores them. Both timers start
    /// from `now_ms`.
    pub fn new(
        host_type: HostType,
        address: SocketAddress,
        heartbeat_interval_ms: u64,
        timeout_duration_ms: u64,
        connection_timestamp: Timestamp,
        now_ms: u64,
    ) -> (c: NetConnection)
        ensures
            c.wf(),
            c.stamp() == connection_timestamp,
            c.peer() == address,
            c.heartbeat().period_ms == heartbeat_interval_ms,
            c.heartbeat().last_reset_ms == now_ms,
            !c.heartbeat().rung_manual,
            c.timeout().period_ms == timeout_duration_ms,
            c.timeout().last_reset_ms == now_ms,
            !c.timeout().rung_manual,
            c.acks().local_sequence() == 0,
            c.events().outgoing_events().len() == 0,
            c.events().in_flight_events().len() == 0,
            c.events().incoming_events().len() == 0,
            host_type is Server <==> c.entities() is Server,
    {
        let entity_manager = match host_type {
            HostType::Server => EntityManager::Server(ServerEntityManager::new()),
            HostType::Client => EntityManager::Client(ClientEntityManager::new()),
        };
        NetConnection {
            connection_timestamp,
            address,
            heartbeat_manager: Timer::new(heartbeat_interval_ms, now_ms),
            timeout_manager: Timer::new(timeout_duration_ms, now_ms),
            ack_manager: AckManager::new(),
            event_manager: EventManager::new(),
            entity_manager,
        }
    }

    /// The session timestamp, for the host.
    pub fn stamp_value(&self) -> (t: Timestamp)
        ensures
            t == self.stamp(),
    {
        self.connection_timestamp
    }

    /// A packet went out: the heartbeat timer starts over.
    pub fn mark_sent(&mut self, now_ms: u64)
        ensures
            final(self).heartbeat().last_reset_ms == now_ms,
            !final(self).heartbeat().rung_manual,
            final(self).heartbeat().period_ms == old(self).heartbeat().period_ms,
            final(self).timeout() == old(self).timeout(),
            final(self).acks() == old(self).acks(),
            final(self).events() == old(self).events(),
            final(self).entities() == old(self).entities(),
            final(self).stamp() == old(self).stamp(),
            final(self).peer() == old(self).peer(),
    {
        self.heartbeat_manager.reset(now_ms);
    }

    /// Whether a heartbeat is due: a heartbeat interval has passed since
    /// the last outgoing packet.
    pub fn should_send_heartbeat(&self, now_ms: u64) -> (r: bool)
        ensures
            r == spec_ringing(self.heartbeat(), now_ms),
    {
        self.heartbeat_manager.ringing(now_ms)
    }

    /// A packet came in: the timeout timer starts over.
    pub fn mark_heard(&mut self, now_ms: u64)
        ensures
            final(self).timeout().last_reset_ms == now_ms,
            !final(self).timeout().rung_manual,
            final(self).timeout().period_ms == old(self).timeout().period_ms,
            final(self).heartbeat() == old(self).heartbeat(),
            final(self).acks() == old(self).acks(),
            final(self).events() == old(self).events(),
            final(self).entities() == old(self).entities(),
            final(self).stamp() == old(self).stamp(),
            final(self).peer() == old(self).peer(),
    {
        self.timeout_manager.reset(now_ms);
    }

    /// Whether the peer has been silent for the whole timeout duration.
    pub fn should_drop(&self, now_ms: u64) -> (r: bool)
        ensures
            r == spec_ringing(self.timeout(), now_ms),
    {
        self.timeout_manager.ringing(now_ms)
    }

    /// The sequence number the next outgoing packet will carry.
    pub fn get_next_packet_index(&self) -> (s: SequenceNumber)
        ensures
            s == self.acks().local_sequence(),
    {
        self.ack_manager.local_sequence_num()
    }

    /// Frames an outgoing packet with the next sequence number; the
    /// sequence advances, so consecutive packets are strictly increasing
    /// modulo 2^16.
    pub fn process_outgoing(&mut self, packet_type: PacketType, payload: &[u8]) -> (r: Vec<u8>)
        requires
            old(self).wf(),
        ensures
            final(self).wf(),
            r@ == crate::header::spec_header_bytes(
                PacketHeader {
                    packet_type,
                    local_seq: old(self).acks().local_sequence(),
                    remote_ack: old(self).acks().remote_sequence(),
                    ack_bitfield: old(self).acks().remote_bits(),
                },
            ) + payload@,
            final(self).acks().local_sequence() == seq_next(old(self).acks().local_sequence()),
            seq_newer(final(self).acks().local_sequence(), old(self).acks().local_sequence()),
            // The sent packet is recorded as outstanding in the sent ring.
            final(self).acks().outstanding(old(self).acks().local_sequence()),
            forall|s: u16|
                (s != old(self).acks().local_sequence() && (s as int
                    % crate::sequence_buffer::BUFFER_CAPACITY as int)
                    != (old(self).acks().local_sequence() as int
                    % crate::sequence_buffer::BUFFER_CAPACITY as int)) ==> ((
                #[trigger] final(self).acks().outstanding(s)) == old(self).acks().outstanding(s)),
            final(self).acks().remote_sequence() == old(self).acks().remote_sequence(),
            final(self).acks().remote_bits() == old(self).acks().remote_bits(),
            final(self).events() == old(self).events(),
            final(self).entities() == old(self).entities(),
            final(self).heartbeat() == old(self).heartbeat(),
            final(self).timeout() == old(self).timeout(),
            final(self).stamp() == old(self).stamp(),
            final(self).peer() == old(self).peer(),
    {
        self.ack_manager.process_outgoing(packet_type, payload)
    }

    /// Digests an incoming sequenced packet: returns the body without its
    /// header, and forwards each newly delivered or lost packet to the
    /// event and entity layers, which discard, retransmit, or restore what
    /// that packet carried. A malformed frame yields `None` and changes
    /// nothing. No queued event and no tracked dirty bit is ever silently
    /// lost: an event leaves the channel, and a dirty bit clears, only
    /// through the header's acknowledgement of a packet carrying it.
    #[verifier::loop_isolation(false)]
    #[verifier::rlimit(60)]
    pub fn process_incoming(&mut self, payload: &[u8]) -> (r: Option<(PacketHeader, Vec<u8>)>)
        requires
            old(self).wf(),
        ensures
            final(self).wf(),
            r is Some <==> crate::header::spec_parse_header(payload@) is Some,
            r is None ==> *final(self) == *old(self),
            final(self).acks().local_sequence() == old(self).acks().local_sequence(),
            final(self).heartbeat() == old(self).heartbeat(),
            final(self).timeout() == old(self).timeout(),
            final(self).stamp() == old(self).stamp(),
            final(self).peer() == old(self).peer(),
            r matches Some((h, body)) ==> {
                &&& Some(h) == crate::header::spec_parse_header(payload@)
                &&& body@ == payload@.subrange(HEADER_SIZE as int, payload@.len() as int)
                // Receive side: remote sequence and bitfield move exactly
                // as the modular "is newer" ordering dictates.
                &&& (final(self).acks().remote_sequence(), final(self).acks().remote_bits())
                    == crate::ack_manager::spec_receive_update(
                    old(self).acks().remote_sequence(),
                    old(self).acks().remote_bits(),
                    h.local_seq,
                )
                // Send side: a sent packet stays outstanding exactly until
                // this header acknowledges it or it falls out of the window.
                &&& forall|s: u16|
                    (#[trigger] final(self).acks().outstanding(s)) == (old(self).acks().outstanding(s) && !crate::ack_manager::spec_header_acks(
                        h.remote_ack,
                        h.ack_bitfield,
                        s,
                    ) && !crate::ack_manager::spec_out_of_window(h.remote_ack, s))
                // Received events already queued for the application stay.
                &&& final(self).events().incoming_events() == old(self).events().incoming_events()
                &&& final(self).events().seen_window() == old(self).events().seen_window()
                // At-least-once: every queued event is still queued, and
                // every in-flight event is still tracked unless the header
                // acknowledged the packet carrying it.
                &&& forall|j: int|
                    0 <= j < old(self).events().outgoing_events().len() ==> final(self).events().outgoing_events().contains(
                        #[trigger] old(self).events().outgoing_events()[j],
                    )
                &&& forall|j: int|
                    0 <= j < old(self).events().in_flight_events().len() ==> final(self).events().in_flight_events().contains(
                        #[trigger] old(self).events().in_flight_events()[j],
                    ) || final(self).events().outgoing_events().contains(
                        old(self).events().in_flight_events()[j].record,
                    ) || crate::ack_manager::spec_header_acks(
                        h.remote_ack,
                        h.ack_bitfield,
                        old(self).events().in_flight_events()[j].packet_seq,
                    )
                // Delivery: nothing carried by a sequence this header
                // settles — acknowledged or written off — stays in flight.
                &&& forall|j: int|
                    0 <= j < final(self).events().in_flight_events().len() ==> {
                        &&& old(self).events().in_flight_events().contains(
                            #[trigger] final(self).events().in_flight_events()[j],
                        )
                        &&& !(old(self).acks().outstanding(
                            final(self).events().in_flight_events()[j].packet_seq,
                        ) && (crate::ack_manager::spec_header_acks(
                            h.remote_ack,
                            h.ack_bitfield,
                            final(self).events().in_flight_events()[j].packet_seq,
                        ) || crate::ack_manager::spec_out_of_window(
                            h.remote_ack,
                            final(self).events().in_flight_events()[j].packet_seq,
                        )))
                    }
                // Retransmission: the outgoing queue keeps its prefix and
                // grows only by records of packets written off as lost, so
                // an acknowledged event is deleted and never serialized
                // again.
                &&& final(self).events().outgoing_events().subrange(
                    0,
                    old(self).events().outgoing_events().len() as int,
                ) == old(self).events().outgoing_events()
                &&& forall|j: int|
                    old(self).events().outgoing_events().len() <= j < final(self).events().outgoing_events().len() ==> spec_lost_record(
                        old(self).events().in_flight_events(),
                        old(self).acks(),
                        h.remote_ack,
                        #[trigger] final(self).events().outgoing_events()[j],
                    )
                // A client connection's entity store is untouched here.
                &&& (old(self).entities() is Client ==> final(self).entities() == old(self).entities())
                // Dirty-mask preservation: processing a header only ever
                // clears tracked dirty bits, never sets one — and a
                // tracked bit leaves only when the header acknowledges a
                // packet whose snapshot covered it, or the key's delete.
                // Snapshots of settled packets leave flight as well.
                &&& (old(self).entities() matches EntityManager::Server(m0) ==> (final(self).entities() matches EntityManager::Server(m1) && {
                    &&& forall|k: u16, b: u8|
                        b < 32 && #[trigger] m1.tracked_bit(k, b) ==> m0.tracked_bit(k, b)
                    &&& forall|k: u16, b: u8|
                        b < 32 && m0.tracked_bit(k, b) && !spec_header_settles_bit(
                            m0.in_flight(),
                            h.remote_ack,
                            h.ack_bitfield,
                            k,
                            b,
                        ) ==> #[trigger] m1.tracked_bit(k, b)
                    &&& forall|j: int|
                        0 <= j < m1.in_flight().len() ==> {
                            &&& m0.in_flight().contains(#[trigger] m1.in_flight()[j])
                            &&& !(old(self).acks().outstanding(m1.in_flight()[j].packet_seq)
                                && (crate::ack_manager::spec_header_acks(
                                h.remote_ack,
                                h.ack_bitfield,
                                m1.in_flight()[j].packet_seq,
                            ) || crate::ack_manager::spec_out_of_window(
                                h.remote_ack,
                                m1.in_flight()[j].packet_seq,
                            )))
                        }
                }))
            },
    {
        let (header, body, acked, lost) = match self.ack_manager.process_incoming(payload) {
            Some(x) => x,
            None => {
                return None;
            },
        };
        let ghost am = self.ack_manager;
        let ghost ev0 = old(self).event_manager;
        let ghost em0 = old(self).entity_manager;
        let ghost excused = |q: u16|
            crate::ack_manager::spec_header_acks(header.remote_ack, header.ack_bitfield, q);
        let mut i: usize = 0;
        while i < acked.len()
            invariant
                i <= acked@.len(),
                self.ack_manager == am,
                self.event_manager.wf(),
                self.heartbeat_manager == old(self).heartbeat_manager,
                self.timeout_manager == old(self).timeout_manager,
                self.connection_timestamp == old(self).connection_timestamp,
                self.address == old(self).address,
                self.event_manager.incoming_events() == ev0.incoming_events(),
                self.event_manager.seen_window() == ev0.seen_window(),
                self.event_manager.outgoing_events() == ev0.outgoing_events(),
                forall|j: int|
                    0 <= j < ev0.outgoing_events().len()
                        ==> self.event_manager.outgoing_events().contains(
                        #[trigger] ev0.outgoing_events()[j],
                    ),
                forall|j: int|
                    0 <= j < ev0.in_flight_events().len()
                        ==> self.event_manager.in_flight_events().contains(
                        #[trigger] ev0.in_flight_events()[j],
                    ) || self.event_manager.outgoing_events().contains(
                        ev0.in_flight_events()[j].record,
                    ) || crate::ack_manager::spec_header_acks(
                        header.remote_ack,
                        header.ack_bitfield,
                        ev0.in_flight_events()[j].packet_seq,
                    ),
                forall|jj: int|
                    0 <= jj < self.event_manager.in_flight_events().len()
                        ==> ev0.in_flight_events().contains(
                        #[trigger] self.event_manager.in_flight_events()[jj],
                    ),
                forall|jj: int, w: int|
                    #![trigger self.event_manager.in_flight_events()[jj], acked@[w]]
                    0 <= jj < self.event_manager.in_flight_events().len() && 0 <= w < i
                        ==> self.event_manager.in_flight_events()[jj].packet_seq != acked@[w],
                old(self).entity_manager is Client ==> self.entity_manager == old(self).entity_manager,
                em0 matches EntityManager::Server(m0) ==> (self.entity_manager matches
                EntityManager::Server(m1) && m1.wf() && (forall|k: u16, b: u8|
                    b < 32 && #[trigger] m1.tracked_bit(k, b) ==> m0.tracked_bit(k, b)) && (
                forall|k: u16, b: u8|
                    b < 32 && m0.tracked_bit(k, b) && !spec_header_settles_bit(
                        m0.in_flight(),
                        header.remote_ack,
                        header.ack_bitfield,
                        k,
                        b,
                    ) ==> #[trigger] m1.tracked_bit(k, b)) && (forall|jj: int|
                    0 <= jj < m1.in_flight().len() ==> m0.in_flight().contains(
                        #[trigger] m1.in_flight()[jj],
                    )) && (forall|jj: int, w: int|
                    #![trigger m1.in_flight()[jj], acked@[w]]
                    0 <= jj < m1.in_flight().len() && 0 <= w < i ==> m1.in_flight()[jj].packet_seq
                        != acked@[w])),
            decreases acked@.len() - i,
        {
            let s = acked[i];
            let ghost evp = self.event_manager;
            self.event_manager.notify_packet_acked(s);
            proof {
                crate::event_manager::lemma_ack_step_keeps_events(
                    evp,
                    self.event_manager,
                    ev0,
                    s,
                    excused,
                );
                crate::event_manager::lemma_settle_step_membership(evp, self.event_manager, s);
                assert forall|jj: int|
                    0 <= jj < self.event_manager.in_flight_events().len() implies ev0.in_flight_events().contains(
                    #[trigger] self.event_manager.in_flight_events()[jj],
                ) by {
                    let e = self.event_manager.in_flight_events()[jj];
                    let idx = choose|idx: int|
                        0 <= idx < evp.in_flight_events().len() && evp.in_flight_events()[idx]
                            == e;
                    assert(ev0.in_flight_events().contains(evp.in_flight_events()[idx]));
                }
                assert forall|jj: int, w: int|
                    #![trigger self.event_manager.in_flight_events()[jj], acked@[w]]
                    0 <= jj < self.event_manager.in_flight_events().len() && 0 <= w < i
                        + 1 implies self.event_manager.in_flight_events()[jj].packet_seq
                    != acked@[w] by {
                    let e = self.event_manager.in_flight_events()[jj];
                    if w < i {
                        let idx = choose|idx: int|
                            0 <= idx < evp.in_flight_events().len() && evp.in_flight_events()[idx]
                                == e;
                        assert(evp.in_flight_events()[idx].packet_seq != acked@[w]);
                    } else {
                        assert(e.packet_seq != s);
                    }
                }
            }
            match &mut self.entity_manager {
                EntityManager::Server(m) => {
                    let ghost mp = *m;
                    m.notify_packet_acked(s);
                    proof {
                        let m0v = em0->Server_0;
                        let mnew = *m;
                        assert forall|jj: int|
                            0 <= jj < mnew.in_flight().len() implies m0v.in_flight().contains(
                            #[trigger] mnew.in_flight()[jj],
                        ) by {
                            let idx = choose|idx: int|
                                0 <= idx < mp.in_flight().len() && mp.in_flight()[idx]
                                    == mnew.in_flight()[jj];
                            assert(m0v.in_flight().contains(mp.in_flight()[idx]));
                        }
                        assert forall|jj: int, w: int|
                            #![trigger mnew.in_flight()[jj], acked@[w]]
                            0 <= jj < mnew.in_flight().len() && 0 <= w < i
                                + 1 implies mnew.in_flight()[jj].packet_seq != acked@[w] by {
                            if w < i {
                                let idx = choose|idx: int|
                                    0 <= idx < mp.in_flight().len() && mp.in_flight()[idx]
                                        == mnew.in_flight()[jj];
                                assert(mp.in_flight()[idx].packet_seq != acked@[w]);
                            }
                        }
                        assert forall|k: u16, b: u8|
                            b < 32 && m0v.tracked_bit(k, b) && !spec_header_settles_bit(
                                m0v.in_flight(),
                                header.remote_ack,
                                header.ack_bitfield,
                                k,
                                b,
                            ) implies #[trigger] mnew.tracked_bit(k, b) by {
                            assert(mp.tracked_bit(k, b));
                            if crate::entity_manager::snapshot_covers(mp.in_flight(), s, k, b) {
                                let w = choose|w: int|
                                    0 <= w < mp.in_flight().len() && (
                                    #[trigger] mp.in_flight()[w]).packet_seq == s
                                        && mp.in_flight()[w].message.key == k && spec_bit(
                                        mp.in_flight()[w].message.mask.bits,
                                        b,
                                    );
                                assert(m0v.in_flight().contains(mp.in_flight()[w]));
                                let w0 = choose|w0: int|
                                    0 <= w0 < m0v.in_flight().len() && m0v.in_flight()[w0]
                                        == mp.in_flight()[w];
                                assert(crate::ack_manager::spec_header_acks(
                                    header.remote_ack,
                                    header.ack_bitfield,
                                    (#[trigger] m0v.in_flight()[w0]).packet_seq,
                                ) && m0v.in_flight()[w0].message.key == k && spec_bit(
                                    m0v.in_flight()[w0].message.mask.bits,
                                    b,
                                ));
                                assert(false);
                            } else if crate::entity_manager::carries_delete(
                                mp.in_flight(),
                                s,
                                k,
                            ) {
                                let w = choose|w: int|
                                    0 <= w < mp.in_flight().len() && (
                                    #[trigger] mp.in_flight()[w]).packet_seq == s
                                        && mp.in_flight()[w].message.key == k
                                        && mp.in_flight()[w].message.action is Delete;
                                assert(m0v.in_flight().contains(mp.in_flight()[w]));
                                let w0 = choose|w0: int|
                                    0 <= w0 < m0v.in_flight().len() && m0v.in_flight()[w0]
                                        == mp.in_flight()[w];
                                assert(crate::ack_manager::spec_header_acks(
                                    header.remote_ack,
                                    header.ack_bitfield,
                                    (#[trigger] m0v.in_flight()[w0]).packet_seq,
                                ) && m0v.in_flight()[w0].message.key == k
                                    && m0v.in_flight()[w0].message.action is Delete);
                                assert(false);
                            }
                        }
                    }
                },
                EntityManager::Client(_) => {},
            }
            i = i + 1;
        }
        let mut j: usize = 0;
        while j < lost.len()
            invariant
                i == acked@.len(),
                self.ack_manager == am,
                self.event_manager.wf(),
                self.heartbeat_manager == old(self).heartbeat_manager,
                self.timeout_manager == old(self).timeout_manager,
                self.connection_timestamp == old(self).connection_timestamp,
                self.address == old(self).address,
                self.event_manager.incoming_events() == ev0.incoming_events(),
                self.event_manager.seen_window() == ev0.seen_window(),
                forall|j2: int|
                    0 <= j2 < ev0.outgoing_events().len()
                        ==> self.event_manager.outgoing_events().contains(
                        #[trigger] ev0.outgoing_events()[j2],
                    ),
                forall|j2: int|
                    0 <= j2 < ev0.in_flight_events().len()
                        ==> self.event_manager.in_flight_events().contains(
                        #[trigger] ev0.in_flight_events()[j2],
                    ) || self.event_manager.outgoing_events().contains(
                        ev0.in_flight_events()[j2].record,
                    ) || crate::ack_manager::spec_header_acks(
                        header.remote_ack,
                        header.ack_bitfield,
                        ev0.in_flight_events()[j2].packet_seq,
                    ),
                forall|jj: int|
                    0 <= jj < self.event_manager.in_flight_events().len()
                        ==> ev0.in_flight_events().contains(
                        #[trigger] self.event_manager.in_flight_events()[jj],
                    ),
                forall|jj: int, w: int|
                    #![trigger self.event_manager.in_flight_events()[jj], acked@[w]]
                    0 <= jj < self.event_manager.in_flight_events().len() && 0 <= w
                        < acked@.len()
                        ==> self.event_manager.in_flight_events()[jj].packet_seq != acked@[w],
                forall|jj: int, w: int|
                    #![trigger self.event_manager.in_flight_events()[jj], lost@[w]]
                    0 <= jj < self.event_manager.in_flight_events().len() && 0 <= w < j
                        ==> self.event_manager.in_flight_events()[jj].packet_seq != lost@[w],
                self.event_manager.outgoing_events().len() >= ev0.outgoing_events().len(),
                self.event_manager.outgoing_events().subrange(
                    0,
                    ev0.outgoing_events().len() as int,
                ) == ev0.outgoing_events(),
                forall|jj: int|
                    ev0.outgoing_events().len() <= jj
                        < self.event_manager.outgoing_events().len() ==> spec_lost_record(
                        ev0.in_flight_events(),
                        old(self).ack_manager,
                        header.remote_ack,
                        #[trigger] self.event_manager.outgoing_events()[jj],
                    ),
                old(self).entity_manager is Client ==> self.entity_manager == old(self).entity_manager,
                em0 matches EntityManager::Server(m0) ==> (self.entity_manager matches
                EntityManager::Server(m1) && m1.wf() && (forall|k: u16, b: u8|
                    b < 32 && #[trigger] m1.tracked_bit(k, b) ==> m0.tracked_bit(k, b)) && (
                forall|k: u16, b: u8|
                    b < 32 && m0.tracked_bit(k, b) && !spec_header_settles_bit(
                        m0.in_flight(),
                        header.remote_ack,
                        header.ack_bitfield,
                        k,
                        b,
                    ) ==> #[trigger] m1.tracked_bit(k, b)) && (forall|jj: int|
                    0 <= jj < m1.in_flight().len() ==> m0.in_flight().contains(
                        #[trigger] m1.in_flight()[jj],
                    )) && (forall|jj: int, w: int|
                    #![trigger m1.in_flight()[jj], acked@[w]]
                    0 <= jj < m1.in_flight().len() && 0 <= w < acked@.len()
                        ==> m1.in_flight()[jj].packet_seq != acked@[w]) && (forall|
                    jj: int,
                    w: int,
                |
                    #![trigger m1.in_flight()[jj], lost@[w]]
                    0 <= jj < m1.in_flight().len() && 0 <= w < j ==> m1.in_flight()[jj].packet_seq
                        != lost@[w])),
            decreases lost@.len() - j,
        {
            let s = lost[j];
            let ghost evp = self.event_manager;
            self.event_manager.notify_packet_lost(s);
            proof {
                crate::event_manager::lemma_loss_step_keeps_events(
                    evp,
                    self.event_manager,
                    ev0,
                    s,
                    excused,
                );
                crate::event_manager::lemma_settle_step_membership(evp, self.event_manager, s);
                crate::event_manager::lemma_loss_step_outgoing(evp, self.event_manager, s);
                assert forall|jj: int|
                    0 <= jj < self.event_manager.in_flight_events().len() implies ev0.in_flight_events().contains(
                    #[trigger] self.event_manager.in_flight_events()[jj],
                ) by {
                    let e = self.event_manager.in_flight_events()[jj];
                    let idx = choose|idx: int|
                        0 <= idx < evp.in_flight_events().len() && evp.in_flight_events()[idx]
                            == e;
                    assert(ev0.in_flight_events().contains(evp.in_flight_events()[idx]));
                }
                assert forall|jj: int, w: int|
                    #![trigger self.event_manager.in_flight_events()[jj], acked@[w]]
                    0 <= jj < self.event_manager.in_flight_events().len() && 0 <= w
                        < acked@.len() implies self.event_manager.in_flight_events()[jj].packet_seq
                    != acked@[w] by {
                    let e = self.event_manager.in_flight_events()[jj];
                    let idx = choose|idx: int|
                        0 <= idx < evp.in_flight_events().len() && evp.in_flight_events()[idx]
                            == e;
                    assert(evp.in_flight_events()[idx].packet_seq != acked@[w]);
                }
                assert forall|jj: int, w: int|
                    #![trigger self.event_manager.in_flight_events()[jj], lost@[w]]
                    0 <= jj < self.event_manager.in_flight_events().len() && 0 <= w < j
                        + 1 implies self.event_manager.in_flight_events()[jj].packet_seq
                    != lost@[w] by {
                    let e = self.event_manager.in_flight_events()[jj];
                    if w < j {
                        let idx = choose|idx: int|
                            0 <= idx < evp.in_flight_events().len() && evp.in_flight_events()[idx]
                                == e;
                        assert(evp.in_flight_events()[idx].packet_seq != lost@[w]);
                    } else {
                        assert(e.packet_seq != s);
                    }
                }
                assert(self.event_manager.outgoing_events().subrange(
                    0,
                    ev0.outgoing_events().len() as int,
                ) =~= ev0.outgoing_events());
                assert forall|jj: int|
                    ev0.outgoing_events().len() <= jj
                        < self.event_manager.outgoing_events().len() implies spec_lost_record(
                    ev0.in_flight_events(),
                    old(self).ack_manager,
                    header.remote_ack,
                    #[trigger] self.event_manager.outgoing_events()[jj],
                ) by {
                    if jj < evp.outgoing_events().len() {
                        assert(self.event_manager.outgoing_events()[jj]
                            == evp.outgoing_events()[jj]);
                    } else {
                        let rec = self.event_manager.outgoing_events()[jj];
                        assert(crate::event_manager::record_carried_by(
                            evp.in_flight_events(),
                            rec,
                            s,
                        ));
                        let w2 = choose|w2: int|
                            0 <= w2 < evp.in_flight_events().len() && (
                            #[trigger] evp.in_flight_events()[w2]).record == rec
                                && evp.in_flight_events()[w2].packet_seq == s;
                        assert(ev0.in_flight_events().contains(evp.in_flight_events()[w2]));
                        let w = choose|w: int|
                            0 <= w < ev0.in_flight_events().len() && ev0.in_flight_events()[w]
                                == evp.in_flight_events()[w2];
                        assert((#[trigger] ev0.in_flight_events()[w]).record == rec && old(
                            self,
                        ).ack_manager.outstanding(ev0.in_flight_events()[w].packet_seq)
                            && crate::ack_manager::spec_out_of_window(
                            header.remote_ack,
                            ev0.in_flight_events()[w].packet_seq,
                        ));
                    }
                }
            }
            match &mut self.entity_manager {
                EntityManager::Server(m) => {
                    let ghost mp = *m;
                    m.notify_packet_lost(s);
                    proof {
                        let m0v = em0->Server_0;
                        let mnew = *m;
                        assert forall|jj: int|
                            0 <= jj < mnew.in_flight().len() implies m0v.in_flight().contains(
                            #[trigger] mnew.in_flight()[jj],
                        ) by {
                            let idx = choose|idx: int|
                                0 <= idx < mp.in_flight().len() && mp.in_flight()[idx]
                                    == mnew.in_flight()[jj];
                            assert(m0v.in_flight().contains(mp.in_flight()[idx]));
                        }
                        assert forall|jj: int, w: int|
                            #![trigger mnew.in_flight()[jj], acked@[w]]
                            0 <= jj < mnew.in_flight().len() && 0 <= w
                                < acked@.len() implies mnew.in_flight()[jj].packet_seq
                            != acked@[w] by {
                            let idx = choose|idx: int|
                                0 <= idx < mp.in_flight().len() && mp.in_flight()[idx]
                                    == mnew.in_flight()[jj];
                            assert(mp.in_flight()[idx].packet_seq != acked@[w]);
                        }
                        assert forall|jj: int, w: int|
                            #![trigger mnew.in_flight()[jj], lost@[w]]
                            0 <= jj < mnew.in_flight().len() && 0 <= w < j
                                + 1 implies mnew.in_flight()[jj].packet_seq != lost@[w] by {
                            if w < j {
                                let idx = choose|idx: int|
                                    0 <= idx < mp.in_flight().len() && mp.in_flight()[idx]
                                        == mnew.in_flight()[jj];
                                assert(mp.in_flight()[idx].packet_seq != lost@[w]);
                            }
                        }
                    }
                },
                EntityManager::Client(_) => {},
            }
            j = j + 1;
        }
        proof {
            assert forall|jj: int|
                0 <= jj < self.event_manager.in_flight_events().len() implies !(old(self).ack_manager.outstanding(
                (#[trigger] self.event_manager.in_flight_events()[jj]).packet_seq,
            ) && (crate::ack_manager::spec_header_acks(
                header.remote_ack,
                header.ack_bitfield,
                self.event_manager.in_flight_events()[jj].packet_seq,
            ) || crate::ack_manager::spec_out_of_window(
                header.remote_ack,
                self.event_manager.in_flight_events()[jj].packet_seq,
            ))) by {
                let q = self.event_manager.in_flight_events()[jj].packet_seq;
                if old(self).ack_manager.outstanding(q) {
                    if crate::ack_manager::spec_header_acks(
                        header.remote_ack,
                        header.ack_bitfield,
                        q,
                    ) {
                        assert(acked@.contains(q));
                        let w = choose|w: int| 0 <= w < acked@.len() && acked@[w] == q;
                        assert(self.event_manager.in_flight_events()[jj].packet_seq
                            != acked@[w]);
                    }
                    if crate::ack_manager::spec_out_of_window(header.remote_ack, q) {
                        assert(lost@.contains(q));
                        let w = choose|w: int| 0 <= w < lost@.len() && lost@[w] == q;
                        assert(self.event_manager.in_flight_events()[jj].packet_seq != lost@[w]);
                    }
                }
            }
            if em0 is Server {
                let m0v = em0->Server_0;
                let m1v = self.entity_manager->Server_0;
                assert forall|jj: int|
                    0 <= jj < m1v.in_flight().len() implies !(old(self).ack_manager.outstanding(
                    (#[trigger] m1v.in_flight()[jj]).packet_seq,
                ) && (crate::ack_manager::spec_header_acks(
                    header.remote_ack,
                    header.ack_bitfield,
                    m1v.in_flight()[jj].packet_seq,
                ) || crate::ack_manager::spec_out_of_window(
                    header.remote_ack,
                    m1v.in_flight()[jj].packet_seq,
                ))) by {
                    let q = m1v.in_flight()[jj].packet_seq;
                    if old(self).ack_manager.outstanding(q) {
                        if crate::ack_manager::spec_header_acks(
                            header.remote_ack,
                            header.ack_bitfield,
                            q,
                        ) {
                            assert(acked@.contains(q));
                            let w = choose|w: int| 0 <= w < acked@.len() && acked@[w] == q;
                            assert(m1v.in_flight()[jj].packet_seq != acked@[w]);
                        }
                        if crate::ack_manager::spec_out_of_window(header.remote_ack, q) {
                            assert(lost@.contains(q));
                            let w = choose|w: int| 0 <= w < lost@.len() && lost@[w] == q;
                            assert(m1v.in_flight()[jj].packet_seq != lost@[w]);
                        }
                    }
                }
            }
        }
        Some((header, body))
    }

    /// Queues an application event for reliable, at-least-once delivery.
    /// The payload length must match the manifest entry for the tag, so
    /// that the peer's decoder consumes exactly the right bytes.
    pub fn queue_event(&mut self, manifest: &EventManifest, naia_id: u16, payload: Vec<u8>)
        requires
            old(self).wf(),
            manifest.spec_payload_len(naia_id) == Some(payload@.len() as u8),
            payload@.len() <= 255,
        ensures
            final(self).wf(),
            final(self).events().outgoing_events() == old(self).events().outgoing_events().push(
                EventRecord { naia_id, payload },
            ),
            final(self).events().in_flight_events() == old(self).events().in_flight_events(),
            final(self).events().incoming_events() == old(self).events().incoming_events(),
            final(self).entities() == old(self).entities(),
            final(self).acks() == old(self).acks(),
            final(self).heartbeat() == old(self).heartbeat(),
            final(self).timeout() == old(self).timeout(),
            final(self).stamp() == old(self).stamp(),
            final(self).peer() == old(self).peer(),
    {
        self.event_manager.queue_outgoing_event(naia_id, payload);
    }

    /// Whether the event channel has anything waiting to go out.
    pub fn has_outgoing_events(&self) -> (r: bool)
        ensures
            r == (self.events().outgoing_events().len() > 0),
    {
        self.event_manager.has_outgoing_events()
    }

    /// Assembles the next data packet, if anything is pending: events and
    /// entity messages are written until one no longer fits, that one is
    /// pushed back unsent, and the body is framed under the next sequence
    /// number. `None` means, and is only returned when, nothing was
    /// pending; a returned packet's body is exactly the sections of the
    /// items taken off the queues, in queue order.
    #[verifier::loop_isolation(false)]
    #[verifier::rlimit(100)]
    pub fn get_outgoing_packet(
        &mut self,
        event_manifest: &EventManifest,
        entity_manifest: &EntityManifest,
    ) -> (r: Option<Vec<u8>>)
        requires
            old(self).wf(),
        ensures
            final(self).wf(),
            // A packet goes out exactly when something is pending.
            r is Some <==> (old(self).events().outgoing_events().len() > 0 || (old(self).entities() matches EntityManager::Server(m) && m.queued().len() > 0)),
            r is None ==> *final(self) == *old(self),
            r is Some ==> final(self).acks().local_sequence() == seq_next(
                old(self).acks().local_sequence(),
            ),
            final(self).heartbeat() == old(self).heartbeat(),
            final(self).timeout() == old(self).timeout(),
            final(self).stamp() == old(self).stamp(),
            final(self).peer() == old(self).peer(),
            r matches Some(p) ==> exists|k: int, msgs: Seq<OutgoingEntityMessage>|
                {
                    &&& 0 <= k <= old(self).events().outgoing_events().len()
                    &&& k <= 255 && msgs.len() <= 255
                    &&& k > 0 || msgs.len() > 0
                    // The first k queued events went into the packet and
                    // are now in flight under this packet's sequence.
                    &&& final(self).events().outgoing_events() == old(self).events().outgoing_events().skip(k)
                    &&& final(self).events().in_flight_events() == old(self).events().in_flight_events() + Seq::new(
                        k as nat,
                        |i: int|
                            crate::event_manager::InFlightEvent {
                                packet_seq: old(self).acks().local_sequence(),
                                record: old(self).events().outgoing_events()[i],
                            },
                    )
                    &&& final(self).events().incoming_events() == old(self).events().incoming_events()
                    &&& final(self).events().seen_window() == old(self).events().seen_window()
                    // The entity messages taken match the queue prefix.
                    &&& (old(self).entities() matches EntityManager::Server(m0) ==> (final(self).entities() matches EntityManager::Server(m1) && {
                        &&& msgs.len() <= m0.queued().len()
                        &&& m1.queued() == m0.queued().skip(msgs.len() as int)
                        &&& (forall|i: int|
                            0 <= i < msgs.len() ==> ((#[trigger] msgs[i]).key, msgs[i].action)
                                == m0.queued()[i])
                        // Dirty bits only move into snapshots, never away.
                        &&& (forall|key: u16, b: u8|
                            b < 32 ==> #[trigger] m1.tracked_bit(key, b) == m0.tracked_bit(
                                key,
                                b,
                            ))
                    }))
                    &&& (old(self).entities() is Client ==> final(self).entities() == old(self).entities() && msgs.len() == 0)
                    // The packet is the header followed by the sections of
                    // exactly those items, in order.
                    &&& p@ == crate::header::spec_header_bytes(
                        PacketHeader {
                            packet_type: PacketType::Data,
                            local_seq: old(self).acks().local_sequence(),
                            remote_ack: old(self).acks().remote_sequence(),
                            ack_bitfield: old(self).acks().remote_bits(),
                        },
                    ) + crate::packet_io::spec_sections(
                        k,
                        crate::packet_io::spec_event_items_bytes(
                            old(self).events().outgoing_events().take(k),
                        ),
                        msgs.len() as int,
                        crate::packet_io::spec_entity_items_bytes(msgs),
                    )
                    &&& p@.len() <= HEADER_SIZE + MAX_PAYLOAD
                },
    {
        let entity_has = match &self.entity_manager {
            EntityManager::Server(m) => m.has_outgoing_messages(),
            EntityManager::Client(_) => false,
        };
        if !self.event_manager.has_outgoing_events() && !entity_has {
            return None;
        }
        let mut writer = PacketWriter::new();
        let next_packet_index = self.ack_manager.local_sequence_num();
        let ghost ev0 = old(self).event_manager;
        let ghost seq0 = old(self).ack_manager.local_sequence();
        let ghost mut k: int = 0;
        proof {
            assert(self.event_manager.outgoing_events() =~= ev0.outgoing_events().skip(0));
            assert(self.event_manager.in_flight_events() =~= ev0.in_flight_events() + Seq::new(
                0,
                |i: int|
                    crate::event_manager::InFlightEvent {
                        packet_seq: seq0,
                        record: ev0.outgoing_events()[i],
                    },
            ));
            assert(writer.event_section() =~= crate::packet_io::spec_event_items_bytes(
                ev0.outgoing_events().take(0),
            ));
        }
        let mut events_done = !self.event_manager.has_outgoing_events();
        if !events_done {
            let popped = match self.event_manager.pop_outgoing_event(next_packet_index) {
                Some(e) => e,
                None => vstd::pervasive::unreached(),
            };
            proof {
                assert(crate::event_manager::MAX_EVENT_PAYLOAD == 255);
            }
            let wrote = writer.write_event(&popped);
            proof {
                // The first event always fits an empty body.
                assert(wrote);
                k = 1;
                assert(self.event_manager.outgoing_events() =~= ev0.outgoing_events().skip(1));
                assert(self.event_manager.in_flight_events() =~= ev0.in_flight_events()
                    + Seq::new(
                    1,
                    |i: int|
                        crate::event_manager::InFlightEvent {
                            packet_seq: seq0,
                            record: ev0.outgoing_events()[i],
                        },
                ));
                assert(ev0.outgoing_events().take(1).drop_last() =~= ev0.outgoing_events().take(
                    0,
                ));
                assert(ev0.outgoing_events().take(1).last() == ev0.outgoing_events()[0]);
            }
        }
        while !events_done
            invariant
                events_done ==> k >= 1 || ev0.outgoing_events().len() == 0,
                !events_done ==> k >= 1,
                0 <= k <= ev0.outgoing_events().len() || (ev0.outgoing_events().len() == 0 && k
                    == 0),
                k <= ev0.outgoing_events().len(),
                writer.wf(),
                writer.spec_body().len() <= MAX_PAYLOAD as int,
                writer.events_written() == k,
                writer.entities_written() == 0,
                self.ack_manager == old(self).ack_manager,
                self.event_manager.wf(),
                self.event_manager.outgoing_events() == ev0.outgoing_events().skip(k),
                self.event_manager.in_flight_events() == ev0.in_flight_events() + Seq::new(
                    k as nat,
                    |i: int|
                        crate::event_manager::InFlightEvent {
                            packet_seq: seq0,
                            record: ev0.outgoing_events()[i],
                        },
                ),
                self.event_manager.incoming_events() == ev0.incoming_events(),
                self.event_manager.seen_window() == ev0.seen_window(),
                writer.event_section() == crate::packet_io::spec_event_items_bytes(
                    ev0.outgoing_events().take(k),
                ),
                self.entity_manager == old(self).entity_manager,
                self.heartbeat_manager == old(self).heartbeat_manager,
                self.timeout_manager == old(self).timeout_manager,
                self.connection_timestamp == old(self).connection_timestamp,
                self.address == old(self).address,
            decreases self.event_manager.outgoing_events().len(), (if events_done {
                0int
            } else {
                1int
            }),
        {
            let ghost evp = self.event_manager;
            let popped = match self.event_manager.pop_outgoing_event(next_packet_index) {
                Some(e) => e,
                None => {
                    events_done = true;
                    continue ;
                },
            };
            proof {
                assert(crate::event_manager::MAX_EVENT_PAYLOAD == 255);
                assert(evp.outgoing_events()[0] == ev0.outgoing_events()[k]);
            }
            let wrote = writer.write_event(&popped);
            if !wrote {
                self.event_manager.unpop_outgoing_event(next_packet_index);
                proof {
                    assert(self.event_manager.outgoing_events() =~= ev0.outgoing_events().skip(
                        k,
                    ));
                    assert(self.event_manager.in_flight_events() =~= ev0.in_flight_events()
                        + Seq::new(
                        k as nat,
                        |i: int|
                            crate::event_manager::InFlightEvent {
                                packet_seq: seq0,
                                record: ev0.outgoing_events()[i],
                            },
                    ));
                }
                events_done = true;
                continue ;
            }
            proof {
                k = k + 1;
                assert(self.event_manager.outgoing_events() =~= ev0.outgoing_events().skip(k));
                assert(self.event_manager.in_flight_events() =~= ev0.in_flight_events()
                    + Seq::new(
                    k as nat,
                    |i: int|
                        crate::event_manager::InFlightEvent {
                            packet_seq: seq0,
                            record: ev0.outgoing_events()[i],
                        },
                ));
                assert(ev0.outgoing_events().take(k).drop_last() =~= ev0.outgoing_events().take(
                    k - 1,
                ));
                assert(ev0.outgoing_events().take(k).last() == ev0.outgoing_events()[k - 1]);
                assert(crate::packet_io::spec_event_item(popped.naia_id, popped.payload@)
                    == crate::packet_io::spec_event_item(
                    ev0.outgoing_events()[k - 1].naia_id,
                    ev0.outgoing_events()[k - 1].payload@,
                ));
            }
        }
        let ghost w_mid = writer;
        let ghost mut nm: int = 0;
        let ghost mut msgs: Seq<OutgoingEntityMessage> = Seq::empty();
        match &mut self.entity_manager {
            EntityManager::Server(m) => {
                let ghost m0 = *m;
                proof {
                    assert(m.queued() =~= m0.queued().skip(0));
                    assert(writer.entity_section() =~= crate::packet_io::spec_entity_items_bytes(
                        msgs,
                    ));
                }
                let mut entities_done = !m.has_outgoing_messages();
                if !entities_done {
                    let popped = match m.pop_outgoing_message(next_packet_index) {
                        Some(x) => x,
                        None => vstd::pervasive::unreached(),
                    };
                    proof {
                        assert(popped.fields@.len() <= 32);
                    }
                    let wrote = writer.write_entity_message(&popped);
                    if !wrote {
                        proof {
                            // The first message always fits an empty body.
                            assert(w_mid.spec_body().len() > 0);
                        }
                        m.unpop_outgoing_message(next_packet_index);
                        proof {
                            assert(m.queued() =~= m0.queued().skip(0));
                        }
                        entities_done = true;
                    } else {
                        proof {
                            nm = 1;
                            msgs = msgs.push(popped);
                            assert(m.queued() =~= m0.queued().skip(1));
                            assert(msgs.drop_last() =~= Seq::<OutgoingEntityMessage>::empty());
                        }
                    }
                }
                while !entities_done
                    invariant
                        entities_done && w_mid.spec_body().len() == 0 && m0.queued().len() > 0
                            ==> nm >= 1,
                        !entities_done && m0.queued().len() > 0 ==> nm >= 1,
                        0 <= nm <= m0.queued().len(),
                        msgs.len() == nm,
                        nm <= 255,
                        writer.wf(),
                        writer.spec_body().len() <= MAX_PAYLOAD as int,
                        writer.events_written() == w_mid.events_written(),
                        writer.event_section() == w_mid.event_section(),
                        writer.entities_written() == nm,
                        m.wf(),
                        m.queued() == m0.queued().skip(nm),
                        forall|i: int|
                            0 <= i < nm ==> ((#[trigger] msgs[i]).key, msgs[i].action)
                                == m0.queued()[i],
                        forall|key: u16, b: u8|
                            b < 32 ==> #[trigger] m.tracked_bit(key, b) == m0.tracked_bit(key, b),
                        writer.entity_section()
                            == crate::packet_io::spec_entity_items_bytes(msgs),
                    decreases m.queued().len(), (if entities_done {
                        0int
                    } else {
                        1int
                    }),
                {
                    let ghost mp = *m;
                    let popped = match m.pop_outgoing_message(next_packet_index) {
                        Some(x) => x,
                        None => {
                            entities_done = true;
                            continue ;
                        },
                    };
                    proof {
                        assert(popped.fields@.len() <= 32);
                        assert(mp.queued()[0] == m0.queued()[nm]);
                    }
                    let wrote = writer.write_entity_message(&popped);
                    if !wrote {
                        m.unpop_outgoing_message(next_packet_index);
                        proof {
                            assert(m.queued() =~= m0.queued().skip(nm));
                        }
                        entities_done = true;
                        continue ;
                    }
                    proof {
                        let msgs_pre = msgs;
                        nm = nm + 1;
                        msgs = msgs.push(popped);
                        assert(m.queued() =~= m0.queued().skip(nm));
                        assert(msgs.drop_last() =~= msgs_pre);
                        assert(msgs.last() == popped);
                        assert(crate::packet_io::spec_entity_items_bytes(msgs)
                            == crate::packet_io::spec_entity_items_bytes(msgs_pre)
                            + crate::packet_io::spec_entity_item(popped));
                    }
                }
            },
            EntityManager::Client(_) => {},
        }
        if !writer.has_bytes() {
            proof {
                assert(k == 0 && nm == 0);
                assert(ev0.outgoing_events().len() == 0);
            }
            return None;
        }
        let out_bytes = writer.get_bytes();
        let payload = self.ack_manager.process_outgoing(
            PacketType::Data,
            out_bytes.as_slice(),
        );
        proof {
            assert(payload@ =~= crate::header::spec_header_bytes(
                PacketHeader {
                    packet_type: PacketType::Data,
                    local_seq: old(self).ack_manager.local_sequence(),
                    remote_ack: old(self).ack_manager.remote_sequence(),
                    ack_bitfield: old(self).ack_manager.remote_bits(),
                },
            ) + crate::packet_io::spec_sections(
                k,
                crate::packet_io::spec_event_items_bytes(ev0.outgoing_events().take(k)),
                nm,
                crate::packet_io::spec_entity_items_bytes(msgs),
            ));
        }
        Some(payload)
    }

    /// The next received event for the application, oldest first; the
    /// returned event leaves the queue and nothing else moves.
    pub fn get_incoming_event(&mut self) -> (r: Option<EventRecord>)
        requires
            old(self).wf(),
        ensures
            final(self).wf(),
            match r {
                Some(rec) => old(self).events().incoming_events().len() > 0 && rec == old(self).events().incoming_events()[0] && final(self).events().incoming_events() == old(self).events().incoming_events().subrange(
                    1,
                    old(self).events().incoming_events().len() as int,
                ),
                None => old(self).events().incoming_events().len() == 0 && final(self).events().incoming_events() == old(self).events().incoming_events(),
            },
            final(self).events().outgoing_events() == old(self).events().outgoing_events(),
            final(self).events().in_flight_events() == old(self).events().in_flight_events(),
            final(self).entities() == old(self).entities(),
            final(self).acks() == old(self).acks(),
            final(self).heartbeat() == old(self).heartbeat(),
            final(self).timeout() == old(self).timeout(),
    {
        self.event_manager.pop_incoming_event()
    }

    /// The next entity replication message for the application (client
    /// side), oldest first; the returned message leaves the queue and
    /// nothing else moves. A server connection has none.
    pub fn get_incoming_entity_message(&mut self) -> (r: Option<ClientEntityMessage>)
        requires
            old(self).wf(),
        ensures
            final(self).wf(),
            final(self).events() == old(self).events(),
            final(self).acks() == old(self).acks(),
            old(self).entities() is Server ==> r is None && final(self).entities() == old(self).entities(),
            old(self).entities() matches EntityManager::Client(m0) ==> (final(self).entities()
                matches EntityManager::Client(m1) && m1.entities() == m0.entities() && (match r {
                Some(msg) => m0.incoming().len() > 0 && msg == m0.incoming()[0] && m1.incoming()
                    == m0.incoming().subrange(1, m0.incoming().len() as int),
                None => m0.incoming().len() == 0 && m1.incoming() == m0.incoming(),
            })),
    {
        match &mut self.entity_manager {
            EntityManager::Client(m) => m.pop_incoming_message(),
            EntityManager::Server(_) => None,
        }
    }

    /// Dispatches a data packet body: events go through the duplicate
    /// window into the incoming queue; entity messages are applied to the
    /// client store. The dispatch succeeds exactly when the body parses
    /// under the manifests; a malformed body is discarded whole and
    /// changes nothing. On success the queue gains exactly the body's
    /// events that the seen window had not yet recorded, in packet order —
    /// so reprocessing a duplicated packet appends nothing — and a client
    /// connection's store becomes the body's entity messages folded over
    /// it in order, an update whose mask does not match the local entity
    /// being skipped. The send side — queued events, in-flight tracking,
    /// the acknowledgement state and the timers — is never touched here.
    #[verifier::loop_isolation(false)]
    #[verifier::rlimit(100)]
    #[verifier::spinoff_prover]
    pub fn process_data(
        &mut self,
        event_manifest: &EventManifest,
        entity_manifest: &EntityManifest,
        packet_seq: u16,
        data: &[u8],
    ) -> (ok: bool)
        requires
            old(self).wf(),
        ensures
            final(self).wf(),
            !ok ==> *final(self) == *old(self),
            data@.len() == 0 ==> ok,
            // Success exactly when the body is well formed.
            ok <==> crate::packet_io::spec_parse_body(
                data@,
                *event_manifest,
                *entity_manifest,
            ) is Some,
            final(self).acks() == old(self).acks(),
            final(self).heartbeat() == old(self).heartbeat(),
            final(self).timeout() == old(self).timeout(),
            final(self).stamp() == old(self).stamp(),
            final(self).peer() == old(self).peer(),
            final(self).events().outgoing_events() == old(self).events().outgoing_events(),
            final(self).events().in_flight_events() == old(self).events().in_flight_events(),
            // Received events are only appended, in packet order, and each
            // appended event is a known variant with its manifest length.
            final(self).events().incoming_events().len() >= old(self).events().incoming_events().len(),
            final(self).events().incoming_events().subrange(
                0,
                old(self).events().incoming_events().len() as int,
            ) == old(self).events().incoming_events(),
            forall|j: int|
                old(self).events().incoming_events().len() <= j < final(self).events().incoming_events().len() ==> event_manifest.spec_payload_len(
                    (#[trigger] final(self).events().incoming_events()[j]).naia_id,
                ) == Some(final(self).events().incoming_events()[j].payload@.len() as u8),
            // Duplicate suppression, exactly: what is appended is what the
            // body's event section delivers through the seen window.
            ok ==> crate::packet_io::events_view(final(self).events().incoming_events())
                == crate::packet_io::events_view(old(self).events().incoming_events())
                + crate::event_manager::spec_delivered(
                old(self).events().seen_window(),
                packet_seq,
                (crate::packet_io::spec_parse_body(
                    data@,
                    *event_manifest,
                    *entity_manifest,
                )->Some_0).0,
                0,
            ).0,
            ok ==> final(self).events().seen_window()
                == crate::event_manager::spec_delivered(
                old(self).events().seen_window(),
                packet_seq,
                (crate::packet_io::spec_parse_body(
                    data@,
                    *event_manifest,
                    *entity_manifest,
                )->Some_0).0,
                0,
            ).1,
            // A client connection's store becomes the body's entity
            // messages folded over it, in order.
            ok ==> (old(self).entities() matches EntityManager::Client(m0)
                ==> (final(self).entities() matches EntityManager::Client(m1) && (
            store_view(m1),
            m1.incoming(),
            ) == spec_apply_client_msgs(
                store_view(m0),
                m0.incoming(),
                (crate::packet_io::spec_parse_body(
                    data@,
                    *event_manifest,
                    *entity_manifest,
                )->Some_0).1,
            ))),
            // A server connection's entity layer has no receive side.
            old(self).entities() is Server ==> final(self).entities() == old(self).entities(),
    {
        let ghost evm = *event_manifest;
        let ghost enm = *entity_manifest;
        let parsed = match read_packet_body(data, event_manifest, entity_manifest) {
            Some(x) => x,
            None => {
                return false;
            },
        };
        let (events, msgs) = parsed;
        let ghost pe = crate::packet_io::events_view(events@);
        let ghost pm = crate::packet_io::msgs_view(msgs@);
        let ghost in0 = old(self).event_manager.incoming_events();
        let ghost seen0 = old(self).event_manager.seen_window();
        let mut i: usize = 0;
        proof {
            assert(pe.skip(0) =~= pe);
            assert(self.event_manager.incoming_events().skip(in0.len() as int)
                =~= Seq::<EventRecord>::empty());
            assert(crate::packet_io::events_view(Seq::<EventRecord>::empty())
                =~= Seq::<(u16, Seq<u8>)>::empty());
            assert(crate::packet_io::events_view(Seq::<EventRecord>::empty())
                + crate::event_manager::spec_delivered(seen0, packet_seq, pe, 0).0
                =~= crate::event_manager::spec_delivered(seen0, packet_seq, pe, 0).0);
        }
        while i < events.len()
            invariant
                i <= events@.len(),
                pe == crate::packet_io::events_view(events@),
                self.entity_manager == old(self).entity_manager,
                self.ack_manager == old(self).ack_manager,
                self.heartbeat_manager == old(self).heartbeat_manager,
                self.timeout_manager == old(self).timeout_manager,
                self.connection_timestamp == old(self).connection_timestamp,
                self.address == old(self).address,
                self.event_manager.wf(),
                self.event_manager.outgoing_events() == old(self).event_manager.outgoing_events(),
                self.event_manager.in_flight_events() == old(self).event_manager.in_flight_events(),
                self.event_manager.incoming_events().len() >= in0.len(),
                self.event_manager.incoming_events().subrange(0, in0.len() as int) == in0,
                // The delivered prefix so far, continued from the current
                // window, gives the whole packet's delivery.
                crate::event_manager::spec_delivered(seen0, packet_seq, pe, 0).0
                    == crate::packet_io::events_view(
                    self.event_manager.incoming_events().skip(in0.len() as int),
                ) + crate::event_manager::spec_delivered(
                    self.event_manager.seen_window(),
                    packet_seq,
                    pe.skip(i as int),
                    i as int,
                ).0,
                crate::event_manager::spec_delivered(seen0, packet_seq, pe, 0).1
                    == crate::event_manager::spec_delivered(
                    self.event_manager.seen_window(),
                    packet_seq,
                    pe.skip(i as int),
                    i as int,
                ).1,
                forall|j: int|
                    in0.len() <= j < self.event_manager.incoming_events().len()
                        ==> event_manifest.spec_payload_len(
                        (#[trigger] self.event_manager.incoming_events()[j]).naia_id,
                    ) == Some(self.event_manager.incoming_events()[j].payload@.len() as u8),
            decreases events@.len() - i,
        {
            let ghost seen_cur = self.event_manager.seen_window();
            let ghost inp = self.event_manager.incoming_events();
            proof {
                assert(pe.skip(i as int)[0] == pe[i as int]);
                assert(pe.skip(i as int).skip(1) =~= pe.skip(i as int + 1));
            }
            if i < 256 {
                let rec = events[i].duplicate();
                proof {
                    assert(pe[i as int] == (rec.naia_id, rec.payload@));
                }
                self.event_manager.process_received_event(
                    packet_seq,
                    i as u8,
                    rec.naia_id,
                    rec.payload,
                );
                proof {
                    if self.event_manager.incoming_events() != inp {
                        assert(self.event_manager.incoming_events() == inp.push(
                            EventRecord { naia_id: rec.naia_id, payload: rec.payload },
                        ));
                        assert(self.event_manager.incoming_events().subrange(
                            0,
                            in0.len() as int,
                        ) =~= inp.subrange(0, in0.len() as int));
                        assert(crate::packet_io::events_view(
                            self.event_manager.incoming_events().skip(in0.len() as int),
                        ) =~= crate::packet_io::events_view(inp.skip(in0.len() as int)).push(
                            pe[i as int],
                        ));
                        assert(crate::packet_io::events_view(inp.skip(in0.len() as int)).push(
                            pe[i as int],
                        ) + crate::event_manager::spec_delivered(
                            self.event_manager.seen_window(),
                            packet_seq,
                            pe.skip(i as int + 1),
                            i as int + 1,
                        ).0 =~= crate::packet_io::events_view(inp.skip(in0.len() as int)) + (seq![
                            pe[i as int],
                        ] + crate::event_manager::spec_delivered(
                            self.event_manager.seen_window(),
                            packet_seq,
                            pe.skip(i as int + 1),
                            i as int + 1,
                        ).0));
                    }
                }
            } else {
                proof {
                    assert(crate::event_manager::spec_delivered(
                        seen_cur,
                        packet_seq,
                        pe.skip(i as int),
                        i as int,
                    ).0 =~= Seq::<(u16, Seq<u8>)>::empty());
                    assert(crate::event_manager::spec_delivered(
                        seen_cur,
                        packet_seq,
                        pe.skip(i as int + 1),
                        i as int + 1,
                    ).0 =~= Seq::<(u16, Seq<u8>)>::empty());
                }
            }
            i = i + 1;
        }
        proof {
            assert(pe.skip(pe.len() as int).len() == 0);
            assert(crate::packet_io::events_view(self.event_manager.incoming_events())
                =~= crate::packet_io::events_view(in0) + crate::packet_io::events_view(
                self.event_manager.incoming_events().skip(in0.len() as int),
            ));
            assert(crate::packet_io::events_view(self.event_manager.incoming_events())
                == crate::packet_io::events_view(in0) + crate::event_manager::spec_delivered(
                seen0,
                packet_seq,
                pe,
                0,
            ).0);
        }
        let ghost em_mid = self.event_manager;
        let ghost m0_view = (match old(self).entity_manager {
            EntityManager::Client(m0) => (store_view(m0), m0.incoming()),
            EntityManager::Server(_) => (vstd::map::Map::empty(), Seq::empty()),
        });
        proof {
            assert(pm.take(0) =~= Seq::<crate::packet_io::GhostEntityMsg>::empty());
        }
        let mut j: usize = 0;
        while j < msgs.len()
            invariant
                j <= msgs@.len(),
                pm == crate::packet_io::msgs_view(msgs@),
                match self.entity_manager {
                    EntityManager::Server(m) => m.wf(),
                    EntityManager::Client(m) => m.wf(),
                },
                old(self).entity_manager is Server ==> self.entity_manager == old(self).entity_manager,
                // The messages applied so far are exactly the fold prefix.
                old(self).entity_manager matches EntityManager::Client(m0) ==> (
                self.entity_manager matches EntityManager::Client(mc) && (
                store_view(mc),
                mc.incoming(),
                ) == spec_apply_client_msgs(m0_view.0, m0_view.1, pm.take(j as int))),
                self.ack_manager == old(self).ack_manager,
                self.heartbeat_manager == old(self).heartbeat_manager,
                self.timeout_manager == old(self).timeout_manager,
                self.connection_timestamp == old(self).connection_timestamp,
                self.address == old(self).address,
                self.event_manager == em_mid,
                forall|k: int|
                    0 <= k < msgs@.len() ==> ((#[trigger] msgs@[k]) matches
                        EntityWireMessage::Create { key, variant_tag, fields }
                        ==> entity_manifest.spec_field_count(variant_tag) == Some(
                        fields@.len() as u8,
                    )),
                forall|k: int|
                    0 <= k < msgs@.len() ==> ((#[trigger] msgs@[k]) matches
                        EntityWireMessage::Update { key, mask_bits, bytes } ==> bytes@.len()
                        == crate::state_mask::spec_count_set(mask_bits, 32)),
            decreases msgs@.len() - j,
        {
            proof {
                assert(pm.take(j as int + 1).drop_last() =~= pm.take(j as int));
                assert(pm.take(j as int + 1).last() == pm[j as int]);
                assert(pm[j as int] == crate::packet_io::entity_msg_view(msgs@[j as int]));
            }
            match &mut self.entity_manager {
                EntityManager::Client(m) => {
                    let ghost m_pre = *m;
                    match &msgs[j] {
                        EntityWireMessage::Create { key, variant_tag, fields } => {
                            let fields_copy = copy_bytes(fields);
                            if fields_copy.len() <= 32 {
                                let entity = Entity::new(*variant_tag, fields_copy);
                                m.process_create(*key, entity);
                                proof {
                                    assert(store_view(*m) =~= store_view(m_pre).insert(
                                        *key,
                                        (*variant_tag, fields@),
                                    ));
                                    assert(store_view(m_pre).dom().contains(*key)
                                        <==> m_pre.local_of(*key) is Some);
                                }
                            }
                        },
                        EntityWireMessage::Update { key, mask_bits, bytes } => {
                            apply_update(m, *key, *mask_bits, bytes.as_slice());
                        },
                        EntityWireMessage::Delete { key } => {
                            m.process_delete(*key);
                            proof {
                                if m_pre.local_of(*key) is Some {
                                    assert(store_view(m_pre).dom().contains(*key));
                                    assert(store_view(*m) =~= store_view(m_pre).remove(*key));
                                } else {
                                    assert(!store_view(m_pre).dom().contains(*key));
                                }
                            }
                        },
                    }
                },
                EntityManager::Server(_) => {},
            }
            j = j + 1;
        }
        proof {
            assert(pm.take(pm.len() as int) =~= pm);
        }
        true
    }

    /// Whether the server side is replicating an entity under `key`.
    pub fn has_entity(&self, key: u16) -> (r: bool)
        ensures
            r == match self.entities() {
                EntityManager::Server(m) => m.record_of(key) is Some,
                EntityManager::Client(_) => false,
            },
    {
        match &self.entity_manager {
            EntityManager::Server(m) => m.has_entity(key),
            EntityManager::Client(_) => false,
        }
    }

    /// Starts replicating an entity to this peer: fully dirty, create
    /// message queued. Ignored on a client connection.
    pub fn add_entity(&mut self, key: u16, entity: Entity)
        requires
            old(self).wf(),
            entity_wf(entity),
            match old(self).entities() {
                EntityManager::Server(m) => m.record_of(key) is None,
                EntityManager::Client(_) => true,
            },
        ensures
            final(self).wf(),
            old(self).entities() is Client ==> *final(self) == *old(self),
            // The new record is fully dirty and a create message is queued.
            old(self).entities() matches EntityManager::Server(m0) ==> (final(self).entities()
                matches EntityManager::Server(m1) && {
                &&& m1.record_of(key) matches Some(r) && {
                    &&& r.entity.variant_tag == entity.variant_tag
                    &&& r.entity.fields@ == entity.fields@
                    &&& !r.creation_acked
                    &&& !r.deleted
                    &&& forall|b: u8| b < entity.fields@.len() ==> crate::state_mask::spec_bit(
                        r.state_mask.bits,
                        b,
                    )
                }
                &&& (forall|k2: u16| k2 != key ==> #[trigger] m1.record_of(k2) == m0.record_of(k2))
                &&& m1.queued() == m0.queued().push((key, crate::packet_type::EntityActionType::Create))
                &&& m1.in_flight() == m0.in_flight()
            }),
    {
        match &mut self.entity_manager {
            EntityManager::Server(m) => m.add_entity(key, entity),
            EntityManager::Client(_) => {},
        }
    }

    /// Whether a mutation of field `field_index` of `key` is possible now
    /// on this connection.
    pub fn can_mutate(&self, key: u16, field_index: u8) -> (r: bool)
        ensures
            r == match self.entities() {
                EntityManager::Server(m) => m.record_of(key) matches Some(rec) && !rec.deleted && (
                field_index as int) < rec.entity.fields@.len(),
                EntityManager::Client(_) => false,
            },
    {
        match &self.entity_manager {
            EntityManager::Server(m) => m.can_mutate(key, field_index),
            EntityManager::Client(_) => false,
        }
    }

    /// Whether the entity is tracked and not already removed.
    pub fn can_remove(&self, key: u16) -> (r: bool)
        ensures
            r == match self.entities() {
                EntityManager::Server(m) => m.record_of(key) matches Some(rec) && !rec.deleted,
                EntityManager::Client(_) => false,
            },
    {
        match &self.entity_manager {
            EntityManager::Server(m) => m.can_remove(key),
            EntityManager::Client(_) => false,
        }
    }

    /// Records a server-side field mutation: the value changes and its
    /// dirty bit stays tracked until a packet carrying it is acked.
    pub fn mutate_entity(&mut self, key: u16, field_index: u8, value: u8)
        requires
            old(self).wf(),
            match old(self).entities() {
                EntityManager::Server(m) => m.record_of(key) matches Some(r) && !r.deleted && (
                field_index as int) < r.entity.fields@.len(),
                EntityManager::Client(_) => true,
            },
        ensures
            final(self).wf(),
            old(self).entities() is Client ==> *final(self) == *old(self),
            // The field changes, its bit becomes tracked, and no other
            // tracked dirty bit is dropped.
            old(self).entities() matches EntityManager::Server(m0) ==> (final(self).entities()
                matches EntityManager::Server(m1) && {
                &&& m1.record_of(key) matches Some(r) && r.entity.fields@ == m0.record_of(
                    key,
                )->Some_0.entity.fields@.update(field_index as int, value)
                &&& m1.tracked_bit(key, field_index)
                &&& (forall|k2: u16, b: u8|
                    b < 32 && m0.tracked_bit(k2, b) ==> #[trigger] m1.tracked_bit(k2, b))
                &&& (forall|k2: u16| k2 != key ==> #[trigger] m1.record_of(k2) == m0.record_of(k2))
                &&& m1.queued() == m0.queued()
                &&& m1.in_flight() == m0.in_flight()
            }),
    {
        match &mut self.entity_manager {
            EntityManager::Server(m) => m.mutate_entity(key, field_index, value),
            EntityManager::Client(_) => {},
        }
    }

    /// Stops replicating an entity: queued updates are dropped and a
    /// delete message is queued; the record is purged once the delete is
    /// acknowledged.
    pub fn remove_entity(&mut self, key: u16)
        requires
            old(self).wf(),
            match old(self).entities() {
                EntityManager::Server(m) => m.record_of(key) matches Some(r) && !r.deleted,
                EntityManager::Client(_) => true,
            },
        ensures
            final(self).wf(),
            old(self).entities() is Client ==> *final(self) == *old(self),
            // The record is marked deleted; its not-yet-sent updates are
            // dropped and a delete message is queued after everything else.
            old(self).entities() matches EntityManager::Server(m0) ==> (final(self).entities()
                matches EntityManager::Server(m1) && {
                &&& m1.record_of(key) matches Some(r) && r.deleted
                &&& (forall|k2: u16| k2 != key ==> #[trigger] m1.record_of(k2) == m0.record_of(k2))
                &&& m1.queued() == m0.queued().filter(
                    |q: (u16, crate::packet_type::EntityActionType)| !(q.0 == key && q.1 is Update),
                ).push((key, crate::packet_type::EntityActionType::Delete))
                &&& m1.in_flight() == m0.in_flight()
            }),
    {
        match &mut self.entity_manager {
            EntityManager::Server(m) => m.remove_entity(key),
            EntityManager::Client(_) => {},
        }
    }

    /// The client-side entity stored under the server's key.
    pub fn get_local_entity(&self, key: u16) -> (r: Option<&Entity>)
        ensures
            match self.entities() {
                EntityManager::Client(m) => match r {
                    Some(e) => m.local_of(key) == Some(*e),
                    None => m.local_of(key) is None,
                },
                EntityManager::Server(_) => r is None,
            },
    {
        match &self.entity_manager {
            EntityManager::Client(m) => m.get_local_entity(key),
            EntityManager::Server(_) => None,
        }
    }

    /// Scans for dirty entities once per tick and queues their updates:
    /// every live, creation-acknowledged entity with a dirty field gets an
    /// update message queued, and no record — in particular no dirty mask —
    /// changes in the scan.
    pub fn collect_entity_updates(&mut self)
        requires
            old(self).wf(),
        ensures
            final(self).wf(),
            old(self).entities() is Client ==> *final(self) == *old(self),
            old(self).entities() matches EntityManager::Server(m0) ==> (final(self).entities()
                matches EntityManager::Server(m1) && {
                &&& m1.records() == m0.records()
                &&& m1.in_flight() == m0.in_flight()
                &&& m1.queued().subrange(0, m0.queued().len() as int) == m0.queued()
                &&& (forall|j: int|
                    m0.queued().len() <= j < m1.queued().len() ==> {
                        &&& (#[trigger] m1.queued()[j]).1 is Update
                        &&& m1.record_of(m1.queued()[j].0) matches Some(r) && !r.deleted
                            && r.creation_acked && r.state_mask.bits != 0
                    })
                &&& (forall|j: int|
                    0 <= j < m0.records().len() && !(#[trigger] m0.records()[j]).deleted
                        && m0.records()[j].creation_acked && m0.records()[j].state_mask.bits != 0
                        ==> m1.queued().contains(
                        (m0.records()[j].key, crate::packet_type::EntityActionType::Update),
                    ))
            }),
    {
        match &mut self.entity_manager {
            EntityManager::Server(m) => m.collect_entity_updates(),
            EntityManager::Client(_) => {},
        }
    }
}

/// The client store as a mapping from server key to variant tag and
/// field bytes.
pub open spec fn store_view(m: ClientEntityManager) -> vstd::map::Map<u16, (u16, Seq<u8>)> {
    vstd::map::Map::new(
        |k: u16| m.local_of(k) is Some,
        |k: u16| ((m.local_of(k)->Some_0).variant_tag, (m.local_of(k)->Some_0).fields@),
    )
}

/// One received entity message applied to the client store: a create
/// stores the entity and surfaces a create only for a new key; an update
/// whose mask fits the stored width rewrites the masked fields; a delete
/// removes the key; anything else — unknown key, oversized state, a mask
/// naming fields the entity does not have — is silently ignored.
pub open spec fn spec_apply_client_msg(
    store: vstd::map::Map<u16, (u16, Seq<u8>)>,
    inc: Seq<ClientEntityMessage>,
    msg: crate::packet_io::GhostEntityMsg,
) -> (vstd::map::Map<u16, (u16, Seq<u8>)>, Seq<ClientEntityMessage>) {
    match msg {
        crate::packet_io::GhostEntityMsg::Create { key, variant_tag, fields } => {
            if fields.len() <= 32 {
                (
                    store.insert(key, (variant_tag, fields)),
                    if store.dom().contains(key) {
                        inc
                    } else {
                        inc.push(ClientEntityMessage::Create { key })
                    },
                )
            } else {
                (store, inc)
            }
        },
        crate::packet_io::GhostEntityMsg::Update { key, mask_bits, bytes } => {
            if store.dom().contains(key) && store[key].1.len() <= 32 && crate::state_mask::spec_count_set(
                mask_bits,
                store[key].1.len() as int,
            ) == crate::state_mask::spec_count_set(mask_bits, 32) {
                (
                    store.insert(
                        key,
                        (
                            store[key].0,
                            crate::manifest::spec_apply_masked(store[key].1, mask_bits, bytes),
                        ),
                    ),
                    inc.push(ClientEntityMessage::Update { key }),
                )
            } else {
                (store, inc)
            }
        },
        crate::packet_io::GhostEntityMsg::Delete { key } => {
            if store.dom().contains(key) {
                (store.remove(key), inc.push(ClientEntityMessage::Delete { key }))
            } else {
                (store, inc)
            }
        },
    }
}

/// A run of received entity messages folded over the client store, in
/// order.
pub open spec fn spec_apply_client_msgs(
    store: vstd::map::Map<u16, (u16, Seq<u8>)>,
    inc: Seq<ClientEntityMessage>,
    msgs: Seq<crate::packet_io::GhostEntityMsg>,
) -> (vstd::map::Map<u16, (u16, Seq<u8>)>, Seq<ClientEntityMessage>)
    decreases msgs.len(),
{
    if msgs.len() == 0 {
        (store, inc)
    } else {
        let st = spec_apply_client_msgs(store, inc, msgs.drop_last());
        spec_apply_client_msg(st.0, st.1, msgs.last())
    }
}

/// Counting set bits sees only the positions below `upto`.
proof fn lemma_count_set_agree(b1: u32, b2: u32, upto: int)
    requires
        forall|j: u8| (j as int) < upto ==> spec_bit(b1, j) == spec_bit(b2, j),
    ensures
        crate::state_mask::spec_count_set(b1, upto) == crate::state_mask::spec_count_set(
            b2,
            upto,
        ),
    decreases upto,
{
    if upto > 0 {
        lemma_count_set_agree(b1, b2, upto - 1);
    }
}

/// Applying a masked update sees only the mask bits below the field
/// count.
proof fn lemma_apply_masked_agree(fields: Seq<u8>, b1: u32, b2: u32, bytes: Seq<u8>)
    requires
        forall|j: u8| (j as int) < fields.len() ==> spec_bit(b1, j) == spec_bit(b2, j),
    ensures
        crate::manifest::spec_apply_masked(fields, b1, bytes) == crate::manifest::spec_apply_masked(
            fields,
            b2,
            bytes,
        ),
{
    let s1 = crate::manifest::spec_apply_masked(fields, b1, bytes);
    let s2 = crate::manifest::spec_apply_masked(fields, b2, bytes);
    assert forall|i: int| 0 <= i < fields.len() implies s1[i] == s2[i] by {
        lemma_count_set_agree(b1, b2, i);
    }
    assert(s1 =~= s2);
}

/// Copies a byte vector.
fn copy_bytes(v: &Vec<u8>) -> (r: Vec<u8>)
    ensures
        r@ == v@,
{
    let mut out: Vec<u8> = Vec::new();
    let mut i: usize = 0;
    while i < v.len()
        invariant
            i <= v@.len(),
            out@ == v@.subrange(0, i as int),
        decreases v@.len() - i,
    {
        out.push(v[i]);
        i = i + 1;
        proof {
            assert(out@ =~= v@.subrange(0, i as int));
        }
    }
    proof {
        assert(v@.subrange(0, v@.len() as int) =~= v@);
    }
    out
}

/// Applies a wire update to the client store when the mask matches the
/// stored entity's width and the byte count agrees; skips it otherwise.
/// The effect is exactly one update step of the received-message fold.
fn apply_update(m: &mut ClientEntityManager, key: u16, mask_bits: u32, bytes: &[u8])
    requires
        old(m).wf(),
        bytes@.len() == crate::state_mask::spec_count_set(mask_bits, 32),
    ensures
        final(m).wf(),
        (store_view(*final(m)), final(m).incoming()) == spec_apply_client_msg(
            store_view(*old(m)),
            old(m).incoming(),
            (crate::packet_io::GhostEntityMsg::Update { key, mask_bits, bytes: bytes@ }),
        ),
{
    proof {
        assert(store_view(*old(m)).dom().contains(key) <==> old(m).local_of(key) is Some);
    }
    let ghost e0 = old(m).local_of(key);
    let flen = match m.get_local_entity(key) {
        Some(e) => e.fields.len(),
        None => {
            return ;
        },
    };
    if flen > 32 {
        return ;
    }
    let width = flen as u8;
    let raw = StateMask { bits: mask_bits, width: 32 };
    let bytes_needed = raw.count_set();
    // Build the width-bounded mask; reject the update if it names fields
    // the local entity does not have.
    let mask = StateMask::from_bits(mask_bits, width);
    let narrow_count = mask.count_set();
    proof {
        crate::state_mask::lemma_count_set_no_high_bits(mask.bits, width as int, 32);
        lemma_count_set_agree(mask.bits, mask_bits, width as int);
        assert(narrow_count == crate::state_mask::spec_count_set(mask_bits, width as int));
    }
    if narrow_count != bytes_needed {
        return ;
    }
    let ghost st0 = store_view(*m);
    let ghost inc0 = m.incoming();
    m.process_update(key, &mask, bytes);
    proof {
        lemma_apply_masked_agree(e0->Some_0.fields@, mask.bits, mask_bits, bytes@);
        assert(store_view(*m) =~= st0.insert(
            key,
            (
                st0[key].0,
                crate::manifest::spec_apply_masked(st0[key].1, mask_bits, bytes@),
            ),
        ));
    }
}

} // verus!
