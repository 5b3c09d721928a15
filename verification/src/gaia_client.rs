//! The client host: drives one connection to the server on a tick,
//! runs the handshake state machine, and hands frames to and from the
//! transport, which the surrounding program owns.
//!
//! Until a connection exists the client repeats a connectionless handshake
//! frame carrying one fixed pre-connection timestamp; the same timestamp
//! is reused on every attempt, so the server sees one connection attempt
//! however many frames were lost.

use vstd::prelude::*;
use crate::client_entity_manager::ClientEntityMessage;
use crate::event_manager::EventRecord;
use crate::manifest::{EntityManifest, EventManifest};
use crate::net_connection::{HostType, NetConnection};
use crate::packet_type::{packet_type_from_u8, spec_packet_type_to_u8, PacketType};
use crate::server_addr::SocketAddress;
use crate::timer::{spec_ringing, Timer};
use crate::timestamp::Timestamp;
use crate::wire::spec_u64_be;

verus! {

/// Connection-level options.
#[derive(Clone, Copy, PartialEq, Eq, Structural, Debug)]
pub struct Config {
    /// How often to send a keep-alive when nothing else goes out.
    pub heartbeat_interval_ms: u64,
    /// Silence longer than this drops the connection.
    pub disconnection_timeout_ms: u64,
    /// How often to repeat the connectionless handshake.
    pub send_handshake_interval_ms: u64,
}

impl Default for Config {
    /// One-second heartbeat and handshake intervals, ten-second timeout.
    fn default() -> (c: Config)
        ensures
            c.heartbeat_interval_ms == 1000,
            c.disconnection_timeout_ms == 10000,
            c.send_handshake_interval_ms == 1000,
    {
        Config {
            heartbeat_interval_ms: 1000,
            disconnection_timeout_ms: 10000,
            send_handshake_interval_ms: 1000,
        }
    }
}

/// What one step of the client surfaced to the application.
pub enum ClientEvent {
    /// The handshake completed and the connection exists.
    Connection,
    /// The connection timed out and was dropped.
    Disconnection,
    /// A reliable application event arrived.
    Event(EventRecord),
    /// Nothing of note.
    NoEvent,
}

/// The client host loop's state.
pub struct GaiaClient {
    config: Config,
    server_connection: Option<NetConnection>,
    pre_connection_timestamp: Option<Timestamp>,
    handshake_timer: Timer,
    server_address: SocketAddress,
}

impl GaiaClient {
    /// The connection, while one exists.
    pub closed spec fn connection(self) -> Option<NetConnection> {
        self.server_connection
    }

    /// The fixed timestamp used by every handshake attempt of the current
    /// connection attempt.
    pub closed spec fn pre_timestamp(self) -> Option<Timestamp> {
        self.pre_connection_timestamp
    }

    /// The options in force (heartbeat already halved).
    pub closed spec fn spec_config(self) -> Config {
        self.config
    }

    /// The handshake repeat timer.
    pub closed spec fn handshake(self) -> Timer {
        self.handshake_timer
    }

    /// The internal invariant: a live connection is well formed, and it
    /// is the consuming side — its entity layer is a client store.
    pub open spec fn wf(self) -> bool {
        self.connection() matches Some(c) ==> c.wf() && c.entities() is Client
    }

    /// Starts a client for the server at `server_address`. The heartbeat
    /// interval is halved locally so the server hears from this client at
    /// least twice per server-side timeout; the first handshake goes out
    /// on the first tick.
    pub fn connect(server_address: SocketAddress, config: Config, now_ms: u64) -> (c: GaiaClient)
        ensures
            c.wf(),
            c.connection() is None,
            c.pre_timestamp() is None,
            c.spec_config().heartbeat_interval_ms == config.heartbeat_interval_ms / 2,
            c.spec_config().disconnection_timeout_ms == config.disconnection_timeout_ms,
            c.spec_config().send_handshake_interval_ms == config.send_handshake_interval_ms,
            c.handshake().rung_manual,
            c.handshake().period_ms == config.send_handshake_interval_ms,
            c.server_addr() == server_address,
    {
        let halved = Config {
            heartbeat_interval_ms: config.heartbeat_interval_ms / 2,
            disconnection_timeout_ms: config.disconnection_timeout_ms,
            send_handshake_interval_ms: config.send_handshake_interval_ms,
        };
        let mut handshake_timer = Timer::new(halved.send_handshake_interval_ms, now_ms);
        handshake_timer.ring_manual();
        GaiaClient {
            config: halved,
            server_connection: None,
            pre_connection_timestamp: None,
            handshake_timer,
            server_address,
        }
    }

    /// The server's address.
    pub fn server_address(&self) -> (a: SocketAddress)
        ensures
            a == self.server_addr(),
    {
        self.server_address
    }

    /// The server's address, in spec terms.
    pub closed spec fn server_addr(self) -> SocketAddress {
        self.server_address
    }

    /// Whether the handshake has completed.
    pub fn is_connected(&self) -> (r: bool)
        ensures
            r == (self.connection() is Some),
    {
        self.server_connection.is_some()
    }

    /// Produces the next connectionless handshake frame when one is due:
    /// not yet connected and the handshake timer rings. The first call
    /// fixes the pre-connection timestamp from the clock; every retry
    /// reuses that same timestamp, never a fresh one.
    pub fn prepare_handshake(&mut self, now_ms: u64) -> (r: Option<Vec<u8>>)
        requires
            old(self).wf(),
        ensures
            final(self).wf(),
            final(self).connection() == old(self).connection(),
            // The timestamp is fixed on first use and then never resampled.
            old(self).pre_timestamp() matches Some(t) ==> final(self).pre_timestamp() == Some(t),
            r is Some <==> old(self).connection() is None && spec_ringing(
                old(self).handshake(),
                now_ms,
            ),
            r matches Some(frame) ==> (final(self).pre_timestamp() matches Some(t) && frame@
                == seq![spec_packet_type_to_u8(PacketType::ClientHandshake)] + spec_u64_be(t.ms)),
            // A missing timestamp is fixed from the clock, once.
            r is Some && old(self).pre_timestamp() is None ==> final(self).pre_timestamp()
                == Some(Timestamp { ms: now_ms }),
            // Sending resets the repeat timer; otherwise it is untouched.
            r is Some ==> final(self).handshake().last_reset_ms == now_ms && !final(self).handshake().rung_manual,
            r is None ==> *final(self) == *old(self),
    {
        if self.server_connection.is_some() {
            return None;
        }
        if !self.handshake_timer.ringing(now_ms) {
            return None;
        }
        let stamp = match &self.pre_connection_timestamp {
            Some(t) => *t,
            None => {
                let t = Timestamp::from_ms(now_ms);
                self.pre_connection_timestamp = Some(t);
                t
            },
        };
        let mut body: Vec<u8> = Vec::new();
        stamp.write(&mut body);
        let frame = crate::header::write_connectionless_payload(
            PacketType::ClientHandshake,
            body.as_slice(),
        );
        self.handshake_timer.reset(now_ms);
        proof {
            assert(frame@ =~= seq![spec_packet_type_to_u8(PacketType::ClientHandshake)]
                + spec_u64_be(stamp.ms));
        }
        Some(frame)
    }

    /// Drops the connection when the peer has been silent past the
    /// timeout; true exactly when the disconnection happens, so the
    /// application sees it once.
    pub fn drop_if_timed_out(&mut self, now_ms: u64) -> (r: bool)
        requires
            old(self).wf(),
        ensures
            final(self).wf(),
            r == (old(self).connection() matches Some(c) && spec_ringing(c.timeout(), now_ms)),
            r ==> final(self).connection() is None,
            !r ==> *final(self) == *old(self),
    {
        match &self.server_connection {
            Some(c) => {
                if c.should_drop(now_ms) {
                    self.server_connection = None;
                    true
                } else {
                    false
                }
            },
            None => false,
        }
    }

    /// Produces a heartbeat frame when one is due: connected, and a whole
    /// heartbeat interval has passed since the last outgoing packet.
    pub fn heartbeat_frame(&mut self, now_ms: u64) -> (r: Option<Vec<u8>>)
        requires
            old(self).wf(),
        ensures
            final(self).wf(),
            r is Some <==> (old(self).connection() matches Some(c) && spec_ringing(
                c.heartbeat(),
                now_ms,
            )),
            r is None ==> *final(self) == *old(self),
            // The frame is a bare header under the next sequence number;
            // sending it resets the heartbeat timer.
            r matches Some(frame) ==> (old(self).connection() matches Some(c0) && frame@
                == crate::header::spec_header_bytes(
                crate::header::PacketHeader {
                    packet_type: PacketType::Heartbeat,
                    local_seq: c0.acks().local_sequence(),
                    remote_ack: c0.acks().remote_sequence(),
                    ack_bitfield: c0.acks().remote_bits(),
                },
            ) && (final(self).connection() matches Some(c1) && c1.acks().local_sequence()
                == crate::seq_num::seq_next(c0.acks().local_sequence())
                && c1.heartbeat().last_reset_ms == now_ms && c1.stamp() == c0.stamp()
                && c1.events() == c0.events() && c1.entities() == c0.entities())),
    {
        match &mut self.server_connection {
            Some(c) => {
                if c.should_send_heartbeat(now_ms) {
                    let empty: Vec<u8> = Vec::new();
                    let frame = c.process_outgoing(PacketType::Heartbeat, empty.as_slice());
                    c.mark_sent(now_ms);
                    proof {
                        assert(frame@ =~= crate::header::spec_header_bytes(
                            crate::header::PacketHeader {
                                packet_type: PacketType::Heartbeat,
                                local_seq: old(self).connection()->Some_0.acks().local_sequence(),
                                remote_ack: old(
                                    self,
                                ).connection()->Some_0.acks().remote_sequence(),
                                ack_bitfield: old(self).connection()->Some_0.acks().remote_bits(),
                            },
                        ));
                    }
                    Some(frame)
                } else {
                    None
                }
            },
            None => None,
        }
    }

    /// Assembles the next data frame out of pending events and entity
    /// messages, if anything is pending.
    pub fn data_frame(
        &mut self,
        event_manifest: &EventManifest,
        entity_manifest: &EntityManifest,
        now_ms: u64,
    ) -> (r: Option<Vec<u8>>)
        requires
            old(self).wf(),
        ensures
            final(self).wf(),
            old(self).connection() is None ==> r is None && *final(self) == *old(self),
            // A packet goes out exactly when something is pending; it
            // advances the sequence and resets the heartbeat timer.
            old(self).connection() matches Some(c0) ==> {
                &&& (r is Some <==> (c0.events().outgoing_events().len() > 0 || (c0.entities()
                    matches crate::net_connection::EntityManager::Server(m) && m.queued().len()
                    > 0)))
                &&& (r is Some ==> (final(self).connection() matches Some(c1)
                    && c1.acks().local_sequence() == crate::seq_num::seq_next(
                    c0.acks().local_sequence(),
                ) && c1.heartbeat().last_reset_ms == now_ms && c1.stamp() == c0.stamp()
                    // A queue prefix moved into flight under the frame's
                    // sequence; nothing was dropped or surfaced here.
                    && c1.events().incoming_events() == c0.events().incoming_events()
                    && c1.entities() == c0.entities() && (exists|k: int|
                    {
                        &&& 0 <= k <= c0.events().outgoing_events().len()
                        &&& c1.events().outgoing_events() == c0.events().outgoing_events().skip(
                            k,
                        )
                        &&& c1.events().in_flight_events() == c0.events().in_flight_events()
                            + Seq::new(
                            k as nat,
                            |i: int|
                                crate::event_manager::InFlightEvent {
                                    packet_seq: c0.acks().local_sequence(),
                                    record: c0.events().outgoing_events()[i],
                                },
                        )
                    })))
                &&& (r is None ==> final(self).connection() == old(self).connection())
            },
    {
        match &mut self.server_connection {
            Some(c) => {
                let out = c.get_outgoing_packet(event_manifest, entity_manifest);
                if out.is_some() {
                    c.mark_sent(now_ms);
                }
                out
            },
            None => None,
        }
    }

    /// Digests one frame from the socket. Connected: hearing the peer
    /// refreshes the timeout, the header feeds the acknowledgement layer
    /// and a data body feeds the managers; nothing is surfaced directly (a
    /// heartbeat in particular surfaces nothing). Not connected: a
    /// server-handshake frame that echoes the pending timestamp — and only
    /// such a frame — completes the handshake. Anything malformed is
    /// discarded.
    pub fn receive_packet(
        &mut self,
        event_manifest: &EventManifest,
        entity_manifest: &EntityManifest,
        now_ms: u64,
        payload: &[u8],
    ) -> (r: ClientEvent)
        requires
            old(self).wf(),
        ensures
            final(self).wf(),
            // While disconnected: the handshake completes exactly on a
            // server-handshake frame echoing the pending timestamp, and the
            // new session carries that timestamp.
            old(self).connection() is None ==> {
                &&& (r is Connection <==> (payload@.len() >= 9 && payload@[0]
                    == spec_packet_type_to_u8(PacketType::ServerHandshake) && (old(self).pre_timestamp() matches Some(t) && crate::wire::spec_u64_from_be(
                    payload@.subrange(1, 9),
                ) == t.ms)))
                &&& (r is Connection ==> (final(self).connection() matches Some(c) && old(self).pre_timestamp() == Some(c.stamp()) && c.events().outgoing_events().len() == 0
                    && c.entities() is Client && c.timeout().last_reset_ms == now_ms && final(self).pre_timestamp() is None))
                &&& (!(r is Connection) ==> r is NoEvent && *final(self) == *old(self))
            },
            // While connected: the timeout refreshes, the session is kept,
            // and nothing is surfaced as an event here. A malformed frame
            // changes nothing else; a well-formed header moves the
            // acknowledgement view, and a well-formed data body is
            // applied: the incoming queue gains exactly the body's
            // not-yet-seen events and the entity store becomes the body's
            // messages folded over it.
            old(self).connection() matches Some(c0) ==> {
                &&& r is NoEvent
                &&& final(self).connection() matches Some(c1) && c1.timeout().last_reset_ms
                    == now_ms && !c1.timeout().rung_manual && c1.stamp() == c0.stamp()
                    && c1.acks().local_sequence() == c0.acks().local_sequence() && (match crate::header::spec_parse_header(
                    payload@,
                ) {
                    None => c1.events() == c0.events() && c1.entities() == c0.entities()
                        && c1.acks() == c0.acks(),
                    Some(hd) => {
                        &&& (c1.acks().remote_sequence(), c1.acks().remote_bits())
                            == crate::ack_manager::spec_receive_update(
                            c0.acks().remote_sequence(),
                            c0.acks().remote_bits(),
                            hd.local_seq,
                        )
                        &&& (!(hd.packet_type is Data) ==> c1.events().incoming_events()
                            == c0.events().incoming_events() && c1.entities() == c0.entities())
                        &&& (hd.packet_type is Data ==> (crate::packet_io::spec_parse_body(
                            payload@.subrange(
                                crate::header::HEADER_SIZE as int,
                                payload@.len() as int,
                            ),
                            *event_manifest,
                            *entity_manifest,
                        ) matches Some(pb) ==> {
                            &&& crate::packet_io::events_view(c1.events().incoming_events())
                                == crate::packet_io::events_view(c0.events().incoming_events())
                                + crate::event_manager::spec_delivered(
                                c0.events().seen_window(),
                                hd.local_seq,
                                pb.0,
                                0,
                            ).0
                            &&& (c0.entities() matches crate::net_connection::EntityManager::Client(m0) ==> (c1.entities() matches crate::net_connection::EntityManager::Client(m1) && (
                            crate::net_connection::store_view(m1),
                            m1.incoming(),
                            ) == crate::net_connection::spec_apply_client_msgs(
                                crate::net_connection::store_view(m0),
                                m0.incoming(),
                                pb.1,
                            )))
                        }))
                    },
                })
                &&& final(self).pre_timestamp() == old(self).pre_timestamp()
            },
    {
        match &mut self.server_connection {
            Some(c) => {
                c.mark_heard(now_ms);
                let (header, body) = match c.process_incoming(payload) {
                    Some(x) => x,
                    None => {
                        return ClientEvent::NoEvent;
                    },
                };
                match header.packet_type {
                    PacketType::Data => {
                        c.process_data(
                            event_manifest,
                            entity_manifest,
                            header.local_seq,
                            body.as_slice(),
                        );
                    },
                    _ => {},
                }
                ClientEvent::NoEvent
            },
            None => {
                if payload.len() < 1 {
                    return ClientEvent::NoEvent;
                }
                let is_server_handshake = match packet_type_from_u8(payload[0]) {
                    Some(PacketType::ServerHandshake) => true,
                    _ => false,
                };
                if !is_server_handshake {
                    return ClientEvent::NoEvent;
                }
                let pending = match &self.pre_connection_timestamp {
                    Some(t) => *t,
                    None => {
                        return ClientEvent::NoEvent;
                    },
                };
                let echoed = match read_body_timestamp(payload) {
                    Some(t) => t,
                    None => {
                        return ClientEvent::NoEvent;
                    },
                };
                if echoed.ms != pending.ms {
                    return ClientEvent::NoEvent;
                }
                let conn = NetConnection::new(
                    HostType::Client,
                    self.server_address,
                    self.config.heartbeat_interval_ms,
                    self.config.disconnection_timeout_ms,
                    pending,
                    now_ms,
                );
                self.server_connection = Some(conn);
                self.pre_connection_timestamp = None;
                ClientEvent::Connection
            },
        }
    }

    /// Queues a reliable event for the server; dropped while disconnected.
    pub fn send_event(&mut self, manifest: &EventManifest, naia_id: u16, payload: Vec<u8>)
        requires
            old(self).wf(),
            manifest.spec_payload_len(naia_id) == Some(payload@.len() as u8),
            payload@.len() <= 255,
        ensures
            final(self).wf(),
            old(self).connection() is None ==> *final(self) == *old(self),
            // The event joins the back of the reliable queue.
            old(self).connection() matches Some(c0) ==> (final(self).connection() matches Some(c1)
                && c1.events().outgoing_events() == c0.events().outgoing_events().push(
                EventRecord { naia_id, payload },
            ) && c1.events().in_flight_events() == c0.events().in_flight_events() && c1.acks()
                == c0.acks() && c1.stamp() == c0.stamp()),
    {
        match &mut self.server_connection {
            Some(c) => c.queue_event(manifest, naia_id, payload),
            None => {},
        }
    }

    /// The next received application event, oldest first; the returned
    /// event leaves the queue.
    pub fn get_incoming_event(&mut self) -> (r: Option<EventRecord>)
        requires
            old(self).wf(),
        ensures
            final(self).wf(),
            old(self).connection() is None ==> r is None && *final(self) == *old(self),
            old(self).connection() matches Some(c0) ==> (final(self).connection() matches Some(c1)
                && (match r {
                Some(rec) => c0.events().incoming_events().len() > 0 && rec
                    == c0.events().incoming_events()[0] && c1.events().incoming_events()
                    == c0.events().incoming_events().subrange(
                    1,
                    c0.events().incoming_events().len() as int,
                ),
                None => c0.events().incoming_events().len() == 0,
            }) && c1.events().outgoing_events() == c0.events().outgoing_events() && c1.entities()
                == c0.entities() && c1.acks() == c0.acks()),
    {
        match &mut self.server_connection {
            Some(c) => c.get_incoming_event(),
            None => None,
        }
    }

    /// The next entity replication message, oldest first; the returned
    /// message leaves the queue.
    pub fn get_incoming_entity_message(&mut self) -> (r: Option<ClientEntityMessage>)
        requires
            old(self).wf(),
        ensures
            final(self).wf(),
            old(self).connection() is None ==> r is None && *final(self) == *old(self),
            old(self).connection() matches Some(c0) ==> (final(self).connection() matches Some(c1)
                && (c0.entities() matches crate::net_connection::EntityManager::Client(m0) ==> (
            c1.entities() matches crate::net_connection::EntityManager::Client(m1) && m1.entities()
                == m0.entities() && (match r {
                Some(msg) => m0.incoming().len() > 0 && msg == m0.incoming()[0] && m1.incoming()
                    == m0.incoming().subrange(1, m0.incoming().len() as int),
                None => m0.incoming().len() == 0 && m1.incoming() == m0.incoming(),
            })))),
    {
        match &mut self.server_connection {
            Some(c) => c.get_incoming_entity_message(),
            None => None,
        }
    }

    /// The client-side entity stored under the server's key.
    pub fn get_local_entity(&self, key: u16) -> (r: Option<&crate::manifest::Entity>)
        ensures
            match self.connection() {
                Some(c) => match c.entities() {
                    crate::net_connection::EntityManager::Client(m) => match r {
                        Some(e) => m.local_of(key) == Some(*e),
                        None => m.local_of(key) is None,
                    },
                    crate::net_connection::EntityManager::Server(_) => r is None,
                },
                None => r is None,
            },
    {
        match &self.server_connection {
            Some(c) => c.get_local_entity(key),
            None => None,
        }
    }

    /// The next outgoing sequence number, while connected.
    pub fn get_sequence_number(&mut self) -> (r: Option<u16>)
        ensures
            r == match old(self).connection() {
                Some(c) => Some(c.acks().local_sequence()),
                None => None::<u16>,
            },
            *final(self) == *old(self),
    {
        match &self.server_connection {
            Some(c) => Some(c.get_next_packet_index()),
            None => None,
        }
    }
}

/// Reads the timestamp carried after the 1-byte connectionless header.
fn read_body_timestamp(payload: &[u8]) -> (r: Option<Timestamp>)
    requires
        payload@.len() >= 1,
    ensures
        r is Some <==> payload@.len() >= 9,
        r matches Some(t) ==> t.ms == crate::wire::spec_u64_from_be(payload@.subrange(1, 9)),
{
    if payload.len() < 9 {
        return None;
    }
    Some(Timestamp { ms: crate::wire::read_u64_be(payload, 1) })
}

} // verus!
