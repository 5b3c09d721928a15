//! The server host: one connection per client address, the handshake
//! reply logic, and fan-out of entity changes to every connected peer.
//!
//! A handshake whose timestamp matches an existing connection for the same
//! address is answered again (idempotent); a different timestamp means the
//! client restarted, so the old session is torn down and replaced and the
//! application sees a disconnection followed by a connection.

use vstd::prelude::*;
use crate::event_manager::EventRecord;
use crate::gaia_client::Config;
use crate::manifest::{entity_wf, Entity, EntityManifest, EventManifest};
use crate::net_connection::{HostType, NetConnection};
use crate::packet_type::{packet_type_from_u8, spec_packet_type_to_u8, PacketType};
use crate::server_addr::SocketAddress;
use crate::timestamp::Timestamp;
use crate::wire::spec_u64_be;

verus! {

/// What one server step surfaced to the application.
pub enum ServerEvent {
    /// A client completed the handshake.
    Connection(SocketAddress),
    /// A client's session ended (timeout or replacement).
    Disconnection(SocketAddress),
    /// A reliable application event arrived from a client.
    Event(SocketAddress, EventRecord),
}

/// The connection stored for `addr`, first match.
pub open spec fn spec_conn(s: Seq<(SocketAddress, NetConnection)>, addr: SocketAddress) -> Option<
    NetConnection,
>
    decreases s.len(),
{
    if s.len() == 0 {
        None
    } else if s[0].0 == addr {
        Some(s[0].1)
    } else {
        spec_conn(s.skip(1), addr)
    }
}

/// The server host loop's state.
pub struct GaiaServer {
    config: Config,
    connections: Vec<(SocketAddress, NetConnection)>,
}

impl GaiaServer {
    /// The per-address connections.
    pub closed spec fn connections(self) -> Seq<(SocketAddress, NetConnection)> {
        self.connections@
    }

    /// The connection for an address, if one exists.
    pub open spec fn connection_of(self, addr: SocketAddress) -> Option<NetConnection> {
        spec_conn(self.connections(), addr)
    }

    /// The options in force.
    pub closed spec fn spec_config(self) -> Config {
        self.config
    }

    /// Addresses are unique and every connection is well formed.
    pub open spec fn wf(self) -> bool {
        &&& forall|j1: int, j2: int|
            0 <= j1 < j2 < self.connections().len() ==> (#[trigger] self.connections()[j1]).0 != (
            #[trigger] self.connections()[j2]).0
        &&& forall|j: int|
            0 <= j < self.connections().len() ==> (#[trigger] self.connections()[j]).1.wf()
    }

    /// A server with no clients yet.
    pub fn new(config: Config) -> (s: GaiaServer)
        ensures
            s.wf(),
            s.connections().len() == 0,
            s.spec_config() == config,
    {
        GaiaServer { config, connections: Vec::new() }
    }

    /// Index of the connection for `addr`, if any.
    fn find_index(&self, addr: SocketAddress) -> (r: Option<usize>)
        ensures
            match r {
                Some(i) => {
                    &&& i < self.connections().len()
                    &&& self.connections()[i as int].0 == addr
                    &&& self.connection_of(addr) == Some(self.connections()[i as int].1)
                },
                None => self.connection_of(addr) is None,
            },
    {
        let mut i: usize = 0;
        proof {
            assert(self.connections@.skip(0) =~= self.connections@);
        }
        while i < self.connections.len()
            invariant
                i <= self.connections@.len(),
                spec_conn(self.connections@, addr) == spec_conn(
                    self.connections@.skip(i as int),
                    addr,
                ),
            decreases self.connections@.len() - i,
        {
            proof {
                assert(self.connections@.skip(i as int)[0] == self.connections@[i as int]);
                assert(self.connections@.skip(i as int).skip(1) =~= self.connections@.skip(
                    i as int + 1,
                ));
            }
            let same = self.connections[i].0.ip0 == addr.ip0 && self.connections[i].0.ip1
                == addr.ip1 && self.connections[i].0.ip2 == addr.ip2 && self.connections[i].0.ip3
                == addr.ip3 && self.connections[i].0.port == addr.port;
            if same {
                proof {
                    assert(self.connections@[i as int].0 == addr);
                }
                return Some(i);
            }
            proof {
                assert(self.connections@[i as int].0 != addr);
            }
            i = i + 1;
        }
        None
    }

    /// Whether a connection exists for `addr`.
    pub fn has_connection(&self, addr: SocketAddress) -> (r: bool)
        ensures
            r == (self.connection_of(addr) is Some),
    {
        self.find_index(addr).is_some()
    }

    /// Handles a connectionless client-handshake frame from `addr`. The
    /// reply always echoes the client's timestamp. A new address gets a
    /// connection and one connection event; the same address with the same
    /// timestamp is answered again without new state; the same address
    /// with a different timestamp is a restarted client, so the old
    /// session's state is discarded and the application sees a
    /// disconnection then a connection.
    pub fn handle_client_handshake(&mut self, addr: SocketAddress, payload: &[u8], now_ms: u64)
        -> (r: (Vec<ServerEvent>, Option<Vec<u8>>))
        requires
            old(self).wf(),
        ensures
            final(self).wf(),
            // Frames that are too short, or whose type byte is not the
            // client-handshake type, are ignored; everything else is
            // answered.
            !(payload@.len() >= 9 && payload@[0] == spec_packet_type_to_u8(
                PacketType::ClientHandshake,
            )) ==> r.1 is None && r.0@.len() == 0 && *final(self) == *old(self),
            payload@.len() >= 9 && payload@[0] == spec_packet_type_to_u8(
                PacketType::ClientHandshake,
            ) ==> r.1 is Some,
            r.1 matches Some(reply) ==> (final(self).connection_of(addr) matches Some(c) && reply@
                == seq![spec_packet_type_to_u8(PacketType::ServerHandshake)] + spec_u64_be(
                c.stamp().ms,
            ) && c.stamp().ms == crate::wire::spec_u64_from_be(payload@.subrange(1, 9))),
            // A new address: one connection event, a fresh session stored.
            payload@.len() >= 9 && payload@[0] == spec_packet_type_to_u8(
                PacketType::ClientHandshake,
            ) && old(self).connection_of(addr) is None ==> {
                &&& r.0@ == seq![ServerEvent::Connection(addr)]
                &&& final(self).connection_of(addr) matches Some(c) && c.events().outgoing_events().len() == 0
                    && c.events().in_flight_events().len() == 0 && c.entities() is Server
            },
            // The same timestamp again: answered idempotently, no events,
            // no state change.
            (payload@.len() >= 9 && payload@[0] == spec_packet_type_to_u8(
                PacketType::ClientHandshake,
            ) && (old(self).connection_of(addr) matches Some(c0)
                && c0.stamp().ms == crate::wire::spec_u64_from_be(payload@.subrange(1, 9))))
                ==> r.0@.len() == 0 && final(self).connections() == old(self).connections(),
            // A different timestamp: the client restarted; the old session's
            // pending state is discarded and the application sees a
            // disconnection then a connection.
            (payload@.len() >= 9 && payload@[0] == spec_packet_type_to_u8(
                PacketType::ClientHandshake,
            ) && (old(self).connection_of(addr) matches Some(c0)
                && c0.stamp().ms != crate::wire::spec_u64_from_be(payload@.subrange(1, 9))))
                ==> {
                &&& r.0@ == seq![ServerEvent::Disconnection(addr), ServerEvent::Connection(addr)]
                &&& final(self).connection_of(addr) matches Some(c) && c.events().outgoing_events().len() == 0
                    && c.events().in_flight_events().len() == 0 && c.entities() is Server
            },
            // Other addresses' sessions are untouched.
            forall|a: SocketAddress|
                a != addr ==> #[trigger] final(self).connection_of(a) == old(self).connection_of(
                    a,
                ),
    {
        if payload.len() < 9 {
            return (Vec::new(), None);
        }
        // Only a client-handshake frame may open or refresh a session:
        // any other type byte routed here is a stray frame.
        let is_client_handshake = match packet_type_from_u8(payload[0]) {
            Some(PacketType::ClientHandshake) => true,
            _ => false,
        };
        if !is_client_handshake {
            return (Vec::new(), None);
        }
        let stamp = Timestamp { ms: crate::wire::read_u64_be(payload, 1) };
        let mut events: Vec<ServerEvent> = Vec::new();
        match self.find_index(addr) {
            Some(i) => {
                let same = self.connections[i].1.stamp_value().ms == stamp.ms;
                if !same {
                    // The client restarted: replace the session, dropping
                    // all pending outgoing state of the old one.
                    let fresh = NetConnection::new(
                        HostType::Server,
                        addr,
                        self.config.heartbeat_interval_ms,
                        self.config.disconnection_timeout_ms,
                        stamp,
                        now_ms,
                    );
                    let ghost pre = self.connections@;
                    let slot = &mut self.connections[i];
                    slot.1 = fresh;
                    proof {
                        assert(self.connections@ =~= pre.update(
                            i as int,
                            self.connections@[i as int],
                        ));
                        lemma_conn_update(pre, i as int, self.connections@[i as int]);
                    }
                    events.push(ServerEvent::Disconnection(addr));
                    events.push(ServerEvent::Connection(addr));
                    proof {
                        assert(events@ =~= seq![
                            ServerEvent::Disconnection(addr),
                            ServerEvent::Connection(addr),
                        ]);
                    }
                }
            },
            None => {
                let fresh = NetConnection::new(
                    HostType::Server,
                    addr,
                    self.config.heartbeat_interval_ms,
                    self.config.disconnection_timeout_ms,
                    stamp,
                    now_ms,
                );
                proof {
                    lemma_conn_push(self.connections@, (addr, fresh), addr);
                    assert forall|a: SocketAddress| a != addr implies spec_conn(
                        self.connections@.push((addr, fresh)),
                        a,
                    ) == spec_conn(self.connections@, a) by {
                        lemma_conn_push(self.connections@, (addr, fresh), a);
                    }
                }
                let ghost pre = self.connections@;
                self.connections.push((addr, fresh));
                proof {
                    assert forall|j1: int, j2: int|
                        0 <= j1 < j2 < self.connections@.len() implies (
                    #[trigger] self.connections@[j1]).0 != (#[trigger] self.connections@[j2]).0 by {
                        if j2 == self.connections@.len() - 1 {
                            lemma_conn_index_any(pre, j1);
                            assert(self.connections@[j1] == pre[j1]);
                        }
                    }
                }
                events.push(ServerEvent::Connection(addr));
                proof {
                    assert(events@ =~= seq![ServerEvent::Connection(addr)]);
                }
            },
        }
        let idx = match self.find_index(addr) {
            Some(i) => i,
            None => {
                proof {
                    assert(false);
                }
                0
            },
        };
        let mut body: Vec<u8> = Vec::new();
        let reply_stamp = self.connections[idx].1.stamp_value();
        reply_stamp.write(&mut body);
        let reply = crate::header::write_connectionless_payload(
            PacketType::ServerHandshake,
            body.as_slice(),
        );
        proof {
            assert(reply@ =~= seq![spec_packet_type_to_u8(PacketType::ServerHandshake)]
                + spec_u64_be(self.connections@[idx as int].1.stamp().ms));
        }
        (events, Some(reply))
    }

    /// Digests one sequenced frame from `addr`: hearing the peer refreshes
    /// that connection's timeout; the acknowledgement layer digests the
    /// header and a data body feeds the managers. Unknown addresses and
    /// malformed frames are discarded.
    pub fn receive_packet(
        &mut self,
        event_manifest: &EventManifest,
        entity_manifest: &EntityManifest,
        addr: SocketAddress,
        payload: &[u8],
        now_ms: u64,
    )
        requires
            old(self).wf(),
        ensures
            final(self).wf(),
            old(self).connection_of(addr) is None ==> *final(self) == *old(self),
            // The timeout refreshes; a malformed frame changes nothing
            // else; a well-formed header moves the acknowledgement view,
            // and a well-formed data body is applied: the incoming queue
            // gains exactly the body's not-yet-seen events.
            old(self).connection_of(addr) matches Some(c0) ==> (final(self).connection_of(addr)
                matches Some(c1) && c1.timeout().last_reset_ms == now_ms
                && !c1.timeout().rung_manual && c1.stamp() == c0.stamp()
                && c1.acks().local_sequence() == c0.acks().local_sequence() && (match crate::header::spec_parse_header(
                payload@,
            ) {
                None => c1.events() == c0.events() && c1.entities() == c0.entities()
                    && c1.acks() == c0.acks(),
                Some(hd) => {
                    &&& (c1.acks().remote_sequence(), c1.acks().remote_bits())
                        == crate::ack_manager::spec_receive_update(
                        c0.acks().remote_sequence(),
                        c0.acks().remote_bits(),
                        hd.local_seq,
                    )
                    &&& (!(hd.packet_type is Data) ==> c1.events().incoming_events()
                        == c0.events().incoming_events())
                    &&& (hd.packet_type is Data ==> (crate::packet_io::spec_parse_body(
                        payload@.subrange(
                            crate::header::HEADER_SIZE as int,
                            payload@.len() as int,
                        ),
                        *event_manifest,
                        *entity_manifest,
                    ) matches Some(pb) ==> crate::packet_io::events_view(
                        c1.events().incoming_events(),
                    ) == crate::packet_io::events_view(c0.events().incoming_events())
                        + crate::event_manager::spec_delivered(
                        c0.events().seen_window(),
                        hd.local_seq,
                        pb.0,
                        0,
                    ).0))
                },
            })),
            forall|a: SocketAddress|
                a != addr ==> #[trigger] final(self).connection_of(a) == old(self).connection_of(
                    a,
                ),
    {
        let i = match self.find_index(addr) {
            Some(i) => i,
            None => {
                return ;
            },
        };
        let ghost pre = self.connections@;
        let slot = &mut self.connections[i];
        slot.1.mark_heard(now_ms);
        let (header, body) = match slot.1.process_incoming(payload) {
            Some(x) => x,
            None => {
                proof {
                    assert(self.connections@ =~= pre.update(
                        i as int,
                        self.connections@[i as int],
                    ));
                    lemma_conn_table_wf(pre, self.connections@, i as int);
                    lemma_conn_update(pre, i as int, self.connections@[i as int]);
                }
                return ;
            },
        };
        match header.packet_type {
            PacketType::Data => {
                slot.1.process_data(
                    event_manifest,
                    entity_manifest,
                    header.local_seq,
                    body.as_slice(),
                );
            },
            _ => {},
        }
        proof {
            assert(self.connections@ =~= pre.update(i as int, self.connections@[i as int]));
            lemma_conn_table_wf(pre, self.connections@, i as int);
            lemma_conn_update(pre, i as int, self.connections@[i as int]);
        }
    }

    /// The next application event from `addr`, oldest first; the returned
    /// event leaves that connection's queue.
    pub fn get_incoming_event(&mut self, addr: SocketAddress) -> (r: Option<EventRecord>)
        requires
            old(self).wf(),
        ensures
            final(self).wf(),
            old(self).connection_of(addr) is None ==> r is None && *final(self) == *old(self),
            old(self).connection_of(addr) matches Some(c0) ==> (final(self).connection_of(addr)
                matches Some(c1) && (match r {
                Some(rec) => c0.events().incoming_events().len() > 0 && rec
                    == c0.events().incoming_events()[0] && c1.events().incoming_events()
                    == c0.events().incoming_events().subrange(
                    1,
                    c0.events().incoming_events().len() as int,
                ),
                None => c0.events().incoming_events().len() == 0,
            }) && c1.events().outgoing_events() == c0.events().outgoing_events()),
            forall|a: SocketAddress|
                a != addr ==> #[trigger] final(self).connection_of(a) == old(self).connection_of(
                    a,
                ),
    {
        let i = match self.find_index(addr) {
            Some(i) => i,
            None => {
                return None;
            },
        };
        let ghost pre = self.connections@;
        let slot = &mut self.connections[i];
        let r = slot.1.get_incoming_event();
        proof {
            assert(self.connections@ =~= pre.update(i as int, self.connections@[i as int]));
            lemma_conn_table_wf(pre, self.connections@, i as int);
            lemma_conn_update(pre, i as int, self.connections@[i as int]);
        }
        r
    }

    /// Produces a heartbeat frame for `addr` when one is due: a connection
    /// exists and a heartbeat interval has passed since its last send.
    pub fn heartbeat_frame(&mut self, addr: SocketAddress, now_ms: u64) -> (r: Option<Vec<u8>>)
        requires
            old(self).wf(),
        ensures
            final(self).wf(),
            r is Some <==> (old(self).connection_of(addr) matches Some(c)
                && crate::timer::spec_ringing(c.heartbeat(), now_ms)),
            r matches Some(frame) ==> (old(self).connection_of(addr) matches Some(c0) && frame@
                == crate::header::spec_header_bytes(
                crate::header::PacketHeader {
                    packet_type: PacketType::Heartbeat,
                    local_seq: c0.acks().local_sequence(),
                    remote_ack: c0.acks().remote_sequence(),
                    ack_bitfield: c0.acks().remote_bits(),
                },
            ) && (final(self).connection_of(addr) matches Some(c1)
                && c1.heartbeat().last_reset_ms == now_ms && c1.acks().local_sequence()
                == crate::seq_num::seq_next(c0.acks().local_sequence()))),
            forall|a: SocketAddress|
                a != addr ==> #[trigger] final(self).connection_of(a) == old(self).connection_of(
                    a,
                ),
    {
        let i = match self.find_index(addr) {
            Some(i) => i,
            None => {
                return None;
            },
        };
        let ghost pre = self.connections@;
        let slot = &mut self.connections[i];
        let r = if slot.1.should_send_heartbeat(now_ms) {
            let empty: Vec<u8> = Vec::new();
            let frame = slot.1.process_outgoing(PacketType::Heartbeat, empty.as_slice());
            slot.1.mark_sent(now_ms);
            proof {
                assert(frame@ =~= crate::header::spec_header_bytes(
                    crate::header::PacketHeader {
                        packet_type: PacketType::Heartbeat,
                        local_seq: pre[i as int].1.acks().local_sequence(),
                        remote_ack: pre[i as int].1.acks().remote_sequence(),
                        ack_bitfield: pre[i as int].1.acks().remote_bits(),
                    },
                ));
            }
            Some(frame)
        } else {
            None
        };
        proof {
            assert(self.connections@ =~= pre.update(i as int, self.connections@[i as int]));
            lemma_conn_table_wf(pre, self.connections@, i as int);
            lemma_conn_update(pre, i as int, self.connections@[i as int]);
        }
        r
    }

    /// Drops the connection for `addr` when it has timed out; true exactly
    /// when the drop happens.
    pub fn drop_if_timed_out(&mut self, addr: SocketAddress, now_ms: u64) -> (r: bool)
        requires
            old(self).wf(),
        ensures
            final(self).wf(),
            // The drop happens exactly when a connection exists and its
            // timeout rings; it is then reported exactly once.
            r == (old(self).connection_of(addr) matches Some(c) && crate::timer::spec_ringing(
                c.timeout(),
                now_ms,
            )),
            r ==> final(self).connection_of(addr) is None,
            r ==> forall|a: SocketAddress|
                a != addr ==> #[trigger] final(self).connection_of(a) == old(self).connection_of(
                    a,
                ),
            !r ==> *final(self) == *old(self),
    {
        let i = match self.find_index(addr) {
            Some(i) => i,
            None => {
                return false;
            },
        };
        if self.connections[i].1.should_drop(now_ms) {
            let ghost pre = self.connections@;
            self.connections.remove(i);
            proof {
                assert(self.connections@ =~= pre.remove(i as int));
                lemma_conn_remove(pre, i as int);
            }
            true
        } else {
            false
        }
    }
}

impl GaiaServer {
    /// Queues a reliable event for one client.
    pub fn send_event(
        &mut self,
        addr: SocketAddress,
        manifest: &EventManifest,
        naia_id: u16,
        payload: Vec<u8>,
    )
        requires
            old(self).wf(),
            manifest.spec_payload_len(naia_id) == Some(payload@.len() as u8),
            payload@.len() <= 255,
        ensures
            final(self).wf(),
            old(self).connection_of(addr) is None ==> *final(self) == *old(self),
            // The event joins the back of that client's reliable queue.
            old(self).connection_of(addr) matches Some(c0) ==> (final(self).connection_of(addr)
                matches Some(c1) && c1.events().outgoing_events()
                == c0.events().outgoing_events().push(EventRecord { naia_id, payload })
                && c1.events().in_flight_events() == c0.events().in_flight_events() && c1.acks()
                == c0.acks()),
            forall|a: SocketAddress|
                a != addr ==> #[trigger] final(self).connection_of(a) == old(self).connection_of(
                    a,
                ),
    {
        let i = match self.find_index(addr) {
            Some(i) => i,
            None => {
                return ;
            },
        };
        let ghost pre = self.connections@;
        let slot = &mut self.connections[i];
        slot.1.queue_event(manifest, naia_id, payload);
        proof {
            assert(self.connections@ =~= pre.update(i as int, self.connections@[i as int]));
            lemma_conn_table_wf(pre, self.connections@, i as int);
            lemma_conn_update(pre, i as int, self.connections@[i as int]);
        }
    }

    /// Assembles the next data frame for `addr`, if anything is pending.
    /// Every queued event payload fits the MTU by construction.
    pub fn data_frame(
        &mut self,
        addr: SocketAddress,
        event_manifest: &EventManifest,
        entity_manifest: &EntityManifest,
        now_ms: u64,
    ) -> (r: Option<Vec<u8>>)
        requires
            old(self).wf(),
        ensures
            final(self).wf(),
            old(self).connection_of(addr) is None ==> r is None && *final(self) == *old(self),
            // A packet goes out exactly when that client has pending items,
            // and sending it resets the heartbeat and advances the sequence.
            old(self).connection_of(addr) matches Some(c0) ==> {
                &&& (r is Some <==> (c0.events().outgoing_events().len() > 0 || (c0.entities()
                    matches crate::net_connection::EntityManager::Server(m) && m.queued().len()
                    > 0)))
                &&& (r is Some ==> (final(self).connection_of(addr) matches Some(c1)
                    && c1.acks().local_sequence() == crate::seq_num::seq_next(
                    c0.acks().local_sequence(),
                ) && c1.heartbeat().last_reset_ms == now_ms
                    // A queue prefix moved into flight under the frame's
                    // sequence; nothing was dropped or surfaced here.
                    && c1.events().incoming_events() == c0.events().incoming_events() && (exists|
                    k: int,
                |
                    {
                        &&& 0 <= k <= c0.events().outgoing_events().len()
                        &&& c1.events().outgoing_events() == c0.events().outgoing_events().skip(
                            k,
                        )
                        &&& c1.events().in_flight_events() == c0.events().in_flight_events()
                            + Seq::new(
                            k as nat,
                            |i: int|
                                crate::event_manager::InFlightEvent {
                                    packet_seq: c0.acks().local_sequence(),
                                    record: c0.events().outgoing_events()[i],
                                },
                        )
                    }) && (c0.entities() matches crate::net_connection::EntityManager::Server(
                    m0,
                ) ==> (c1.entities() matches crate::net_connection::EntityManager::Server(m1)
                    && (exists|n: int|
                    0 <= n <= m0.queued().len() && m1.queued() == m0.queued().skip(n)) && (
                forall|key: u16, b: u8|
                    b < 32 ==> #[trigger] m1.tracked_bit(key, b) == m0.tracked_bit(key, b))))))
            },
            forall|a: SocketAddress|
                a != addr ==> #[trigger] final(self).connection_of(a) == old(self).connection_of(
                    a,
                ),
    {
        let i = match self.find_index(addr) {
            Some(i) => i,
            None => {
                return None;
            },
        };
        let ghost pre = self.connections@;
        let slot = &mut self.connections[i];
        let out = slot.1.get_outgoing_packet(event_manifest, entity_manifest);
        if out.is_some() {
            slot.1.mark_sent(now_ms);
        }
        proof {
            assert(self.connections@ =~= pre.update(i as int, self.connections@[i as int]));
            lemma_conn_table_wf(pre, self.connections@, i as int);
            lemma_conn_update(pre, i as int, self.connections@[i as int]);
        }
        out
    }

    /// Starts replicating an entity to every connected peer that does not
    /// already track the key: afterwards every server-side connection has
    /// a record under the key, and no other record moved.
    pub fn add_entity(&mut self, key: u16, entity: &Entity)
        requires
            old(self).wf(),
            entity_wf(*entity),
        ensures
            final(self).wf(),
            final(self).connections().len() == old(self).connections().len(),
            forall|j: int|
                0 <= j < final(self).connections().len() ==> {
                    &&& (#[trigger] final(self).connections()[j]).0 == old(self).connections()[j].0
                    &&& (old(self).connections()[j].1.entities() matches
                        crate::net_connection::EntityManager::Server(m0) ==> (final(self).connections()[j].1.entities() matches
                        crate::net_connection::EntityManager::Server(m1) && m1.record_of(
                        key,
                    ) is Some && (forall|k2: u16|
                        k2 != key ==> #[trigger] m1.record_of(k2) == m0.record_of(k2))))
                    &&& (old(self).connections()[j].1.entities() is Client ==> final(self).connections()[j] == old(self).connections()[j])
                },
    {
        let mut i: usize = 0;
        while i < self.connections.len()
            invariant
                self.wf(),
                entity_wf(*entity),
                i <= self.connections@.len(),
                self.connections@.len() == old(self).connections@.len(),
                forall|j: int|
                    i as int <= j < self.connections@.len() ==> #[trigger] self.connections@[j]
                        == old(self).connections@[j],
                forall|j: int|
                    0 <= j < i as int ==> {
                        &&& (#[trigger] self.connections@[j]).0 == old(self).connections@[j].0
                        &&& (old(self).connections@[j].1.entities() matches
                            crate::net_connection::EntityManager::Server(m0) ==> (
                        self.connections@[j].1.entities() matches
                            crate::net_connection::EntityManager::Server(m1) && m1.record_of(
                            key,
                        ) is Some && (forall|k2: u16|
                            k2 != key ==> #[trigger] m1.record_of(k2) == m0.record_of(k2))))
                        &&& (old(self).connections@[j].1.entities() is Client ==> self.connections@[j]
                            == old(self).connections@[j])
                    },
            decreases self.connections@.len() - i,
        {
            let ghost pre = self.connections@;
            proof {
                assert(self.connections()[i as int].1.wf());
                assert(self.connections()[i as int] == self.connections@[i as int]);
                assert(self.connections() == self.connections@);
            }
            let slot = &mut self.connections[i];
            if !slot.1.has_entity(key) {
                let copy = entity.duplicate();
                proof {
                    assert(entity_wf(copy));
                }
                slot.1.add_entity(key, copy);
            }
            proof {
                assert(self.connections@ =~= pre.update(i as int, self.connections@[i as int]));
                lemma_conn_table_wf(pre, self.connections@, i as int);
            }
            i = i + 1;
        }
    }

    /// Fans a field mutation out to every connection that replicates the
    /// key: the fan-out the application calls on every entity mutation.
    /// Wherever the entity is live, its field bit becomes tracked, and no
    /// connection drops a tracked dirty bit.
    pub fn mutate_entity(&mut self, key: u16, field_index: u8, value: u8)
        requires
            old(self).wf(),
        ensures
            final(self).wf(),
            final(self).connections().len() == old(self).connections().len(),
            forall|j: int|
                0 <= j < final(self).connections().len() ==> {
                    &&& (#[trigger] final(self).connections()[j]).0 == old(self).connections()[j].0
                    &&& (old(self).connections()[j].1.entities() matches
                        crate::net_connection::EntityManager::Server(m0) ==> (final(self).connections()[j].1.entities() matches
                        crate::net_connection::EntityManager::Server(m1) && ((
                    m0.record_of(key) matches Some(r) && !r.deleted && (field_index as int)
                        < r.entity.fields@.len()) ==> m1.tracked_bit(key, field_index)) && (m0.record_of(key) matches Some(r0) && !r0.deleted && (field_index as int) < r0.entity.fields@.len() ==> (m1.record_of(key) matches Some(r1) && r1.entity.fields@ == m0.record_of(key)->Some_0.entity.fields@.update(field_index as int, value) && m1.queued() == m0.queued() && m1.in_flight() == m0.in_flight() && (forall|k2: u16| k2 != key ==> #[trigger] m1.record_of(k2) == m0.record_of(k2)))) && (!(m0.record_of(key) is Some && !m0.record_of(key)->Some_0.deleted && (field_index as int) < m0.record_of(key)->Some_0.entity.fields@.len()) ==> m1 == m0) && (
                    forall|k2: u16, b: u8|
                        b < 32 && m0.tracked_bit(k2, b) ==> #[trigger] m1.tracked_bit(k2, b))))
                    &&& (old(self).connections()[j].1.entities() is Client ==> final(self).connections()[j] == old(self).connections()[j])
                },
    {
        let mut i: usize = 0;
        while i < self.connections.len()
            invariant
                self.wf(),
                i <= self.connections@.len(),
                self.connections@.len() == old(self).connections@.len(),
                forall|j: int|
                    i as int <= j < self.connections@.len() ==> #[trigger] self.connections@[j]
                        == old(self).connections@[j],
                forall|j: int|
                    0 <= j < i as int ==> {
                        &&& (#[trigger] self.connections@[j]).0 == old(self).connections@[j].0
                        &&& (old(self).connections@[j].1.entities() matches
                            crate::net_connection::EntityManager::Server(m0) ==> (
                        self.connections@[j].1.entities() matches
                            crate::net_connection::EntityManager::Server(m1) && ((
                        m0.record_of(key) matches Some(r) && !r.deleted && (field_index as int)
                            < r.entity.fields@.len()) ==> m1.tracked_bit(key, field_index)) && (m0.record_of(key) matches Some(r0) && !r0.deleted && (field_index as int) < r0.entity.fields@.len() ==> (m1.record_of(key) matches Some(r1) && r1.entity.fields@ == m0.record_of(key)->Some_0.entity.fields@.update(field_index as int, value) && m1.queued() == m0.queued() && m1.in_flight() == m0.in_flight() && (forall|k2: u16| k2 != key ==> #[trigger] m1.record_of(k2) == m0.record_of(k2)))) && (!(m0.record_of(key) is Some && !m0.record_of(key)->Some_0.deleted && (field_index as int) < m0.record_of(key)->Some_0.entity.fields@.len()) ==> m1 == m0) && (
                        forall|k2: u16, b: u8|
                            b < 32 && m0.tracked_bit(k2, b) ==> #[trigger] m1.tracked_bit(
                                k2,
                                b,
                            ))))
                        &&& (old(self).connections@[j].1.entities() is Client ==> self.connections@[j]
                            == old(self).connections@[j])
                    },
            decreases self.connections@.len() - i,
        {
            let ghost pre = self.connections@;
            proof {
                assert(self.connections()[i as int].1.wf());
                assert(self.connections()[i as int] == self.connections@[i as int]);
                assert(self.connections() == self.connections@);
            }
            let slot = &mut self.connections[i];
            if slot.1.can_mutate(key, field_index) {
                slot.1.mutate_entity(key, field_index, value);
            }
            proof {
                assert(self.connections@ =~= pre.update(i as int, self.connections@[i as int]));
                lemma_conn_table_wf(pre, self.connections@, i as int);
            }
            i = i + 1;
        }
    }

    /// Stops replicating an entity on every connection: wherever it was
    /// live it is now marked deleted, with a delete message queued.
    pub fn remove_entity(&mut self, key: u16)
        requires
            old(self).wf(),
        ensures
            final(self).wf(),
            final(self).connections().len() == old(self).connections().len(),
            forall|j: int|
                0 <= j < final(self).connections().len() ==> {
                    &&& (#[trigger] final(self).connections()[j]).0 == old(self).connections()[j].0
                    &&& (old(self).connections()[j].1.entities() matches
                        crate::net_connection::EntityManager::Server(m0) ==> (final(self).connections()[j].1.entities() matches
                        crate::net_connection::EntityManager::Server(m1) && ((
                    m0.record_of(key) matches Some(r) && !r.deleted) ==> (m1.record_of(key)
                        matches Some(r1) && r1.deleted))))
                    &&& (old(self).connections()[j].1.entities() is Client ==> final(self).connections()[j] == old(self).connections()[j])
                },
    {
        let mut i: usize = 0;
        while i < self.connections.len()
            invariant
                self.wf(),
                i <= self.connections@.len(),
                self.connections@.len() == old(self).connections@.len(),
                forall|j: int|
                    i as int <= j < self.connections@.len() ==> #[trigger] self.connections@[j]
                        == old(self).connections@[j],
                forall|j: int|
                    0 <= j < i as int ==> {
                        &&& (#[trigger] self.connections@[j]).0 == old(self).connections@[j].0
                        &&& (old(self).connections@[j].1.entities() matches
                            crate::net_connection::EntityManager::Server(m0) ==> (
                        self.connections@[j].1.entities() matches
                            crate::net_connection::EntityManager::Server(m1) && ((
                        m0.record_of(key) matches Some(r) && !r.deleted) ==> (m1.record_of(key)
                            matches Some(r1) && r1.deleted))))
                        &&& (old(self).connections@[j].1.entities() is Client ==> self.connections@[j]
                            == old(self).connections@[j])
                    },
            decreases self.connections@.len() - i,
        {
            let ghost pre = self.connections@;
            proof {
                assert(self.connections()[i as int].1.wf());
                assert(self.connections()[i as int] == self.connections@[i as int]);
                assert(self.connections() == self.connections@);
            }
            let slot = &mut self.connections[i];
            if slot.1.can_remove(key) {
                slot.1.remove_entity(key);
            }
            proof {
                assert(self.connections@ =~= pre.update(i as int, self.connections@[i as int]));
                lemma_conn_table_wf(pre, self.connections@, i as int);
            }
            i = i + 1;
        }
    }

    /// Queues update messages for every dirty entity on every connection;
    /// called once per tick. The scan changes no record — in particular it
    /// clears no dirty mask — and only appends to the message queues.
    pub fn collect_entity_updates(&mut self)
        requires
            old(self).wf(),
        ensures
            final(self).wf(),
            final(self).connections().len() == old(self).connections().len(),
            forall|j: int|
                0 <= j < final(self).connections().len() ==> {
                    &&& (#[trigger] final(self).connections()[j]).0 == old(self).connections()[j].0
                    &&& (old(self).connections()[j].1.entities() matches
                        crate::net_connection::EntityManager::Server(m0) ==> (final(self).connections()[j].1.entities() matches
                        crate::net_connection::EntityManager::Server(m1) && m1.records()
                        == m0.records() && m1.in_flight() == m0.in_flight()
                        && m1.queued().subrange(0, m0.queued().len() as int) == m0.queued()))
                    &&& (old(self).connections()[j].1.entities() is Client ==> final(self).connections()[j] == old(self).connections()[j])
                },
    {
        let mut i: usize = 0;
        while i < self.connections.len()
            invariant
                self.wf(),
                i <= self.connections@.len(),
                self.connections@.len() == old(self).connections@.len(),
                forall|j: int|
                    i as int <= j < self.connections@.len() ==> #[trigger] self.connections@[j]
                        == old(self).connections@[j],
                forall|j: int|
                    0 <= j < i as int ==> {
                        &&& (#[trigger] self.connections@[j]).0 == old(self).connections@[j].0
                        &&& (old(self).connections@[j].1.entities() matches
                            crate::net_connection::EntityManager::Server(m0) ==> (
                        self.connections@[j].1.entities() matches
                            crate::net_connection::EntityManager::Server(m1) && m1.records()
                            == m0.records() && m1.in_flight() == m0.in_flight()
                            && m1.queued().subrange(0, m0.queued().len() as int) == m0.queued()))
                        &&& (old(self).connections@[j].1.entities() is Client ==> self.connections@[j]
                            == old(self).connections@[j])
                    },
            decreases self.connections@.len() - i,
        {
            let ghost pre = self.connections@;
            proof {
                assert(self.connections()[i as int].1.wf());
                assert(self.connections()[i as int] == self.connections@[i as int]);
                assert(self.connections() == self.connections@);
            }
            let slot = &mut self.connections[i];
            slot.1.collect_entity_updates();
            proof {
                assert(self.connections@ =~= pre.update(i as int, self.connections@[i as int]));
                lemma_conn_table_wf(pre, self.connections@, i as int);
            }
            i = i + 1;
        }
    }
}

/// Lookup after a push, for the connection table.
pub proof fn lemma_conn_push(
    s: Seq<(SocketAddress, NetConnection)>,
    p: (SocketAddress, NetConnection),
    addr: SocketAddress,
)
    ensures
        spec_conn(s, addr) is Some ==> spec_conn(s.push(p), addr) == spec_conn(s, addr),
        spec_conn(s, addr) is None && p.0 == addr ==> spec_conn(s.push(p), addr) == Some(p.1),
        spec_conn(s, addr) is None && p.0 != addr ==> spec_conn(s.push(p), addr) is None,
    decreases s.len(),
{
    if s.len() == 0 {
        assert(s.push(p)[0] == p);
        assert(s.push(p).skip(1) =~= Seq::<(SocketAddress, NetConnection)>::empty());
        assert(spec_conn(Seq::<(SocketAddress, NetConnection)>::empty(), addr) is None);
    } else {
        assert(s.push(p)[0] == s[0]);
        assert(s.push(p).skip(1) =~= s.skip(1).push(p));
        lemma_conn_push(s.skip(1), p, addr);
    }
}

/// Lookup finds the entry at any index, given unique addresses.
pub proof fn lemma_conn_index_any(s: Seq<(SocketAddress, NetConnection)>, j: int)
    requires
        0 <= j < s.len(),
        forall|j1: int, j2: int|
            0 <= j1 < j2 < s.len() ==> (#[trigger] s[j1]).0 != (#[trigger] s[j2]).0,
    ensures
        spec_conn(s, s[j].0) == Some(s[j].1),
    decreases s.len(),
{
    if j > 0 {
        assert(s[0].0 != s[j].0);
        assert(s.skip(1)[j - 1] == s[j]);
        assert forall|j1: int, j2: int|
            0 <= j1 < j2 < s.skip(1).len() implies (#[trigger] s.skip(1)[j1]).0 != (
        #[trigger] s.skip(1)[j2]).0 by {
            assert(s.skip(1)[j1] == s[j1 + 1]);
            assert(s.skip(1)[j2] == s[j2 + 1]);
        }
        lemma_conn_index_any(s.skip(1), j - 1);
    }
}

/// Lookup after updating index `i`, addresses unique and kept.
pub proof fn lemma_conn_update(
    s: Seq<(SocketAddress, NetConnection)>,
    i: int,
    p: (SocketAddress, NetConnection),
)
    requires
        0 <= i < s.len(),
        p.0 == s[i].0,
        forall|j1: int, j2: int|
            0 <= j1 < j2 < s.len() ==> (#[trigger] s[j1]).0 != (#[trigger] s[j2]).0,
    ensures
        spec_conn(s.update(i, p), p.0) == Some(p.1),
        forall|a: SocketAddress| a != p.0 ==> spec_conn(s.update(i, p), a) == spec_conn(s, a),
        forall|j1: int, j2: int|
            0 <= j1 < j2 < s.update(i, p).len() ==> (#[trigger] s.update(i, p)[j1]).0 != (
            #[trigger] s.update(i, p)[j2]).0,
    decreases s.len(),
{
    let t = s.update(i, p);
    assert forall|j1: int, j2: int|
        0 <= j1 < j2 < t.len() implies (#[trigger] t[j1]).0 != (#[trigger] t[j2]).0 by {
        assert(t[j1] == if j1 == i {
            p
        } else {
            s[j1]
        });
        assert(t[j2] == if j2 == i {
            p
        } else {
            s[j2]
        });
    }
    if i == 0 {
        assert(t[0] == p);
        assert forall|a: SocketAddress| a != p.0 implies spec_conn(t, a) == spec_conn(s, a) by {
            assert(t.skip(1) =~= s.skip(1));
            assert(spec_conn(t, a) == spec_conn(t.skip(1), a));
            assert(spec_conn(s, a) == spec_conn(s.skip(1), a));
        }
    } else {
        assert(t[0] == s[0]);
        assert(t.skip(1) =~= s.skip(1).update(i - 1, p));
        assert(s.skip(1)[i - 1] == s[i]);
        assert forall|j1: int, j2: int|
            0 <= j1 < j2 < s.skip(1).len() implies (#[trigger] s.skip(1)[j1]).0 != (
        #[trigger] s.skip(1)[j2]).0 by {
            assert(s.skip(1)[j1] == s[j1 + 1]);
            assert(s.skip(1)[j2] == s[j2 + 1]);
        }
        lemma_conn_update(s.skip(1), i - 1, p);
        assert(s[0].0 != p.0);
        assert forall|a: SocketAddress| a != p.0 implies spec_conn(t, a) == spec_conn(s, a) by {
            if s[0].0 != a {
                assert(spec_conn(t, a) == spec_conn(t.skip(1), a));
                assert(spec_conn(s, a) == spec_conn(s.skip(1), a));
            }
        }
    }
}

/// Lookup after removing index `i`, addresses unique.
pub proof fn lemma_conn_remove(s: Seq<(SocketAddress, NetConnection)>, i: int)
    requires
        0 <= i < s.len(),
        forall|j1: int, j2: int|
            0 <= j1 < j2 < s.len() ==> (#[trigger] s[j1]).0 != (#[trigger] s[j2]).0,
    ensures
        spec_conn(s.remove(i), s[i].0) is None,
        forall|a: SocketAddress| a != s[i].0 ==> spec_conn(s.remove(i), a) == spec_conn(s, a),
        forall|j1: int, j2: int|
            0 <= j1 < j2 < s.remove(i).len() ==> (#[trigger] s.remove(i)[j1]).0 != (
            #[trigger] s.remove(i)[j2]).0,
    decreases s.len(),
{
    let t = s.remove(i);
    assert forall|j1: int, j2: int|
        0 <= j1 < j2 < t.len() implies (#[trigger] t[j1]).0 != (#[trigger] t[j2]).0 by {
        assert(t[j1] == if j1 < i {
            s[j1]
        } else {
            s[j1 + 1]
        });
        assert(t[j2] == if j2 < i {
            s[j2]
        } else {
            s[j2 + 1]
        });
    }
    if i == 0 {
        assert(t =~= s.skip(1));
        assert forall|a: SocketAddress| a != s[0].0 implies spec_conn(t, a) == spec_conn(s, a) by {
            assert(spec_conn(s, a) == spec_conn(s.skip(1), a));
        }
        assert forall|j: int| 0 <= j < t.len() implies (#[trigger] t[j]).0 != s[0].0 by {
            assert(t[j] == s[j + 1]);
        }
        lemma_conn_absent(t, s[0].0);
    } else {
        assert(t[0] == s[0]);
        assert(t.skip(1) =~= s.skip(1).remove(i - 1));
        assert(s.skip(1)[i - 1] == s[i]);
        assert forall|j1: int, j2: int|
            0 <= j1 < j2 < s.skip(1).len() implies (#[trigger] s.skip(1)[j1]).0 != (
        #[trigger] s.skip(1)[j2]).0 by {
            assert(s.skip(1)[j1] == s[j1 + 1]);
            assert(s.skip(1)[j2] == s[j2 + 1]);
        }
        lemma_conn_remove(s.skip(1), i - 1);
        assert(s[0].0 != s[i].0);
        assert forall|a: SocketAddress| a != s[i].0 implies spec_conn(t, a) == spec_conn(s, a) by {
            if s[0].0 != a {
                assert(spec_conn(t, a) == spec_conn(t.skip(1), a));
                assert(spec_conn(s, a) == spec_conn(s.skip(1), a));
            }
        }
        assert(spec_conn(t, s[i].0) == spec_conn(t.skip(1), s[i].0));
    }
}

/// An address held by no entry is not found.
pub proof fn lemma_conn_absent(s: Seq<(SocketAddress, NetConnection)>, addr: SocketAddress)
    requires
        forall|j: int| 0 <= j < s.len() ==> (#[trigger] s[j]).0 != addr,
    ensures
        spec_conn(s, addr) is None,
    decreases s.len(),
{
    if s.len() > 0 {
        assert(s[0].0 != addr);
        assert forall|j: int| 0 <= j < s.skip(1).len() implies (#[trigger] s.skip(1)[j]).0
            != addr by {
            assert(s.skip(1)[j] == s[j + 1]);
        }
        lemma_conn_absent(s.skip(1), addr);
    }
}

/// After updating one slot in place — same address, a well-formed
/// connection — the table is well formed again.
pub proof fn lemma_conn_table_wf(
    pre: Seq<(SocketAddress, NetConnection)>,
    post: Seq<(SocketAddress, NetConnection)>,
    i: int,
)
    requires
        0 <= i < pre.len(),
        post.len() == pre.len(),
        post == pre.update(i, post[i]),
        post[i].0 == pre[i].0,
        forall|j1: int, j2: int|
            0 <= j1 < j2 < pre.len() ==> (#[trigger] pre[j1]).0 != (#[trigger] pre[j2]).0,
        forall|j: int| 0 <= j < pre.len() && j != i ==> (#[trigger] pre[j]).1.wf(),
        post[i].1.wf(),
    ensures
        forall|j1: int, j2: int|
            0 <= j1 < j2 < post.len() ==> (#[trigger] post[j1]).0 != (#[trigger] post[j2]).0,
        forall|j: int| 0 <= j < post.len() ==> (#[trigger] post[j]).1.wf(),
{
    assert forall|j1: int, j2: int|
        0 <= j1 < j2 < post.len() implies (#[trigger] post[j1]).0 != (#[trigger] post[j2]).0 by {
        assert(post[j1] == if j1 == i {
            post[i]
        } else {
            pre[j1]
        });
        assert(post[j2] == if j2 == i {
            post[i]
        } else {
            pre[j2]
        });
    }
    assert forall|j: int| 0 <= j < post.len() implies (#[trigger] post[j]).1.wf() by {
        if j != i {
            assert(post[j] == pre[j]);
        }
    }
}

} // verus!
