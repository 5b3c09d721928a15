use gaia_net::client_entity_manager::ClientEntityMessage;
use gaia_net::example_entity::{ExampleEntity, PointEntity, POINT_ENTITY_TAG};
use gaia_net::gaia_client::{ClientEvent, Config, GaiaClient};
use gaia_net::gaia_server::{GaiaServer, ServerEvent};
use gaia_net::manifest::{EntityManifest, EventManifest};
use gaia_net::server_addr::SocketAddress;

fn test_addr() -> SocketAddress {
    SocketAddress {
        ip0: 127,
        ip1: 0,
        ip2: 0,
        ip3: 1,
        port: 9000,
    }
}

fn manifests() -> (EventManifest, EntityManifest) {
    let mut em = EventManifest::new();
    em.register(7, 2);
    let mut enm = EntityManifest::new();
    enm.register(POINT_ENTITY_TAG, 2);
    (em, enm)
}

fn connect_pair(now: u64) -> (GaiaClient, GaiaServer, SocketAddress) {
    let addr = test_addr();
    let (em, enm) = manifests();
    let mut client = GaiaClient::connect(addr, Config::default(), now);
    let mut server = GaiaServer::new(Config::default());
    let hs = client
        .prepare_handshake(now)
        .expect("first handshake goes out immediately");
    let (events, reply) = server.handle_client_handshake(addr, &hs, now);
    assert_eq!(events.len(), 1);
    assert!(matches!(events[0], ServerEvent::Connection(_)));
    let reply = reply.expect("handshake is answered");
    let ev = client.receive_packet(&em, &enm, now, &reply);
    assert!(matches!(ev, ClientEvent::Connection));
    assert!(client.is_connected());
    (client, server, addr)
}

#[test]
fn handshake_success() {
    // Client at tick 0 with a timestamp; the server replies echoing it;
    // the client transitions to connected; both sides emit a connection.
    let (_client, server, addr) = connect_pair(0);
    assert!(server.has_connection(addr));
}

#[test]
fn handshake_under_loss_reuses_timestamp() {
    let addr = test_addr();
    let (em, enm) = manifests();
    let mut client = GaiaClient::connect(addr, Config::default(), 0);
    let mut server = GaiaServer::new(Config::default());

    // The first three frames are dropped; every retry must carry the
    // same timestamp bytes, never a resampled one.
    let f1 = client.prepare_handshake(0).expect("due at tick 0");
    assert!(client.prepare_handshake(500).is_none());
    let f2 = client.prepare_handshake(1000).expect("due after the interval");
    let f3 = client.prepare_handshake(2000).expect("due again");
    let f4 = client.prepare_handshake(3000).expect("due again");
    assert_eq!(f1, f2);
    assert_eq!(f1, f3);
    assert_eq!(f1, f4);

    // Only the fourth frame arrives: the server observes one connection
    // attempt, not four.
    let (events, reply) = server.handle_client_handshake(addr, &f4, 3000);
    assert_eq!(events.len(), 1);
    assert!(matches!(events[0], ServerEvent::Connection(_)));
    let ev = client.receive_packet(&em, &enm, 3000, &reply.expect("answered"));
    assert!(matches!(ev, ClientEvent::Connection));
}

#[test]
fn event_with_single_loss_arrives_exactly_once() {
    let (em, enm) = manifests();
    let (mut client, mut server, addr) = connect_pair(0);

    // The server queues a reliable event; the packet carrying it is lost.
    server.send_event(addr, &em, 7, vec![0xAA, 0xBB]);
    let _dropped = server
        .data_frame(addr, &em, &enm, 10)
        .expect("the event is pending");

    // Heartbeats keep flowing; once the lost packet falls out of the ack
    // window the server retransmits, and the client surfaces the event
    // exactly once.
    let mut delivered = 0;
    for k in 0..60u64 {
        let t = 1000 * (k + 1);
        if let Some(hb) = server.heartbeat_frame(addr, t) {
            client.receive_packet(&em, &enm, t, &hb);
        }
        if let Some(hb) = client.heartbeat_frame(t) {
            server.receive_packet(&em, &enm, addr, &hb, t);
        }
        if let Some(df) = server.data_frame(addr, &em, &enm, t) {
            client.receive_packet(&em, &enm, t, &df);
        }
        while let Some(ev) = client.get_incoming_event() {
            assert_eq!(ev.naia_id, 7);
            assert_eq!(ev.payload, vec![0xAA, 0xBB]);
            delivered += 1;
        }
    }
    assert_eq!(delivered, 1);
}

#[test]
fn entity_create_update_delete() {
    let (em, enm) = manifests();
    let (mut client, mut server, addr) = connect_pair(0);

    // The server starts replicating a point at the origin.
    let point = ExampleEntity::PointEntity(PointEntity::new(0, 0));
    server.add_entity(1, &point.to_entity());
    let frame = server.data_frame(addr, &em, &enm, 10).expect("create pending");
    client.receive_packet(&em, &enm, 10, &frame);
    assert!(matches!(
        client.get_incoming_entity_message(),
        Some(ClientEntityMessage::Create { key: 1 })
    ));
    let local = client.get_local_entity(1).expect("created locally");
    assert_eq!(local.variant_tag, POINT_ENTITY_TAG);
    assert_eq!(local.fields, vec![0, 0]);

    // The client acknowledges the create so updates may flow.
    let hb = client.heartbeat_frame(600).expect("heartbeat due");
    server.receive_packet(&em, &enm, addr, &hb, 600);

    // Two mutations: x := 5, then y := 9.
    server.mutate_entity(1, 0, 5);
    server.mutate_entity(1, 1, 9);
    server.collect_entity_updates();
    let frame = server.data_frame(addr, &em, &enm, 700).expect("update pending");
    client.receive_packet(&em, &enm, 700, &frame);
    assert!(matches!(
        client.get_incoming_entity_message(),
        Some(ClientEntityMessage::Update { key: 1 })
    ));
    let local = client.get_local_entity(1).expect("still present");
    assert_eq!(local.fields, vec![5, 9]);
    let back = ExampleEntity::from_entity(local).expect("known variant");
    assert!(matches!(
        back,
        ExampleEntity::PointEntity(PointEntity { x: 5, y: 9 })
    ));

    // Removal reaches the client as a delete.
    server.remove_entity(1);
    let frame = server.data_frame(addr, &em, &enm, 800).expect("delete pending");
    client.receive_packet(&em, &enm, 800, &frame);
    assert!(matches!(
        client.get_incoming_entity_message(),
        Some(ClientEntityMessage::Delete { key: 1 })
    ));
    assert!(client.get_local_entity(1).is_none());
}

#[test]
fn timeout_disconnects_exactly_once() {
    let addr = test_addr();
    let (em, enm) = manifests();
    let config = Config {
        heartbeat_interval_ms: 1000,
        disconnection_timeout_ms: 5000,
        send_handshake_interval_ms: 1000,
    };
    let mut client = GaiaClient::connect(addr, config, 0);
    let mut server = GaiaServer::new(config);
    let hs = client.prepare_handshake(0).expect("due");
    let (_events, reply) = server.handle_client_handshake(addr, &hs, 0);
    client.receive_packet(&em, &enm, 0, &reply.expect("answered"));
    assert!(client.is_connected());

    // The peer goes silent: nothing at 5s, the drop just after.
    assert!(!client.drop_if_timed_out(4999));
    assert!(client.drop_if_timed_out(5001));
    assert!(!client.is_connected());
    // The disconnection is reported exactly once.
    assert!(!client.drop_if_timed_out(9000));
}

#[test]
fn handshake_replay_after_client_restart() {
    let addr = test_addr();
    let mut server = GaiaServer::new(Config::default());

    let mut frame_t1 = vec![0u8];
    frame_t1.extend_from_slice(&1111u64.to_be_bytes());
    let (events, _reply) = server.handle_client_handshake(addr, &frame_t1, 0);
    assert_eq!(events.len(), 1);
    assert!(matches!(events[0], ServerEvent::Connection(_)));

    // The same timestamp again is answered idempotently: no new events.
    let (events, reply) = server.handle_client_handshake(addr, &frame_t1, 50);
    assert_eq!(events.len(), 0);
    assert!(reply.is_some());

    // A different timestamp from the same address is a restarted client:
    // the old session is discarded and the application sees a
    // disconnection followed by a connection.
    let mut frame_t2 = vec![0u8];
    frame_t2.extend_from_slice(&2222u64.to_be_bytes());
    let (events, reply) = server.handle_client_handshake(addr, &frame_t2, 100);
    assert_eq!(events.len(), 2);
    assert!(matches!(events[0], ServerEvent::Disconnection(_)));
    assert!(matches!(events[1], ServerEvent::Connection(_)));
    // The reply echoes the new timestamp.
    let reply = reply.expect("answered");
    assert_eq!(reply[0], 1);
    assert_eq!(&reply[1..9], &2222u64.to_be_bytes());
}

#[test]
fn sequence_numbers_increase_on_outgoing_packets() {
    let (em, enm) = manifests();
    let (mut client, mut server, addr) = connect_pair(0);
    let s0 = client.get_sequence_number().expect("connected");
    let hb = client.heartbeat_frame(600).expect("due");
    let s1 = client.get_sequence_number().expect("connected");
    assert_eq!(s1, s0.wrapping_add(1));
    server.receive_packet(&em, &enm, addr, &hb, 600);
    let _ = server.get_incoming_event(addr);
}
