use gaia_net::event_manager::EventManager;
use gaia_net::event_manager::EventRecord;
use gaia_net::header::{parse_header, write_header, PacketHeader};
use gaia_net::manifest::{EntityManifest, EventManifest};
use gaia_net::packet_io::{read_packet_body, EntityWireMessage, PacketWriter};
use gaia_net::packet_type::{EntityActionType, PacketType};
use gaia_net::seq_num::{next_sequence, sequence_greater_than};
use gaia_net::server_addr::{candidate_to_addr, ServerAddr, SocketAddress};
use gaia_net::state_mask::StateMask;
use gaia_net::timer::Timer;
use gaia_net::timestamp::Timestamp;

#[test]
fn candidate_to_addr_works() {
    assert_eq!(
        candidate_to_addr("candidate:1 1 UDP 1755993416 127.0.0.1 14192 typ host"),
        ServerAddr::Found(SocketAddress {
            ip0: 127,
            ip1: 0,
            ip2: 0,
            ip3: 1,
            port: 14192,
        })
    );
}

#[test]
fn candidate_without_address_is_not_found() {
    assert_eq!(candidate_to_addr("no address here"), ServerAddr::Finding);
    assert_eq!(candidate_to_addr("999.1.1.1 70000"), ServerAddr::Finding);
}

#[test]
fn header_round_trip() {
    let h = PacketHeader {
        packet_type: PacketType::Data,
        local_seq: 0xBEEF,
        remote_ack: 0x1234,
        ack_bitfield: 0xDEAD_CAFE,
    };
    let mut bytes: Vec<u8> = Vec::new();
    write_header(&mut bytes, &h);
    assert_eq!(bytes.len(), 9);
    let parsed = parse_header(&bytes).expect("well-formed header must parse");
    assert_eq!(parsed, h);
}

#[test]
fn header_rejects_unknown_type_and_short_frames() {
    assert!(parse_header(&[6, 0, 0, 0, 0, 0, 0, 0, 0]).is_none());
    assert!(parse_header(&[2, 0, 0, 0]).is_none());
}

#[test]
fn timestamp_round_trip() {
    let t = Timestamp::from_ms(0x0102_0304_0506_0708);
    let mut bytes: Vec<u8> = Vec::new();
    t.write(&mut bytes);
    assert_eq!(bytes.len(), 8);
    let back = Timestamp::read(&bytes).expect("eight bytes must read");
    assert_eq!(back, t);
}

#[test]
fn sequence_ordering_wraps() {
    assert!(sequence_greater_than(1, 0));
    assert!(!sequence_greater_than(0, 1));
    assert!(!sequence_greater_than(5, 5));
    // Across the wrap point, 0 is newer than 0xFFFF.
    assert!(sequence_greater_than(0, 0xFFFF));
    assert!(!sequence_greater_than(0xFFFF, 0));
    assert_eq!(next_sequence(0xFFFF), 0);
    assert_eq!(next_sequence(7), 8);
}

#[test]
fn state_mask_tracks_bits() {
    let mut m = StateMask::new(4);
    assert!(m.is_clear());
    m.set_bit(2);
    assert!(m.bit(2));
    assert!(!m.bit(1));
    assert_eq!(m.count_set(), 1);
    let full = StateMask::new_full(4);
    assert_eq!(full.count_set(), 4);
    m.or_mask(&full);
    assert_eq!(m.count_set(), 4);
    m.clear_mask(&full);
    assert!(m.is_clear());
}

#[test]
fn packet_body_round_trip() {
    let mut em = EventManifest::new();
    em.register(7, 2);
    let mut enm = EntityManifest::new();
    enm.register(1, 2);

    let mut w = PacketWriter::new();
    let ev = EventRecord {
        naia_id: 7,
        payload: vec![0xAA, 0xBB],
    };
    assert!(w.write_event(&ev));
    let create = gaia_net::entity_manager::OutgoingEntityMessage {
        action: EntityActionType::Create,
        key: 1,
        variant_tag: 1,
        mask: StateMask::new_full(2),
        fields: vec![0, 0],
    };
    assert!(w.write_entity_message(&create));
    assert!(w.has_bytes());
    let body = w.get_bytes();

    let (events, msgs) = read_packet_body(&body, &em, &enm).expect("body must parse");
    assert_eq!(events.len(), 1);
    assert_eq!(events[0].naia_id, 7);
    assert_eq!(events[0].payload, vec![0xAA, 0xBB]);
    assert_eq!(msgs.len(), 1);
    match &msgs[0] {
        EntityWireMessage::Create {
            key,
            variant_tag,
            fields,
        } => {
            assert_eq!(*key, 1);
            assert_eq!(*variant_tag, 1);
            assert_eq!(fields, &vec![0, 0]);
        }
        _ => panic!("expected a create message"),
    }
}

#[test]
fn packet_body_rejects_unknown_event() {
    let em = EventManifest::new();
    let enm = EntityManifest::new();
    // Event section, one item, unknown tag 7.
    let body = vec![1u8, 1, 0, 7, 0xAA, 0xBB];
    assert!(read_packet_body(&body, &em, &enm).is_none());
}

#[test]
fn duplicate_events_are_suppressed() {
    let mut m = EventManager::new();
    m.process_received_event(4, 0, 7, vec![1, 2]);
    m.process_received_event(4, 0, 7, vec![1, 2]);
    let first = m.pop_incoming_event().expect("one event must surface");
    assert_eq!(first.naia_id, 7);
    assert!(m.pop_incoming_event().is_none());
}

#[test]
fn timer_rings_after_period() {
    let mut t = Timer::new(5000, 0);
    assert!(!t.ringing(4999));
    assert!(t.ringing(5000));
    t.reset(5000);
    assert!(!t.ringing(9999));
    assert!(t.ringing(10001));
    t.ring_manual();
    assert!(t.ringing(0));
}
