//! Wire-protocol tags: packet types, manager sections, entity actions.

use vstd::prelude::*;

verus! {

/// The kind of a packet, carried as the first byte of every frame.
#[derive(Clone, Copy, PartialEq, Eq, Structural, Debug)]
pub enum PacketType {
    /// Connectionless handshake request from the client, body is a timestamp.
    ClientHandshake,
    /// Connectionless handshake reply from the server, echoing the timestamp.
    ServerHandshake,
    /// Sequenced packet carrying event and entity sections.
    Data,
    /// Sequenced keep-alive with an empty body.
    Heartbeat,
    /// Sequenced round-trip-time probe.
    Ping,
    /// Sequenced reply to a ping.
    Pong,
}

/// Wire value of a packet type.
pub open spec fn spec_packet_type_to_u8(t: PacketType) -> u8 {
    match t {
        PacketType::ClientHandshake => 0,
        PacketType::ServerHandshake => 1,
        PacketType::Data => 2,
        PacketType::Heartbeat => 3,
        PacketType::Ping => 4,
        PacketType::Pong => 5,
    }
}

/// Packet type denoted by a wire byte, if any.
pub open spec fn spec_packet_type_from_u8(b: u8) -> Option<PacketType> {
    if b == 0 {
        Some(PacketType::ClientHandshake)
    } else if b == 1 {
        Some(PacketType::ServerHandshake)
    } else if b == 2 {
        Some(PacketType::Data)
    } else if b == 3 {
        Some(PacketType::Heartbeat)
    } else if b == 4 {
        Some(PacketType::Ping)
    } else if b == 5 {
        Some(PacketType::Pong)
    } else {
        None
    }
}

/// Encodes a packet type as its wire byte.
pub fn packet_type_to_u8(t: PacketType) -> (b: u8)
    ensures
        b == spec_packet_type_to_u8(t),
{
    match t {
        PacketType::ClientHandshake => 0,
        PacketType::ServerHandshake => 1,
        PacketType::Data => 2,
        PacketType::Heartbeat => 3,
        PacketType::Ping => 4,
        PacketType::Pong => 5,
    }
}

/// Decodes a wire byte into a packet type; unknown bytes yield `None`.
pub fn packet_type_from_u8(b: u8) -> (t: Option<PacketType>)
    ensures
        t == spec_packet_type_from_u8(b),
{
    if b == 0 {
        Some(PacketType::ClientHandshake)
    } else if b == 1 {
        Some(PacketType::ServerHandshake)
    } else if b == 2 {
        Some(PacketType::Data)
    } else if b == 3 {
        Some(PacketType::Heartbeat)
    } else if b == 4 {
        Some(PacketType::Ping)
    } else if b == 5 {
        Some(PacketType::Pong)
    } else {
        None
    }
}

/// Encoding then decoding a packet type yields the original tag.
pub proof fn lemma_packet_type_round_trip(t: PacketType)
    ensures
        spec_packet_type_from_u8(spec_packet_type_to_u8(t)) == Some(t),
{
}

/// The kind of a section inside a data packet body.
#[derive(Clone, Copy, PartialEq, Eq, Structural, Debug)]
pub enum ManagerType {
    /// A run of reliable events.
    Event,
    /// A run of entity replication messages.
    Entity,
}

/// Wire value of a manager section tag.
pub open spec fn spec_manager_type_to_u8(t: ManagerType) -> u8 {
    match t {
        ManagerType::Event => 1,
        ManagerType::Entity => 2,
    }
}

/// Manager section denoted by a wire byte, if any.
pub open spec fn spec_manager_type_from_u8(b: u8) -> Option<ManagerType> {
    if b == 1 {
        Some(ManagerType::Event)
    } else if b == 2 {
        Some(ManagerType::Entity)
    } else {
        None
    }
}

/// Encodes a manager section tag as its wire byte.
pub fn manager_type_to_u8(t: ManagerType) -> (b: u8)
    ensures
        b == spec_manager_type_to_u8(t),
{
    match t {
        ManagerType::Event => 1,
        ManagerType::Entity => 2,
    }
}

/// Decodes a wire byte into a manager section tag.
pub fn manager_type_from_u8(b: u8) -> (t: Option<ManagerType>)
    ensures
        t == spec_manager_type_from_u8(b),
{
    if b == 1 {
        Some(ManagerType::Event)
    } else if b == 2 {
        Some(ManagerType::Entity)
    } else {
        None
    }
}

/// The action carried by an entity replication message.
#[derive(Clone, Copy, PartialEq, Eq, Structural, Debug)]
pub enum EntityActionType {
    /// Instantiate an entity: key, variant tag and full state follow.
    Create,
    /// Apply dirty fields: key, state mask and partial state follow.
    Update,
    /// Remove an entity: only the key follows.
    Delete,
}

/// Wire value of an entity action tag.
pub open spec fn spec_entity_action_to_u8(t: EntityActionType) -> u8 {
    match t {
        EntityActionType::Create => 0,
        EntityActionType::Update => 1,
        EntityActionType::Delete => 2,
    }
}

/// Entity action denoted by a wire byte, if any.
pub open spec fn spec_entity_action_from_u8(b: u8) -> Option<EntityActionType> {
    if b == 0 {
        Some(EntityActionType::Create)
    } else if b == 1 {
        Some(EntityActionType::Update)
    } else if b == 2 {
        Some(EntityActionType::Delete)
    } else {
        None
    }
}

/// Encodes an entity action tag as its wire byte.
pub fn entity_action_to_u8(t: EntityActionType) -> (b: u8)
    ensures
        b == spec_entity_action_to_u8(t),
{
    match t {
        EntityActionType::Create => 0,
        EntityActionType::Update => 1,
        EntityActionType::Delete => 2,
    }
}

/// Decodes a wire byte into an entity action tag.
pub fn entity_action_from_u8(b: u8) -> (t: Option<EntityActionType>)
    ensures
        t == spec_entity_action_from_u8(b),
{
    if b == 0 {
        Some(EntityActionType::Create)
    } else if b == 1 {
        Some(EntityActionType::Update)
    } else if b == 2 {
        Some(EntityActionType::Delete)
    } else {
        None
    }
}

} // verus!
