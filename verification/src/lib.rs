//! A per-peer connection runtime for realtime client/server applications
//! on an unreliable datagram transport: packet header and acknowledgement
//! tracking, a reliable at-least-once event channel, authoritative entity
//! replication with per-field dirty masks, and the tick-driven handshake,
//! heartbeat and timeout machinery around them.

pub mod ack_manager;
pub mod client_entity_manager;
pub mod entity_manager;
pub mod event_manager;
pub mod example_entity;
pub mod gaia_client;
pub mod gaia_server;
pub mod header;
pub mod sequence_buffer;
pub mod manifest;
pub mod net_connection;
pub mod packet_io;
pub mod packet_type;
pub mod seq_num;
pub mod server_addr;
pub mod state_mask;
pub mod timer;
pub mod timestamp;
pub mod wire;

pub use seq_num::SequenceNumber;
