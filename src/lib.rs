//! A verified core for an MQTT v5 client: the variable-byte integer and
//! packet codec, the packet-identifier pool and the protocol state machine
//! that the event handler drives.
pub mod available_packet_ids;
pub mod client;
pub mod connect_options;
pub mod decode;
pub mod encode;
pub mod network;
pub mod packets;
pub mod properties;
pub mod state;
pub mod utf8;
pub mod vbi;
