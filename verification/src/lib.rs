//! A RakNet-compatible reliable transport over datagrams: wire formats,
//! acknowledgement tracking, retransmission, ordering, reassembly and the
//! logic of sessions, each with a machine-checked contract.
//!
//! The library decides and owns no socket and no clock. A caller hands
//! [`Server`] or [`Client`] the datagrams that arrive and the time, and
//! sends the datagrams that they hand back.

pub mod address;
pub mod bytes;
pub mod client;
pub mod connection;
pub mod error;
pub mod packet;
pub mod packetqueue;
pub mod packets;
pub mod ping;
pub mod rak;
pub mod reader;
pub mod recievedqueue;
pub mod server;
pub mod writer;

pub use crate::address::Address;
pub use crate::client::{Client, ClientStep};
pub use crate::connection::{Connection, RaknetType};
pub use crate::error::CodecError;
pub use crate::packet::RaknetPacket;
pub use crate::rak::{DisconnectReason, RaknetError, RaknetEvent};
pub use crate::server::Server;
