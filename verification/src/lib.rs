//! A minimal peer-address-gossip node core.
//!
//! The crate holds the verified heart of a small peer node: the table of
//! known peer addresses, the wire codec for gossip envelopes, the adapter
//! queues that a network driver polls each tick, and the protocol handler
//! that turns incoming events into outgoing commands.  The surrounding
//! process — channels, threads, the transport service — hands plain values
//! in and takes plain values out.

pub mod adapter;
pub mod bytes;
pub mod codec;
pub mod protocol;
pub mod table;

pub use adapter::{Command, OutMessage, ServiceAdapter};
pub use bytes::{bytes_eq, clone_bytes};
pub use codec::{decode_envelope, encode_envelope, DecodeError, Envelope, MessageType};
pub use protocol::{EndpointKind, Event, GossipConfig, GossipProtocolHandler};
pub use table::PeerAddressTable;
