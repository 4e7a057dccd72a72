//! Datagram media transport: packet codec, frame reassembly, adaptive
//! interleaved XOR forward error correction, NACK-based retransmission,
//! loss estimation and packet pacing, together with the realtime fan-out
//! state machine that drives live sessions.
//!
//! All state machines here are pure: time enters as an explicit
//! millisecond argument and I/O stays with the caller, which feeds
//! datagrams in and sends the returned datagrams out.

pub mod acl;
pub mod auth;
pub mod cache;
pub mod channel;
pub mod error;
pub mod group;
pub mod livekit;
pub mod log;
pub mod managers;
pub mod message;
pub mod middleware;
pub mod model;
pub mod realtime_server;
pub mod role;
pub mod server;
pub mod subscriber_session;
pub mod transport;
pub mod user;
pub mod voip;
pub mod webtransport;
pub mod fec;
pub mod loss;
pub mod nack;
pub mod pacing;
pub mod runner;
pub mod packet;
