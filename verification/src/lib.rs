//! Meta-server core for a fleet of game servers.
//!
//! Game servers advertise their presence and opaque state; game clients
//! receive a live, incrementally updated view of the set of live servers.
//! This crate holds the verified core: the wire codec, the shared server
//! registry with per-client dirty/lost bookkeeping, and the per-connection
//! session state machines. Transport (QUIC), TLS and task plumbing live
//! outside the library.

pub mod addr;
pub mod client;
pub mod codec;
pub mod dirty;
pub mod entries;
pub mod game;
pub mod laws;
pub mod registry;
pub mod session;
pub mod store;
