//! The records the registry keeps per game server and per game client.

use vstd::prelude::*;
use crate::addr::Addr;

verus! {

/// One live game server.
#[derive(Debug)]
pub struct ServerEntry {
    /// The public endpoint game clients should use. `None` only between
    /// insertion and the first heartbeat; such an entry is not yet
    /// advertisable.
    pub address: Option<Addr>,
    /// Opaque last-known state payload, bounded by the configured cap.
    pub state: Vec<u8>,
}

/// A slot in the server table.
///
/// A removed server whose shutdown some clients still owe a report for
/// leaves a tombstone behind; the slot — and with it the id — is freed only
/// once every such client has drained the id from its lost list, so an id is
/// never reused while any client still references it.
#[derive(Debug)]
pub enum ServerSlot {
    /// A live server.
    Live(ServerEntry),
    /// A removed server; `waiting` holds the clients that still have this
    /// id in their lost list. Never empty: an unreferenced slot is freed
    /// outright.
    Dead { waiting: Vec<usize> },
}

/// Per-client bookkeeping.
#[derive(Debug)]
pub struct ClientEntry {
    /// Servers whose latest state has not yet been transmitted to this
    /// client, in the order they became dirty.
    pub dirty: indexmap::IndexSet<usize>,
    /// Servers that disappeared since this client's last transmission, in
    /// disappearance order.
    pub lost: Vec<usize>,
}

} // verus!
