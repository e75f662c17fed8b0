//! Protocol for communication between game clients and meta servers.

use vstd::prelude::*;
use crate::addr::{Addr, AddrV};

verus! {

/// One push from the meta server to a game client: a batch of per-server
/// deltas.
#[derive(Debug, PartialEq, Eq)]
pub struct Message {
    pub servers: Vec<Server>,
}

/// A delta concerning one game server.
#[derive(Debug, PartialEq, Eq)]
pub struct Server {
    pub id: u64,
    /// Change in the game server's state.
    pub event: Event,
}

/// Change in a game server's state.
#[derive(Debug, PartialEq, Eq)]
pub enum Event {
    /// The game server is gone; the client should forget it.
    Shutdown,
    /// The game server is reachable at the address and last advertised the
    /// given opaque state bytes.
    Update(Addr, Vec<u8>),
}

/// Mathematical shape of an [`Event`]: the state bytes as a sequence.
pub enum EventV {
    Shutdown,
    Update(AddrV, Seq<u8>),
}

/// Mathematical shape of a [`Server`] delta.
pub struct ServerV {
    pub id: u64,
    pub event: EventV,
}

impl View for Event {
    type V = EventV;

    open spec fn view(&self) -> EventV {
        match self {
            Event::Shutdown => EventV::Shutdown,
            Event::Update(addr, state) => EventV::Update(addr@, state@),
        }
    }
}

impl View for Server {
    type V = ServerV;

    open spec fn view(&self) -> ServerV {
        ServerV { id: self.id, event: self.event@ }
    }
}

impl View for Message {
    type V = Seq<ServerV>;

    open spec fn view(&self) -> Seq<ServerV> {
        self.servers@.map_values(|s: Server| s@)
    }
}

/// ALPN ID for client connections.
pub const PROTOCOL: [u8; 16] = [
    0xB6, 0x46, 0x55, 0x6E, 0x05, 0x65, 0xD0, 0x9C, 0xD2, 0xFA, 0xEE, 0x31, 0xFD, 0x8A, 0x0A, 0x95,
];

} // verus!
