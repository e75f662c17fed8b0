//! Per-connection session state machines.
//!
//! Each connection owns one session. The functions here are the decisions
//! the daemon makes per event: what a stream body means in the current
//! phase, how the registry changes, and what the connection should do next.
//! The caller performs the transport work — accepting streams, sleeping the
//! rate-limit interval, broadcasting the change notification — and feeds
//! the outcomes back in as events.

use vstd::prelude::*;
use crate::addr::{Addr, Ip};
use crate::client;
use crate::codec::{decode_hello, dec_hello, enc_message, encode_message};
use crate::game;
use crate::registry::{dirty_ids, lost_ids, shutdown_deltas, update_deltas, Registry};

verus! {

// ---------------------------------------------------------------------------
// Dispatch
// ---------------------------------------------------------------------------

/// Where an incoming connection is routed, by its negotiated ALPN.
#[derive(Clone, Copy, Debug, PartialEq, Eq, Structural)]
pub enum Route {
    /// The game-server heartbeat protocol.
    GameServer,
    /// The game-client update protocol.
    GameClient,
    /// Anything else: log and drop the connection.
    Unknown,
}

/// Whether `alpn` spells out the 16-byte identifier `pat`.
fn alpn_matches(alpn: &Vec<u8>, pat: &[u8; 16]) -> (r: bool)
    ensures
        r <==> alpn@ == pat@,
{
    if alpn.len() != 16 {
        return false;
    }
    let mut i: usize = 0;
    while i < 16
        invariant
            i <= 16,
            alpn.len() == 16,
            forall|j: int| 0 <= j < i ==> alpn@[j] == pat@[j],
        decreases 16 - i,
    {
        if alpn[i] != pat[i] {
            return false;
        }
        i = i + 1;
    }
    proof {
        assert(alpn@ =~= pat@);
    }
    true
}

/// Route a freshly accepted connection by its negotiated ALPN.
pub fn route(alpn: &Vec<u8>) -> (r: Route)
    ensures
        r is GameServer <==> alpn@ == game::PROTOCOL@,
        r is GameClient <==> alpn@ == client::PROTOCOL@,
{
    proof {
        assert(game::PROTOCOL@[0] != client::PROTOCOL@[0]);
    }
    if alpn_matches(alpn, &game::PROTOCOL) {
        Route::GameServer
    } else if alpn_matches(alpn, &client::PROTOCOL) {
        Route::GameClient
    } else {
        Route::Unknown
    }
}

// ---------------------------------------------------------------------------
// Game-server sessions
// ---------------------------------------------------------------------------

/// Phase of a game-server connection.
#[derive(Clone, Copy, Debug, PartialEq, Eq, Structural)]
pub enum ServerPhase {
    /// Waiting for the first uni-stream, which must carry the Hello.
    AwaitHello,
    /// Ready to read the next heartbeat stream.
    Ready { port: u16 },
    /// A heartbeat was just applied; the next stream is read only after
    /// the rate-limit tick.
    Throttled { port: u16 },
    /// The connection is over and the registry entry is gone.
    Done,
}

/// An event a game-server session can receive, with the data the decision
/// depends on.
#[derive(Clone, Copy, Debug, PartialEq, Eq, Structural)]
pub enum ServerEvent {
    /// The first stream carried a well-formed Hello declaring this port.
    HelloOk { port: u16 },
    /// The first stream's body was not a Hello.
    HelloBad,
    /// A heartbeat stream was read and applied.
    Heartbeat,
    /// The rate-limit interval elapsed.
    Tick,
    /// A stream body exceeded the configured state-size cap.
    Oversized,
    /// The peer disconnected or the stream ended.
    Closed,
}

/// The phase after one event. Events that a phase does not expect leave it
/// unchanged; oversize and disconnection always end the session.
pub open spec fn server_step(p: ServerPhase, e: ServerEvent) -> ServerPhase {
    match e {
        ServerEvent::Oversized => ServerPhase::Done,
        ServerEvent::Closed => ServerPhase::Done,
        ServerEvent::HelloOk { port } => if p is AwaitHello {
            ServerPhase::Ready { port }
        } else {
            p
        },
        ServerEvent::HelloBad => if p is AwaitHello {
            ServerPhase::Done
        } else {
            p
        },
        ServerEvent::Heartbeat => match p {
            ServerPhase::Ready { port } => ServerPhase::Throttled { port },
            _ => p,
        },
        ServerEvent::Tick => match p {
            ServerPhase::Throttled { port } => ServerPhase::Ready { port },
            _ => p,
        },
    }
}

/// The phase after a run of events.
pub open spec fn server_steps(p: ServerPhase, es: Seq<ServerEvent>) -> ServerPhase
    decreases es.len(),
{
    if es.len() == 0 {
        p
    } else {
        server_steps(server_step(p, es[0]), es.skip(1))
    }
}

/// Rate-limit floor for heartbeat ingest: a heartbeat is applied only in
/// the ready phase, applying one throttles the session, and without a tick
/// no run of events makes a throttled session ready again. So at least one
/// full rate-limit interval separates two applied heartbeats.
pub proof fn lemma_server_rate_limit(port: u16, es: Seq<ServerEvent>)
    requires
        !es.contains(ServerEvent::Tick),
    ensures
        !(server_steps(ServerPhase::Throttled { port }, es) matches ServerPhase::Ready { .. }),
    decreases es.len(),
{
    lemma_server_no_tick(ServerPhase::Throttled { port }, es);
}

/// Helper for the rate-limit floor: without a tick, a throttled or finished
/// session stays throttled or finished.
proof fn lemma_server_no_tick(p: ServerPhase, es: Seq<ServerEvent>)
    requires
        p is Throttled || p is Done,
        !es.contains(ServerEvent::Tick),
    ensures
        server_steps(p, es) is Throttled || server_steps(p, es) is Done,
    decreases es.len(),
{
    if es.len() > 0 {
        assert(es[0] != ServerEvent::Tick) by {
            assert(es.contains(es[0]));
        }
        assert forall|x: ServerEvent| es.skip(1).contains(x) implies es.contains(x) by {
            let j = choose|j: int| 0 <= j < es.skip(1).len() && #[trigger] es.skip(1)[j] == x;
            assert(es[j + 1] == x);
        }
        lemma_server_no_tick(server_step(p, es[0]), es.skip(1));
    }
}

/// One game-server connection's session.
pub struct ServerSession {
    /// The registry id this session owns.
    pub id: usize,
    pub phase: ServerPhase,
}

impl ServerSession {
    /// The registry still holds this session's id as a live server.
    pub open spec fn owns_live(self, reg: Registry) -> bool {
        reg.servers_map().contains_key(self.id) && reg.servers_map()[self.id] is Live
    }

    /// A game-server connection completed its handshake: allocate its
    /// registry slot and await the Hello.
    pub fn start(reg: &mut Registry) -> (s: ServerSession)
        requires
            old(reg).wf(),
        ensures
            final(reg).wf(),
            s.phase is AwaitHello,
            s.owns_live(*final(reg)),
            !final(reg).servers_map()[s.id].is_advertised(),
            final(reg).advertised() == old(reg).advertised(),
            final(reg).clients_map() == old(reg).clients_map(),
            final(reg).client_views() == old(reg).client_views(),
    {
        let id = reg.insert_server();
        ServerSession { id, phase: ServerPhase::AwaitHello }
    }

    /// The first uni-stream's body arrived: decode it as a Hello. On
    /// success the session is ready for heartbeats; on a malformed body
    /// the registry entry is removed, and the caller closes the connection
    /// with a non-zero application error code.
    pub fn on_hello(&mut self, reg: &mut Registry, body: &Vec<u8>) -> (ok: bool)
        requires
            old(reg).wf(),
            old(self).phase is AwaitHello,
            old(self).owns_live(*old(reg)),
            !old(reg).servers_map()[old(self).id].is_advertised(),
        ensures
            final(reg).wf(),
            ok <==> dec_hello(body@) is Some,
            ok ==> final(self).phase == (ServerPhase::Ready { port: dec_hello(body@)->0 })
                && *final(reg) == *old(reg) && final(self).id == old(self).id,
            !ok ==> final(self).phase is Done && !final(self).owns_live(*final(reg)),
            final(self).phase == server_step(
                old(self).phase,
                if ok {
                    ServerEvent::HelloOk { port: dec_hello(body@)->0 }
                } else {
                    ServerEvent::HelloBad
                },
            ),
            final(reg).advertised() == old(reg).advertised(),
            final(reg).clients_map() == old(reg).clients_map(),
            final(reg).client_views() == old(reg).client_views(),
    {
        match decode_hello(body) {
            Ok(h) => {
                self.phase = ServerPhase::Ready { port: h.port };
                true
            }
            Err(_) => {
                proof {
                    assert(!old(reg).servers_map()[self.id].is_advertised());
                }
                reg.remove_server(self.id);
                self.phase = ServerPhase::Done;
                proof {
                    assert(final(reg).advertised() =~= old(reg).advertised());
                }
                false
            }
        }
    }

    /// A heartbeat stream's body arrived while ready: bind the declared
    /// port to the connection's peer IP, publish address and state, and
    /// throttle until the next tick. Returns whether anything changed; the
    /// caller broadcasts the change notification on `true`. The address
    /// written is exactly the peer IP plus the Hello port.
    pub fn on_heartbeat(&mut self, reg: &mut Registry, peer_ip: Ip, body: Vec<u8>) -> (notify:
        bool)
        requires
            old(reg).wf(),
            old(self).phase matches ServerPhase::Ready { .. },
            old(self).owns_live(*old(reg)),
        ensures
            final(reg).wf(),
            final(self).id == old(self).id,
            final(self).owns_live(*final(reg)),
            final(self).phase == server_step(old(self).phase, ServerEvent::Heartbeat),
            final(reg).advertised() == old(reg).advertised().insert(
                old(self).id,
                ((Addr { ip: peer_ip, port: old(self).phase->Ready_port }, body@)),
            ),
            notify <==> !(old(reg).advertised().contains_key(old(self).id)
                && old(reg).advertised()[old(self).id] == ((
            Addr { ip: peer_ip, port: old(self).phase->Ready_port },
            body@,
            ))),
            final(reg).client_views() == old(reg).client_views(),
            final(reg).clients_map().dom() == old(reg).clients_map().dom(),
    {
        let port = match self.phase {
            ServerPhase::Ready { port } => port,
            _ => {
                proof {
                    assert(false);
                }
                0
            }
        };
        let addr = Addr { ip: peer_ip, port };
        let changed = reg.update_server(self.id, addr, body);
        self.phase = ServerPhase::Throttled { port };
        proof {
            let oldadv = old(reg).advertised();
            let idv = old(self).id;
            if !changed {
                assert(oldadv.contains_key(idv) && oldadv[idv] == ((addr, body@)));
            } else {
                if oldadv.contains_key(idv) && oldadv[idv] == ((addr, body@)) {
                    assert(old(reg).servers_map()[idv].is_advertised());
                    assert(old(reg).servers_map()[idv].published() == ((addr, body@)));
                }
            }
        }
        changed
    }

    /// The rate-limit interval elapsed: accept the next heartbeat stream.
    pub fn on_tick(&mut self)
        requires
            old(self).phase matches ServerPhase::Throttled { .. },
        ensures
            final(self).id == old(self).id,
            final(self).phase == server_step(old(self).phase, ServerEvent::Tick),
    {
        let port = match self.phase {
            ServerPhase::Throttled { port } => port,
            _ => {
                proof {
                    assert(false);
                }
                0
            }
        };
        self.phase = ServerPhase::Ready { port };
    }

    /// A stream body exceeded the state-size cap: the server is removed at
    /// once and the caller closes the connection with a non-zero
    /// application error code and broadcasts the change notification.
    /// Clients learn of the shutdown with their next delta.
    pub fn on_oversized(&mut self, reg: &mut Registry)
        requires
            old(reg).wf(),
            old(self).owns_live(*old(reg)),
        ensures
            final(reg).wf(),
            final(self).phase == server_step(old(self).phase, ServerEvent::Oversized),
            final(self).phase is Done,
            !(final(reg).servers_map().contains_key(old(self).id)
                && final(reg).servers_map()[old(self).id] is Live),
            final(reg).advertised() == old(reg).advertised().remove(old(self).id),
            final(reg).client_views() == old(reg).client_views(),
            final(reg).clients_map().dom() == old(reg).clients_map().dom(),
            old(reg).advertised().contains_key(old(self).id) ==> forall|c: usize|
                #[trigger] old(reg).clients_map().contains_key(c) ==> lost_ids(
                final(reg).clients_map()[c],
            ) == lost_ids(old(reg).clients_map()[c]).push(old(self).id),
    {
        reg.remove_server(self.id);
        self.phase = ServerPhase::Done;
    }

    /// The connection ended — cleanly, by loss, or by error: the server is
    /// removed and the caller broadcasts the change notification.
    pub fn on_closed(&mut self, reg: &mut Registry)
        requires
            old(reg).wf(),
            old(self).owns_live(*old(reg)),
        ensures
            final(reg).wf(),
            final(self).phase == server_step(old(self).phase, ServerEvent::Closed),
            final(self).phase is Done,
            final(reg).advertised() == old(reg).advertised().remove(old(self).id),
            final(reg).client_views() == old(reg).client_views(),
            final(reg).clients_map().dom() == old(reg).clients_map().dom(),
    {
        reg.remove_server(self.id);
        self.phase = ServerPhase::Done;
    }
}

// ---------------------------------------------------------------------------
// Game-client sessions
// ---------------------------------------------------------------------------

/// Phase of a game-client connection.
#[derive(Clone, Copy, Debug, PartialEq, Eq, Structural)]
pub enum ClientPhase {
    /// A delta may be built and sent now.
    Ready,
    /// A delta was just sent; the next send waits for both the rate-limit
    /// tick and a change notification.
    Waiting { ticked: bool, notified: bool },
    /// The connection is over and the registry entry is gone.
    Done,
}

/// An event a game-client session can receive while waiting.
#[derive(Clone, Copy, Debug, PartialEq, Eq, Structural)]
pub enum ClientEvent {
    /// The rate-limit interval elapsed.
    Tick,
    /// The registry's change notification fired.
    Notified,
}

/// The phase after one event: the send is released only once both the tick
/// and the notification have arrived.
pub open spec fn client_step(p: ClientPhase, e: ClientEvent) -> ClientPhase {
    match p {
        ClientPhase::Waiting { ticked, notified } => {
            let t = ticked || e == ClientEvent::Tick;
            let n = notified || e == ClientEvent::Notified;
            if t && n {
                ClientPhase::Ready
            } else {
                ClientPhase::Waiting { ticked: t, notified: n }
            }
        }
        _ => p,
    }
}

/// The phase after a run of events.
pub open spec fn client_steps(p: ClientPhase, es: Seq<ClientEvent>) -> ClientPhase
    decreases es.len(),
{
    if es.len() == 0 {
        p
    } else {
        client_steps(client_step(p, es[0]), es.skip(1))
    }
}

/// Rate-limit floor for client pushes: sending a delta puts the session in
/// the wait state with neither condition met, and without a tick no run of
/// events makes it ready to send again. So at least one full rate-limit
/// interval separates two pushes to the same client.
pub proof fn lemma_client_rate_limit(es: Seq<ClientEvent>)
    requires
        !es.contains(ClientEvent::Tick),
    ensures
        !(client_steps(ClientPhase::Waiting { ticked: false, notified: false }, es) is Ready),
    decreases es.len(),
{
    lemma_client_no_tick(ClientPhase::Waiting { ticked: false, notified: false }, es);
}

/// Helper for the rate-limit floor: without a tick, a session waiting for
/// its tick keeps waiting for it.
proof fn lemma_client_no_tick(p: ClientPhase, es: Seq<ClientEvent>)
    requires
        p matches ClientPhase::Waiting { ticked, .. } && !ticked,
        !es.contains(ClientEvent::Tick),
    ensures
        client_steps(p, es) matches ClientPhase::Waiting { ticked, .. } && !ticked,
    decreases es.len(),
{
    if es.len() > 0 {
        assert(es[0] != ClientEvent::Tick) by {
            assert(es.contains(es[0]));
        }
        assert forall|x: ClientEvent| es.skip(1).contains(x) implies es.contains(x) by {
            let j = choose|j: int| 0 <= j < es.skip(1).len() && #[trigger] es.skip(1)[j] == x;
            assert(es[j + 1] == x);
        }
        lemma_client_no_tick(client_step(p, es[0]), es.skip(1));
    }
}

/// One game-client connection's session.
pub struct ClientSession {
    /// The registry id this session owns.
    pub id: usize,
    pub phase: ClientPhase,
}

impl ClientSession {
    /// The registry still holds this session's id as a client.
    pub open spec fn owns_client(self, reg: Registry) -> bool {
        reg.clients_map().contains_key(self.id)
    }

    /// A game-client connection completed its handshake: admit it. Its
    /// first delta, available at once, is a complete snapshot of the
    /// advertised servers.
    pub fn start(reg: &mut Registry) -> (s: ClientSession)
        requires
            old(reg).wf(),
        ensures
            final(reg).wf(),
            s.phase is Ready,
            s.owns_client(*final(reg)),
            final(reg).advertised() == old(reg).advertised(),
            final(reg).servers_map() == old(reg).servers_map(),
    {
        let id = reg.insert_client();
        ClientSession { id, phase: ClientPhase::Ready }
    }

    /// Build, serialize and hand over this client's next delta: a Shutdown
    /// for every lost id, then an Update for every dirty id with its
    /// current address and state. The caller writes the bytes to a fresh
    /// uni-stream, then subscribes to the change notification before
    /// waiting. The session waits for both the tick and a notification.
    pub fn next_message(&mut self, reg: &mut Registry) -> (bytes: Vec<u8>)
        requires
            old(reg).wf(),
            old(self).phase is Ready,
            old(self).owns_client(*old(reg)),
        ensures
            final(reg).wf(),
            final(self).id == old(self).id,
            final(self).owns_client(*final(reg)),
            final(self).phase == (ClientPhase::Waiting { ticked: false, notified: false }),
            bytes@ == enc_message(
                shutdown_deltas(lost_ids(old(reg).clients_map()[old(self).id]))
                    + update_deltas(
                    dirty_ids(old(reg).clients_map()[old(self).id]),
                    old(reg).advertised(),
                ),
            ),
            final(reg).advertised() == old(reg).advertised(),
            final(reg).clients_map().dom() == old(reg).clients_map().dom(),
            dirty_ids(final(reg).clients_map()[old(self).id]) == Seq::<usize>::empty(),
            lost_ids(final(reg).clients_map()[old(self).id]) == Seq::<usize>::empty(),
            final(reg).client_views() == old(reg).client_views().insert(
                old(self).id,
                old(reg).advertised(),
            ),
    {
        let m = reg.take_delta(self.id);
        let bytes = encode_message(&m);
        self.phase = ClientPhase::Waiting { ticked: false, notified: false };
        bytes
    }

    /// The rate-limit interval elapsed while waiting.
    pub fn on_tick(&mut self)
        ensures
            final(self).id == old(self).id,
            final(self).phase == client_step(old(self).phase, ClientEvent::Tick),
    {
        self.phase = match self.phase {
            ClientPhase::Waiting { notified, .. } => if notified {
                ClientPhase::Ready
            } else {
                ClientPhase::Waiting { ticked: true, notified: false }
            },
            p => p,
        };
    }

    /// The change notification fired while waiting.
    pub fn on_notified(&mut self)
        ensures
            final(self).id == old(self).id,
            final(self).phase == client_step(old(self).phase, ClientEvent::Notified),
    {
        self.phase = match self.phase {
            ClientPhase::Waiting { ticked, .. } => if ticked {
                ClientPhase::Ready
            } else {
                ClientPhase::Waiting { ticked: false, notified: true }
            },
            p => p,
        };
    }

    /// The peer disconnected, or violated the protocol by opening a
    /// bidirectional stream: drop the client from the registry. No
    /// broadcast is needed.
    pub fn on_closed(&mut self, reg: &mut Registry)
        requires
            old(reg).wf(),
            old(self).owns_client(*old(reg)),
        ensures
            final(reg).wf(),
            final(self).phase is Done,
            !final(self).owns_client(*final(reg)),
            final(reg).advertised() == old(reg).advertised(),
            final(reg).clients_map().dom() == old(reg).clients_map().dom().remove(old(self).id),
    {
        reg.remove_client(self.id);
        self.phase = ClientPhase::Done;
    }
}

} // verus!
