use metaserve::addr::{Addr, Ip};
use metaserve::client::{Event, Server};
use metaserve::codec::{decode_message, encode_hello};
use metaserve::game::Hello;
use metaserve::registry::Registry;
use metaserve::session::{route, ClientPhase, ClientSession, Route, ServerPhase, ServerSession};

fn ip() -> Ip {
    Ip::V4([9, 8, 7, 6])
}

#[test]
fn route_by_alpn() {
    assert_eq!(route(&metaserve::game::PROTOCOL.to_vec()), Route::GameServer);
    assert_eq!(route(&metaserve::client::PROTOCOL.to_vec()), Route::GameClient);
    assert_eq!(route(&b"masterserve-client".to_vec()), Route::Unknown);
    assert_eq!(route(&Vec::new()), Route::Unknown);
}

#[test]
fn server_session_happy_path() {
    let mut reg = Registry::new();
    let mut s = ServerSession::start(&mut reg);
    assert_eq!(s.phase, ServerPhase::AwaitHello);
    let hello = encode_hello(&Hello { port: 30000 });
    assert!(s.on_hello(&mut reg, &hello));
    assert_eq!(s.phase, ServerPhase::Ready { port: 30000 });
    let notify = s.on_heartbeat(&mut reg, ip(), b"A".to_vec());
    assert!(notify);
    assert_eq!(s.phase, ServerPhase::Throttled { port: 30000 });
    s.on_tick();
    assert_eq!(s.phase, ServerPhase::Ready { port: 30000 });
}

#[test]
fn server_session_malformed_hello_terminates() {
    let mut reg = Registry::new();
    let mut s = ServerSession::start(&mut reg);
    let id = s.id;
    assert!(!s.on_hello(&mut reg, &vec![1, 2, 3]));
    assert_eq!(s.phase, ServerPhase::Done);
    assert!(!reg.is_live_server(id));
}

#[test]
fn heartbeat_binds_peer_ip_and_hello_port() {
    let mut reg = Registry::new();
    let mut s = ServerSession::start(&mut reg);
    let hello = encode_hello(&Hello { port: 30000 });
    assert!(s.on_hello(&mut reg, &hello));
    let peer = Ip::V6([0, 1, 2, 3, 4, 5, 6, 7, 8, 9, 10, 11, 12, 13, 14, 15]);
    s.on_heartbeat(&mut reg, peer, b"state".to_vec());
    let c = reg.insert_client();
    let m = reg.take_delta(c);
    assert_eq!(
        m.servers,
        vec![Server {
            id: s.id as u64,
            event: Event::Update(Addr { ip: peer, port: 30000 }, b"state".to_vec()),
        }]
    );
}

#[test]
fn oversized_heartbeat_shuts_server_down() {
    let mut reg = Registry::new();
    let mut s = ServerSession::start(&mut reg);
    let hello = encode_hello(&Hello { port: 30000 });
    assert!(s.on_hello(&mut reg, &hello));
    s.on_heartbeat(&mut reg, ip(), b"A".to_vec());
    let mut c = ClientSession::start(&mut reg);
    let bytes = c.next_message(&mut reg);
    assert_eq!(decode_message(&bytes).unwrap().servers.len(), 1);
    // A body over the state-size cap ends the connection; the very next
    // delta retracts the server.
    s.on_oversized(&mut reg);
    assert_eq!(s.phase, ServerPhase::Done);
    assert!(!reg.is_live_server(s.id));
    c.on_tick();
    c.on_notified();
    assert_eq!(c.phase, ClientPhase::Ready);
    let bytes = c.next_message(&mut reg);
    let m = decode_message(&bytes).unwrap();
    assert_eq!(m.servers, vec![Server { id: s.id as u64, event: Event::Shutdown }]);
}

#[test]
fn client_first_message_is_snapshot() {
    let mut reg = Registry::new();
    let mut s = ServerSession::start(&mut reg);
    let hello = encode_hello(&Hello { port: 30000 });
    assert!(s.on_hello(&mut reg, &hello));
    s.on_heartbeat(&mut reg, ip(), b"A".to_vec());
    let mut c = ClientSession::start(&mut reg);
    assert_eq!(c.phase, ClientPhase::Ready);
    let bytes = c.next_message(&mut reg);
    let m = decode_message(&bytes).unwrap();
    assert_eq!(
        m.servers,
        vec![Server {
            id: s.id as u64,
            event: Event::Update(Addr { ip: ip(), port: 30000 }, b"A".to_vec()),
        }]
    );
}

#[test]
fn client_send_waits_for_tick_and_notification() {
    let mut reg = Registry::new();
    let mut c = ClientSession::start(&mut reg);
    let _ = c.next_message(&mut reg);
    assert_eq!(c.phase, ClientPhase::Waiting { ticked: false, notified: false });
    // A notification alone does not release the send.
    c.on_notified();
    assert_eq!(c.phase, ClientPhase::Waiting { ticked: false, notified: true });
    // Nor does piling on more notifications.
    c.on_notified();
    assert_eq!(c.phase, ClientPhase::Waiting { ticked: false, notified: true });
    // The rate-limit tick completes the pair.
    c.on_tick();
    assert_eq!(c.phase, ClientPhase::Ready);
}

#[test]
fn client_tick_alone_does_not_release_send() {
    let mut reg = Registry::new();
    let mut c = ClientSession::start(&mut reg);
    let _ = c.next_message(&mut reg);
    c.on_tick();
    assert_eq!(c.phase, ClientPhase::Waiting { ticked: true, notified: false });
    c.on_notified();
    assert_eq!(c.phase, ClientPhase::Ready);
}

#[test]
fn client_disconnect_frees_registry_slot() {
    let mut reg = Registry::new();
    let mut c = ClientSession::start(&mut reg);
    let id = c.id;
    assert!(reg.is_client(id));
    c.on_closed(&mut reg);
    assert_eq!(c.phase, ClientPhase::Done);
    assert!(!reg.is_client(id));
}

#[test]
fn server_disconnect_retracts_advertisement() {
    let mut reg = Registry::new();
    let mut s = ServerSession::start(&mut reg);
    let hello = encode_hello(&Hello { port: 1 });
    assert!(s.on_hello(&mut reg, &hello));
    s.on_heartbeat(&mut reg, ip(), b"x".to_vec());
    let c = reg.insert_client();
    let _ = reg.take_delta(c);
    s.on_closed(&mut reg);
    let m = reg.take_delta(c);
    assert_eq!(m.servers, vec![Server { id: s.id as u64, event: Event::Shutdown }]);
}
