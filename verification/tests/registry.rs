use metaserve::addr::{Addr, Ip};
use metaserve::client::{Event, Server};
use metaserve::registry::Registry;

fn addr(port: u16) -> Addr {
    Addr { ip: Ip::V4([1, 2, 3, 4]), port }
}

fn update(id: u64, a: Addr, state: &[u8]) -> Server {
    Server { id, event: Event::Update(a, state.to_vec()) }
}

fn shutdown(id: u64) -> Server {
    Server { id, event: Event::Shutdown }
}

#[test]
fn single_server_single_client() {
    let mut reg = Registry::new();
    let s = reg.insert_server();
    assert!(reg.update_server(s, addr(30000), b"A".to_vec()));
    let c = reg.insert_client();
    let m = reg.take_delta(c);
    assert_eq!(m.servers, vec![update(s as u64, addr(30000), b"A")]);
    assert!(reg.update_server(s, addr(30000), b"B".to_vec()));
    let m = reg.take_delta(c);
    assert_eq!(m.servers, vec![update(s as u64, addr(30000), b"B")]);
}

#[test]
fn server_drops_before_first_transmission() {
    let mut reg = Registry::new();
    let s = reg.insert_server();
    assert!(reg.update_server(s, addr(30000), b"A".to_vec()));
    let c = reg.insert_client();
    // The server disappears before the client ever drains a delta: the id
    // was in the client's dirty-set, so a Shutdown is owed.
    reg.remove_server(s);
    let m = reg.take_delta(c);
    assert_eq!(m.servers, vec![shutdown(s as u64)]);
}

#[test]
fn server_drops_after_first_transmission() {
    let mut reg = Registry::new();
    let s = reg.insert_server();
    assert!(reg.update_server(s, addr(30000), b"A".to_vec()));
    let c = reg.insert_client();
    let m = reg.take_delta(c);
    assert_eq!(m.servers.len(), 1);
    reg.remove_server(s);
    let m = reg.take_delta(c);
    assert_eq!(m.servers, vec![shutdown(s as u64)]);
}

#[test]
fn unchanged_heartbeat_reports_nothing() {
    let mut reg = Registry::new();
    let s = reg.insert_server();
    assert!(reg.update_server(s, addr(30000), b"A".to_vec()));
    let c = reg.insert_client();
    let m = reg.take_delta(c);
    assert_eq!(m.servers.len(), 1);
    // Same address, same state: no change, nothing to notify or send.
    assert!(!reg.update_server(s, addr(30000), b"A".to_vec()));
    let m = reg.take_delta(c);
    assert_eq!(m.servers, vec![]);
}

#[test]
fn drain_twice_is_empty() {
    let mut reg = Registry::new();
    let s = reg.insert_server();
    assert!(reg.update_server(s, addr(1), b"x".to_vec()));
    let c = reg.insert_client();
    let m = reg.take_delta(c);
    assert_eq!(m.servers.len(), 1);
    let m = reg.take_delta(c);
    assert_eq!(m.servers, vec![]);
}

#[test]
fn never_heartbeated_server_is_invisible() {
    let mut reg = Registry::new();
    let s = reg.insert_server();
    let c = reg.insert_client();
    // No heartbeat yet: not advertised, so no Update in the snapshot.
    let m = reg.take_delta(c);
    assert_eq!(m.servers, vec![]);
    // And its removal owes no Shutdown either.
    reg.remove_server(s);
    let m = reg.take_delta(c);
    assert_eq!(m.servers, vec![]);
}

#[test]
fn id_reuse_waits_for_all_clients() {
    let mut reg = Registry::new();
    let s0 = reg.insert_server();
    assert!(reg.update_server(s0, addr(30000), b"A".to_vec()));
    let c = reg.insert_client();
    let m = reg.take_delta(c);
    assert_eq!(m.servers, vec![update(s0 as u64, addr(30000), b"A")]);
    reg.remove_server(s0);
    // The client has not yet heard the shutdown: the id stays allocated
    // as a tombstone, so a new server cannot receive it.
    let s1 = reg.insert_server();
    assert_ne!(s1, s0);
    reg.remove_server(s1);
    // Once the client drains the Shutdown, the tombstone is released.
    let m = reg.take_delta(c);
    assert_eq!(m.servers, vec![shutdown(s0 as u64)]);
    let s2 = reg.insert_server();
    assert_eq!(s2, s0);
    // The reused id is advertised afresh.
    assert!(reg.update_server(s2, addr(40000), b"B".to_vec()));
    let m = reg.take_delta(c);
    assert_eq!(m.servers, vec![update(s0 as u64, addr(40000), b"B")]);
}

#[test]
fn empty_heartbeat_state_is_valid() {
    let mut reg = Registry::new();
    let s = reg.insert_server();
    // A stream that ends with no bytes is a permissible empty state — but
    // publishing it still counts as the first heartbeat and advertises
    // the server.
    assert!(reg.update_server(s, addr(30000), Vec::new()));
    let c = reg.insert_client();
    let m = reg.take_delta(c);
    assert_eq!(m.servers, vec![update(s as u64, addr(30000), b"")]);
}

#[test]
fn two_clients_see_independent_histories() {
    let mut reg = Registry::new();
    let s0 = reg.insert_server();
    assert!(reg.update_server(s0, addr(1000), b"one".to_vec()));
    let c1 = reg.insert_client();
    let m = reg.take_delta(c1);
    assert_eq!(m.servers, vec![update(s0 as u64, addr(1000), b"one")]);
    // A second server appears, then the first disappears.
    let s1 = reg.insert_server();
    assert!(reg.update_server(s1, addr(2000), b"two".to_vec()));
    reg.remove_server(s0);
    // A client admitted now sees only the live fleet, not the history.
    let c2 = reg.insert_client();
    let m = reg.take_delta(c2);
    assert_eq!(m.servers, vec![update(s1 as u64, addr(2000), b"two")]);
    // The earlier client hears the retraction and the addition.
    let m = reg.take_delta(c1);
    assert_eq!(
        m.servers,
        vec![shutdown(s0 as u64), update(s1 as u64, addr(2000), b"two")]
    );
}

#[test]
fn client_removal_releases_tombstones() {
    let mut reg = Registry::new();
    let s = reg.insert_server();
    assert!(reg.update_server(s, addr(1), b"x".to_vec()));
    let c1 = reg.insert_client();
    let c2 = reg.insert_client();
    reg.remove_server(s);
    // Both clients owe a Shutdown; one drains it, the other disconnects.
    let m = reg.take_delta(c1);
    assert_eq!(m.servers, vec![shutdown(s as u64)]);
    assert!(!reg.is_live_server(s));
    reg.remove_client(c2);
    // Nobody references the id any more: it may be reused.
    let s2 = reg.insert_server();
    assert_eq!(s2, s);
}

#[test]
fn shutdowns_precede_updates_in_one_message() {
    let mut reg = Registry::new();
    let s0 = reg.insert_server();
    assert!(reg.update_server(s0, addr(1), b"a".to_vec()));
    let c = reg.insert_client();
    let m = reg.take_delta(c);
    assert_eq!(m.servers.len(), 1);
    let s1 = reg.insert_server();
    assert!(reg.update_server(s1, addr(2), b"b".to_vec()));
    reg.remove_server(s0);
    let m = reg.take_delta(c);
    assert_eq!(
        m.servers,
        vec![shutdown(s0 as u64), update(s1 as u64, addr(2), b"b")]
    );
}
