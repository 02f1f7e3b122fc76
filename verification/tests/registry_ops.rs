use netsync::commands::{Command, serialize_command};
use netsync::registry::Registry;
use netsync::session::{ReceiveOutcome, apply_incoming};

fn identify_bytes(hostname: &str) -> Vec<u8> {
    serialize_command(&Command::Identify { hostname: String::from(hostname) }).unwrap()
}

fn pong_bytes() -> Vec<u8> {
    serialize_command(&Command::Custom { data: String::from("PONG") }).unwrap()
}

#[test]
fn accepts_fill_the_table() {
    let mut reg = Registry::new();
    let n: usize = 8;
    for k in 0..n {
        let fresh = reg.accept_connection(format!("10.0.0.{}:5{}", k, k), 100);
        assert!(fresh);
    }
    assert_eq!(reg.len(), n);
    // Every identity is present exactly once.
    for k in 0..n {
        assert!(reg.contains(&format!("10.0.0.{}:5{}", k, k)));
    }
}

#[test]
fn duplicate_accept_is_refused() {
    let mut reg = Registry::new();
    assert!(reg.accept_connection(String::from("peer"), 0));
    assert!(!reg.accept_connection(String::from("peer"), 5));
    assert_eq!(reg.len(), 1);
}

#[test]
fn remove_drops_only_the_named_entry() {
    let mut reg = Registry::new();
    reg.accept_connection(String::from("a"), 0);
    reg.accept_connection(String::from("b"), 0);
    assert!(reg.remove(&String::from("a")));
    assert_eq!(reg.len(), 1);
    assert!(!reg.contains(&String::from("a")));
    assert!(reg.contains(&String::from("b")));
    assert!(!reg.remove(&String::from("a")));
}

#[test]
fn pong_refreshes_last_heartbeat() {
    let mut reg = Registry::new();
    let peer = String::from("10.0.0.1:9");
    reg.accept_connection(peer.clone(), 1000);
    let outcome = apply_incoming(&mut reg, &peer, &pong_bytes(), 7000);
    assert_eq!(outcome, ReceiveOutcome::HeartbeatRefreshed);
    let i = reg.index_of(&peer).unwrap();
    assert_eq!(reg.entry_at(i).record.last_heartbeat, 7000);
}

#[test]
fn identify_binds_hostname_once() {
    let mut reg = Registry::new();
    let peer = String::from("10.0.0.1:9");
    reg.accept_connection(peer.clone(), 0);
    let i = reg.index_of(&peer).unwrap();
    assert_eq!(reg.entry_at(i).record.hostname, None);

    let outcome = apply_incoming(&mut reg, &peer, &identify_bytes("h1"), 1);
    assert_eq!(outcome, ReceiveOutcome::HostnameBound);
    assert_eq!(reg.entry_at(i).record.hostname, Some(String::from("h1")));

    // The first announcement wins: a second Identify changes nothing.
    apply_incoming(&mut reg, &peer, &identify_bytes("h2"), 2);
    assert_eq!(reg.entry_at(i).record.hostname, Some(String::from("h1")));
}

#[test]
fn malformed_bytes_change_nothing() {
    let mut reg = Registry::new();
    let peer = String::from("p");
    reg.accept_connection(peer.clone(), 42);
    let outcome = apply_incoming(&mut reg, &peer, &[0xff, 0x01], 99);
    assert_eq!(outcome, ReceiveOutcome::Malformed);
    assert_eq!(reg.len(), 1);
    let i = reg.index_of(&peer).unwrap();
    assert_eq!(reg.entry_at(i).record.last_heartbeat, 42);
}

#[test]
fn unhandled_commands_change_nothing() {
    let mut reg = Registry::new();
    let peer = String::from("p");
    reg.accept_connection(peer.clone(), 42);
    let ping = serialize_command(&Command::Ping).unwrap();
    assert_eq!(apply_incoming(&mut reg, &peer, &ping, 99), ReceiveOutcome::Unhandled);
    let other = serialize_command(&Command::Custom { data: String::from("pong") }).unwrap();
    assert_eq!(apply_incoming(&mut reg, &peer, &other, 99), ReceiveOutcome::Unhandled);
    let i = reg.index_of(&peer).unwrap();
    assert_eq!(reg.entry_at(i).record.last_heartbeat, 42);
}

#[test]
fn message_from_unknown_peer_changes_nothing() {
    let mut reg = Registry::new();
    reg.accept_connection(String::from("known"), 0);
    let outcome = apply_incoming(&mut reg, &String::from("stranger"), &pong_bytes(), 50);
    assert_eq!(outcome, ReceiveOutcome::HeartbeatRefreshed);
    assert_eq!(reg.len(), 1);
    let i = reg.index_of(&String::from("known")).unwrap();
    assert_eq!(reg.entry_at(i).record.last_heartbeat, 0);
}

#[test]
fn find_by_hostname_matches_exactly() {
    let mut reg = Registry::new();
    for (peer, host) in [("p1", "h1"), ("p2", "h2"), ("p3", "h3")] {
        let peer = String::from(peer);
        reg.accept_connection(peer.clone(), 0);
        apply_incoming(&mut reg, &peer, &identify_bytes(host), 0);
    }
    let i = reg.find_by_hostname(&String::from("h2")).unwrap();
    assert_eq!(reg.entry_at(i).id, "p2");
    assert_eq!(reg.entry_at(i).record.hostname, Some(String::from("h2")));
    assert_eq!(reg.find_by_hostname(&String::from("h9")), None);
    // A prefix of an announced name was never announced itself.
    assert_eq!(reg.find_by_hostname(&String::from("h")), None);
}

#[test]
fn find_by_hostname_takes_the_earlier_duplicate() {
    let mut reg = Registry::new();
    for peer in ["p1", "p2"] {
        let peer = String::from(peer);
        reg.accept_connection(peer.clone(), 0);
        apply_incoming(&mut reg, &peer, &identify_bytes("same"), 0);
    }
    let i = reg.find_by_hostname(&String::from("same")).unwrap();
    assert_eq!(reg.entry_at(i).id, "p1");
}
