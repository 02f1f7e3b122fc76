use netsync::commands::{Command, serialize_command};
use netsync::heartbeat::{HEARTBEAT_PERIOD_MS, STALE_TIMEOUT_MS};
use netsync::registry::Registry;
use netsync::session::apply_incoming;

fn pong_bytes() -> Vec<u8> {
    serialize_command(&Command::Custom { data: String::from("PONG") }).unwrap()
}

#[test]
fn fresh_agents_survive_a_tick() {
    let mut reg = Registry::new();
    reg.accept_connection(String::from("a"), 0);
    reg.accept_connection(String::from("b"), 0);
    reg.heartbeat_tick(HEARTBEAT_PERIOD_MS, &vec![false, false]);
    assert_eq!(reg.len(), 2);
}

#[test]
fn silent_agent_is_evicted_after_the_deadline() {
    // An agent identifies at time 0 and then sends nothing. Ticks run at
    // the normal cadence; the tick after the staleness threshold is
    // crossed evicts it.
    let mut reg = Registry::new();
    let peer = String::from("10.0.0.7:55");
    reg.accept_connection(peer.clone(), 0);
    apply_incoming(
        &mut reg,
        &peer,
        &serialize_command(&Command::Identify { hostname: String::from("h1") }).unwrap(),
        0,
    );

    let mut now: u64 = 0;
    while now + HEARTBEAT_PERIOD_MS <= STALE_TIMEOUT_MS {
        now += HEARTBEAT_PERIOD_MS;
        reg.heartbeat_tick(now, &vec![false]);
        assert_eq!(reg.len(), 1, "not yet past the deadline at {}", now);
    }
    // Eleven seconds of silence: the next tick is past the threshold.
    now = STALE_TIMEOUT_MS + 1000;
    reg.heartbeat_tick(now, &vec![false]);
    assert_eq!(reg.len(), 0);
}

#[test]
fn answering_agent_stays_past_the_deadline() {
    let mut reg = Registry::new();
    let peer = String::from("p");
    reg.accept_connection(peer.clone(), 0);
    apply_incoming(&mut reg, &peer, &pong_bytes(), 9000);
    // 12 s after accept, but only 3 s after the last answer.
    reg.heartbeat_tick(12000, &vec![false]);
    assert_eq!(reg.len(), 1);
}

#[test]
fn failed_ping_write_evicts() {
    let mut reg = Registry::new();
    reg.accept_connection(String::from("a"), 0);
    reg.accept_connection(String::from("b"), 0);
    reg.accept_connection(String::from("c"), 0);
    // The write to "b" failed this tick; nobody is stale yet.
    reg.heartbeat_tick(5000, &vec![false, true, false]);
    assert_eq!(reg.len(), 2);
    assert!(reg.contains(&String::from("a")));
    assert!(!reg.contains(&String::from("b")));
    assert!(reg.contains(&String::from("c")));
}

#[test]
fn one_tick_evicts_many() {
    let mut reg = Registry::new();
    reg.accept_connection(String::from("a"), 0);
    reg.accept_connection(String::from("b"), 0);
    reg.accept_connection(String::from("c"), 20000);
    reg.heartbeat_tick(25000, &vec![false, false, false]);
    assert_eq!(reg.len(), 1);
    assert!(reg.contains(&String::from("c")));
}

#[test]
fn exactly_at_the_deadline_is_not_stale() {
    let mut reg = Registry::new();
    reg.accept_connection(String::from("a"), 0);
    reg.heartbeat_tick(STALE_TIMEOUT_MS, &vec![false]);
    assert_eq!(reg.len(), 1);
    reg.heartbeat_tick(STALE_TIMEOUT_MS + 1, &vec![false]);
    assert_eq!(reg.len(), 0);
}
