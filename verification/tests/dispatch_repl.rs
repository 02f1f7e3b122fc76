use netsync::commands::{Command, deserialize_command, serialize_command};
use netsync::dispatch::{broadcast_update, list_lines, unicast_by_name};
use netsync::registry::Registry;
use netsync::repl::{ReplCmd, parse_command};
use netsync::session::{AgentReaction, agent_handle_message, identify_message, pong_message};

fn registry_of_three() -> Registry {
    let mut reg = Registry::new();
    for (peer, host) in [("p1", "h1"), ("p2", "h2"), ("p3", "h3")] {
        let peer = String::from(peer);
        reg.accept_connection(peer.clone(), 0);
        let msg = serialize_command(&Command::Identify { hostname: String::from(host) }).unwrap();
        netsync::session::apply_incoming(&mut reg, &peer, &msg, 0);
    }
    reg
}

#[test]
fn broadcast_covers_every_agent() {
    let reg = registry_of_three();
    let (msg, targets) = broadcast_update(&reg);
    assert_eq!(deserialize_command(&msg), Ok(Command::Update));
    assert_eq!(targets, vec!["p1", "p2", "p3"]);
}

#[test]
fn broadcast_failure_does_not_evict() {
    // Agent 2's socket write fails when the caller delivers the plan;
    // agents 1 and 3 still get their copy, and nothing is removed —
    // only a later heartbeat failure may remove the entry.
    let reg = registry_of_three();
    let (msg, targets) = broadcast_update(&reg);
    let mut delivered: Vec<String> = Vec::new();
    for t in &targets {
        let write_ok = t != "p2";
        if write_ok {
            delivered.push(t.clone());
        }
    }
    assert_eq!(delivered, vec!["p1", "p3"]);
    assert_eq!(deserialize_command(&msg), Ok(Command::Update));
    assert_eq!(reg.len(), 3);
    assert!(reg.contains(&String::from("p2")));
}

#[test]
fn unicast_reaches_the_named_agent() {
    let reg = registry_of_three();
    let (id, msg) =
        unicast_by_name(&reg, &String::from("h2"), &String::from("reload")).unwrap();
    assert_eq!(id, "p2");
    assert_eq!(
        deserialize_command(&msg),
        Ok(Command::Custom { data: String::from("reload") })
    );
}

#[test]
fn unicast_to_unknown_hostname_is_a_miss() {
    let reg = registry_of_three();
    assert!(unicast_by_name(&reg, &String::from("h9"), &String::from("x")).is_none());
}

#[test]
fn list_shows_identity_and_hostname() {
    let mut reg = Registry::new();
    reg.accept_connection(String::from("10.0.0.5:1234"), 0);
    let msg =
        serialize_command(&Command::Identify { hostname: String::from("worker-1") }).unwrap();
    netsync::session::apply_incoming(&mut reg, &String::from("10.0.0.5:1234"), &msg, 0);
    reg.accept_connection(String::from("10.0.0.6:99"), 0);
    let lines = list_lines(&reg);
    assert_eq!(
        lines,
        vec![
            " - 10.0.0.5:1234 (hostname: worker-1)",
            " - 10.0.0.6:99 (hostname: <no-hostname>)",
        ]
    );
}

#[test]
fn parse_list() {
    assert_eq!(parse_command("list"), ReplCmd::List);
    assert_eq!(parse_command("  list  "), ReplCmd::List);
}

#[test]
fn parse_quit() {
    assert_eq!(parse_command("quit"), ReplCmd::Quit);
}

#[test]
fn parse_send() {
    assert_eq!(
        parse_command("send worker-1 reload"),
        ReplCmd::Send { hostname: String::from("worker-1"), data: String::from("reload") }
    );
}

#[test]
fn parse_send_joins_payload_words() {
    assert_eq!(
        parse_command("send h1 restart the   service"),
        ReplCmd::Send {
            hostname: String::from("h1"),
            data: String::from("restart the service"),
        }
    );
}

#[test]
fn parse_send_without_payload_is_unknown() {
    assert_eq!(parse_command("send h1"), ReplCmd::Unknown);
    assert_eq!(parse_command("send"), ReplCmd::Unknown);
}

#[test]
fn parse_empty_and_unknown() {
    assert_eq!(parse_command(""), ReplCmd::Unknown);
    assert_eq!(parse_command("   \t "), ReplCmd::Unknown);
    assert_eq!(parse_command("ls"), ReplCmd::Unknown);
    assert_eq!(parse_command("listing"), ReplCmd::Unknown);
}

#[test]
fn agent_answers_ping_with_pong() {
    let ping = serialize_command(&Command::Ping).unwrap();
    assert_eq!(agent_handle_message(&ping), AgentReaction::ReplyPong);
    let pong = pong_message();
    assert_eq!(
        deserialize_command(&pong),
        Ok(Command::Custom { data: String::from("PONG") })
    );
}

#[test]
fn agent_reacts_to_update() {
    let update = serialize_command(&Command::Update).unwrap();
    assert_eq!(agent_handle_message(&update), AgentReaction::ApplyUpdate);
}

#[test]
fn agent_ignores_the_rest() {
    let ident = serialize_command(&Command::Identify { hostname: String::from("x") }).unwrap();
    assert_eq!(agent_handle_message(&ident), AgentReaction::Ignore);
    assert_eq!(agent_handle_message(&[1, 2, 3]), AgentReaction::Ignore);
}

#[test]
fn identify_message_announces_the_hostname() {
    let msg = identify_message(&String::from("worker-1")).unwrap();
    assert_eq!(
        deserialize_command(&msg),
        Ok(Command::Identify { hostname: String::from("worker-1") })
    );
}
