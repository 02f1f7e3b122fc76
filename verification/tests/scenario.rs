//! The whole control-plane story at the registry level: one agent
//! connects, identifies, is listed, addressed by name, and disconnects.
use netsync::commands::{Command, deserialize_command, serialize_command};
use netsync::dispatch::{list_lines, unicast_by_name};
use netsync::registry::Registry;
use netsync::repl::{ReplCmd, parse_command};
use netsync::session::apply_incoming;

#[test]
fn one_agent_full_session() {
    // Master starts with an empty registry; agent A connects.
    let mut reg = Registry::new();
    let peer = String::from("192.168.1.50:40001");
    assert!(reg.accept_connection(peer.clone(), 0));

    // Agent A announces itself as worker-1.
    let hello =
        serialize_command(&Command::Identify { hostname: String::from("worker-1") }).unwrap();
    apply_incoming(&mut reg, &peer, &hello, 0);

    // Operator: list — one entry, with the announced hostname.
    assert_eq!(parse_command("list"), ReplCmd::List);
    let lines = list_lines(&reg);
    assert_eq!(lines, vec![" - 192.168.1.50:40001 (hostname: worker-1)"]);

    // Operator: send worker-1 reload — agent A receives Custom{"reload"}.
    let cmd = parse_command("send worker-1 reload");
    let ReplCmd::Send { hostname, data } = cmd else {
        panic!("the send line must parse as a send");
    };
    let (target, msg) = unicast_by_name(&reg, &hostname, &data).unwrap();
    assert_eq!(target, peer);
    assert_eq!(
        deserialize_command(&msg),
        Ok(Command::Custom { data: String::from("reload") })
    );

    // Agent A closes its socket; the receive loop removes its entry.
    assert!(reg.remove(&peer));

    // The next list shows zero entries.
    assert_eq!(list_lines(&reg).len(), 0);
    assert_eq!(reg.len(), 0);
}
