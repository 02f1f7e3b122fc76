//! Per-message logic of the two ends of a connection.
//!
//! Master side: what one received message does to the registry — a
//! heartbeat acknowledgment refreshes the sender's liveness stamp, an
//! `Identify` binds its hostname, anything else (including bytes that do
//! not decode) changes nothing and is only reported for logging.
//!
//! Agent side: what an agent does with one message from the master — a
//! `Ping` is answered with the acknowledgment, an `Update` triggers the
//! local reaction hook, anything else is ignored.
use crate::commands::Command;
use crate::commands::CommandView;
use crate::commands::deserialize_command;
use crate::commands::fits_on_wire;
use crate::commands::serialize_command;
use crate::commands::spec_deserialize;
use crate::commands::spec_serialize;
use crate::registry::Registry;
use crate::registry::hostname_bound_at;
use crate::registry::refreshed_at;
use vstd::prelude::*;

verus! {

/// What the master did with one received message, for the caller's log.
#[derive(Debug, Clone, Copy, PartialEq, Eq, Structural)]
pub enum ReceiveOutcome {
    /// A `Custom{"PONG"}`: the sender's liveness stamp was refreshed.
    HeartbeatRefreshed,
    /// An `Identify`: the sender's hostname was bound (first one wins).
    HostnameBound,
    /// A command with no handler on the master; nothing changed.
    Unhandled,
    /// Bytes that decode to no command; nothing changed. One malformed
    /// message does not cost the sender its connection.
    Malformed,
}

/// What an agent does in reply to one message from the master.
#[derive(Debug, Clone, Copy, PartialEq, Eq, Structural)]
pub enum AgentReaction {
    /// Answer a `Ping` with the heartbeat acknowledgment.
    ReplyPong,
    /// Run the local update hook for an `Update`.
    ApplyUpdate,
    /// Log and do nothing: an unhandled command or undecodable bytes.
    Ignore,
}

/// The master's handling of one message read from the connection with
/// identity `peer`: refresh on `Custom{"PONG"}`, bind on `Identify`,
/// leave the registry alone on everything else.
pub fn apply_incoming(reg: &mut Registry, peer: &String, data: &[u8], now: u64) -> (r:
    ReceiveOutcome)
    requires
        old(reg).wf(),
    ensures
        final(reg).wf(),
        match spec_deserialize(data@) {
            None => final(reg)@ == old(reg)@ && r == ReceiveOutcome::Malformed,
            Some(c) => match c {
                CommandView::Custom { data: d } => {
                    if d == "PONG"@ {
                        &&& r == ReceiveOutcome::HeartbeatRefreshed
                        &&& refreshed_at(old(reg)@, final(reg)@, peer@, now)
                    } else {
                        &&& r == ReceiveOutcome::Unhandled
                        &&& final(reg)@ == old(reg)@
                    }
                },
                CommandView::Identify { hostname } => {
                    &&& r == ReceiveOutcome::HostnameBound
                    &&& hostname_bound_at(old(reg)@, final(reg)@, peer@, hostname)
                },
                _ => final(reg)@ == old(reg)@ && r == ReceiveOutcome::Unhandled,
            },
        },
{
    match deserialize_command(data) {
        Ok(cmd) => match cmd {
            Command::Custom { data: d } => {
                if d.eq(&String::from_str("PONG")) {
                    reg.refresh_heartbeat(peer, now);
                    ReceiveOutcome::HeartbeatRefreshed
                } else {
                    ReceiveOutcome::Unhandled
                }
            },
            Command::Identify { hostname } => {
                reg.set_hostname(peer, hostname);
                ReceiveOutcome::HostnameBound
            },
            _ => ReceiveOutcome::Unhandled,
        },
        Err(_) => ReceiveOutcome::Malformed,
    }
}

/// The bytes an agent announces itself with after connecting: one
/// `Identify` carrying its hostname. Nothing is produced for a hostname
/// too long for the wire, which no real hostname is.
pub fn identify_message(hostname: &String) -> (r: Option<Vec<u8>>)
    ensures
        r is Some <==> fits_on_wire(CommandView::Identify { hostname: hostname@ }),
        r matches Some(m) ==> m@ == spec_serialize(
            CommandView::Identify { hostname: hostname@ },
        ),
{
    let cmd = Command::Identify { hostname: hostname.clone() };
    match serialize_command(&cmd) {
        Ok(m) => Some(m),
        Err(_) => None,
    }
}

/// The heartbeat acknowledgment an agent answers every `Ping` with:
/// a `Custom` carrying the literal "PONG".
pub fn pong_message() -> (r: Vec<u8>)
    ensures
        r@ == spec_serialize(CommandView::Custom { data: "PONG"@ }),
{
    proof {
        reveal_strlit("PONG");
    }
    let cmd = Command::Custom { data: String::from_str("PONG") };
    match serialize_command(&cmd) {
        Ok(m) => m,
        Err(_) => {
            // A four-character payload always fits on the wire.
            proof {
                assert(false);
            }
            Vec::new()
        },
    }
}

/// The agent's decision for one message from the master: answer `Ping`,
/// react to `Update`, ignore everything else and anything undecodable.
pub fn agent_handle_message(data: &[u8]) -> (r: AgentReaction)
    ensures
        match spec_deserialize(data@) {
            Some(CommandView::Ping) => r == AgentReaction::ReplyPong,
            Some(CommandView::Update) => r == AgentReaction::ApplyUpdate,
            _ => r == AgentReaction::Ignore,
        },
{
    match deserialize_command(data) {
        Ok(Command::Ping) => AgentReaction::ReplyPong,
        Ok(Command::Update) => AgentReaction::ApplyUpdate,
        _ => AgentReaction::Ignore,
    }
}

} // verus!
