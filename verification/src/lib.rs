//! Core of a fleet notification hub: a master process tracks connected
//! agents in a registry, probes their liveness, and dispatches broadcast
//! and unicast commands; agents identify themselves and answer probes.
//!
//! This crate holds the verified logic: the wire codec for commands, the
//! connection registry with its invariants, the heartbeat eviction cycle,
//! the dispatch planning, and the operator command parser. All socket,
//! thread and terminal plumbing lives outside the library and talks to it
//! through plain values.
pub mod commands;
pub mod dispatch;
pub mod heartbeat;
pub mod registry;
pub mod repl;
pub mod session;
