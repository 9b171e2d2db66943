//! Invocation trees and reset-free execution successions.
//!
//! The library holds the decisions of a run coordinator as verified
//! functions over plain values: what a start request attaches to, which
//! invocations a cancel reaches, which child a fork gate admits, what public
//! events a record derives, how a run is cut for a fork, what an inspection
//! document says. Whatever waits, reads or writes sits outside it.

pub mod alike;
pub mod client;
pub mod controls;
pub mod coordinator;
pub mod digest;
pub mod event;
pub mod events;
pub mod fork;
pub mod hooks;
pub mod host;
pub mod id_set;
pub mod ids;
pub mod inspect;
pub mod interview;
pub mod json;
pub mod laws;
pub mod middleware;
pub mod model;
pub mod named;
pub mod note;
pub mod observe;
pub mod ordered;
pub mod prune;
pub mod record;
pub mod run_state;
pub mod search;
pub mod state;
pub mod steps;
pub mod table;
pub mod text;
pub mod wire;
pub mod writer;
