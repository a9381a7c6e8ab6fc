//! The decision logic of a Raft peer: the handlers for `RequestVote` and
//! `AppendEntries`, the election round and the heartbeat round, written as
//! verified transitions over a mathematical model of the peer's state.
//!
//! Threads, timers, channels and the network stay with the caller, which feeds
//! each event to these functions and performs the action they hand back.

pub mod error;
pub mod messages;
pub mod server;
pub mod state;
pub mod timing;
pub mod model;
pub mod peer;
pub mod persist;
pub mod laws;
