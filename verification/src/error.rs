use vstd::prelude::*;

verus! {

/// Failure to serialise a command before it is handed to the log.
#[derive(Clone, Debug)]
pub struct EncodeError {
    pub description: String,
}

/// Failure to read back a persisted state.
#[derive(Clone, Debug)]
pub struct DecodeError {
    pub description: String,
}

/// Failure of a remote procedure call.
#[derive(Clone, Debug)]
pub enum RpcError {
    /// The peer did not answer in time.
    Timeout,
    /// The network or the peer is shut down.
    Stopped,
    /// Any other failure, with its description.
    Other(String),
}

/// Errors that a Raft peer reports to its callers.
#[derive(Clone, Debug)]
pub enum Error {
    Encode(EncodeError),
    Decode(DecodeError),
    Rpc(RpcError),
    NotLeader,
}

} // verus!
