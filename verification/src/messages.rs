use vstd::prelude::*;

verus! {

/// As each Raft peer becomes aware that successive log entries are committed,
/// the peer sends an `ApplyMsg` to the service on the same server.
pub enum ApplyMsg {
    Command { data: Vec<u8>, index: u64 },
    Snapshot { data: Vec<u8>, term: u64, index: u64 },
}

/// Arguments of the `RequestVote` RPC, sent by a candidate.
#[derive(Clone, Copy, Debug, Default, PartialEq, Eq, Structural)]
pub struct RequestVoteArgs {
    pub term: u64,
    pub candidate_id: u32,
    pub last_log_index: u64,
    pub last_log_term: u64,
}

/// Reply to the `RequestVote` RPC.
#[derive(Clone, Copy, Debug, Default, PartialEq, Eq, Structural)]
pub struct RequestVoteReply {
    pub term: u64,
    pub vote_granted: bool,
}

/// One entry of the replicated log: a command and the term in which the
/// leader received it.
#[derive(Clone, Debug, Default)]
pub struct LogEntry {
    pub command: Vec<u8>,
    pub term: u64,
}

/// Arguments of the `AppendEntries` RPC, sent by a leader (also as heartbeat).
#[derive(Clone, Debug, Default)]
pub struct AppendEntriesArgs {
    pub term: u64,
    pub leader_id: u32,
    pub prev_log_index: u64,
    pub prev_log_term: u64,
    pub entries: Vec<LogEntry>,
    pub leader_commit: u64,
}

/// Reply to the `AppendEntries` RPC.
#[derive(Clone, Copy, Debug, Default, PartialEq, Eq, Structural)]
pub struct AppendEntriesReply {
    pub term: u64,
    pub success: bool,
}

} // verus!
