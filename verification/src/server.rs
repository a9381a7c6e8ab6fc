use vstd::prelude::*;

verus! {

/// The role a peer plays in the current term.
#[derive(Clone, Copy, Debug, PartialEq, Eq, Structural)]
pub enum Role {
    Leader,
    Candidate,
    Follower,
}

/// Volatile state a leader keeps for each of its followers.
pub struct RaftServerLeaderState {
    /// Index of the next log entry to send to each server.
    pub next_idx: Vec<u64>,
    /// Index of the highest log entry known to be replicated on each server.
    pub match_idx: Vec<u64>,
}

/// State every Raft server maintains besides its term.
pub struct RaftServerState {
    /// Candidate that received this peer's vote in the current term, if any.
    pub voted_for: Option<usize>,
    /// Log entries: a command for the state machine and the term in which
    /// the leader received it.
    pub logs: Vec<(Vec<u8>, u64)>,
    /// Index of the highest log entry known to be committed.
    pub commit_idx: u64,
    /// Index of the highest log entry applied to the state machine.
    pub last_applied: u64,
    /// Present only while the server is leader.
    pub leader_state: Option<RaftServerLeaderState>,
    /// Role of the server.
    pub role: Role,
}

impl RaftServerState {
    /// Builds the state from its parts.
    pub fn new(
        voted_for: Option<usize>,
        logs: Vec<(Vec<u8>, u64)>,
        commit_idx: u64,
        last_applied: u64,
        leader_state: Option<RaftServerLeaderState>,
        role: Role,
    ) -> (s: Self)
        ensures
            s.voted_for == voted_for,
            s.logs@ == logs@,
            s.commit_idx == commit_idx,
            s.last_applied == last_applied,
            s.leader_state == leader_state,
            s.role == role,
    {
        Self { voted_for, logs, commit_idx, last_applied, leader_state, role }
    }
}

impl Default for RaftServerState {
    /// A server always starts as a follower with an empty log, no vote and
    /// nothing committed or applied.
    fn default() -> (s: Self)
        ensures
            s.voted_for is None,
            s.logs@ == Seq::<(Vec<u8>, u64)>::empty(),
            s.commit_idx == 0,
            s.last_applied == 0,
            s.leader_state is None,
            s.role == Role::Follower,
    {
        Self::new(None, Vec::new(), 0, 0, None, Role::Follower)
    }
}

} // verus!
