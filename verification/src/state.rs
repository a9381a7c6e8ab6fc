use vstd::prelude::*;

verus! {

/// State of a raft peer, as reported to the service on top of it.
#[derive(Default, Clone, Debug)]
pub struct State {
    pub term: u64,
    pub is_leader: bool,
}

impl State {
    /// The current term of this peer.
    pub fn term(&self) -> (t: u64)
        ensures
            t == self.term,
    {
        self.term
    }

    /// Whether this peer believes it is the leader.
    pub fn is_leader(&self) -> (b: bool)
        ensures
            b == self.is_leader,
    {
        self.is_leader
    }
}

} // verus!
