use crate::error::{DecodeError, EncodeError, Error, RpcError};
use crate::messages::{
    AppendEntriesArgs, AppendEntriesReply, LogEntry, RequestVoteArgs, RequestVoteReply,
};
use crate::model::{
    append_entries_step, conclude_election_step, election_start_step, first_higher_term,
    observe_term_step, peers_except, request_vote_step, restore_step, start_step, vote_tally,
    RaftView,
};
use crate::persist::{
    decode_persistent_state, decode_state, encode_persistent_state, encode_state,
    lemma_decoded_state_fits, lemma_state_round_trip, log_view,
};
use crate::server::{RaftServerState, Role};
use crate::state::State;
use vstd::prelude::*;

verus! {

/// The outcome of handling one incoming RPC: the reply to send back, and
/// whether the peer's election timer starts over.
pub struct RpcOutcome<R> {
    pub reply: R,
    pub reset_election_timer: bool,
}

/// The result of counting the replies of an election round.
pub struct VoteTally {
    /// Votes granted, this peer's own vote included.
    pub granted: usize,
    /// The higher term of the refusal that ended the count, if any.
    pub higher_term: Option<u64>,
}

/// A single Raft peer: its identity in the cluster and its state.
pub struct Raft {
    me: usize,
    peer_count: usize,
    state: State,
    raft_server_state: RaftServerState,
}

impl View for Raft {
    type V = RaftView;

    closed spec fn view(&self) -> RaftView {
        RaftView {
            me: self.me,
            peer_count: self.peer_count,
            term: self.state.term,
            is_leader: self.state.is_leader,
            role: self.raft_server_state.role,
            voted_for: self.raft_server_state.voted_for,
            logs: log_view(self.raft_server_state.logs@),
            commit_idx: self.raft_server_state.commit_idx,
            last_applied: self.raft_server_state.last_applied,
            leader_state: match self.raft_server_state.leader_state {
                Some(ls) => Some((ls.next_idx@, ls.match_idx@)),
                None => None,
            },
        }
    }
}

impl Raft {
    /// Creates the peer with index `me` in a cluster of `peer_count` peers,
    /// restoring it from the state it persisted before a crash, if any.
    pub fn new(peer_count: usize, me: usize, persisted_state: &[u8]) -> (rf: Raft)
        requires
            persisted_state@.len() == 0 || decode_state(persisted_state@) is Some,
        ensures
            rf@.inv(),
            persisted_state@.len() == 0 ==> rf@ == RaftView::initial(me, peer_count),
            persisted_state@.len() != 0 ==> ({
                let (t, v, l) = decode_state(persisted_state@).unwrap();
                rf@ == restore_step(RaftView::initial(me, peer_count), t, v, l)
            }),
    {
        let mut rf = Raft {
            me,
            peer_count,
            state: State { term: 0, is_leader: false },
            raft_server_state: RaftServerState::default(),
        };
        proof {
            assert(rf@.logs =~= Seq::<(Seq<u8>, u64)>::empty());
        }
        let _ = rf.restore(persisted_state);
        rf
    }

    /// The persistent state of this peer (term, vote and log) as bytes, to be
    /// saved to stable storage; they read back as that same state.
    pub fn persist(&self) -> (bytes: Vec<u8>)
        requires
            self@.inv(),
        ensures
            bytes@ == encode_state(self@.term, self@.voted_for, self@.logs),
            decode_state(bytes@) == Some((self@.term, self@.voted_for, self@.logs)),
    {
        proof {
            lemma_state_round_trip(self@.term, self@.voted_for, self@.logs);
        }
        encode_persistent_state(
            self.state.term,
            self.raft_server_state.voted_for,
            &self.raft_server_state.logs,
        )
    }

    /// Restores previously persisted state after a crash: empty `data` leaves
    /// the peer as it is; the bytes of a persisted state bring back its term,
    /// vote and log, with the peer a follower; any other bytes are refused
    /// and change nothing.
    pub fn restore(&mut self, data: &[u8]) -> (res: Result<(), Error>)
        requires
            old(self)@.inv(),
        ensures
            final(self)@.inv(),
            data@.len() == 0 ==> res is Ok && final(self)@ == old(self)@,
            data@.len() != 0 ==> match decode_state(data@) {
                Some((t, v, l)) => res is Ok && final(self)@ == restore_step(old(self)@, t, v, l),
                None => res matches Err(Error::Decode(_)) && final(self)@ == old(self)@,
            },
    {
        if data.len() == 0 {
            // bootstrap without any state
            return Ok(());
        }
        match decode_persistent_state(data) {
            Some(p) => {
                proof {
                    lemma_decoded_state_fits(data@);
                }
                self.state = State { term: p.term, is_leader: false };
                self.raft_server_state.voted_for = p.voted_for;
                self.raft_server_state.logs = p.logs;
                self.raft_server_state.leader_state = None;
                self.raft_server_state.role = Role::Follower;
                Ok(())
            },
            None => Err(
                Error::Decode(DecodeError { description: "malformed persistent state".to_owned() }),
            ),
        }
    }

    /// The state reported to the service: current term and leadership.
    pub fn state(&self) -> (s: State)
        ensures
            s.term == self@.term,
            s.is_leader == self@.is_leader,
    {
        State { term: self.state.term, is_leader: self.state.is_leader }
    }

    /// The role of this peer.
    pub fn role(&self) -> (r: Role)
        ensures
            r == self@.role,
    {
        self.raft_server_state.role
    }

    /// This peer's index.
    pub fn me(&self) -> (m: usize)
        ensures
            m == self@.me,
    {
        self.me
    }

    /// Number of peers in the cluster.
    pub fn peer_count(&self) -> (n: usize)
        ensures
            n == self@.peer_count,
    {
        self.peer_count
    }

    /// The candidate this peer voted for in its current term.
    pub fn voted_for(&self) -> (v: Option<usize>)
        ensures
            v == self@.voted_for,
    {
        self.raft_server_state.voted_for
    }

    /// Index of the highest log entry known to be committed.
    pub fn commit_idx(&self) -> (c: u64)
        ensures
            c == self@.commit_idx,
    {
        self.raft_server_state.commit_idx
    }

    /// Handles a `RequestVote` RPC.
    pub fn handle_request_vote(&mut self, args: &RequestVoteArgs) -> (out: RpcOutcome<RequestVoteReply>)
        requires
            old(self)@.inv(),
        ensures
            final(self)@.inv(),
            (final(self)@, out.reply, out.reset_election_timer) == request_vote_step(old(self)@, *args),
    {
        match self.raft_server_state.role {
            Role::Leader if args.term > self.state.term => {
                // step down to follower on a request from a higher term
                self.raft_server_state.role = Role::Follower;
                self.state.term = args.term;
                self.state.is_leader = false;
                // and vote for this candidate
                self.raft_server_state.voted_for = Some(args.candidate_id as usize);
                RpcOutcome {
                    reply: RequestVoteReply { term: self.state.term, vote_granted: true },
                    reset_election_timer: true,
                }
            },
            Role::Leader => {
                // the request's term is not higher than ours
                RpcOutcome {
                    reply: RequestVoteReply { term: self.state.term, vote_granted: false },
                    reset_election_timer: false,
                }
            },
            Role::Candidate | Role::Follower => {
                if args.term > self.state.term {
                    // adopt the higher term as a follower, with no vote yet
                    self.state.term = args.term;
                    self.raft_server_state.role = Role::Follower;
                    self.raft_server_state.voted_for = None;
                } else {
                    // the request's term is not higher than ours
                    return RpcOutcome {
                        reply: RequestVoteReply { term: self.state.term, vote_granted: false },
                        reset_election_timer: true,
                    };
                }
                match self.raft_server_state.voted_for {
                    Some(voted_id) => {
                        if voted_id == args.candidate_id as usize {
                            // already voted for this candidate in this term
                            RpcOutcome {
                                reply: RequestVoteReply { term: self.state.term, vote_granted: true },
                                reset_election_timer: true,
                            }
                        } else {
                            // already voted for another candidate in this term
                            RpcOutcome {
                                reply: RequestVoteReply { term: self.state.term, vote_granted: false },
                                reset_election_timer: false,
                            }
                        }
                    },
                    None => {
                        self.raft_server_state.voted_for = Some(args.candidate_id as usize);
                        RpcOutcome {
                            reply: RequestVoteReply { term: self.state.term, vote_granted: true },
                            reset_election_timer: true,
                        }
                    },
                }
            },
        }
    }

    /// Handles an `AppendEntries` RPC (a heartbeat: its entries are not read).
    pub fn handle_append_entries(&mut self, args: &AppendEntriesArgs) -> (out: RpcOutcome<AppendEntriesReply>)
        requires
            old(self)@.inv(),
        ensures
            final(self)@.inv(),
            (final(self)@, out.reply, out.reset_election_timer) == append_entries_step(old(self)@, args.term),
    {
        if args.term < self.state.term {
            // reply false if term < currentTerm
            RpcOutcome {
                reply: AppendEntriesReply { term: self.state.term, success: false },
                reset_election_timer: false,
            }
        } else {
            if args.term > self.state.term {
                // adopt the higher term as a follower
                self.state.term = args.term;
                self.raft_server_state.role = Role::Follower;
                self.state.is_leader = false;
                self.raft_server_state.voted_for = None;
            }
            RpcOutcome {
                reply: AppendEntriesReply { term: self.state.term, success: false },
                reset_election_timer: true,
            }
        }
    }

    /// Called when the election timer fires; `heard_from_leader` tells whether
    /// a leader or candidate was heard from within the timeout. Returns the
    /// arguments of the `RequestVote` RPCs to send when an election starts.
    pub fn start_election(&mut self, heard_from_leader: bool) -> (args: Option<RequestVoteArgs>)
        requires
            old(self)@.inv(),
            old(self)@.role != Role::Leader && !heard_from_leader ==> old(self)@.term < u64::MAX,
        ensures
            final(self)@.inv(),
            (final(self)@, args) == election_start_step(old(self)@, heard_from_leader),
    {
        if self.raft_server_state.role == Role::Leader || heard_from_leader {
            return None;
        }
        self.raft_server_state.role = Role::Candidate;
        self.state.term = self.state.term + 1;
        self.raft_server_state.voted_for = Some(self.me);
        let n = self.raft_server_state.logs.len();
        let last_log_term = if n == 0 {
            0
        } else {
            self.raft_server_state.logs[n - 1].1
        };
        Some(
            RequestVoteArgs {
                term: self.state.term,
                candidate_id: self.me as u32,
                last_log_index: n as u64,
                last_log_term,
            },
        )
    }

    /// Takes note of a term seen in a reply: a higher one makes this peer a
    /// follower in that term.
    pub fn observe_term(&mut self, term: u64)
        requires
            old(self)@.inv(),
        ensures
            final(self)@.inv(),
            final(self)@ == observe_term_step(old(self)@, term),
    {
        if term > self.state.term {
            self.state.term = term;
            self.raft_server_state.role = Role::Follower;
            self.state.is_leader = false;
        }
    }

    /// Ends the election round of `term` in which `granted` votes were
    /// counted, this peer's own included. Returns whether it became leader.
    pub fn conclude_election(&mut self, term: u64, granted: usize) -> (won: bool)
        requires
            old(self)@.inv(),
        ensures
            final(self)@.inv(),
            final(self)@ == conclude_election_step(old(self)@, term, granted as nat),
            won == (final(self)@.role == Role::Leader && old(self)@.role != Role::Leader),
    {
        if granted > self.peer_count / 2 {
            // still a candidate in the same term?
            if self.raft_server_state.role == Role::Candidate && self.state.term == term {
                self.raft_server_state.role = Role::Leader;
                self.state.is_leader = true;
                return true;
            }
        }
        false
    }

    /// The indices of all other peers, in increasing order: those to which
    /// this peer sends its RPCs.
    pub fn other_peers(&self) -> (v: Vec<usize>)
        ensures
            v@ == peers_except(self@.peer_count as nat, self@.me),
    {
        let mut v: Vec<usize> = Vec::new();
        let mut i: usize = 0;
        while i < self.peer_count
            invariant
                i <= self.peer_count,
                v@ == peers_except(i as nat, self.me),
            decreases self.peer_count - i,
        {
            if i != self.me {
                v.push(i);
            }
            i = i + 1;
        }
        v
    }

    /// The term of the heartbeat round about to start: `Some` with the current
    /// term while this peer is leader, `None` otherwise (no round then).
    pub fn heartbeat_term(&self) -> (t: Option<u64>)
        ensures
            t == (if self@.role == Role::Leader {
                Some(self@.term)
            } else {
                None::<u64>
            }),
    {
        if self.raft_server_state.role != Role::Leader {
            return None;
        }
        Some(self.state.term)
    }

    /// The heartbeat a leader sends to each other peer: an `AppendEntries`
    /// with its term, its index, no entries and its commit index.
    pub fn heartbeat_args(&self) -> (args: AppendEntriesArgs)
        ensures
            args.term == self@.term,
            args.leader_id == self@.me as u32,
            args.prev_log_index == 0,
            args.prev_log_term == 0,
            args.entries@ == Seq::<LogEntry>::empty(),
            args.leader_commit == self@.commit_idx,
    {
        AppendEntriesArgs {
            term: self.state.term,
            leader_id: self.me as u32,
            prev_log_index: 0,
            prev_log_term: 0,
            entries: Vec::new(),
            leader_commit: self.raft_server_state.commit_idx,
        }
    }

    /// A `RequestVote` RPC may go out only while this peer is a candidate.
    pub fn check_send_request_vote(&self) -> (res: Result<(), Error>)
        ensures
            res is Ok <==> self@.role == Role::Candidate,
            res matches Err(e) ==> (e matches Error::Rpc(RpcError::Other(m)) && m@ == "not a candidate"@),
    {
        if self.raft_server_state.role != Role::Candidate {
            return Err(Error::Rpc(RpcError::Other("not a candidate".to_owned())));
        }
        Ok(())
    }

    /// An `AppendEntries` RPC may go out only while this peer is leader.
    pub fn check_send_append_entries(&self) -> (res: Result<(), Error>)
        ensures
            res is Ok <==> self@.role == Role::Leader,
            res matches Err(e) ==> (e matches Error::Rpc(RpcError::Other(m)) && m@ == "not a leader"@),
    {
        if self.raft_server_state.role != Role::Leader {
            return Err(Error::Rpc(RpcError::Other("not a leader".to_owned())));
        }
        Ok(())
    }

    /// Starts agreement on a command, given the outcome of encoding it. An
    /// encoding failure is reported as such; a peer that is not leader answers
    /// `NotLeader`; a leader appends the command to its log in its current term
    /// and answers with the index the command will have if it is ever
    /// committed, and that term. It does not wait for agreement.
    pub fn start(&mut self, encoded: Result<Vec<u8>, EncodeError>) -> (res: Result<(u64, u64), Error>)
        requires
            old(self)@.inv(),
        ensures
            final(self)@.inv(),
            match encoded {
                Ok(c) => {
                    &&& final(self)@ == start_step(old(self)@, c@).0
                    &&& match start_step(old(self)@, c@).1 {
                        Some(p) => res == Ok::<(u64, u64), Error>(p),
                        None => res == Err::<(u64, u64), Error>(Error::NotLeader),
                    }
                },
                Err(e) => res == Err::<(u64, u64), Error>(Error::Encode(e)) && final(self)@ == old(self)@,
            },
    {
        let command = match encoded {
            Err(e) => {
                return Err(Error::Encode(e));
            },
            Ok(c) => c,
        };
        if self.raft_server_state.role != Role::Leader {
            return Err(Error::NotLeader);
        }
        let term = self.state.term;
        let ghost c = command@;
        let ghost before = self.raft_server_state.logs@;
        proof {
            // a vector's length is a `usize`
            assert(c.len() <= usize::MAX) by {
                assert(command.len() == c.len());
            }
        }
        self.raft_server_state.logs.push((command, term));
        proof {
            assert(log_view(self.raft_server_state.logs@) =~= log_view(before).push((c, term)));
        }
        let index = self.raft_server_state.logs.len() as u64;
        Ok((index, term))
    }
}

/// Counts the replies of the election round for `term`, in the order the
/// requests went out; `None` stands for a reply that did not arrive.
pub fn tally_votes(replies: &Vec<Option<RequestVoteReply>>, term: u64) -> (t: VoteTally)
    requires
        replies.len() < usize::MAX,
    ensures
        t.granted == 1 + vote_tally(replies@, term).0,
        t.higher_term == vote_tally(replies@, term).1,
{
    let mut granted: usize = 1;  // count the own vote
    let mut i: usize = 0;
    proof {
        assert(replies@.skip(0) =~= replies@);
    }
    while i < replies.len()
        invariant
            i <= replies.len() < usize::MAX,
            1 <= granted <= i + 1,
            vote_tally(replies@, term).0 == (granted - 1) + vote_tally(replies@.skip(i as int), term).0,
            vote_tally(replies@, term).1 == vote_tally(replies@.skip(i as int), term).1,
        decreases replies.len() - i,
    {
        proof {
            assert(replies@.skip(i as int).drop_first() =~= replies@.skip(i + 1));
        }
        match replies[i] {
            Some(reply) => {
                if reply.vote_granted {
                    granted = granted + 1;
                } else if reply.term > term {
                    // a higher term ends the count
                    return VoteTally { granted, higher_term: Some(reply.term) };
                }
            },
            None => {},
        }
        i = i + 1;
    }
    proof {
        assert(replies@.skip(i as int).len() == 0);
    }
    VoteTally { granted, higher_term: None }
}

/// The higher term reported by the first refused heartbeat of the round for
/// `term`, in the order the heartbeats went out; `None` stands for a reply
/// that did not arrive.
pub fn first_rejecting_term(replies: &Vec<Option<AppendEntriesReply>>, term: u64) -> (t: Option<u64>)
    ensures
        t == first_higher_term(replies@, term),
{
    let mut i: usize = 0;
    proof {
        assert(replies@.skip(0) =~= replies@);
    }
    while i < replies.len()
        invariant
            i <= replies.len(),
            first_higher_term(replies@, term) == first_higher_term(replies@.skip(i as int), term),
        decreases replies.len() - i,
    {
        proof {
            assert(replies@.skip(i as int).drop_first() =~= replies@.skip(i + 1));
        }
        match replies[i] {
            Some(reply) => {
                if !reply.success && reply.term > term {
                    return Some(reply.term);
                }
            },
            None => {},
        }
        i = i + 1;
    }
    None
}

} // verus!
