use crate::messages::{AppendEntriesReply, RequestVoteArgs, RequestVoteReply};
use crate::server::Role;
use vstd::prelude::*;

verus! {

/// The mathematical model of one Raft peer.
pub struct RaftView {
    /// This peer's index among the peers.
    pub me: usize,
    /// Number of peers in the cluster, this one included.
    pub peer_count: usize,
    /// Current term.
    pub term: u64,
    /// Whether the peer reports itself as leader.
    pub is_leader: bool,
    pub role: Role,
    pub voted_for: Option<usize>,
    /// Each log entry: the command's bytes and the term it was received in.
    pub logs: Seq<(Seq<u8>, u64)>,
    pub commit_idx: u64,
    pub last_applied: u64,
    /// `next_idx` and `match_idx` of the leader state, when there is one.
    pub leader_state: Option<(Seq<u64>, Seq<u64>)>,
}

impl RaftView {
    /// What every reachable state satisfies: the reported leadership agrees
    /// with the role, a candidate or leader has voted for itself, and the log
    /// and each of its commands fit in memory.
    pub open spec fn inv(self) -> bool {
        &&& self.is_leader == (self.role == Role::Leader)
        &&& (self.role != Role::Follower ==> self.voted_for == Some(self.me))
        &&& self.log_fits()
    }

    /// The log holds at most `usize::MAX` entries, each command at most
    /// `usize::MAX` bytes.
    pub open spec fn log_fits(self) -> bool {
        &&& self.logs.len() <= usize::MAX
        &&& forall|i: int| 0 <= i < self.logs.len() ==> #[trigger] self.logs[i].0.len() <= usize::MAX
    }

    /// A freshly started peer: a follower in term 0 with an empty log.
    pub open spec fn initial(me: usize, peer_count: usize) -> RaftView {
        RaftView {
            me,
            peer_count,
            term: 0,
            is_leader: false,
            role: Role::Follower,
            voted_for: None,
            logs: Seq::empty(),
            commit_idx: 0,
            last_applied: 0,
            leader_state: None,
        }
    }

    /// The same peer as a follower in term `t`, no longer leader.
    pub open spec fn follower_in(self, t: u64) -> RaftView {
        RaftView { term: t, role: Role::Follower, is_leader: false, ..self }
    }
}

/// Term of the last log entry, 0 for an empty log.
pub open spec fn last_log_term(logs: Seq<(Seq<u8>, u64)>) -> u64 {
    if logs.len() == 0 {
        0
    } else {
        logs.last().1
    }
}

/// Handling of a `RequestVote` RPC: next state, reply, and whether the
/// election timer is reset.
///
/// A request from a higher term makes the peer a follower in that term that
/// votes for the candidate; any other request is refused and changes nothing.
pub open spec fn request_vote_step(s: RaftView, a: RequestVoteArgs) -> (RaftView, RequestVoteReply, bool) {
    if a.term > s.term {
        (
            RaftView { voted_for: Some(a.candidate_id as usize), ..s.follower_in(a.term) },
            RequestVoteReply { term: a.term, vote_granted: true },
            true,
        )
    } else {
        (s, RequestVoteReply { term: s.term, vote_granted: false }, s.role != Role::Leader)
    }
}

/// Handling of an `AppendEntries` RPC: next state, reply, and whether the
/// election timer is reset.
///
/// A stale request is refused without effect; one from the current term only
/// resets the timer; one from a higher term also makes the peer a follower in
/// that term with no vote. The reply never reports success.
pub open spec fn append_entries_step(s: RaftView, a_term: u64) -> (RaftView, AppendEntriesReply, bool) {
    if a_term < s.term {
        (s, AppendEntriesReply { term: s.term, success: false }, false)
    } else if a_term > s.term {
        (
            RaftView { voted_for: None, ..s.follower_in(a_term) },
            AppendEntriesReply { term: a_term, success: false },
            true,
        )
    } else {
        (s, AppendEntriesReply { term: s.term, success: false }, true)
    }
}

/// Start of an election round when the election timer fires.
///
/// A leader, or a peer that heard from a leader within the timeout, does
/// nothing. Otherwise the peer becomes a candidate in the next term, votes for
/// itself, and asks for votes with the index and term of its last log entry.
pub open spec fn election_start_step(s: RaftView, heard_from_leader: bool) -> (RaftView, Option<RequestVoteArgs>) {
    if s.role == Role::Leader || heard_from_leader {
        (s, None)
    } else {
        let t = (s.term + 1) as u64;
        (
            RaftView { role: Role::Candidate, term: t, voted_for: Some(s.me), ..s },
            Some(
                RequestVoteArgs {
                    term: t,
                    candidate_id: s.me as u32,
                    last_log_index: s.logs.len() as u64,
                    last_log_term: last_log_term(s.logs),
                },
            ),
        )
    }
}

/// A service asks to start agreement on the command with bytes `c`: a leader
/// appends it to its log in its current term and answers with the index the
/// command takes there and that term; any other peer refuses (`None`) and
/// changes nothing.
pub open spec fn start_step(s: RaftView, c: Seq<u8>) -> (RaftView, Option<(u64, u64)>) {
    if s.role == Role::Leader {
        (RaftView { logs: s.logs.push((c, s.term)), ..s }, Some(((s.logs.len() + 1) as u64, s.term)))
    } else {
        (s, None)
    }
}

/// A peer restarted from a persisted term, vote and log: it comes back as a
/// follower holding them, without leader state.
pub open spec fn restore_step(
    s: RaftView,
    term: u64,
    voted_for: Option<usize>,
    logs: Seq<(Seq<u8>, u64)>,
) -> RaftView {
    RaftView {
        term,
        voted_for,
        logs,
        role: Role::Follower,
        is_leader: false,
        leader_state: None,
        ..s
    }
}

/// A reply carried term `t`: a higher term makes the peer a follower in it.
pub open spec fn observe_term_step(s: RaftView, t: u64) -> RaftView {
    if t > s.term {
        s.follower_in(t)
    } else {
        s
    }
}

/// End of an election round for `term` with `granted` votes, its own included:
/// the peer becomes leader exactly when the votes are a majority of the
/// cluster and it is still a candidate in that term.
pub open spec fn conclude_election_step(s: RaftView, term: u64, granted: nat) -> RaftView {
    if granted > s.peer_count / 2 && s.role == Role::Candidate && s.term == term {
        RaftView { role: Role::Leader, is_leader: true, ..s }
    } else {
        s
    }
}

/// The indices `0..n` without `me`, in increasing order.
pub open spec fn peers_except(n: nat, me: usize) -> Seq<usize>
    decreases n,
{
    if n == 0 {
        Seq::empty()
    } else {
        let rest = peers_except((n - 1) as nat, me);
        if n - 1 == me {
            rest
        } else {
            rest.push((n - 1) as usize)
        }
    }
}

/// Counting the replies of an election round for `term`, in order: the
/// number of granted votes, and the higher term of the first refusal that
/// carries one, at which counting stops. A missing reply counts for nothing.
pub open spec fn vote_tally(replies: Seq<Option<RequestVoteReply>>, term: u64) -> (nat, Option<u64>)
    decreases replies.len(),
{
    if replies.len() == 0 {
        (0, None)
    } else {
        let rest = vote_tally(replies.drop_first(), term);
        match replies[0] {
            Some(r) => if r.vote_granted {
                (rest.0 + 1, rest.1)
            } else if r.term > term {
                (0, Some(r.term))
            } else {
                rest
            },
            None => rest,
        }
    }
}

/// The term of the first heartbeat reply, in order, that refuses with a term
/// higher than `term`; missing replies are skipped.
pub open spec fn first_higher_term(replies: Seq<Option<AppendEntriesReply>>, term: u64) -> Option<u64>
    decreases replies.len(),
{
    if replies.len() == 0 {
        None
    } else {
        match replies[0] {
            Some(r) => if !r.success && r.term > term {
                Some(r.term)
            } else {
                first_higher_term(replies.drop_first(), term)
            },
            None => first_higher_term(replies.drop_first(), term),
        }
    }
}

} // verus!
