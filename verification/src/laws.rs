use crate::messages::{AppendEntriesReply, RequestVoteArgs, RequestVoteReply};
use crate::model::{
    append_entries_step, conclude_election_step, election_start_step, observe_term_step,
    first_higher_term, peers_except, request_vote_step, restore_step, start_step, vote_tally,
    RaftView,
};
use crate::persist::{decode_state, encode_state, lemma_state_canonical, lemma_state_round_trip};
use crate::server::Role;
use vstd::prelude::*;

verus! {

/// One event in the life of a peer, as the verified transitions take it.
pub enum Event {
    /// A `RequestVote` RPC arrived.
    RequestVote(RequestVoteArgs),
    /// An `AppendEntries` RPC from the given term arrived.
    AppendEntries(u64),
    /// The election timer fired; whether a leader was heard from meanwhile.
    ElectionTimer(bool),
    /// A reply carried the given term.
    ReplyTerm(u64),
    /// An election round for the given term ended with the given vote count.
    ElectionEnd(u64, nat),
    /// The service asked to start agreement on a command with these bytes.
    Start(Seq<u8>),
}

/// The state after one event.
pub open spec fn next(s: RaftView, e: Event) -> RaftView {
    match e {
        Event::RequestVote(a) => request_vote_step(s, a).0,
        Event::AppendEntries(t) => append_entries_step(s, t).0,
        Event::ElectionTimer(h) => election_start_step(s, h).0,
        Event::ReplyTerm(t) => observe_term_step(s, t),
        Event::ElectionEnd(t, g) => conclude_election_step(s, t, g),
        Event::Start(c) => start_step(s, c).0,
    }
}

/// The event is one the functions accept in state `s`: an election is started
/// only below the largest term, and a leader's log grows only while it fits in
/// memory (as a `Vec` does).
pub open spec fn accepted(s: RaftView, e: Event) -> bool {
    match e {
        Event::ElectionTimer(h) => s.role != Role::Leader && !h ==> s.term < u64::MAX,
        Event::Start(c) => s.role == Role::Leader ==> s.logs.len() < usize::MAX && c.len() <= usize::MAX,
        _ => true,
    }
}

/// The state after a sequence of events.
pub open spec fn run(s: RaftView, es: Seq<Event>) -> RaftView
    decreases es.len(),
{
    if es.len() == 0 {
        s
    } else {
        run(next(s, es[0]), es.drop_first())
    }
}

/// Every event of the sequence is accepted in the state it meets.
pub open spec fn accepted_run(s: RaftView, es: Seq<Event>) -> bool
    decreases es.len(),
{
    if es.len() == 0 {
        true
    } else {
        accepted(s, es[0]) && accepted_run(next(s, es[0]), es.drop_first())
    }
}

/// Whether the event is a request for a vote in term `t` that the peer grants.
pub open spec fn grants_vote_in(s: RaftView, e: Event, t: u64) -> bool {
    match e {
        Event::RequestVote(a) => a.term == t && request_vote_step(s, a).1.vote_granted,
        _ => false,
    }
}

/// Number of votes the peer grants in term `t` along the sequence.
pub open spec fn votes_granted(s: RaftView, es: Seq<Event>, t: u64) -> nat
    decreases es.len(),
{
    if es.len() == 0 {
        0
    } else {
        (if grants_vote_in(s, es[0], t) {
            1nat
        } else {
            0nat
        }) + votes_granted(next(s, es[0]), es.drop_first(), t)
    }
}

/// A fresh peer satisfies the invariant, and every accepted event keeps it.
pub proof fn law_invariant_holds(s: RaftView, e: Event, me: usize, peer_count: usize)
    requires
        s.inv(),
        accepted(s, e),
    ensures
        RaftView::initial(me, peer_count).inv(),
        next(s, e).inv(),
{
}

/// The term of a peer never decreases: every accepted event leaves it equal
/// or larger.
pub proof fn law_term_never_decreases(s: RaftView, e: Event)
    requires
        accepted(s, e),
    ensures
        next(s, e).term >= s.term,
{
}

/// Along any accepted run from a state satisfying the invariant, the
/// invariant holds at the end and the term has not decreased.
pub proof fn law_run_keeps_invariant_and_term(s: RaftView, es: Seq<Event>)
    requires
        s.inv(),
        accepted_run(s, es),
    ensures
        run(s, es).inv(),
        run(s, es).term >= s.term,
    decreases es.len(),
{
    if es.len() > 0 {
        law_invariant_holds(s, es[0], s.me, s.peer_count);
        law_term_never_decreases(s, es[0]);
        law_run_keeps_invariant_and_term(next(s, es[0]), es.drop_first());
    }
}

/// A peer whose term has reached `t` grants no vote in term `t` anymore.
proof fn lemma_no_vote_once_term_reached(s: RaftView, es: Seq<Event>, t: u64)
    requires
        accepted_run(s, es),
        s.term >= t,
    ensures
        votes_granted(s, es, t) == 0,
    decreases es.len(),
{
    if es.len() > 0 {
        law_term_never_decreases(s, es[0]);
        lemma_no_vote_once_term_reached(next(s, es[0]), es.drop_first(), t);
    }
}

/// A peer grants at most one vote per term, whatever happens in between.
pub proof fn law_one_vote_per_term(s: RaftView, es: Seq<Event>, t: u64)
    requires
        accepted_run(s, es),
    ensures
        votes_granted(s, es, t) <= 1,
    decreases es.len(),
{
    if es.len() > 0 {
        if grants_vote_in(s, es[0], t) {
            lemma_no_vote_once_term_reached(next(s, es[0]), es.drop_first(), t);
        } else {
            law_one_vote_per_term(next(s, es[0]), es.drop_first(), t);
        }
    }
}

/// A vote is granted exactly to a request from a term higher than the peer's;
/// the peer then is a follower in that term that voted for the candidate.
pub proof fn law_vote_granted_iff_higher_term(s: RaftView, a: RequestVoteArgs)
    requires
        s.inv(),
    ensures
        request_vote_step(s, a).1.vote_granted <==> a.term > s.term,
        request_vote_step(s, a).1.vote_granted ==> {
            let n = request_vote_step(s, a).0;
            &&& n.term == a.term
            &&& n.role == Role::Follower
            &&& !n.is_leader
            &&& n.voted_for == Some(a.candidate_id as usize)
        },
{
}

/// Every reply carries the term the peer has after handling the request.
pub proof fn law_reply_carries_current_term(s: RaftView, a: RequestVoteArgs, ae_term: u64)
    ensures
        request_vote_step(s, a).1.term == request_vote_step(s, a).0.term,
        append_entries_step(s, ae_term).1.term == append_entries_step(s, ae_term).0.term,
{
}

/// Learning of a higher term, by request or reply, turns the peer into a
/// follower in that term that no longer claims leadership.
pub proof fn law_higher_term_forces_follower(s: RaftView, a: RequestVoteArgs, ae_term: u64, t: u64)
    ensures
        a.term > s.term ==> request_vote_step(s, a).0.role == Role::Follower
            && !request_vote_step(s, a).0.is_leader && request_vote_step(s, a).0.term == a.term,
        ae_term > s.term ==> append_entries_step(s, ae_term).0.role == Role::Follower
            && !append_entries_step(s, ae_term).0.is_leader
            && append_entries_step(s, ae_term).0.term == ae_term,
        t > s.term ==> observe_term_step(s, t).role == Role::Follower && !observe_term_step(
            s,
            t,
        ).is_leader && observe_term_step(s, t).term == t,
{
}

/// Stale or equal-term requests leave the peer's state unchanged; a stale
/// `AppendEntries` does not even reset the election timer.
pub proof fn law_stale_requests_change_nothing(s: RaftView, a: RequestVoteArgs, ae_term: u64)
    ensures
        a.term <= s.term ==> request_vote_step(s, a).0 == s,
        ae_term <= s.term ==> append_entries_step(s, ae_term).0 == s,
        ae_term < s.term ==> !append_entries_step(s, ae_term).2,
{
}

/// `AppendEntries` is never answered with success.
pub proof fn law_append_entries_never_succeeds(s: RaftView, ae_term: u64)
    ensures
        !append_entries_step(s, ae_term).1.success,
{
}

/// An election moves the peer to the next term as a candidate that voted for
/// itself, and the requests it sends carry that term and its index.
pub proof fn law_election_advances_term(s: RaftView, heard_from_leader: bool)
    requires
        s.role != Role::Leader,
        !heard_from_leader,
        s.term < u64::MAX,
    ensures
        ({
            let (n, args) = election_start_step(s, heard_from_leader);
            &&& n.term == s.term + 1
            &&& n.role == Role::Candidate
            &&& n.voted_for == Some(s.me)
            &&& args is Some
            &&& args.unwrap().term == n.term
            &&& args.unwrap().candidate_id == s.me as u32
        }),
{
}

/// A peer becomes leader only at the end of an election round it ran as a
/// candidate in that same term, with a strict majority of the cluster's votes.
pub proof fn law_leader_needs_majority(s: RaftView, term: u64, granted: nat)
    ensures
        conclude_election_step(s, term, granted).role == Role::Leader && s.role != Role::Leader
            ==> granted > s.peer_count / 2 && s.role == Role::Candidate && s.term == term,
        conclude_election_step(s, term, granted).term == s.term,
{
}

/// Two sets of voters, each a strict majority of a cluster of `n` peers,
/// share at least one voter: with one vote per peer and term, two candidates
/// cannot both win the same term.
pub proof fn law_two_majorities_share_a_voter(a: Set<int>, b: Set<int>, n: nat)
    requires
        forall|i: int| a.contains(i) ==> 0 <= i < n,
        forall|i: int| b.contains(i) ==> 0 <= i < n,
        a.finite(),
        b.finite(),
        a.len() > n / 2,
        b.len() > n / 2,
    ensures
        exists|i: int| a.contains(i) && b.contains(i),
{
    let all = vstd::set_lib::set_int_range(0, n as int);
    vstd::set_lib::lemma_int_range(0, n as int);
    assert(a.union(b).subset_of(all));
    vstd::set_lib::lemma_len_subset(a.union(b), all);
    if !(exists|i: int| a.contains(i) && b.contains(i)) {
        assert(a.disjoint(b));
        vstd::set_lib::lemma_set_disjoint_lens(a, b);
        assert(a.len() + b.len() > n);
        assert(false);
    }
}

/// The peers a node talks to are all indices below the cluster size except
/// its own, each once, in increasing order.
pub proof fn law_other_peers_are_all_others(n: nat, me: usize)
    requires
        n <= usize::MAX + 1,
    ensures
        forall|i: int| 0 <= i < peers_except(n, me).len() ==> {
            &&& peers_except(n, me)[i] < n
            &&& peers_except(n, me)[i] != me
        },
        forall|i: int, j: int|
            0 <= i < j < peers_except(n, me).len() ==> peers_except(n, me)[i] < peers_except(
                n,
                me,
            )[j],
        forall|p: usize| p < n && p != me ==> peers_except(n, me).contains(p),
        peers_except(n, me).len() == if me < n {
            (n - 1) as nat
        } else {
            n
        },
    decreases n,
{
    if n > 0 {
        law_other_peers_are_all_others((n - 1) as nat, me);
        let rest = peers_except((n - 1) as nat, me);
        assert forall|p: usize| p < n && p != me implies peers_except(n, me).contains(p) by {
            if p == n - 1 {
                assert(peers_except(n, me) == rest.push(p));
                assert(peers_except(n, me)[rest.len() as int] == p);
            } else {
                assert(rest.contains(p));
                let k = choose|k: int| 0 <= k < rest.len() && rest[k] == p;
                assert(peers_except(n, me)[k] == p);
            }
        }
    }
}

/// Seeing a higher term during an election round ends the peer's bid: once
/// it has stepped down, concluding the round never makes it leader.
pub proof fn law_step_down_ends_election(s: RaftView, higher: u64, term: u64, granted: nat)
    requires
        higher > s.term,
    ensures
        conclude_election_step(observe_term_step(s, higher), term, granted).role != Role::Leader,
{
}

/// Whether the event is a ballot the peer casts in term `t` for candidate
/// `c`: a granted vote, or its own vote when it starts an election.
pub open spec fn ballot_for(s: RaftView, e: Event, t: u64, c: usize) -> bool {
    match e {
        Event::RequestVote(a) => a.term == t && request_vote_step(s, a).1.vote_granted && a.candidate_id
            as usize == c,
        Event::ElectionTimer(h) => s.role != Role::Leader && !h && s.term + 1 == t && s.me == c,
        _ => false,
    }
}

/// Whether the event is a ballot in term `t`, for any candidate.
pub open spec fn ballot_in(s: RaftView, e: Event, t: u64) -> bool {
    match e {
        Event::RequestVote(a) => a.term == t && request_vote_step(s, a).1.vote_granted,
        Event::ElectionTimer(h) => s.role != Role::Leader && !h && s.term + 1 == t,
        _ => false,
    }
}

/// Number of ballots, the own vote included, the peer casts in term `t` along
/// the sequence.
pub open spec fn ballots(s: RaftView, es: Seq<Event>, t: u64) -> nat
    decreases es.len(),
{
    if es.len() == 0 {
        0
    } else {
        (if ballot_in(s, es[0], t) {
            1nat
        } else {
            0nat
        }) + ballots(next(s, es[0]), es.drop_first(), t)
    }
}

/// Whether the peer casts a ballot in term `t` for candidate `c` along the
/// sequence.
pub open spec fn casts_ballot_for(s: RaftView, es: Seq<Event>, t: u64, c: usize) -> bool
    decreases es.len(),
{
    if es.len() == 0 {
        false
    } else {
        ballot_for(s, es[0], t, c) || casts_ballot_for(next(s, es[0]), es.drop_first(), t, c)
    }
}

/// A peer whose term has reached `t` casts no ballot in term `t` anymore.
proof fn lemma_no_ballot_once_term_reached(s: RaftView, es: Seq<Event>, t: u64)
    requires
        accepted_run(s, es),
        s.term >= t,
    ensures
        ballots(s, es, t) == 0,
        forall|c: usize| !#[trigger] casts_ballot_for(s, es, t, c),
    decreases es.len(),
{
    if es.len() > 0 {
        law_term_never_decreases(s, es[0]);
        lemma_no_ballot_once_term_reached(next(s, es[0]), es.drop_first(), t);
    }
    assert forall|c: usize| !#[trigger] casts_ballot_for(s, es, t, c) by {
        if es.len() > 0 {
            assert(!ballot_for(s, es[0], t, c));
            assert(!casts_ballot_for(next(s, es[0]), es.drop_first(), t, c));
        }
    }
}

/// A peer casts at most one ballot per term, its own vote included: once it
/// voted for itself in a term it grants no vote in that term, and once it
/// granted one it does not start an election for that term.
pub proof fn law_one_ballot_per_term(s: RaftView, es: Seq<Event>, t: u64)
    requires
        accepted_run(s, es),
    ensures
        ballots(s, es, t) <= 1,
    decreases es.len(),
{
    if es.len() > 0 {
        if ballot_in(s, es[0], t) {
            lemma_no_ballot_once_term_reached(next(s, es[0]), es.drop_first(), t);
        } else {
            law_one_ballot_per_term(next(s, es[0]), es.drop_first(), t);
        }
    }
}

/// A peer that starts an election, and so votes for itself, grants no vote
/// in that election's term, whatever happens afterwards.
pub proof fn law_self_vote_excludes_other_votes(s: RaftView, es: Seq<Event>)
    requires
        s.role != Role::Leader,
        s.term < u64::MAX,
        accepted_run(election_start_step(s, false).0, es),
    ensures
        votes_granted(election_start_step(s, false).0, es, election_start_step(s, false).0.term) == 0,
{
    let s1 = election_start_step(s, false).0;
    lemma_no_vote_once_term_reached(s1, es, s1.term);
}

/// Within one peer's run, all ballots of a term go to one candidate.
pub proof fn law_ballots_of_a_term_agree(s: RaftView, es: Seq<Event>, t: u64, c1: usize, c2: usize)
    requires
        accepted_run(s, es),
        casts_ballot_for(s, es, t, c1),
        casts_ballot_for(s, es, t, c2),
    ensures
        c1 == c2,
    decreases es.len(),
{
    if ballot_for(s, es[0], t, c1) || ballot_for(s, es[0], t, c2) {
        law_term_never_decreases(s, es[0]);
        lemma_no_ballot_once_term_reached(next(s, es[0]), es.drop_first(), t);
        assert(!casts_ballot_for(next(s, es[0]), es.drop_first(), t, c1));
        assert(!casts_ballot_for(next(s, es[0]), es.drop_first(), t, c2));
        assert(ballot_for(s, es[0], t, c1) && ballot_for(s, es[0], t, c2));
    } else {
        law_ballots_of_a_term_agree(next(s, es[0]), es.drop_first(), t, c1, c2);
    }
}

/// Peer `i` of a cluster of `n` peers, whose runs are `runs` from the states
/// `starts`, wins term `t`: a strict majority of the peers cast a ballot for
/// it in that term.
pub open spec fn wins(starts: Seq<RaftView>, runs: Seq<Seq<Event>>, n: nat, t: u64, i: usize) -> bool {
    exists|voters: Set<int>|
        {
            &&& voters.finite()
            &&& voters.len() > n / 2
            &&& forall|j: int| #[trigger] voters.contains(j) ==> 0 <= j < n && casts_ballot_for(
                starts[j],
                runs[j],
                t,
                i,
            )
        }
}

/// Election safety: in a cluster of `n` peers whose runs are all accepted, at
/// most one peer wins any given term.
pub proof fn law_election_safety(
    starts: Seq<RaftView>,
    runs: Seq<Seq<Event>>,
    n: nat,
    t: u64,
    i1: usize,
    i2: usize,
)
    requires
        starts.len() == n,
        runs.len() == n,
        forall|j: int| 0 <= j < n ==> accepted_run(#[trigger] starts[j], runs[j]),
        wins(starts, runs, n, t, i1),
        wins(starts, runs, n, t, i2),
    ensures
        i1 == i2,
{
    let a = choose|voters: Set<int>|
        {
            &&& voters.finite()
            &&& voters.len() > n / 2
            &&& forall|j: int| #[trigger] voters.contains(j) ==> 0 <= j < n && casts_ballot_for(
                starts[j],
                runs[j],
                t,
                i1,
            )
        };
    let b = choose|voters: Set<int>|
        {
            &&& voters.finite()
            &&& voters.len() > n / 2
            &&& forall|j: int| #[trigger] voters.contains(j) ==> 0 <= j < n && casts_ballot_for(
                starts[j],
                runs[j],
                t,
                i2,
            )
        };
    law_two_majorities_share_a_voter(a, b, n);
    let j = choose|j: int| a.contains(j) && b.contains(j);
    law_ballots_of_a_term_agree(starts[j], runs[j], t, i1, i2);
}

/// A leader gives consecutive commands consecutive log indices in its term;
/// a peer that is not leader accepts none and changes nothing.
pub proof fn law_start_indices_are_consecutive(s: RaftView, c1: Seq<u8>, c2: Seq<u8>)
    requires
        s.inv(),
        accepted(s, Event::Start(c1)),
        accepted(start_step(s, c1).0, Event::Start(c2)),
    ensures
        s.role == Role::Leader ==> ({
            let (s1, r1) = start_step(s, c1);
            let (s2, r2) = start_step(s1, c2);
            &&& r1 is Some && r2 is Some
            &&& r1.unwrap().0 == s.logs.len() + 1
            &&& r2.unwrap().0 == r1.unwrap().0 + 1
            &&& r1.unwrap().1 == s.term && r2.unwrap().1 == s.term
            &&& s2.logs == s.logs.push((c1, s.term)).push((c2, s.term))
            &&& s2.term == s.term
        }),
        s.role != Role::Leader ==> start_step(s, c1) == (s, None::<(u64, u64)>),
{
}

/// What a peer persists comes back when it restarts: the bytes are never
/// empty, and restoring from them yields the same term, vote and log, with
/// the peer a follower.
pub proof fn law_persisted_state_comes_back(s: RaftView, restarted: RaftView)
    requires
        s.inv(),
    ensures
        encode_state(s.term, s.voted_for, s.logs).len() != 0,
        decode_state(encode_state(s.term, s.voted_for, s.logs)) == Some((s.term, s.voted_for, s.logs)),
        ({
            let r = restore_step(restarted, s.term, s.voted_for, s.logs);
            &&& r.term == s.term
            &&& r.voted_for == s.voted_for
            &&& r.logs == s.logs
            &&& r.role == Role::Follower
            &&& r.inv()
        }),
{
    vstd::bytes::lemma_auto_spec_u64_to_from_le_bytes();
    lemma_state_round_trip(s.term, s.voted_for, s.logs);
}

/// Only the bytes of a persisted state are restored from: any bytes that
/// restore are exactly the encoding of what they restore to.
pub proof fn law_only_encodings_restore(b: Seq<u8>)
    requires
        decode_state(b) is Some,
    ensures
        ({
            let (t, v, l) = decode_state(b).unwrap();
            encode_state(t, v, l) == b
        }),
{
    lemma_state_canonical(b);
}

/// Whether a reply grants the vote.
pub open spec fn granted(r: Option<RequestVoteReply>) -> bool {
    r matches Some(x) && x.vote_granted
}

/// The replies candidate `i` counted in its election round for term `t`, in a
/// cluster of `n` peers with runs `runs` from states `starts`, are backed by
/// those runs: reply `k` came from peer `from[k]`, the senders are distinct
/// peers other than `i`, every granted reply is a ballot for `i` in term `t`
/// in its sender's run, and `i` voted for itself in term `t`.
pub open spec fn replies_backed(
    starts: Seq<RaftView>,
    runs: Seq<Seq<Event>>,
    n: nat,
    t: u64,
    i: usize,
    replies: Seq<Option<RequestVoteReply>>,
    from: Seq<int>,
) -> bool {
    &&& starts.len() == n
    &&& runs.len() == n
    &&& i < n
    &&& casts_ballot_for(starts[i as int], runs[i as int], t, i)
    &&& from.len() == replies.len()
    &&& forall|k: int| 0 <= k < from.len() ==> 0 <= #[trigger] from[k] < n && from[k] != i
    &&& forall|k1: int, k2: int|
        0 <= k1 < from.len() && 0 <= k2 < from.len() && k1 != k2 ==> #[trigger] from[k1] != #[trigger] from[k2]
    &&& forall|k: int|
        0 <= k < replies.len() && #[trigger] granted(replies[k]) ==> casts_ballot_for(
            starts[from[k]],
            runs[from[k]],
            t,
            i,
        )
}

/// The senders of the granted replies.
pub open spec fn granted_senders(replies: Seq<Option<RequestVoteReply>>, from: Seq<int>) -> Set<int>
    decreases replies.len(),
{
    if replies.len() == 0 {
        Set::empty()
    } else {
        let rest = granted_senders(replies.drop_first(), from.drop_first());
        if granted(replies[0]) {
            rest.insert(from[0])
        } else {
            rest
        }
    }
}

/// The senders of granted replies are finitely many, each sent a granted
/// reply, and, the senders being distinct, there are at least as many as the
/// tally counts.
proof fn lemma_granted_senders(replies: Seq<Option<RequestVoteReply>>, from: Seq<int>, t: u64)
    requires
        from.len() == replies.len(),
        forall|k1: int, k2: int|
            0 <= k1 < from.len() && 0 <= k2 < from.len() && k1 != k2 ==> #[trigger] from[k1] != #[trigger] from[k2],
    ensures
        granted_senders(replies, from).finite(),
        granted_senders(replies, from).len() >= vote_tally(replies, t).0,
        forall|x: int| #[trigger]
            granted_senders(replies, from).contains(x) ==> exists|k: int|
                0 <= k < replies.len() && granted(replies[k]) && from[k] == x,
    decreases replies.len(),
{
    if replies.len() > 0 {
        let r2 = replies.drop_first();
        let f2 = from.drop_first();
        assert forall|k1: int, k2: int|
            0 <= k1 < f2.len() && 0 <= k2 < f2.len() && k1 != k2 implies #[trigger] f2[k1] != #[trigger] f2[k2] by {
            assert(f2[k1] == from[k1 + 1] && f2[k2] == from[k2 + 1]);
        }
        lemma_granted_senders(r2, f2, t);
        let rest = granted_senders(r2, f2);
        assert forall|x: int| #[trigger] granted_senders(replies, from).contains(x) implies exists|k: int|
            0 <= k < replies.len() && granted(replies[k]) && from[k] == x by {
            if rest.contains(x) {
                let k2 = choose|k: int| 0 <= k < r2.len() && granted(r2[k]) && f2[k] == x;
                assert(granted(replies[k2 + 1]) && from[k2 + 1] == x);
            } else {
                assert(granted(replies[0]) && from[0] == x);
            }
        }
        if granted(replies[0]) {
            if rest.contains(from[0]) {
                let k2 = choose|k: int| 0 <= k < r2.len() && granted(r2[k]) && f2[k] == from[0];
                assert(from[k2 + 1] == from[0]);
                assert(false);
            }
        }
    }
}

/// A candidate whose counted replies are backed by the cluster's runs and
/// reach a strict majority, its own vote included, wins the term.
pub proof fn law_counted_majority_wins(
    starts: Seq<RaftView>,
    runs: Seq<Seq<Event>>,
    n: nat,
    t: u64,
    i: usize,
    replies: Seq<Option<RequestVoteReply>>,
    from: Seq<int>,
)
    requires
        replies_backed(starts, runs, n, t, i, replies, from),
        1 + vote_tally(replies, t).0 > n / 2,
    ensures
        wins(starts, runs, n, t, i),
{
    lemma_granted_senders(replies, from, t);
    let g = granted_senders(replies, from);
    let voters = g.insert(i as int);
    assert(!g.contains(i as int)) by {
        if g.contains(i as int) {
            let k = choose|k: int| 0 <= k < replies.len() && granted(replies[k]) && from[k] == i as int;
            assert(from[k] != i);
        }
    }
    assert forall|j: int| #[trigger] voters.contains(j) implies 0 <= j < n && casts_ballot_for(
        starts[j],
        runs[j],
        t,
        i,
    ) by {
        if j != i as int {
            let k = choose|k: int| 0 <= k < replies.len() && granted(replies[k]) && from[k] == j;
            assert(0 <= from[k] < n);
        }
    }
    assert(voters.finite());
    assert(voters.len() > n / 2);
    assert({
        &&& voters.finite()
        &&& voters.len() > n / 2
        &&& forall|j: int| #[trigger] voters.contains(j) ==> 0 <= j < n && casts_ballot_for(
            starts[j],
            runs[j],
            t,
            i,
        )
    });
}

/// At most one leader per term: two peers of a cluster whose runs are all
/// accepted, which each become leader of term `t` by concluding an election
/// round with the count of their backed replies, are the same peer.
pub proof fn law_at_most_one_leader_per_term(
    starts: Seq<RaftView>,
    runs: Seq<Seq<Event>>,
    n: nat,
    t: u64,
    s1: RaftView,
    replies1: Seq<Option<RequestVoteReply>>,
    from1: Seq<int>,
    s2: RaftView,
    replies2: Seq<Option<RequestVoteReply>>,
    from2: Seq<int>,
)
    requires
        forall|j: int| 0 <= j < n ==> accepted_run(#[trigger] starts[j], runs[j]),
        s1.peer_count == n,
        s2.peer_count == n,
        replies_backed(starts, runs, n, t, s1.me, replies1, from1),
        replies_backed(starts, runs, n, t, s2.me, replies2, from2),
        s1.role != Role::Leader,
        s2.role != Role::Leader,
        conclude_election_step(s1, t, 1 + vote_tally(replies1, t).0).role == Role::Leader,
        conclude_election_step(s2, t, 1 + vote_tally(replies2, t).0).role == Role::Leader,
    ensures
        s1.me == s2.me,
{
    law_leader_needs_majority(s1, t, 1 + vote_tally(replies1, t).0);
    law_leader_needs_majority(s2, t, 1 + vote_tally(replies2, t).0);
    law_counted_majority_wins(starts, runs, n, t, s1.me, replies1, from1);
    law_counted_majority_wins(starts, runs, n, t, s2.me, replies2, from2);
    law_election_safety(starts, runs, n, t, s1.me, s2.me);
}

/// An election asks for votes in the next term, for this peer, with the
/// length of its log as the last log index and the term of the log's last
/// entry as the last log term (0 for an empty log).
pub proof fn law_election_request_describes_the_log(s: RaftView)
    requires
        s.role != Role::Leader,
        s.term < u64::MAX,
        s.logs.len() <= usize::MAX,
    ensures
        ({
            let args = election_start_step(s, false).1;
            &&& args is Some
            &&& args.unwrap().term == s.term + 1
            &&& args.unwrap().candidate_id == s.me as u32
            &&& args.unwrap().last_log_index == s.logs.len()
            &&& s.logs.len() == 0 ==> args.unwrap().last_log_term == 0
            &&& s.logs.len() > 0 ==> args.unwrap().last_log_term == s.logs[s.logs.len() - 1].1
        }),
        election_start_step(s, true).1 is None,
{
}

/// A strict majority suffices: a peer still a candidate in term `t` that ends
/// the round of `t` with more than half of the cluster's votes becomes leader;
/// a round of another term, or a peer no longer candidate, changes nothing.
pub proof fn law_majority_makes_leader(s: RaftView, t: u64, granted: nat)
    ensures
        s.role == Role::Candidate && s.term == t && granted > s.peer_count / 2 ==> {
            let n = conclude_election_step(s, t, granted);
            &&& n.role == Role::Leader
            &&& n.is_leader
            &&& n.term == t
        },
        s.role != Role::Candidate || s.term != t || 2 * granted <= s.peer_count
            ==> conclude_election_step(s, t, granted) == s,
{
}

/// Granting a vote restarts the election timer, and so does any request from
/// a term not above a candidate's or follower's; only a leader refusing a
/// request keeps its timer.
pub proof fn law_granting_resets_timer(s: RaftView, a: RequestVoteArgs)
    ensures
        request_vote_step(s, a).1.vote_granted ==> request_vote_step(s, a).2,
        !request_vote_step(s, a).2 <==> s.role == Role::Leader && a.term <= s.term,
{
}

/// An `AppendEntries` of a term not below the peer's restarts its election
/// timer; a stale one does not.
pub proof fn law_heartbeat_resets_timer(s: RaftView, ae_term: u64)
    ensures
        append_entries_step(s, ae_term).2 <==> ae_term >= s.term,
        ae_term > s.term ==> append_entries_step(s, ae_term).0.voted_for is None,
{
}

/// Whether a heartbeat reply refuses with a term higher than `term`.
pub open spec fn refuses_with_higher_term(r: Option<AppendEntriesReply>, term: u64) -> bool {
    r matches Some(x) && !x.success && x.term > term
}

/// The heartbeat round reports a higher term exactly when some reply refuses
/// with a term above the round's, and then it is the term of the first such
/// reply in order.
pub proof fn law_first_rejecting_term(replies: Seq<Option<AppendEntriesReply>>, term: u64)
    ensures
        first_higher_term(replies, term) is Some <==> exists|k: int|
            0 <= k < replies.len() && refuses_with_higher_term(#[trigger] replies[k], term),
        first_higher_term(replies, term) matches Some(x) ==> exists|k: int|
            0 <= k < replies.len() && refuses_with_higher_term(#[trigger] replies[k], term)
                && replies[k].unwrap().term == x && forall|j: int|
                0 <= j < k ==> !refuses_with_higher_term(#[trigger] replies[j], term),
    decreases replies.len(),
{
    if replies.len() > 0 {
        let rest = replies.drop_first();
        law_first_rejecting_term(rest, term);
        if refuses_with_higher_term(replies[0], term) {
        } else {
            if exists|k: int| 0 <= k < replies.len() && refuses_with_higher_term(#[trigger] replies[k], term) {
                let k = choose|k: int| 0 <= k < replies.len() && refuses_with_higher_term(#[trigger] replies[k], term);
                assert(refuses_with_higher_term(rest[k - 1], term));
            }
            if exists|k: int| 0 <= k < rest.len() && refuses_with_higher_term(#[trigger] rest[k], term) {
                let k = choose|k: int| 0 <= k < rest.len() && refuses_with_higher_term(#[trigger] rest[k], term);
                assert(refuses_with_higher_term(replies[k + 1], term));
            }
            if first_higher_term(replies, term) is Some {
                let x = first_higher_term(replies, term).unwrap();
                let k = choose|k: int|
                    0 <= k < rest.len() && refuses_with_higher_term(#[trigger] rest[k], term)
                        && rest[k].unwrap().term == x && forall|j: int|
                        0 <= j < k ==> !refuses_with_higher_term(#[trigger] rest[j], term);
                assert(refuses_with_higher_term(replies[k + 1], term));
                assert forall|j: int| 0 <= j < k + 1 implies !refuses_with_higher_term(#[trigger] replies[j], term) by {
                    if j > 0 {
                        assert(replies[j] == rest[j - 1]);
                    }
                }
            }
        }
    }
}

/// Whether a vote reply refuses with a term higher than `term`.
pub open spec fn refuses_vote_with_higher_term(r: Option<RequestVoteReply>, term: u64) -> bool {
    r matches Some(x) && !x.vote_granted && x.term > term
}

/// Counting the replies of an election round: when no reply refuses with a
/// higher term, the count is the number of granted replies and no higher
/// term is reported; otherwise the count is the number of granted replies
/// before the first such refusal, whose term is reported.
pub proof fn law_tally_counts_granted_votes(replies: Seq<Option<RequestVoteReply>>, term: u64)
    ensures
        (forall|k: int| 0 <= k < replies.len() ==> !refuses_vote_with_higher_term(#[trigger] replies[k], term))
            ==> vote_tally(replies, term) == (replies.filter(|r: Option<RequestVoteReply>| granted(r)).len(), None::<u64>),
        vote_tally(replies, term).1 matches Some(x) ==> exists|k: int|
            0 <= k < replies.len() && refuses_vote_with_higher_term(#[trigger] replies[k], term)
                && replies[k].unwrap().term == x
                && (forall|j: int| 0 <= j < k ==> !refuses_vote_with_higher_term(#[trigger] replies[j], term))
                && vote_tally(replies, term).0 == replies.take(k).filter(|r: Option<RequestVoteReply>| granted(r)).len(),
        (exists|k: int| 0 <= k < replies.len() && refuses_vote_with_higher_term(#[trigger] replies[k], term))
            ==> vote_tally(replies, term).1 is Some,
    decreases replies.len(),
{
    let p = |r: Option<RequestVoteReply>| granted(r);
    replies.lemma_filter_eq_filter_alt(p);
    if replies.len() > 0 {
        let rest = replies.drop_first();
        law_tally_counts_granted_votes(rest, term);
        rest.lemma_filter_eq_filter_alt(p);
        if refuses_vote_with_higher_term(replies[0], term) {
            assert(replies.take(0).filter(p) =~= Seq::<Option<RequestVoteReply>>::empty());
        } else {
            if forall|k: int| 0 <= k < replies.len() ==> !refuses_vote_with_higher_term(#[trigger] replies[k], term) {
                assert forall|k: int| 0 <= k < rest.len() implies !refuses_vote_with_higher_term(#[trigger] rest[k], term) by {
                    assert(rest[k] == replies[k + 1]);
                }
            }
            if exists|k: int| 0 <= k < replies.len() && refuses_vote_with_higher_term(#[trigger] replies[k], term) {
                let k = choose|k: int| 0 <= k < replies.len() && refuses_vote_with_higher_term(#[trigger] replies[k], term);
                assert(refuses_vote_with_higher_term(rest[k - 1], term));
            }
            if vote_tally(replies, term).1 is Some {
                let x = vote_tally(replies, term).1.unwrap();
                let k = choose|k: int|
                    0 <= k < rest.len() && refuses_vote_with_higher_term(#[trigger] rest[k], term)
                        && rest[k].unwrap().term == x
                        && (forall|j: int| 0 <= j < k ==> !refuses_vote_with_higher_term(#[trigger] rest[j], term))
                        && vote_tally(rest, term).0 == rest.take(k).filter(p).len();
                assert(refuses_vote_with_higher_term(replies[k + 1], term));
                assert forall|j: int| 0 <= j < k + 1 implies !refuses_vote_with_higher_term(#[trigger] replies[j], term) by {
                    if j > 0 {
                        assert(replies[j] == rest[j - 1]);
                    }
                }
                let pre = replies.take(k + 1);
                pre.lemma_filter_eq_filter_alt(p);
                rest.take(k).lemma_filter_eq_filter_alt(p);
                assert(pre.drop_first() =~= rest.take(k));
                assert(pre[0] == replies[0]);
            }
        }
    }
}

/// The log, the commit and apply indices, the peer's identity and its
/// cluster size are left alone by every step but `start` (which appends to
/// the log) and restarting.
pub proof fn law_steps_keep_log_and_identity(s: RaftView, a: RequestVoteArgs, ae_term: u64, h: bool, t: u64, term: u64, g: nat)
    ensures
        ({
            let after = seq![
                request_vote_step(s, a).0,
                append_entries_step(s, ae_term).0,
                election_start_step(s, h).0,
                observe_term_step(s, t),
                conclude_election_step(s, term, g),
            ];
            forall|i: int| 0 <= i < 5 ==> {
                &&& (#[trigger] after[i]).logs == s.logs
                &&& after[i].commit_idx == s.commit_idx
                &&& after[i].last_applied == s.last_applied
                &&& after[i].me == s.me
                &&& after[i].peer_count == s.peer_count
            }
        }),
{
}

/// A reply's term only matters when it is higher: then the peer becomes a
/// follower in it and keeps its vote; otherwise nothing changes.
pub proof fn law_observed_term(s: RaftView, t: u64)
    ensures
        t <= s.term ==> observe_term_step(s, t) == s,
        t > s.term ==> observe_term_step(s, t).voted_for == s.voted_for,
{
}

/// When the timer fires at a leader, or after word from a leader, no election
/// starts and nothing changes; otherwise the peer becomes a candidate that
/// voted for itself.
pub proof fn law_election_starts_only_without_leader(s: RaftView, h: bool)
    requires
        s.inv(),
        s.term < u64::MAX,
    ensures
        (s.role == Role::Leader || h) <==> election_start_step(s, h).1 is None,
        election_start_step(s, h).1 is None ==> election_start_step(s, h).0 == s,
        election_start_step(s, h).1 is Some ==> {
            let n = election_start_step(s, h).0;
            &&& n.role == Role::Candidate
            &&& !n.is_leader
            &&& n.voted_for == Some(s.me)
            &&& n.term == s.term + 1
        },
{
}

} // verus!
