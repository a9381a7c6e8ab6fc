use raft::error::{EncodeError, Error, RpcError};
use raft::messages::{AppendEntriesArgs, AppendEntriesReply, RequestVoteArgs, RequestVoteReply};
use raft::peer::{first_rejecting_term, tally_votes, Raft};
use raft::server::{RaftServerState, Role};
use raft::state::State;
use raft::timing::{election_timeout_millis, ELECTION_TIMEOUT_MAX_MS, ELECTION_TIMEOUT_MIN_MS};

fn vote_request(term: u64, candidate: u32) -> RequestVoteArgs {
    RequestVoteArgs { term, candidate_id: candidate, last_log_index: 0, last_log_term: 0 }
}

fn heartbeat(term: u64) -> AppendEntriesArgs {
    AppendEntriesArgs { term, leader_id: 1, ..Default::default() }
}

/// Drives a fresh peer to leadership in term 1 of a three-peer cluster.
fn leader_of_three() -> Raft {
    let mut rf = Raft::new(3, 0, &[]);
    let args = rf.start_election(false).unwrap();
    let tally = tally_votes(&vec![Some(RequestVoteReply { term: 1, vote_granted: true }), None], args.term);
    assert!(rf.conclude_election(args.term, tally.granted));
    rf
}

#[test]
fn state_getters_report_fields() {
    let s = State { term: 7, is_leader: true };
    assert_eq!(s.term(), 7);
    assert!(s.is_leader());
    let d = State::default();
    assert_eq!(d.term(), 0);
    assert!(!d.is_leader());
}

#[test]
fn server_state_default_is_empty_follower() {
    let s = RaftServerState::default();
    assert_eq!(s.voted_for, None);
    assert!(s.logs.is_empty());
    assert_eq!(s.commit_idx, 0);
    assert_eq!(s.last_applied, 0);
    assert!(s.leader_state.is_none());
    assert_eq!(s.role, Role::Follower);
    let n = RaftServerState::new(Some(2), vec![(b"x".to_vec(), 3)], 4, 5, None, Role::Candidate);
    assert_eq!(n.voted_for, Some(2));
    assert_eq!(n.logs, vec![(b"x".to_vec(), 3)]);
    assert_eq!(n.commit_idx, 4);
    assert_eq!(n.last_applied, 5);
    assert_eq!(n.role, Role::Candidate);
}

#[test]
fn new_peer_is_follower_in_term_zero() {
    let rf = Raft::new(5, 2, &[]);
    assert_eq!(rf.state().term, 0);
    assert!(!rf.state().is_leader);
    assert_eq!(rf.role(), Role::Follower);
    assert_eq!(rf.voted_for(), None);
    assert_eq!(rf.me(), 2);
    assert_eq!(rf.peer_count(), 5);
    assert_eq!(rf.commit_idx(), 0);
    assert_eq!(rf.other_peers(), vec![0, 1, 3, 4]);
}

#[test]
fn other_peers_when_me_is_outside_the_cluster() {
    assert_eq!(Raft::new(3, 7, &[]).other_peers(), vec![0, 1, 2]);
    assert_eq!(Raft::new(0, 0, &[]).other_peers(), Vec::<usize>::new());
}

#[test]
fn follower_grants_vote_for_higher_term() {
    let mut rf = Raft::new(3, 0, &[]);
    let out = rf.handle_request_vote(&vote_request(4, 2));
    assert_eq!(out.reply, RequestVoteReply { term: 4, vote_granted: true });
    assert!(out.reset_election_timer);
    assert_eq!(rf.state().term, 4);
    assert_eq!(rf.voted_for(), Some(2));
    assert_eq!(rf.role(), Role::Follower);
}

#[test]
fn follower_refuses_vote_for_same_or_lower_term() {
    let mut rf = Raft::new(3, 0, &[]);
    rf.handle_request_vote(&vote_request(4, 2));
    let same = rf.handle_request_vote(&vote_request(4, 1));
    assert_eq!(same.reply, RequestVoteReply { term: 4, vote_granted: false });
    assert!(same.reset_election_timer);
    let lower = rf.handle_request_vote(&vote_request(3, 1));
    assert_eq!(lower.reply, RequestVoteReply { term: 4, vote_granted: false });
    assert_eq!(rf.voted_for(), Some(2));
    assert_eq!(rf.state().term, 4);
}

#[test]
fn one_vote_per_term_even_for_the_same_candidate() {
    let mut rf = Raft::new(3, 0, &[]);
    assert!(rf.handle_request_vote(&vote_request(1, 1)).reply.vote_granted);
    assert!(!rf.handle_request_vote(&vote_request(1, 1)).reply.vote_granted);
    assert!(!rf.handle_request_vote(&vote_request(1, 2)).reply.vote_granted);
    assert!(rf.handle_request_vote(&vote_request(2, 2)).reply.vote_granted);
}

#[test]
fn leader_steps_down_and_votes_for_higher_term() {
    let mut rf = leader_of_three();
    assert!(rf.state().is_leader);
    let out = rf.handle_request_vote(&vote_request(5, 2));
    assert_eq!(out.reply, RequestVoteReply { term: 5, vote_granted: true });
    assert!(out.reset_election_timer);
    assert_eq!(rf.role(), Role::Follower);
    assert!(!rf.state().is_leader);
    assert_eq!(rf.voted_for(), Some(2));
}

#[test]
fn leader_refuses_equal_term_without_timer_reset() {
    let mut rf = leader_of_three();
    let out = rf.handle_request_vote(&vote_request(1, 2));
    assert_eq!(out.reply, RequestVoteReply { term: 1, vote_granted: false });
    assert!(!out.reset_election_timer);
    assert_eq!(rf.role(), Role::Leader);
}

#[test]
fn stale_append_entries_is_refused_without_effect() {
    let mut rf = Raft::new(3, 0, &[]);
    rf.observe_term(3);
    let out = rf.handle_append_entries(&heartbeat(2));
    assert_eq!(out.reply, AppendEntriesReply { term: 3, success: false });
    assert!(!out.reset_election_timer);
    assert_eq!(rf.state().term, 3);
}

#[test]
fn append_entries_of_current_term_resets_timer_only() {
    let mut rf = Raft::new(3, 0, &[]);
    let args = rf.start_election(false).unwrap();
    let out = rf.handle_append_entries(&heartbeat(args.term));
    assert_eq!(out.reply, AppendEntriesReply { term: 1, success: false });
    assert!(out.reset_election_timer);
    // a candidate stays a candidate on a heartbeat of its own term
    assert_eq!(rf.role(), Role::Candidate);
    assert_eq!(rf.voted_for(), Some(0));
}

#[test]
fn append_entries_of_higher_term_turns_leader_into_follower() {
    let mut rf = leader_of_three();
    let out = rf.handle_append_entries(&heartbeat(9));
    assert_eq!(out.reply, AppendEntriesReply { term: 9, success: false });
    assert!(out.reset_election_timer);
    assert_eq!(rf.role(), Role::Follower);
    assert!(!rf.state().is_leader);
    assert_eq!(rf.voted_for(), None);
    assert_eq!(rf.state().term, 9);
}

#[test]
fn election_makes_candidate_in_next_term() {
    let mut rf = Raft::new(5, 3, &[]);
    rf.observe_term(6);
    let args = rf.start_election(false).unwrap();
    assert_eq!(args, RequestVoteArgs { term: 7, candidate_id: 3, last_log_index: 0, last_log_term: 0 });
    assert_eq!(rf.role(), Role::Candidate);
    assert_eq!(rf.voted_for(), Some(3));
    assert_eq!(rf.state().term, 7);
    assert!(!rf.state().is_leader);
}

#[test]
fn no_election_after_hearing_from_leader_or_when_leader() {
    let mut rf = Raft::new(3, 0, &[]);
    assert_eq!(rf.start_election(true), None);
    assert_eq!(rf.state().term, 0);
    assert_eq!(rf.role(), Role::Follower);
    let mut leader = leader_of_three();
    assert_eq!(leader.start_election(false), None);
    assert_eq!(leader.state().term, 1);
}

#[test]
fn tally_counts_own_vote_and_grants() {
    let replies = vec![
        Some(RequestVoteReply { term: 3, vote_granted: true }),
        None,
        Some(RequestVoteReply { term: 3, vote_granted: false }),
        Some(RequestVoteReply { term: 3, vote_granted: true }),
    ];
    let t = tally_votes(&replies, 3);
    assert_eq!(t.granted, 3);
    assert_eq!(t.higher_term, None);
    let none = tally_votes(&vec![], 3);
    assert_eq!(none.granted, 1);
    assert_eq!(none.higher_term, None);
}

#[test]
fn tally_stops_at_first_higher_term() {
    let replies = vec![
        Some(RequestVoteReply { term: 3, vote_granted: true }),
        Some(RequestVoteReply { term: 5, vote_granted: false }),
        Some(RequestVoteReply { term: 3, vote_granted: true }),
        Some(RequestVoteReply { term: 8, vote_granted: false }),
    ];
    let t = tally_votes(&replies, 3);
    assert_eq!(t.granted, 2);
    assert_eq!(t.higher_term, Some(5));
}

#[test]
fn leader_needs_a_strict_majority() {
    let mut rf = Raft::new(4, 0, &[]);
    let args = rf.start_election(false).unwrap();
    // 2 of 4 is no majority
    assert!(!rf.conclude_election(args.term, 2));
    assert_eq!(rf.role(), Role::Candidate);
    assert!(rf.conclude_election(args.term, 3));
    assert_eq!(rf.role(), Role::Leader);
    assert!(rf.state().is_leader);
}

#[test]
fn stale_election_round_does_not_make_leader() {
    let mut rf = Raft::new(3, 0, &[]);
    let first = rf.start_election(false).unwrap();
    rf.start_election(false).unwrap();
    assert!(!rf.conclude_election(first.term, 3));
    assert_eq!(rf.role(), Role::Candidate);
}

#[test]
fn higher_term_in_reply_ends_the_bid() {
    let mut rf = Raft::new(3, 0, &[]);
    let args = rf.start_election(false).unwrap();
    let t = tally_votes(&vec![Some(RequestVoteReply { term: 4, vote_granted: false })], args.term);
    rf.observe_term(t.higher_term.unwrap());
    assert_eq!(rf.state().term, 4);
    assert_eq!(rf.role(), Role::Follower);
    assert!(!rf.conclude_election(args.term, 3));
    // a lower or equal term changes nothing
    rf.observe_term(2);
    assert_eq!(rf.state().term, 4);
}

#[test]
fn heartbeat_args_and_rejecting_replies() {
    let rf = leader_of_three();
    let hb = rf.heartbeat_args();
    assert_eq!(hb.term, 1);
    assert_eq!(hb.leader_id, 0);
    assert_eq!(hb.prev_log_index, 0);
    assert_eq!(hb.prev_log_term, 0);
    assert!(hb.entries.is_empty());
    assert_eq!(hb.leader_commit, 0);
    let replies = vec![
        None,
        Some(AppendEntriesReply { term: 9, success: true }),
        Some(AppendEntriesReply { term: 1, success: false }),
        Some(AppendEntriesReply { term: 4, success: false }),
        Some(AppendEntriesReply { term: 6, success: false }),
    ];
    assert_eq!(first_rejecting_term(&replies, 1), Some(4));
    assert_eq!(first_rejecting_term(&replies[..3].to_vec(), 1), None);
}

#[test]
fn sending_is_guarded_by_role() {
    let mut rf = Raft::new(3, 0, &[]);
    match rf.check_send_request_vote() {
        Err(Error::Rpc(RpcError::Other(m))) => assert_eq!(m, "not a candidate"),
        _ => panic!("a follower must not ask for votes"),
    }
    match rf.check_send_append_entries() {
        Err(Error::Rpc(RpcError::Other(m))) => assert_eq!(m, "not a leader"),
        _ => panic!("a follower must not send heartbeats"),
    }
    rf.start_election(false).unwrap();
    assert!(rf.check_send_request_vote().is_ok());
    assert!(rf.check_send_append_entries().is_err());
    assert!(rf.conclude_election(1, 2));
    assert!(rf.check_send_append_entries().is_ok());
    assert!(rf.check_send_request_vote().is_err());
}

#[test]
fn start_reports_encoding_failure() {
    let mut rf = leader_of_three();
    match rf.start(Err(EncodeError { description: "buffer too small".to_string() })) {
        Err(Error::Encode(e)) => assert_eq!(e.description, "buffer too small"),
        _ => panic!("an encoding failure must be reported"),
    }
    let _ = RpcError::Timeout;
    let _ = RpcError::Stopped;
}

#[test]
fn start_refused_unless_leader() {
    let mut rf = Raft::new(3, 0, &[]);
    assert!(matches!(rf.start(Ok(vec![1, 2])), Err(Error::NotLeader)));
    rf.start_election(false).unwrap();
    assert!(matches!(rf.start(Ok(vec![1, 2])), Err(Error::NotLeader)));
    // nothing was appended: the next election still asks with an empty log
    rf.observe_term(5);
    let args = rf.start_election(false).unwrap();
    assert_eq!(args.last_log_index, 0);
    assert_eq!(args.last_log_term, 0);
}

#[test]
fn leader_gives_consecutive_indices_in_its_term() {
    let mut rf = leader_of_three();
    assert_eq!(rf.start(Ok(vec![7])).ok(), Some((1, 1)));
    assert_eq!(rf.start(Ok(vec![8, 9])).ok(), Some((2, 1)));
    // the log now holds both commands in term 1
    rf.observe_term(4);
    let args = rf.start_election(false).unwrap();
    assert_eq!(args.last_log_index, 2);
    assert_eq!(args.last_log_term, 1);
}

#[test]
fn persisted_state_comes_back_after_restart() {
    let mut rf = leader_of_three();
    rf.start(Ok(b"set x".to_vec())).unwrap();
    rf.handle_request_vote(&vote_request(6, 2));
    let bytes = rf.persist();
    let back = Raft::new(3, 0, &bytes);
    assert_eq!(back.state().term, 6);
    assert!(!back.state().is_leader);
    assert_eq!(back.role(), Role::Follower);
    assert_eq!(back.voted_for(), Some(2));
    assert_eq!(back.persist(), bytes);
}

#[test]
fn persist_encoding_of_a_fresh_peer() {
    let rf = Raft::new(3, 0, &[]);
    assert_eq!(rf.persist(), vec![0, 0, 0, 0, 0, 0, 0, 0, 0]);
    let mut voter = Raft::new(3, 0, &[]);
    voter.handle_request_vote(&vote_request(1, 2));
    assert_eq!(
        voter.persist(),
        vec![1, 0, 0, 0, 0, 0, 0, 0, 1, 2, 0, 0, 0, 0, 0, 0, 0]
    );
}

#[test]
fn restore_refuses_malformed_bytes() {
    let mut rf = Raft::new(3, 0, &[]);
    rf.observe_term(2);
    assert!(rf.restore(&[]).is_ok());
    assert_eq!(rf.state().term, 2);
    // a vote tag that is neither 0 nor 1
    match rf.restore(&[5, 0, 0, 0, 0, 0, 0, 0, 7]) {
        Err(Error::Decode(_)) => {}
        _ => panic!("malformed bytes must be refused"),
    }
    // an entry that claims more bytes than there are
    let mut bad = vec![0u8; 9];
    bad.extend_from_slice(&[1, 0, 0, 0, 0, 0, 0, 0, 9, 0, 0, 0, 0, 0, 0, 0, 1]);
    assert!(matches!(rf.restore(&bad), Err(Error::Decode(_))));
    assert_eq!(rf.state().term, 2);
    assert_eq!(raft::persist::decode_persistent_state(&bad).is_none(), true);
    // well-formed bytes bring back term, vote and log
    assert!(rf.restore(&[3, 0, 0, 0, 0, 0, 0, 0, 0]).is_ok());
    assert_eq!(rf.state().term, 3);
    assert_eq!(rf.voted_for(), None);
}

#[test]
fn election_timeout_is_random_within_bounds() {
    let mut seen = std::collections::HashSet::new();
    for _ in 0..200 {
        let ms = election_timeout_millis();
        assert!(ELECTION_TIMEOUT_MIN_MS <= ms && ms < ELECTION_TIMEOUT_MAX_MS);
        seen.insert(ms);
    }
    assert!(seen.len() > 1);
}
