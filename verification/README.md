# raft

The decision logic of a Raft peer, with its contracts and proofs.

- `src/model.rs` — the mathematical model of a peer (`RaftView`) and one spec
  function per transition: `RequestVote` and `AppendEntries` handling, the
  start and the end of an election round, stepping down on a higher term,
  and the counting of replies.
- `src/peer.rs` — the executable peer (`Raft`), whose every method is proved
  to perform exactly the transition of the model and to keep its invariant.
- `src/laws.rs` — properties over whole runs: the invariant holds, terms never
  decrease, a peer casts at most one ballot per term (its own vote included),
  a peer becomes leader only when the vote count it is handed is a strict
  majority, and, where each counted reply is a ballot of a distinct peer, no
  two peers become leader of the same term. A leader gives consecutive
  commands consecutive indices, and a persisted state comes back on restart.
- `src/persist.rs` — the byte format of the persistent state (term, vote and
  log), with its encoder and decoder proved to be inverse to each other.
- `src/timing.rs` — the timer constants and the randomised election timeout.
- `src/messages.rs`, `src/error.rs`, `src/server.rs`, `src/state.rs` — the data.
- `app/` — the threads, the clock, the lock and the transport that drive a peer.
- `tests/` — scenarios on concrete values.
