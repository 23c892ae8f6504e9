# raft_core

A Raft consensus engine (leader election with pre-vote, log replication with
fast conflict backtracking, the own-term commit rule, snapshots and log
compaction, client redirection), written in Verus and proved against
contracts.

- `src/` is the verified library.
  - `node.rs` holds the server state machine; each of its operations is
    specified by a pure transition in `node_model.rs`.
  - `node_laws.rs`, `hard_state_laws.rs`, `election_laws.rs` and
    `log_matching_laws.rs` prove properties of single transitions: terms never
    go back, one vote per term, stale messages are ignored, an accepted append
    leaves the sent entries in the log, the own-term commit rule, the log stays
    contiguous, applied never passes committed and never goes back, and every
    change of term or vote is persisted.
  - `cluster.rs` and `cluster_log_laws.rs` model a whole cluster over an
    unreliable network (loss, duplication, reordering, crashes and restarts)
    and prove Election Safety and Log Matching for every run; `invariants.rs`
    proves that the safety check reports two leaders of one term.
  - `log.rs` is the sentinel-based log; `wal.rs` and `codec.rs` are the on-disk
    and wire byte formats with their round-trip proofs; `network.rs`,
    `sim_storage.rs`, `invariants.rs` and `simulator.rs` are the seeded
    cluster simulation and its safety checker; `text.rs` renders reports.
- `app/` is the unverified shell: the TCP server with its `O_DIRECT`
  write-ahead log, the command-line client, and the serde copies of the
  message types.
- `tests/` exercises the library.
