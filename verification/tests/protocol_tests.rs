use raft_core::invariants::{SafetyInvariants, SafetyViolation};
use raft_core::log::RaftLog;
use raft_core::message::{LogEntry, Message, MessageKind, SnapshotMeta};
use raft_core::node::{Action, Config, RaftNode, Role};
use raft_core::types::{LogIndex, NodeId, Term};

fn config(id: u64, peers: &[u64]) -> Config {
    Config {
        id: NodeId(id),
        peers: peers.iter().map(|&p| NodeId(p)).collect(),
        election_timeout_ticks: 10,
        heartbeat_interval_ticks: 3,
        rng_seed: id,
    }
}

fn entry(index: u64, term: u64, cmd: &[u8]) -> LogEntry {
    LogEntry { index: LogIndex(index), term: Term(term), command: cmd.to_vec() }
}

fn restored(id: u64, peers: &[u64], term: u64, entries: Vec<LogEntry>, commit: u64) -> RaftNode {
    let log = RaftLog::restore(
        SnapshotMeta { last_included_index: LogIndex(0), last_included_term: Term(0) },
        entries,
    );
    RaftNode::restore(config(id, peers), Term(term), None, log, LogIndex(commit), LogIndex(commit))
}

fn lone_leader(id: u64) -> RaftNode {
    let mut node = RaftNode::new(config(id, &[]));
    for _ in 0..30 {
        node.tick();
        if node.role() == Role::Leader {
            break;
        }
    }
    assert_eq!(node.role(), Role::Leader);
    node
}

fn sends(actions: &[Action]) -> Vec<&Message> {
    actions.iter().filter_map(|a| if let Action::Send(m) = a { Some(m) } else { None }).collect()
}

#[test]
fn election_happens_within_twice_the_base_timeout() {
    let mut node = RaftNode::new(config(1, &[]));
    let mut ticks = 0;
    while node.role() != Role::Leader {
        node.tick();
        ticks += 1;
        assert!(ticks < 20);
    }
    assert!(ticks >= 10);
    assert_eq!(node.current_term(), Term(1));
    assert_eq!(node.voted_for(), Some(NodeId(1)));
    assert_eq!(node.leader_id(), Some(NodeId(1)));
    // the leader appended a no-op entry of its term
    assert_eq!(node.log().last_index(), LogIndex(1));
    assert_eq!(node.log().last_term(), Term(1));
}

#[test]
fn lone_leader_commits_and_applies_proposals() {
    let mut node = lone_leader(1);
    let actions = node.propose(b"x".to_vec());
    assert!(matches!(&actions[0], Action::AppendEntries { entries } if entries[0].index == LogIndex(2)));
    assert_eq!(node.commit_index(), LogIndex(2));
    assert_eq!(node.last_applied(), LogIndex(2));
    assert!(actions.iter().any(|a| matches!(a, Action::Apply { entries } if entries.last().unwrap().command == b"x".to_vec())));
}

#[test]
fn follower_ignores_proposals() {
    let mut node = RaftNode::new(config(1, &[2, 3]));
    assert!(node.propose(b"x".to_vec()).is_empty());
    assert_eq!(node.log().last_index(), LogIndex(0));
}

#[test]
fn stale_messages_are_ignored() {
    let mut node = restored(1, &[2, 3], 5, vec![], 0);
    let actions = node.step(Message {
        from: NodeId(2),
        to: NodeId(1),
        term: Term(3),
        kind: MessageKind::RequestVote { last_log_index: LogIndex(9), last_log_term: Term(9) },
    });
    assert!(actions.is_empty());
    assert_eq!(node.current_term(), Term(5));
    assert_eq!(node.voted_for(), None);
}

#[test]
fn pre_vote_requests_leave_the_receiver_alone() {
    let mut node = restored(1, &[2, 3], 5, vec![entry(1, 5, b"a")], 0);
    let actions = node.step(Message {
        from: NodeId(3),
        to: NodeId(1),
        term: Term(9),
        kind: MessageKind::PreVote { last_log_index: LogIndex(0), last_log_term: Term(0) },
    });
    assert_eq!(node.current_term(), Term(5));
    assert_eq!(node.role(), Role::Follower);
    assert_eq!(actions.len(), 1);
    // the candidate's log is behind, so the pre-vote is refused
    assert!(matches!(sends(&actions)[0].kind, MessageKind::PreVoteResponse { vote_granted: false }));
}

#[test]
fn newer_term_makes_a_follower_that_persists_and_votes_once() {
    let mut node = restored(1, &[2, 3], 1, vec![], 0);
    let actions = node.step(Message {
        from: NodeId(2),
        to: NodeId(1),
        term: Term(4),
        kind: MessageKind::RequestVote { last_log_index: LogIndex(0), last_log_term: Term(0) },
    });
    assert_eq!(node.current_term(), Term(4));
    assert_eq!(node.voted_for(), Some(NodeId(2)));
    assert!(actions.iter().any(|a| matches!(a, Action::PersistHardState { term: Term(4), voted_for: None })));
    assert!(actions.iter().any(|a| matches!(a, Action::PersistHardState { term: Term(4), voted_for: Some(NodeId(2)) })));
    assert!(matches!(sends(&actions)[0].kind, MessageKind::RequestVoteResponse { vote_granted: true }));
    // a second candidate in the same term is refused
    let actions = node.step(Message {
        from: NodeId(3),
        to: NodeId(1),
        term: Term(4),
        kind: MessageKind::RequestVote { last_log_index: LogIndex(0), last_log_term: Term(0) },
    });
    assert_eq!(node.voted_for(), Some(NodeId(2)));
    assert!(matches!(sends(&actions)[0].kind, MessageKind::RequestVoteResponse { vote_granted: false }));
}

#[test]
fn append_entries_conflict_answers() {
    let mut node = restored(1, &[2, 3], 2, vec![entry(1, 1, b"a"), entry(2, 1, b"b"), entry(3, 2, b"c")], 0);
    // missing previous entry: ask from after the last
    let actions = node.step(Message {
        from: NodeId(2),
        to: NodeId(1),
        term: Term(2),
        kind: MessageKind::AppendEntries {
            prev_log_index: LogIndex(7),
            prev_log_term: Term(2),
            entries: vec![],
            leader_commit: LogIndex(0),
        },
    });
    assert!(matches!(sends(&actions)[0].kind, MessageKind::AppendEntriesResponse {
        success: false, conflict_term: None, conflict_index: Some(LogIndex(4)) }));
    // term mismatch: report the conflicting term and the start of its run
    let actions = node.step(Message {
        from: NodeId(2),
        to: NodeId(1),
        term: Term(2),
        kind: MessageKind::AppendEntries {
            prev_log_index: LogIndex(2),
            prev_log_term: Term(3),
            entries: vec![],
            leader_commit: LogIndex(0),
        },
    });
    assert!(matches!(sends(&actions)[0].kind, MessageKind::AppendEntriesResponse {
        success: false, conflict_term: Some(Term(1)), conflict_index: Some(LogIndex(1)) }));
    assert_eq!(node.leader_id(), Some(NodeId(2)));
}

#[test]
fn accepted_append_overwrites_conflicts_and_follows_commit() {
    let mut node = restored(1, &[2, 3], 2, vec![entry(1, 1, b"a"), entry(2, 1, b"b"), entry(3, 1, b"c")], 0);
    let actions = node.step(Message {
        from: NodeId(2),
        to: NodeId(1),
        term: Term(2),
        kind: MessageKind::AppendEntries {
            prev_log_index: LogIndex(1),
            prev_log_term: Term(1),
            entries: vec![entry(2, 1, b"b"), entry(3, 2, b"C")],
            leader_commit: LogIndex(9),
        },
    });
    assert!(actions.iter().any(|a| matches!(a, Action::TruncateAndAppend { from_index: LogIndex(3), entries } if entries.len() == 1)));
    assert_eq!(node.log().term_at(LogIndex(3)), Some(Term(2)));
    assert_eq!(node.log().entry_at(LogIndex(3)).unwrap().command, b"C".to_vec());
    assert_eq!(node.commit_index(), LogIndex(3));
    assert_eq!(node.last_applied(), LogIndex(3));
    let last = sends(&actions).pop().unwrap();
    assert!(matches!(last.kind, MessageKind::AppendEntriesResponse { success: true, .. }));
}

#[test]
fn install_snapshot_replaces_the_log() {
    let mut node = restored(1, &[2, 3], 1, vec![entry(1, 1, b"a")], 0);
    let actions = node.step(Message {
        from: NodeId(2),
        to: NodeId(1),
        term: Term(3),
        kind: MessageKind::InstallSnapshot {
            last_included_index: LogIndex(10),
            last_included_term: Term(3),
            offset: 0,
            data: b"snap".to_vec(),
            done: true,
        },
    });
    assert_eq!(node.log().first_index(), LogIndex(10));
    assert_eq!(node.commit_index(), LogIndex(10));
    assert_eq!(node.last_applied(), LogIndex(10));
    assert!(actions.iter().any(|a| matches!(a, Action::PersistSnapshot { last_included_index: LogIndex(10), .. })));
}

#[test]
fn compaction_needs_a_committed_index() {
    let mut node = lone_leader(1);
    node.propose(b"x".to_vec());
    assert!(node.compact_logs(LogIndex(5), Term(1), vec![]).is_empty());
    let actions = node.compact_logs(LogIndex(2), Term(1), b"s".to_vec());
    assert_eq!(actions.len(), 1);
    assert_eq!(node.log().first_index(), LogIndex(2));
}

#[test]
fn client_requests_are_redirected_by_followers() {
    let mut node = restored(1, &[2, 3], 1, vec![], 0);
    let actions = node.step(Message {
        from: NodeId(999),
        to: NodeId(1),
        term: Term(0),
        kind: MessageKind::ClientRequest { command: b"x".to_vec() },
    });
    assert!(matches!(sends(&actions)[0].kind, MessageKind::ClientResponse { success: false, leader_hint: None }));
    let mut leader = lone_leader(7);
    let actions = leader.step(Message {
        from: NodeId(999),
        to: NodeId(7),
        term: Term(0),
        kind: MessageKind::ClientRequest { command: b"x".to_vec() },
    });
    let reply = sends(&actions).pop().unwrap();
    assert!(matches!(reply.kind, MessageKind::ClientResponse { success: true, leader_hint: Some(NodeId(7)) }));
    assert_eq!(leader.log().last_index(), LogIndex(2));
}

#[test]
fn message_checks() {
    let node = RaftNode::new(config(2, &[1]));
    let append = |prev: u64, entries: Vec<LogEntry>| Message {
        from: NodeId(1),
        to: NodeId(2),
        term: Term(1),
        kind: MessageKind::AppendEntries {
            prev_log_index: LogIndex(prev),
            prev_log_term: Term(0),
            entries,
            leader_commit: LogIndex(0),
        },
    };
    // Entries that continue the previous index are taken.
    assert!(node.accepts(&append(0, vec![entry(1, 1, b""), entry(2, 1, b"")])));
    // Entries that skip an index are taken too: they are attached after a gap.
    assert!(node.accepts(&append(0, vec![entry(2, 1, b"")])));
    // A previous index the log does not hold is answered with a refusal, whatever the entries.
    assert!(node.accepts(&append(3, vec![entry(9, 1, b"")])));
    // Entries that would be written at the snapshot base cannot be.
    assert!(!node.accepts(&append(0, vec![entry(0, 5, b"")])));
    let huge = Message { from: NodeId(1), to: NodeId(2), term: Term(u64::MAX), kind: MessageKind::InstallSnapshotResponse };
    assert!(!node.accepts(&huge));
}

#[test]
fn append_after_a_gap_is_attached_as_sent() {
    let mut node = RaftNode::new(config(2, &[1]));
    let msg = Message {
        from: NodeId(1),
        to: NodeId(2),
        term: Term(1),
        kind: MessageKind::AppendEntries {
            prev_log_index: LogIndex(0),
            prev_log_term: Term(0),
            entries: vec![entry(2, 1, b"x")],
            leader_commit: LogIndex(0),
        },
    };
    assert!(node.accepts(&msg));
    let actions = node.step(msg);
    assert_eq!(node.log().last_index(), LogIndex(2));
    assert!(actions.iter().any(|a| matches!(a, Action::TruncateAndAppend { from_index, .. } if *from_index == LogIndex(2))));
}

#[test]
fn safety_checker_reports_each_violation() {
    let a = lone_leader(1);
    let b = lone_leader(2);
    let mut inv = SafetyInvariants::new();
    let r = inv.verify_safety(&[a, b]);
    assert_eq!(
        r,
        Err(SafetyViolation::ElectionSafety { existing_leader: NodeId(1), node: NodeId(2), term: Term(1) })
    );
    assert_eq!(
        r.unwrap_err().describe(),
        "ELECTION SAFETY VIOLATION: Nodes 1 and 2 both claim leadership in Term 1"
    );

    let x = restored(1, &[2], 1, vec![entry(1, 1, b"a")], 1);
    let y = restored(2, &[1], 1, vec![entry(1, 1, b"b")], 1);
    let mut inv = SafetyInvariants::new();
    assert_eq!(
        inv.verify_safety(&[x, y]),
        Err(SafetyViolation::LogMatching { node_a: NodeId(1), node_b: NodeId(2), index: LogIndex(1), term: Term(1) })
    );

    let x = restored(1, &[2], 1, vec![entry(1, 1, b"a")], 1);
    let y = restored(2, &[1], 1, vec![entry(1, 1, b"b")], 1);
    let mut inv = SafetyInvariants::new();
    assert_eq!(inv.verify_safety(&[x]), Ok(()));
    assert_eq!(
        inv.verify_safety(&[y]),
        Err(SafetyViolation::StateMachineSafety { node: NodeId(2), index: LogIndex(1), term: Term(1), committed_term: Term(1) })
    );

    let x = restored(1, &[2], 1, vec![entry(1, 1, b"a")], 1);
    let z = restored(2, &[1], 1, vec![entry(1, 1, b"a")], 1);
    let mut inv = SafetyInvariants::new();
    assert_eq!(inv.verify_safety(&[x, z]), Ok(()));
}

fn last_hard_state(actions: &[Action]) -> Option<(Term, Option<NodeId>)> {
    actions.iter().rev().find_map(|a| match a {
        Action::PersistHardState { term, voted_for } => Some((*term, *voted_for)),
        _ => None,
    })
}

#[test]
fn the_last_hard_state_write_matches_the_new_term_and_vote() {
    // a vote granted in a newer term: two writes, the last one carries the vote
    let mut node = restored(1, &[2, 3], 1, vec![], 0);
    let actions = node.step(Message {
        from: NodeId(3),
        to: NodeId(1),
        term: Term(7),
        kind: MessageKind::RequestVote { last_log_index: LogIndex(0), last_log_term: Term(0) },
    });
    assert_eq!(last_hard_state(&actions), Some((Term(7), Some(NodeId(3)))));
    assert_eq!((node.current_term(), node.voted_for()), (Term(7), Some(NodeId(3))));

    // an election started by the clock writes the new term and the self-vote
    let mut node = RaftNode::new(config(1, &[2]));
    let mut writes = None;
    for _ in 0..40 {
        let actions = node.tick();
        if let Some(w) = last_hard_state(&actions) {
            writes = Some(w);
            break;
        }
    }
    // with one peer the clock only starts a pre-vote; no term changes, no write
    assert_eq!(writes, None);
    assert_eq!(node.current_term(), Term(0));
    assert_eq!(node.voted_for(), None);

    // the peer grants the pre-vote: the real election starts and is persisted
    let actions = node.step(Message {
        from: NodeId(2),
        to: NodeId(1),
        term: Term(0),
        kind: MessageKind::PreVoteResponse { vote_granted: true },
    });
    assert_eq!(node.role(), Role::Candidate);
    assert_eq!(last_hard_state(&actions), Some((Term(1), Some(NodeId(1)))));

    // a heartbeat-free message of the same term writes nothing and changes nothing
    let actions = node.step(Message {
        from: NodeId(2),
        to: NodeId(1),
        term: Term(1),
        kind: MessageKind::RequestVoteResponse { vote_granted: false },
    });
    assert_eq!(last_hard_state(&actions), None);
    assert_eq!((node.current_term(), node.voted_for()), (Term(1), Some(NodeId(1))));
}

#[test]
fn append_that_cuts_committed_entries_leaves_commit_past_log() {
    let mut node = RaftNode::new(config(2, &[1]));
    let append = |term: u64, entries: Vec<LogEntry>, commit: u64| Message {
        from: NodeId(1),
        to: NodeId(2),
        term: Term(term),
        kind: MessageKind::AppendEntries {
            prev_log_index: LogIndex(0),
            prev_log_term: Term(0),
            entries,
            leader_commit: LogIndex(commit),
        },
    };
    node.step(append(1, vec![entry(1, 1, b"a"), entry(2, 1, b"b")], 2));
    assert_eq!(node.commit_index(), LogIndex(2));
    // A conflicting entry at index 1 cuts the log back below the commit index.
    node.step(append(2, vec![entry(1, 2, b"z")], 0));
    assert_eq!(node.log().last_index(), LogIndex(1));
    assert_eq!(node.commit_index(), LogIndex(2));
}
