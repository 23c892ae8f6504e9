use raft_core::log::RaftLog;
use raft_core::message::{LogEntry, SnapshotMeta};
use raft_core::types::{LogIndex, Term};

fn entry(index: u64, term: u64, cmd: &[u8]) -> LogEntry {
    LogEntry { index: LogIndex(index), term: Term(term), command: cmd.to_vec() }
}

#[test]
fn new_log_holds_only_the_sentinel() {
    let log = RaftLog::new();
    assert_eq!(log.first_index(), LogIndex(0));
    assert_eq!(log.last_index(), LogIndex(0));
    assert_eq!(log.last_term(), Term(0));
    assert_eq!(log.len(), 0);
    assert!(log.is_empty());
    assert_eq!(log.term_at(LogIndex(0)), Some(Term(0)));
    assert_eq!(log.term_at(LogIndex(1)), None);
    assert!(log.snapshot_meta().is_none());
    assert!(log.entries_from(LogIndex(1)).is_empty());
}

#[test]
fn append_then_read_back() {
    let mut log = RaftLog::new();
    log.append(vec![entry(1, 1, b"a"), entry(2, 1, b"b"), entry(3, 2, b"c")]);
    assert_eq!(log.last_index(), LogIndex(3));
    assert_eq!(log.last_term(), Term(2));
    assert_eq!(log.len(), 3);
    assert_eq!(log.term_at(LogIndex(2)), Some(Term(1)));
    assert_eq!(log.entry_at(LogIndex(3)).unwrap().command, b"c".to_vec());
    assert!(log.entry_at(LogIndex(4)).is_none());
    let from2: Vec<u64> = log.entries_from(LogIndex(2)).iter().map(|e| e.index.0).collect();
    assert_eq!(from2, vec![2, 3]);
    let from0: Vec<u64> = log.entries_from(LogIndex(0)).iter().map(|e| e.index.0).collect();
    assert_eq!(from0, vec![1, 2, 3]);
    assert!(log.entries_from(LogIndex(9)).is_empty());
    log.append(vec![]);
    assert_eq!(log.len(), 3);
}

#[test]
fn truncate_and_append_replaces_the_tail() {
    let mut log = RaftLog::new();
    log.append(vec![entry(1, 1, b"a"), entry(2, 1, b"b"), entry(3, 1, b"c")]);
    log.truncate_and_append(LogIndex(2), vec![entry(2, 2, b"x")]);
    assert_eq!(log.last_index(), LogIndex(2));
    assert_eq!(log.term_at(LogIndex(1)), Some(Term(1)));
    assert_eq!(log.term_at(LogIndex(2)), Some(Term(2)));
    assert_eq!(log.entry_at(LogIndex(2)).unwrap().command, b"x".to_vec());
    assert_eq!(log.term_at(LogIndex(3)), None);
}

#[test]
fn compact_moves_the_sentinel() {
    let mut log = RaftLog::new();
    log.append(vec![entry(1, 1, b"a"), entry(2, 1, b"b"), entry(3, 2, b"c")]);
    log.compact(LogIndex(2), Term(1));
    assert_eq!(log.first_index(), LogIndex(2));
    assert_eq!(log.last_index(), LogIndex(3));
    assert_eq!(log.len(), 1);
    assert_eq!(log.term_at(LogIndex(1)), None);
    assert_eq!(log.term_at(LogIndex(2)), Some(Term(1)));
    assert!(log.entry_at(LogIndex(2)).unwrap().command.is_empty());
    assert_eq!(log.entry_at(LogIndex(3)).unwrap().command, b"c".to_vec());
    let meta = log.snapshot_meta().unwrap();
    assert_eq!(meta.last_included_index, LogIndex(2));
    assert_eq!(meta.last_included_term, Term(1));
    // compacting at or below the base changes nothing
    log.compact(LogIndex(1), Term(9));
    assert_eq!(log.first_index(), LogIndex(2));
    // compacting beyond the end leaves only a sentinel
    log.compact(LogIndex(10), Term(4));
    assert_eq!(log.first_index(), LogIndex(10));
    assert_eq!(log.last_index(), LogIndex(10));
    assert_eq!(log.last_term(), Term(4));
    assert!(log.is_empty());
}

#[test]
fn restore_and_install_snapshot() {
    let meta = SnapshotMeta { last_included_index: LogIndex(5), last_included_term: Term(2) };
    let mut log = RaftLog::restore(meta, vec![entry(6, 2, b"f"), entry(7, 3, b"g")]);
    assert_eq!(log.first_index(), LogIndex(5));
    assert_eq!(log.last_index(), LogIndex(7));
    assert_eq!(log.term_at(LogIndex(5)), Some(Term(2)));
    assert_eq!(log.term_at(LogIndex(4)), None);
    assert_eq!(log.entry_at(LogIndex(6)).unwrap().command, b"f".to_vec());
    log.install_snapshot(SnapshotMeta { last_included_index: LogIndex(9), last_included_term: Term(3) });
    assert_eq!(log.first_index(), LogIndex(9));
    assert_eq!(log.last_index(), LogIndex(9));
    assert!(log.is_empty());
}

#[test]
fn types_step_forward_and_back() {
    assert_eq!(Term(3).next(), Term(4));
    assert_eq!(LogIndex(3).next(), LogIndex(4));
    assert_eq!(LogIndex(3).prev(), LogIndex(2));
    assert_eq!(LogIndex(0).prev(), LogIndex(0));
    assert_eq!(Term::zero(), Term(0));
    assert_eq!(LogIndex::sentinel(), LogIndex(0));
    assert_eq!(Term::default(), Term(0));
    assert_eq!(LogIndex::default(), LogIndex(0));
}
