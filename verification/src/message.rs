use vstd::prelude::*;
use crate::types::{LogIndex, NodeId, Term};

verus! {

/// One entry of the replicated log.
#[derive(Debug, PartialEq, Eq)]
pub struct LogEntry {
    pub index: LogIndex,
    pub term: Term,
    pub command: Vec<u8>,
}

/// The mathematical value of a log entry.
pub struct EntryView {
    pub index: u64,
    pub term: u64,
    pub command: Seq<u8>,
}

impl View for LogEntry {
    type V = EntryView;

    open spec fn view(&self) -> EntryView {
        EntryView { index: self.index.0, term: self.term.0, command: self.command@ }
    }
}

impl Clone for LogEntry {
    fn clone(&self) -> (r: Self)
        ensures
            r@ == self@,
    {
        LogEntry { index: self.index, term: self.term, command: self.command.clone() }
    }
}

/// The views of a sequence of entries.
pub open spec fn entries_view(s: Seq<LogEntry>) -> Seq<EntryView> {
    s.map_values(|e: LogEntry| e@)
}

/// Where a snapshot ends: the last log position it covers and that position's term.
#[derive(Debug, Clone, Copy, PartialEq, Eq, Structural)]
pub struct SnapshotMeta {
    pub last_included_index: LogIndex,
    pub last_included_term: Term,
}

/// A message exchanged between servers, or between a client and a server.
#[derive(Debug, PartialEq, Eq)]
pub struct Message {
    pub from: NodeId,
    pub to: NodeId,
    pub term: Term,
    pub kind: MessageKind,
}

/// The payload of a message.
#[derive(Debug, PartialEq, Eq)]
pub enum MessageKind {
    RequestVote { last_log_index: LogIndex, last_log_term: Term },
    RequestVoteResponse { vote_granted: bool },
    PreVote { last_log_index: LogIndex, last_log_term: Term },
    PreVoteResponse { vote_granted: bool },
    AppendEntries {
        prev_log_index: LogIndex,
        prev_log_term: Term,
        entries: Vec<LogEntry>,
        leader_commit: LogIndex,
    },
    AppendEntriesResponse {
        success: bool,
        conflict_term: Option<Term>,
        conflict_index: Option<LogIndex>,
    },
    InstallSnapshot {
        last_included_index: LogIndex,
        last_included_term: Term,
        offset: u64,
        data: Vec<u8>,
        done: bool,
    },
    InstallSnapshotResponse,
    ClientRequest { command: Vec<u8> },
    ClientResponse { success: bool, leader_hint: Option<NodeId> },
}

/// The mathematical value of a message payload.
pub enum KindView {
    RequestVote { last_log_index: u64, last_log_term: u64 },
    RequestVoteResponse { vote_granted: bool },
    PreVote { last_log_index: u64, last_log_term: u64 },
    PreVoteResponse { vote_granted: bool },
    AppendEntries {
        prev_log_index: u64,
        prev_log_term: u64,
        entries: Seq<EntryView>,
        leader_commit: u64,
    },
    AppendEntriesResponse {
        success: bool,
        conflict_term: Option<u64>,
        conflict_index: Option<u64>,
    },
    InstallSnapshot {
        last_included_index: u64,
        last_included_term: u64,
        offset: u64,
        data: Seq<u8>,
        done: bool,
    },
    InstallSnapshotResponse,
    ClientRequest { command: Seq<u8> },
    ClientResponse { success: bool, leader_hint: Option<u64> },
}

/// The mathematical value of a message.
pub struct MessageView {
    pub from: u64,
    pub to: u64,
    pub term: u64,
    pub kind: KindView,
}

pub open spec fn opt_term_view(t: Option<Term>) -> Option<u64> {
    match t {
        Some(t) => Some(t.0),
        None => None,
    }
}

pub open spec fn opt_index_view(i: Option<LogIndex>) -> Option<u64> {
    match i {
        Some(i) => Some(i.0),
        None => None,
    }
}

pub open spec fn opt_node_view(n: Option<NodeId>) -> Option<u64> {
    match n {
        Some(n) => Some(n.0),
        None => None,
    }
}

impl View for MessageKind {
    type V = KindView;

    open spec fn view(&self) -> KindView {
        match self {
            MessageKind::RequestVote { last_log_index, last_log_term } => KindView::RequestVote {
                last_log_index: last_log_index.0,
                last_log_term: last_log_term.0,
            },
            MessageKind::RequestVoteResponse { vote_granted } => KindView::RequestVoteResponse {
                vote_granted: *vote_granted,
            },
            MessageKind::PreVote { last_log_index, last_log_term } => KindView::PreVote {
                last_log_index: last_log_index.0,
                last_log_term: last_log_term.0,
            },
            MessageKind::PreVoteResponse { vote_granted } => KindView::PreVoteResponse {
                vote_granted: *vote_granted,
            },
            MessageKind::AppendEntries { prev_log_index, prev_log_term, entries, leader_commit } =>
                KindView::AppendEntries {
                prev_log_index: prev_log_index.0,
                prev_log_term: prev_log_term.0,
                entries: entries_view(entries@),
                leader_commit: leader_commit.0,
            },
            MessageKind::AppendEntriesResponse { success, conflict_term, conflict_index } =>
                KindView::AppendEntriesResponse {
                success: *success,
                conflict_term: opt_term_view(*conflict_term),
                conflict_index: opt_index_view(*conflict_index),
            },
            MessageKind::InstallSnapshot {
                last_included_index,
                last_included_term,
                offset,
                data,
                done,
            } => KindView::InstallSnapshot {
                last_included_index: last_included_index.0,
                last_included_term: last_included_term.0,
                offset: *offset,
                data: data@,
                done: *done,
            },
            MessageKind::InstallSnapshotResponse => KindView::InstallSnapshotResponse,
            MessageKind::ClientRequest { command } => KindView::ClientRequest { command: command@ },
            MessageKind::ClientResponse { success, leader_hint } => KindView::ClientResponse {
                success: *success,
                leader_hint: opt_node_view(*leader_hint),
            },
        }
    }
}

impl View for Message {
    type V = MessageView;

    open spec fn view(&self) -> MessageView {
        MessageView { from: self.from.0, to: self.to.0, term: self.term.0, kind: self.kind@ }
    }
}

/// Copies a sequence of entries.
pub fn clone_entries(src: &[LogEntry]) -> (r: Vec<LogEntry>)
    ensures
        entries_view(r@) == entries_view(src@),
{
    let mut r: Vec<LogEntry> = Vec::new();
    let mut i: usize = 0;
    while i < src.len()
        invariant
            i <= src@.len(),
            r@.len() == i,
            forall|j: int| 0 <= j < i ==> (#[trigger] r@[j])@ == src@[j]@,
        decreases src@.len() - i,
    {
        r.push(src[i].clone());
        i = i + 1;
    }
    assert(entries_view(r@) =~= entries_view(src@));
    r
}

impl Clone for MessageKind {
    fn clone(&self) -> (r: Self)
        ensures
            r@ == self@,
    {
        match self {
            MessageKind::RequestVote { last_log_index, last_log_term } => MessageKind::RequestVote {
                last_log_index: *last_log_index,
                last_log_term: *last_log_term,
            },
            MessageKind::RequestVoteResponse { vote_granted } => MessageKind::RequestVoteResponse {
                vote_granted: *vote_granted,
            },
            MessageKind::PreVote { last_log_index, last_log_term } => MessageKind::PreVote {
                last_log_index: *last_log_index,
                last_log_term: *last_log_term,
            },
            MessageKind::PreVoteResponse { vote_granted } => MessageKind::PreVoteResponse {
                vote_granted: *vote_granted,
            },
            MessageKind::AppendEntries { prev_log_index, prev_log_term, entries, leader_commit } =>
                MessageKind::AppendEntries {
                prev_log_index: *prev_log_index,
                prev_log_term: *prev_log_term,
                entries: clone_entries(entries.as_slice()),
                leader_commit: *leader_commit,
            },
            MessageKind::AppendEntriesResponse { success, conflict_term, conflict_index } =>
                MessageKind::AppendEntriesResponse {
                success: *success,
                conflict_term: *conflict_term,
                conflict_index: *conflict_index,
            },
            MessageKind::InstallSnapshot {
                last_included_index,
                last_included_term,
                offset,
                data,
                done,
            } => MessageKind::InstallSnapshot {
                last_included_index: *last_included_index,
                last_included_term: *last_included_term,
                offset: *offset,
                data: data.clone(),
                done: *done,
            },
            MessageKind::InstallSnapshotResponse => MessageKind::InstallSnapshotResponse,
            MessageKind::ClientRequest { command } => MessageKind::ClientRequest {
                command: command.clone(),
            },
            MessageKind::ClientResponse { success, leader_hint } => MessageKind::ClientResponse {
                success: *success,
                leader_hint: *leader_hint,
            },
        }
    }
}

impl Clone for Message {
    fn clone(&self) -> (r: Self)
        ensures
            r@ == self@,
    {
        Message { from: self.from, to: self.to, term: self.term, kind: self.kind.clone() }
    }
}

} // verus!
