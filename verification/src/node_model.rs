use vstd::prelude::*;
use crate::log::{compacted, entries_from_of, first_index_of, last_index_of, last_term_of, sentinel_view, term_at_of, truncated_and_appended};
use crate::message::{EntryView, KindView, MessageView};
use crate::node::{ActionView, Role};

verus! {

/// The mathematical state of a Raft server, all but its randomized election timeout.
#[verifier::ext_equal]
pub struct NodeView {
    pub id: u64,
    pub peers: Seq<u64>,
    pub current_term: u64,
    pub voted_for: Option<u64>,
    pub log: Seq<EntryView>,
    pub commit_index: u64,
    pub last_applied: u64,
    pub role: Role,
    pub next_index: Map<u64, u64>,
    pub match_index: Map<u64, u64>,
    pub election_timeout_base: u64,
    pub election_elapsed: u64,
    pub heartbeat_interval: u64,
    pub heartbeat_elapsed: u64,
    pub votes_received: Set<u64>,
    pub pre_votes_received: Set<u64>,
    pub leader_id: Option<u64>,
}

/// The outcome of handling an event: the next state, the actions asked of the
/// host in order, and whether the election timeout was drawn afresh.
#[verifier::ext_equal]
pub struct Transition {
    pub node: NodeView,
    pub actions: Seq<ActionView>,
    pub redraw: bool,
}

pub open spec fn unchanged(s: NodeView) -> Transition {
    Transition { node: s, actions: Seq::empty(), redraw: false }
}

/// `t` followed by `u`, which must start from `t`'s state.
pub open spec fn chain(t: Transition, u: Transition) -> Transition {
    Transition { node: u.node, actions: t.actions + u.actions, redraw: t.redraw || u.redraw }
}

/// The same transition with `a` sent at its end.
pub open spec fn chain_act(t: Transition, a: ActionView) -> Transition {
    Transition { node: t.node, actions: t.actions.push(a), redraw: t.redraw }
}

/// A message from this server to `to`, stamped with its current term.
pub open spec fn send(s: NodeView, to: u64, kind: KindView) -> ActionView {
    ActionView::Send(MessageView { from: s.id, to, term: s.current_term, kind })
}

pub open spec fn lookup_or(m: Map<u64, u64>, k: u64, d: u64) -> u64 {
    if m.contains_key(k) {
        m[k]
    } else {
        d
    }
}

/// The number of votes that make a majority of the cluster (peers and this server).
pub open spec fn majority(s: NodeView) -> int {
    ((s.peers.len() + 1) / 2 + 1) as int
}

/// The bytes sent as snapshot data to a peer whose next entry was compacted away.
pub open spec fn placeholder_snapshot() -> Seq<u8> {
    seq![
        115u8, 105, 109, 117, 108, 97, 116, 101, 100, 45, 99, 111, 109, 112, 97, 99, 116, 101,
        100, 45, 115, 110, 97, 112, 115, 104, 111, 116,
    ]
}

/// A candidate's log, given by its last index and term, is at least as up to date as ours.
pub open spec fn log_up_to_date(s: NodeView, last_index: u64, last_term: u64) -> bool {
    if last_term != last_term_of(s.log) {
        last_term > last_term_of(s.log)
    } else {
        last_index >= last_index_of(s.log)
    }
}

/// Another server is believed to lead and has been heard from within the base timeout.
pub open spec fn leader_lease_active(s: NodeView) -> bool {
    s.leader_id is Some && s.election_elapsed < s.election_timeout_base
}

/// What the leader sends `peer` to bring it up to date: the entries from the
/// peer's next index, or the snapshot point if those entries were compacted.
pub open spec fn replicate_action(s: NodeView, peer: u64) -> ActionView {
    let next = lookup_or(s.next_index, peer, 1);
    let first = first_index_of(s.log);
    if next <= first {
        let li: u64 = if first == 0 { 0 } else { first };
        let lt: u64 = if first == 0 { 0 } else { s.log[0].term };
        send(
            s,
            peer,
            KindView::InstallSnapshot {
                last_included_index: li,
                last_included_term: lt,
                offset: 0,
                data: placeholder_snapshot(),
                done: true,
            },
        )
    } else {
        let prev = (next - 1) as u64;
        let prev_term: u64 = match term_at_of(s.log, prev) {
            Some(t) => t,
            None => 0,
        };
        send(
            s,
            peer,
            KindView::AppendEntries {
                prev_log_index: prev,
                prev_log_term: prev_term,
                entries: entries_from_of(s.log, next),
                leader_commit: s.commit_index,
            },
        )
    }
}

/// One replication message to every peer, in the order of the peer list.
pub open spec fn broadcast(s: NodeView) -> Seq<ActionView> {
    s.peers.map_values(|p: u64| replicate_action(s, p))
}

pub open spec fn become_follower(s: NodeView, term: u64, leader: Option<u64>) -> Transition {
    let changed = term > s.current_term;
    Transition {
        node: NodeView {
            current_term: term,
            role: Role::Follower,
            leader_id: leader,
            election_elapsed: 0,
            voted_for: if changed {
                None
            } else {
                s.voted_for
            },
            ..s
        },
        actions: if changed {
            seq![ActionView::PersistHardState { term, voted_for: None }]
        } else {
            Seq::empty()
        },
        redraw: true,
    }
}

pub open spec fn become_leader(s: NodeView) -> Transition {
    let last = last_index_of(s.log);
    let noop = EntryView { index: (last + 1) as u64, term: s.current_term, command: Seq::empty() };
    let n = NodeView {
        role: Role::Leader,
        leader_id: Some(s.id),
        heartbeat_elapsed: 0,
        next_index: Map::new(|k: u64| s.peers.contains(k), |k: u64| (last + 1) as u64),
        match_index: Map::new(|k: u64| s.peers.contains(k), |k: u64| 0u64),
        log: s.log.push(noop),
        ..s
    };
    Transition {
        node: n,
        actions: seq![ActionView::AppendEntries { entries: seq![noop] }] + broadcast(n),
        redraw: false,
    }
}

pub open spec fn start_real_election(s: NodeView) -> Transition {
    let t = (s.current_term + 1) as u64;
    let n = NodeView {
        current_term: t,
        role: Role::Candidate,
        voted_for: Some(s.id),
        votes_received: set![s.id],
        election_elapsed: 0,
        ..s
    };
    let asks = s.peers.map_values(
        |p: u64|
            send(
                n,
                p,
                KindView::RequestVote {
                    last_log_index: last_index_of(s.log),
                    last_log_term: last_term_of(s.log),
                },
            ),
    );
    let started = Transition {
        node: n,
        actions: seq![ActionView::PersistHardState { term: t, voted_for: Some(s.id) }] + asks,
        redraw: true,
    };
    if s.peers.len() == 0 {
        chain(started, become_leader(n))
    } else {
        started
    }
}

pub open spec fn start_pre_vote(s: NodeView) -> Transition {
    let n = NodeView {
        role: Role::PreCandidate,
        pre_votes_received: set![s.id],
        election_elapsed: 0,
        ..s
    };
    let asks = s.peers.map_values(
        |p: u64|
            ActionView::Send(
                MessageView {
                    from: s.id,
                    to: p,
                    term: (s.current_term + 1) as u64,
                    kind: KindView::PreVote {
                        last_log_index: last_index_of(s.log),
                        last_log_term: last_term_of(s.log),
                    },
                },
            ),
    );
    let started = Transition { node: n, actions: asks, redraw: true };
    if s.peers.len() == 0 {
        chain(started, start_real_election(n))
    } else {
        started
    }
}

/// One tick of the logical clock, given the current election timeout.
pub open spec fn tick(s: NodeView, timeout: u64) -> Transition {
    if s.role == Role::Leader {
        let hb = (s.heartbeat_elapsed + 1) as u64;
        if hb >= s.heartbeat_interval {
            let n = NodeView { heartbeat_elapsed: 0, ..s };
            Transition { node: n, actions: broadcast(n), redraw: false }
        } else {
            unchanged(NodeView { heartbeat_elapsed: hb, ..s })
        }
    } else {
        let ee = (s.election_elapsed + 1) as u64;
        if ee >= timeout {
            start_pre_vote(NodeView { election_elapsed: 0, ..s })
        } else {
            unchanged(NodeView { election_elapsed: ee, ..s })
        }
    }
}

/// The number of peers, counted by their place in the peer list, known to
/// hold the log up to index `n`.
pub open spec fn match_count(peers: Seq<u64>, m: Map<u64, u64>, n: u64) -> nat
    decreases peers.len(),
{
    if peers.len() == 0 {
        0
    } else {
        match_count(peers.drop_last(), m, n) + if lookup_or(m, peers.last(), 0) >= n {
            1nat
        } else {
            0nat
        }
    }
}

/// A leader may commit index `n`: the entry there is from its own term and a
/// majority (itself included) holds it.
pub open spec fn commit_qualifies(s: NodeView, n: u64) -> bool {
    &&& term_at_of(s.log, n) == Some(s.current_term)
    &&& 1 + match_count(s.peers, s.match_index, n) >= majority(s)
}

/// The highest index in `(commit_index, n]` that qualifies for commit, or the
/// commit index when none does.
pub open spec fn best_commit_upto(s: NodeView, n: u64) -> u64
    decreases n,
{
    if n <= s.commit_index {
        s.commit_index
    } else if commit_qualifies(s, n) {
        n
    } else {
        best_commit_upto(s, (n - 1) as u64)
    }
}

/// The leading entries of `es` whose index is at most `c`.
pub open spec fn take_while_le(es: Seq<EntryView>, c: u64) -> Seq<EntryView>
    decreases es.len(),
{
    if es.len() == 0 || es[0].index > c {
        Seq::empty()
    } else {
        seq![es[0]] + take_while_le(es.drop_first(), c)
    }
}

pub open spec fn apply_committed(s: NodeView) -> Transition {
    if s.commit_index > s.last_applied {
        let es = take_while_le(entries_from_of(s.log, (s.last_applied + 1) as u64), s.commit_index);
        if es.len() > 0 {
            Transition {
                node: NodeView { last_applied: es.last().index, ..s },
                actions: seq![ActionView::Apply { entries: es }],
                redraw: false,
            }
        } else {
            unchanged(s)
        }
    } else {
        unchanged(s)
    }
}

pub open spec fn maybe_advance_commit(s: NodeView) -> Transition {
    let nc = best_commit_upto(s, last_index_of(s.log));
    if nc > s.commit_index {
        apply_committed(NodeView { commit_index: nc, ..s })
    } else {
        unchanged(s)
    }
}

pub open spec fn propose(s: NodeView, command: Seq<u8>) -> Transition {
    if s.role != Role::Leader {
        unchanged(s)
    } else {
        let e = EntryView {
            index: (last_index_of(s.log) + 1) as u64,
            term: s.current_term,
            command,
        };
        let n = NodeView { log: s.log.push(e), ..s };
        let appended = Transition {
            node: n,
            actions: seq![ActionView::AppendEntries { entries: seq![e] }] + broadcast(n),
            redraw: false,
        };
        if s.peers.len() == 0 {
            chain(appended, maybe_advance_commit(n))
        } else {
            appended
        }
    }
}

pub open spec fn compact_logs(s: NodeView, li: u64, lt: u64, data: Seq<u8>) -> Transition {
    if li > s.commit_index {
        unchanged(s)
    } else {
        Transition {
            node: NodeView { log: compacted(s.log, li, lt), ..s },
            actions: seq![
                ActionView::PersistSnapshot {
                    last_included_index: li,
                    last_included_term: lt,
                    data,
                },
            ],
            redraw: false,
        }
    }
}

pub open spec fn handle_pre_vote(s: NodeView, from: u64, proposed: u64, lli: u64, llt: u64) -> Transition {
    let grant = proposed >= s.current_term && log_up_to_date(s, lli, llt) && !leader_lease_active(s);
    chain_act(unchanged(s), send(s, from, KindView::PreVoteResponse { vote_granted: grant }))
}

pub open spec fn handle_pre_vote_response(s: NodeView, from: u64, term: u64, granted: bool) -> Transition {
    if s.role != Role::PreCandidate || term != s.current_term || !granted {
        unchanged(s)
    } else {
        let n = NodeView { pre_votes_received: s.pre_votes_received.insert(from), ..s };
        if n.pre_votes_received.len() >= majority(s) {
            start_real_election(n)
        } else {
            unchanged(n)
        }
    }
}

pub open spec fn handle_request_vote(s: NodeView, from: u64, lli: u64, llt: u64) -> Transition {
    let can_vote = s.voted_for is None || s.voted_for == Some(from);
    let grant = can_vote && log_up_to_date(s, lli, llt) && !leader_lease_active(s);
    let reply = send(s, from, KindView::RequestVoteResponse { vote_granted: grant });
    if grant {
        Transition {
            node: NodeView { voted_for: Some(from), election_elapsed: 0, ..s },
            actions: seq![
                ActionView::PersistHardState { term: s.current_term, voted_for: Some(from) },
                reply,
            ],
            redraw: false,
        }
    } else {
        chain_act(unchanged(s), reply)
    }
}

pub open spec fn handle_request_vote_response(s: NodeView, from: u64, term: u64, granted: bool) -> Transition {
    if s.role != Role::Candidate || term != s.current_term || !granted {
        unchanged(s)
    } else {
        let n = NodeView { votes_received: s.votes_received.insert(from), ..s };
        if n.votes_received.len() >= majority(s) {
            become_leader(n)
        } else {
            unchanged(n)
        }
    }
}

/// The start of the run of entries with term `t` that ends at index `i`,
/// never below the sentinel.
pub open spec fn run_start(log: Seq<EntryView>, i: u64, t: u64) -> u64
    decreases i,
{
    if i > first_index_of(log) && term_at_of(log, (i - 1) as u64) == Some(t) {
        run_start(log, (i - 1) as u64, t)
    } else {
        i
    }
}

/// The number of leading entries of `es` that the log already holds with the same term.
pub open spec fn matched(log: Seq<EntryView>, es: Seq<EntryView>) -> nat
    decreases es.len(),
{
    if es.len() == 0 {
        0
    } else if term_at_of(log, es[0].index) == Some(es[0].term) {
        1 + matched(log, es.drop_first())
    } else {
        0
    }
}

/// Where the incoming entries attach once the `k` leading ones the log
/// already holds are dropped: right after the last of those, or at the first
/// entry's index when there are none.
pub open spec fn attach_point(es: Seq<EntryView>, k: nat) -> int {
    if k == 0 {
        es[0].index as int
    } else {
        es[k - 1].index + 1
    }
}

/// The incoming entries once the matching prefix is dropped: from the attach
/// point on, the log is cut and the entries that lie that far past the first
/// one are appended (for entries that continue one another, those not held).
pub open spec fn merge_entries(s: NodeView, es: Seq<EntryView>) -> Transition {
    if es.len() > 0 {
        let attach = attach_point(es, matched(s.log, es));
        let off = attach - es[0].index;
        if off < es.len() {
            let suffix = es.subrange(off, es.len() as int);
            Transition {
                node: NodeView { log: truncated_and_appended(s.log, attach as u64, suffix), ..s },
                actions: seq![ActionView::TruncateAndAppend { from_index: attach as u64, entries: suffix }],
                redraw: false,
            }
        } else {
            unchanged(s)
        }
    } else {
        unchanged(s)
    }
}

/// Entries `es` can be merged into `log`: every held leading entry has a
/// next index, the attach point is not below the first entry's index, and
/// where entries remain to be written it lies above the log's base and the
/// last of them leaves the log a next index.
pub open spec fn merge_ok(log: Seq<EntryView>, es: Seq<EntryView>) -> bool {
    es.len() > 0 ==> {
        let k = matched(log, es);
        let attach = attach_point(es, k);
        &&& forall|j: int| 0 <= j < k ==> (#[trigger] es[j]).index < u64::MAX
        &&& es[0].index <= attach
        &&& (attach - es[0].index < es.len() ==> first_index_of(log) < attach && es.last().index
            < u64::MAX)
    }
}

pub open spec fn follow_commit(s: NodeView, leader_commit: u64) -> Transition {
    if leader_commit > s.commit_index {
        let last = last_index_of(s.log);
        let nc = if leader_commit < last {
            leader_commit
        } else {
            last
        };
        if nc > s.commit_index {
            apply_committed(NodeView { commit_index: nc, ..s })
        } else {
            unchanged(s)
        }
    } else {
        unchanged(s)
    }
}

pub open spec fn handle_append_entries(
    s: NodeView,
    from: u64,
    term: u64,
    prev: u64,
    prev_term: u64,
    es: Seq<EntryView>,
    leader_commit: u64,
) -> Transition {
    if term < s.current_term {
        chain_act(
            unchanged(s),
            send(
                s,
                from,
                KindView::AppendEntriesResponse {
                    success: false,
                    conflict_term: None,
                    conflict_index: None,
                },
            ),
        )
    } else {
        let f = become_follower(s, term, Some(from));
        let s1 = f.node;
        match term_at_of(s1.log, prev) {
            None => chain_act(
                f,
                send(
                    s1,
                    from,
                    KindView::AppendEntriesResponse {
                        success: false,
                        conflict_term: None,
                        conflict_index: Some((last_index_of(s1.log) + 1) as u64),
                    },
                ),
            ),
            Some(t) => if t != prev_term {
                chain_act(
                    f,
                    send(
                        s1,
                        from,
                        KindView::AppendEntriesResponse {
                            success: false,
                            conflict_term: Some(t),
                            conflict_index: Some(run_start(s1.log, prev, t)),
                        },
                    ),
                )
            } else {
                let m = chain(f, merge_entries(s1, es));
                let c = chain(m, follow_commit(m.node, leader_commit));
                chain_act(
                    c,
                    send(
                        c.node,
                        from,
                        KindView::AppendEntriesResponse {
                            success: true,
                            conflict_term: None,
                            conflict_index: None,
                        },
                    ),
                )
            },
        }
    }
}

/// The highest index at or below `i`, and not below the sentinel, whose term is `t`.
pub open spec fn last_with_term(log: Seq<EntryView>, t: u64, i: u64) -> Option<u64>
    decreases i,
{
    if i < first_index_of(log) {
        None
    } else if term_at_of(log, i) == Some(t) {
        Some(i)
    } else if i == first_index_of(log) {
        None
    } else {
        last_with_term(log, t, (i - 1) as u64)
    }
}

/// Where the leader retries a peer that refused its entries.
pub open spec fn retry_index(
    s: NodeView,
    from: u64,
    conflict_term: Option<u64>,
    conflict_index: Option<u64>,
) -> u64 {
    let next0 = lookup_or(s.next_index, from, 1);
    let next: u64 = match conflict_term {
        Some(ct) => match last_with_term(s.log, ct, last_index_of(s.log)) {
            Some(li) => (li + 1) as u64,
            None => match conflict_index {
                Some(ci) => ci,
                None => 1,
            },
        },
        None => match conflict_index {
            Some(ci) => ci,
            None => if next0 == 0 {
                0
            } else {
                (next0 - 1) as u64
            },
        },
    };
    if next == 0 {
        1
    } else {
        next
    }
}

pub open spec fn handle_append_entries_response(
    s: NodeView,
    from: u64,
    term: u64,
    success: bool,
    conflict_term: Option<u64>,
    conflict_index: Option<u64>,
) -> Transition {
    if s.role != Role::Leader || term != s.current_term {
        unchanged(s)
    } else if success {
        let last = last_index_of(s.log);
        let n = NodeView {
            next_index: s.next_index.insert(from, (last + 1) as u64),
            match_index: s.match_index.insert(from, last),
            ..s
        };
        maybe_advance_commit(n)
    } else {
        let n = NodeView {
            next_index: s.next_index.insert(from, retry_index(s, from, conflict_term, conflict_index)),
            ..s
        };
        chain_act(unchanged(n), replicate_action(n, from))
    }
}

pub open spec fn handle_install_snapshot(
    s: NodeView,
    from: u64,
    term: u64,
    li: u64,
    lt: u64,
    data: Seq<u8>,
    done: bool,
) -> Transition {
    if term < s.current_term {
        chain_act(unchanged(s), send(s, from, KindView::InstallSnapshotResponse))
    } else {
        let f = become_follower(s, term, Some(from));
        let s1 = f.node;
        if li <= s1.commit_index {
            chain_act(f, send(s1, from, KindView::InstallSnapshotResponse))
        } else if done {
            let s2 = NodeView {
                log: seq![sentinel_view(li, lt)],
                commit_index: li,
                last_applied: li,
                ..s1
            };
            let t = Transition {
                node: s2,
                actions: f.actions.push(
                    ActionView::PersistSnapshot { last_included_index: li, last_included_term: lt, data },
                ),
                redraw: true,
            };
            chain_act(t, send(s2, from, KindView::InstallSnapshotResponse))
        } else {
            chain_act(f, send(s1, from, KindView::InstallSnapshotResponse))
        }
    }
}

pub open spec fn handle_install_snapshot_response(s: NodeView, from: u64, term: u64) -> Transition {
    if s.role != Role::Leader || term != s.current_term {
        unchanged(s)
    } else {
        let first = first_index_of(s.log);
        let n = NodeView {
            match_index: s.match_index.insert(from, first),
            next_index: s.next_index.insert(from, (first + 1) as u64),
            ..s
        };
        maybe_advance_commit(n)
    }
}

pub open spec fn is_pre_vote_kind(k: KindView) -> bool {
    k is PreVote || k is PreVoteResponse
}

pub open spec fn is_client_kind(k: KindView) -> bool {
    k is ClientRequest || k is ClientResponse
}

/// The handling of a message once its term has been checked.
pub open spec fn dispatch(s: NodeView, m: MessageView) -> Transition {
    match m.kind {
        KindView::ClientRequest { command } => if s.role == Role::Leader {
            let p = propose(s, command);
            chain_act(
                p,
                send(
                    p.node,
                    m.from,
                    KindView::ClientResponse { success: true, leader_hint: Some(s.id) },
                ),
            )
        } else {
            chain_act(
                unchanged(s),
                send(s, m.from, KindView::ClientResponse { success: false, leader_hint: s.leader_id }),
            )
        },
        KindView::ClientResponse { .. } => unchanged(s),
        KindView::PreVote { last_log_index, last_log_term } => handle_pre_vote(
            s,
            m.from,
            m.term,
            last_log_index,
            last_log_term,
        ),
        KindView::PreVoteResponse { vote_granted } => handle_pre_vote_response(
            s,
            m.from,
            m.term,
            vote_granted,
        ),
        KindView::RequestVote { last_log_index, last_log_term } => handle_request_vote(
            s,
            m.from,
            last_log_index,
            last_log_term,
        ),
        KindView::RequestVoteResponse { vote_granted } => handle_request_vote_response(
            s,
            m.from,
            m.term,
            vote_granted,
        ),
        KindView::AppendEntries { prev_log_index, prev_log_term, entries, leader_commit } =>
            handle_append_entries(
            s,
            m.from,
            m.term,
            prev_log_index,
            prev_log_term,
            entries,
            leader_commit,
        ),
        KindView::AppendEntriesResponse { success, conflict_term, conflict_index } =>
            handle_append_entries_response(s, m.from, m.term, success, conflict_term, conflict_index),
        KindView::InstallSnapshot { last_included_index, last_included_term, offset, data, done } =>
            handle_install_snapshot(
            s,
            m.from,
            m.term,
            last_included_index,
            last_included_term,
            data,
            done,
        ),
        KindView::InstallSnapshotResponse => handle_install_snapshot_response(s, m.from, m.term),
    }
}

/// The handling of one incoming message.
pub open spec fn step(s: NodeView, m: MessageView) -> Transition {
    let exempt = is_pre_vote_kind(m.kind) || is_client_kind(m.kind);
    let f = if m.term > s.current_term && !exempt {
        become_follower(s, m.term, None)
    } else {
        unchanged(s)
    };
    if m.term < f.node.current_term && !exempt {
        f
    } else {
        chain(f, dispatch(f.node, m))
    }
}

} // verus!

verus! {

/// Once the first `i` entries all fall at or below `c`, taking entries while
/// they do is those `i` entries followed by the same taking from the rest.
pub proof fn lemma_take_while_split(es: Seq<EntryView>, c: u64, i: int)
    requires
        0 <= i <= es.len(),
        forall|j: int| 0 <= j < i ==> (#[trigger] es[j]).index <= c,
    ensures
        take_while_le(es, c) == es.take(i) + take_while_le(es.skip(i), c),
    decreases i,
{
    if i == 0 {
        assert(es.skip(0) =~= es);
        assert(es.take(0) + take_while_le(es, c) =~= take_while_le(es, c));
    } else {
        let d = es.drop_first();
        assert forall|j: int| 0 <= j < i - 1 implies (#[trigger] d[j]).index <= c by {
            assert(d[j] == es[j + 1]);
        }
        lemma_take_while_split(d, c, i - 1);
        assert(d.skip(i - 1) =~= es.skip(i));
        assert(seq![es[0]] + d.take(i - 1) =~= es.take(i));
        assert(take_while_le(es, c) == seq![es[0]] + take_while_le(d, c));
        assert(seq![es[0]] + (d.take(i - 1) + take_while_le(es.skip(i), c)) =~= es.take(i)
            + take_while_le(es.skip(i), c));
    }
}

/// The highest qualifying index is at most the bound it was sought under, and
/// at least the commit index.
pub proof fn lemma_best_commit_bounds(s: NodeView, n: u64)
    ensures
        s.commit_index <= best_commit_upto(s, n),
        best_commit_upto(s, n) == s.commit_index || best_commit_upto(s, n) <= n,
    decreases n,
{
    if n > s.commit_index && !commit_qualifies(s, n) {
        lemma_best_commit_bounds(s, (n - 1) as u64);
    }
}

} // verus!

verus! {

/// Once the first `i` entries are all held by the log with the same term, the
/// matching prefix is those `i` entries and whatever matches after them.
pub proof fn lemma_matched_split(log: Seq<EntryView>, es: Seq<EntryView>, i: int)
    requires
        0 <= i <= es.len(),
        forall|j: int| 0 <= j < i ==> term_at_of(log, (#[trigger] es[j]).index) == Some(es[j].term),
    ensures
        matched(log, es) == i + matched(log, es.skip(i)),
    decreases i,
{
    if i == 0 {
        assert(es.skip(0) =~= es);
    } else {
        let d = es.drop_first();
        assert forall|j: int| 0 <= j < i - 1 implies term_at_of(log, (#[trigger] d[j]).index) == Some(
            d[j].term,
        ) by {
            assert(d[j] == es[j + 1]);
        }
        lemma_matched_split(log, d, i - 1);
        assert(d.skip(i - 1) =~= es.skip(i));
    }
}

/// At most every entry is held.
pub proof fn lemma_matched_bound(log: Seq<EntryView>, es: Seq<EntryView>)
    ensures
        matched(log, es) <= es.len(),
    decreases es.len(),
{
    if es.len() > 0 {
        lemma_matched_bound(log, es.drop_first());
    }
}

/// A well-formed append request whose previous entry is held can be merged.
pub proof fn lemma_append_request_merges(log: Seq<EntryView>, prev: u64, es: Seq<EntryView>)
    requires
        append_request_ok(prev, es),
        term_at_of(log, prev) is Some,
        log.len() >= 1,
    ensures
        merge_ok(log, es),
        es.len() > 0 ==> attach_point(es, matched(log, es)) == es[0].index + matched(log, es),
{
    if es.len() > 0 {
        let k = matched(log, es);
        lemma_matched_bound(log, es);
        if k > 0 {
            assert(es[k - 1].index == prev + 1 + (k - 1));
        }
        assert(es[0].index == prev + 1);
        assert(es.last().index == prev + 1 + (es.len() - 1));
    }
}

/// The incoming entries of an append request continue its previous index and
/// stay below the largest index.
pub open spec fn append_request_ok(prev: u64, es: Seq<EntryView>) -> bool {
    &&& crate::log::runs_from(es, prev + 1)
    &&& prev + es.len() < u64::MAX
}

/// A message within the machine's limits: its term leaves room for one more
/// election, and a snapshot point is not the largest index.
pub open spec fn message_fits(m: MessageView) -> bool {
    &&& m.term + 1 < u64::MAX
    &&& match m.kind {
        KindView::InstallSnapshot { last_included_index, .. } => last_included_index < u64::MAX,
        _ => true,
    }
}

/// A well-formed message: within the limits, and appended entries continue
/// the previous index.
pub open spec fn message_ok(m: MessageView) -> bool {
    &&& message_fits(m)
    &&& match m.kind {
        KindView::AppendEntries { prev_log_index, entries, .. } => append_request_ok(
            prev_log_index,
            entries,
        ),
        _ => true,
    }
}

/// Server `s` can take message `m`: an append request it accepts, one of its
/// term whose previous entry it holds, carries entries it can merge.
pub open spec fn step_ok(s: NodeView, m: MessageView) -> bool {
    match m.kind {
        KindView::AppendEntries { prev_log_index, prev_log_term, entries, .. } => (m.term
            >= s.current_term && term_at_of(s.log, prev_log_index) == Some(prev_log_term)) ==> merge_ok(
            s.log,
            entries,
        ),
        _ => true,
    }
}

} // verus!

verus! {

/// The index found by searching down from `i` is at most `i`.
pub proof fn lemma_last_with_term_bound(log: Seq<EntryView>, t: u64, i: u64)
    ensures
        last_with_term(log, t, i) matches Some(x) ==> x <= i,
    decreases i,
{
    if i >= first_index_of(log) && term_at_of(log, i) != Some(t) && i != first_index_of(log) {
        lemma_last_with_term_bound(log, t, (i - 1) as u64);
    }
}

} // verus!
