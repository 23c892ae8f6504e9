use vstd::prelude::*;
use crate::message::{EntryView, KindView, MessageView};
use crate::log::{contiguous, entries_from_of, entry_at_of, first_index_of, last_index_of, last_term_of, lemma_append, lemma_contiguous_positions, term_at_of};
use crate::node::{ActionView, Role};
use crate::node_model as model;
use crate::node_model::{step, NodeView};

verus! {

/// Index `i` is held by the log past its sentinel.
pub open spec fn uncompacted(log: Seq<EntryView>, i: u64) -> bool {
    first_index_of(log) < i <= last_index_of(log)
}

/// Each of `es` is held, past the sentinel, by `log` at its own index.
pub open spec fn entries_in_log(log: Seq<EntryView>, es: Seq<EntryView>) -> bool {
    forall|j: int|
        0 <= j < es.len() ==> uncompacted(log, (#[trigger] es[j]).index) && entry_at_of(log, es[j].index)
            == Some(es[j])
}

/// An append request carries entries that `log` holds, numbered on from its
/// previous index, whose term `log` holds as the previous term.
pub open spec fn append_ok(log: Seq<EntryView>, k: KindView) -> bool {
    k matches KindView::AppendEntries { prev_log_index, prev_log_term, entries, .. } ==> entries_in_log(log, entries)
        && crate::log::runs_from(entries, prev_log_index + 1) && (entries.len() > 0 ==> term_at_of(
        log,
        prev_log_index,
    ) == Some(prev_log_term))
}

/// Every append request among `acts` carries entries that `log` holds.
pub open spec fn appends_from(log: Seq<EntryView>, acts: Seq<ActionView>) -> bool {
    forall|i: int|
        0 <= i < acts.len() ==> (#[trigger] acts[i] matches ActionView::Send(msg) ==> append_ok(log, msg.kind))
}

pub proof fn lemma_appends_concat(log: Seq<EntryView>, a: Seq<ActionView>, b: Seq<ActionView>)
    requires
        appends_from(log, a),
        appends_from(log, b),
    ensures
        appends_from(log, a + b),
{
    assert forall|i: int| 0 <= i < (a + b).len() implies (#[trigger] (a + b)[i] matches ActionView::Send(
        msg,
    ) ==> append_ok(log, msg.kind)) by {
        if i >= a.len() {
            assert((a + b)[i] == b[i - a.len()]);
        } else {
            assert((a + b)[i] == a[i]);
        }
    }
}

pub proof fn lemma_appends_push(log: Seq<EntryView>, a: Seq<ActionView>, x: ActionView)
    requires
        appends_from(log, a),
        x matches ActionView::Send(msg) ==> append_ok(log, msg.kind),
    ensures
        appends_from(log, a.push(x)),
{
    assert forall|i: int| 0 <= i < a.push(x).len() implies (#[trigger] a.push(x)[i] matches ActionView::Send(
        msg,
    ) ==> append_ok(log, msg.kind)) by {
        if i < a.len() {
            assert(a.push(x)[i] == a[i]);
        }
    }
}

/// The entries from any index on are held, past the sentinel, at their own indices.
pub proof fn lemma_entries_from_in_log(log: Seq<EntryView>, k: u64)
    requires
        contiguous(log),
    ensures
        entries_in_log(log, entries_from_of(log, k)),
{
    lemma_contiguous_positions(log);
    let es = entries_from_of(log, k);
    let off: int = if k <= log[0].index {
        1
    } else if k - log[0].index >= log.len() {
        log.len() as int
    } else {
        (k - log[0].index) as int
    };
    assert forall|j: int| 0 <= j < es.len() implies uncompacted(log, (#[trigger] es[j]).index) && entry_at_of(
        log,
        es[j].index,
    ) == Some(es[j]) by {
        assert(es[j] == log[off + j]);
        assert(log[off + j].index == log[0].index + off + j);
    }
}

pub proof fn lemma_broadcast_appends(s: NodeView)
    requires
        contiguous(s.log),
    ensures
        appends_from(s.log, model::broadcast(s)),
{
    assert forall|i: int| 0 <= i < model::broadcast(s).len() implies (#[trigger] model::broadcast(s)[i] matches ActionView::Send(
        msg,
    ) ==> append_ok(s.log, msg.kind)) by {
        let p = s.peers[i];
        assert(model::broadcast(s)[i] == model::replicate_action(s, p));
        lemma_replicate_ok(s, p);
    }
}

/// What a leader sends a peer is well anchored in its log.
pub proof fn lemma_replicate_ok(s: NodeView, p: u64)
    requires
        contiguous(s.log),
    ensures
        model::replicate_action(s, p) matches ActionView::Send(msg) && append_ok(s.log, msg.kind),
{
    let next = model::lookup_or(s.next_index, p, 1);
    lemma_entries_from_in_log(s.log, next);
    lemma_contiguous_positions(s.log);
    let es = entries_from_of(s.log, next);
    if next > first_index_of(s.log) {
        let prev = (next - 1) as u64;
        assert forall|j: int| 0 <= j < es.len() implies #[trigger] es[j].index == prev + 1 + j by {
            assert(es[j] == s.log[(next - s.log[0].index) + j]);
        }
        if es.len() > 0 {
            assert(crate::log::holds_index(s.log, prev));
        }
    }
}

pub proof fn lemma_become_leader_appends(s: NodeView)
    requires
        contiguous(s.log),
        last_index_of(s.log) + 1 < u64::MAX,
    ensures
        appends_from(model::become_leader(s).node.log, model::become_leader(s).actions),
        contiguous(model::become_leader(s).node.log),
{
    let last = last_index_of(s.log);
    let noop = EntryView { index: (last + 1) as u64, term: s.current_term, command: Seq::empty() };
    let t = model::become_leader(s);
    lemma_append(s.log, seq![noop]);
    assert(s.log.push(noop) =~= s.log + seq![noop]);
    lemma_broadcast_appends(t.node);
    lemma_appends_concat(t.node.log, seq![ActionView::AppendEntries { entries: seq![noop] }], model::broadcast(t.node));
}

/// Actions that send no append request.
pub open spec fn no_appends(acts: Seq<ActionView>) -> bool {
    forall|i: int|
        0 <= i < acts.len() ==> (#[trigger] acts[i] matches ActionView::Send(msg) ==> !(msg.kind is AppendEntries))
}

pub proof fn lemma_no_appends(log: Seq<EntryView>, acts: Seq<ActionView>)
    requires
        no_appends(acts),
    ensures
        appends_from(log, acts),
{
    assert forall|i: int| 0 <= i < acts.len() implies (#[trigger] acts[i] matches ActionView::Send(msg) ==> append_ok(
        log,
        msg.kind,
    )) by {
        assert(acts[i] matches ActionView::Send(msg) ==> !(msg.kind is AppendEntries));
    }
}

pub proof fn lemma_start_real_election_appends(s: NodeView)
    requires
        contiguous(s.log),
        last_index_of(s.log) + 1 < u64::MAX,
    ensures
        appends_from(model::start_real_election(s).node.log, model::start_real_election(s).actions),
{
    let t = (s.current_term + 1) as u64;
    let n = NodeView {
        current_term: t,
        role: Role::Candidate,
        voted_for: Some(s.id),
        votes_received: set![s.id],
        election_elapsed: 0,
        ..s
    };
    let asks = s.peers.map_values(
        |p: u64|
            model::send(
                n,
                p,
                KindView::RequestVote { last_log_index: last_index_of(s.log), last_log_term: last_term_of(s.log) },
            ),
    );
    let head = seq![ActionView::PersistHardState { term: t, voted_for: Some(s.id) }];
    let fin = model::start_real_election(s).node.log;
    assert(no_appends(head + asks)) by {
        assert forall|i: int| 0 <= i < (head + asks).len() implies (#[trigger] (head + asks)[i] matches ActionView::Send(
            msg,
        ) ==> !(msg.kind is AppendEntries)) by {
            if i >= 1 {
                assert((head + asks)[i] == asks[i - 1]);
            }
        }
    }
    lemma_no_appends(fin, head + asks);
    if s.peers.len() == 0 {
        lemma_become_leader_appends(n);
        lemma_appends_concat(fin, head + asks, model::become_leader(n).actions);
    }
}

pub proof fn lemma_start_pre_vote_appends(s: NodeView)
    requires
        contiguous(s.log),
        last_index_of(s.log) + 1 < u64::MAX,
    ensures
        appends_from(model::start_pre_vote(s).node.log, model::start_pre_vote(s).actions),
{
    let n = NodeView { role: Role::PreCandidate, pre_votes_received: set![s.id], election_elapsed: 0, ..s };
    let asks = s.peers.map_values(
        |p: u64|
            ActionView::Send(
                MessageView {
                    from: s.id,
                    to: p,
                    term: (s.current_term + 1) as u64,
                    kind: KindView::PreVote {
                        last_log_index: last_index_of(s.log),
                        last_log_term: last_term_of(s.log),
                    },
                },
            ),
    );
    let fin = model::start_pre_vote(s).node.log;
    assert(no_appends(asks));
    lemma_no_appends(fin, asks);
    if s.peers.len() == 0 {
        lemma_start_real_election_appends(n);
        lemma_appends_concat(fin, asks, model::start_real_election(n).actions);
    }
}

pub proof fn lemma_tick_appends(s: NodeView, timeout: u64)
    requires
        contiguous(s.log),
        last_index_of(s.log) + 1 < u64::MAX,
    ensures
        appends_from(model::tick(s, timeout).node.log, model::tick(s, timeout).actions),
{
    if s.role == Role::Leader {
        lemma_broadcast_appends(NodeView { heartbeat_elapsed: 0, ..s });
    } else if (s.election_elapsed + 1) as u64 >= timeout {
        lemma_start_pre_vote_appends(NodeView { election_elapsed: 0, ..s });
    }
}

pub proof fn lemma_propose_appends(s: NodeView, command: Seq<u8>)
    requires
        contiguous(s.log),
        last_index_of(s.log) + 1 < u64::MAX,
    ensures
        appends_from(model::propose(s, command).node.log, model::propose(s, command).actions),
        contiguous(model::propose(s, command).node.log),
{
    if s.role == Role::Leader {
        let e = EntryView { index: (last_index_of(s.log) + 1) as u64, term: s.current_term, command };
        let n = NodeView { log: s.log.push(e), ..s };
        lemma_append(s.log, seq![e]);
        assert(s.log.push(e) =~= s.log + seq![e]);
        lemma_broadcast_appends(n);
        let head = seq![ActionView::AppendEntries { entries: seq![e] }];
        assert(no_appends(head));
        lemma_no_appends(n.log, head);
        lemma_appends_concat(n.log, head, model::broadcast(n));
        if s.peers.len() == 0 {
            let mc = model::maybe_advance_commit(n);
            assert(no_appends(mc.actions));
            lemma_no_appends(n.log, mc.actions);
            lemma_appends_concat(n.log, head + model::broadcast(n), mc.actions);
        }
    }
}

/// Every append request a server sends on handling a message carries entries
/// its log then holds.
pub proof fn lemma_step_appends(s: NodeView, m: MessageView)
    requires
        contiguous(s.log),
        last_index_of(s.log) + 1 < u64::MAX,
        s.current_term + 1 < u64::MAX,
        model::message_ok(m),
    ensures
        appends_from(step(s, m).node.log, step(s, m).actions),
{
    let exempt = model::is_pre_vote_kind(m.kind) || model::is_client_kind(m.kind);
    let f = if m.term > s.current_term && !exempt {
        model::become_follower(s, m.term, None)
    } else {
        model::unchanged(s)
    };
    let n = f.node;
    let t = step(s, m);
    assert(no_appends(f.actions));
    lemma_no_appends(t.node.log, f.actions);
    if !(m.term < n.current_term && !exempt) {
        let d = model::dispatch(n, m);
        assert(t == model::chain(f, d));
        match m.kind {
            KindView::ClientRequest { command } => {
                if n.role == Role::Leader {
                    lemma_propose_appends(n, command);
                    let p = model::propose(n, command);
                    lemma_appends_push(
                        p.node.log,
                        p.actions,
                        model::send(p.node, m.from, KindView::ClientResponse { success: true, leader_hint: Some(n.id) }),
                    );
                } else {
                    assert(no_appends(d.actions));
                    lemma_no_appends(t.node.log, d.actions);
                }
            },
            KindView::PreVoteResponse { vote_granted } => {
                if n.role == Role::PreCandidate && m.term == n.current_term && vote_granted {
                    let p = NodeView { pre_votes_received: n.pre_votes_received.insert(m.from), ..n };
                    if p.pre_votes_received.len() >= model::majority(n) {
                        lemma_start_real_election_appends(p);
                    } else {
                        lemma_no_appends(t.node.log, d.actions);
                    }
                } else {
                    lemma_no_appends(t.node.log, d.actions);
                }
            },
            KindView::RequestVoteResponse { vote_granted } => {
                if n.role == Role::Candidate && m.term == n.current_term && vote_granted {
                    let p = NodeView { votes_received: n.votes_received.insert(m.from), ..n };
                    if p.votes_received.len() >= model::majority(n) {
                        lemma_become_leader_appends(p);
                    } else {
                        lemma_no_appends(t.node.log, d.actions);
                    }
                } else {
                    lemma_no_appends(t.node.log, d.actions);
                }
            },
            KindView::AppendEntriesResponse { success, conflict_term, conflict_index } => {
                if n.role == Role::Leader && m.term == n.current_term {
                    if success {
                        assert(no_appends(d.actions));
                        lemma_no_appends(t.node.log, d.actions);
                    } else {
                        let q = NodeView {
                            next_index: n.next_index.insert(
                                m.from,
                                model::retry_index(n, m.from, conflict_term, conflict_index),
                            ),
                            ..n
                        };
                        lemma_entries_from_in_log(q.log, model::lookup_or(q.next_index, m.from, 1));
                        lemma_appends_push(q.log, Seq::empty(), model::replicate_action(q, m.from));
                    }
                } else {
                    lemma_no_appends(t.node.log, d.actions);
                }
            },
            KindView::InstallSnapshotResponse => {
                assert(no_appends(d.actions));
                lemma_no_appends(t.node.log, d.actions);
            },
            _ => {
                assert(no_appends(d.actions));
                lemma_no_appends(t.node.log, d.actions);
            },
        }
        lemma_appends_concat(t.node.log, f.actions, d.actions);
    }
}

/// Every entry that `n`'s log holds past its sentinel was held at that index by
/// `s`'s log, or is one of the received entries `es`, or is new: appended by
/// `n` as leader, in its current term, past `s`'s last index.
pub open spec fn sourced(s: NodeView, n: NodeView, es: Seq<EntryView>) -> bool {
    forall|i: u64|
        #[trigger] uncompacted(n.log, i) ==> ((uncompacted(s.log, i) && entry_at_of(n.log, i) == entry_at_of(
            s.log,
            i,
        )) || (exists|j: int| 0 <= j < es.len() && entry_at_of(n.log, i) == Some(es[j])) || (n.role
            == Role::Leader && i > last_index_of(s.log) && term_at_of(n.log, i) == Some(n.current_term)))
}

/// The received entries of a message, if it is an append request.
pub open spec fn received(m: MessageView) -> Seq<EntryView> {
    match m.kind {
        KindView::AppendEntries { entries, .. } => entries,
        _ => Seq::empty(),
    }
}

pub proof fn lemma_sourced_push(s: NodeView, n: NodeView, es: Seq<EntryView>, e: EntryView)
    requires
        contiguous(s.log),
        n.log == s.log.push(e),
        e.index == last_index_of(s.log) + 1,
        n.role == Role::Leader,
        e.term == n.current_term,
    ensures
        sourced(s, n, es),
        contiguous(n.log),
        last_index_of(n.log) == last_index_of(s.log) + 1,
{
    lemma_append(s.log, seq![e]);
    assert(s.log.push(e) =~= s.log + seq![e]);
    lemma_contiguous_positions(s.log);
    lemma_contiguous_positions(n.log);
    assert forall|i: u64| #[trigger] uncompacted(n.log, i) implies ((uncompacted(s.log, i) && entry_at_of(
        n.log,
        i,
    ) == entry_at_of(s.log, i)) || (exists|j: int| 0 <= j < es.len() && entry_at_of(n.log, i) == Some(es[j]))
        || (n.role == Role::Leader && i > last_index_of(s.log) && term_at_of(n.log, i) == Some(
        n.current_term,
    ))) by {
        if i <= last_index_of(s.log) {
            assert(crate::log::holds_index(s.log, i));
            assert(entry_at_of(n.log, i) == entry_at_of(s.log, i));
        } else {
            assert(entry_at_of(n.log, e.index) == Some(e));
        }
    }
}

pub proof fn lemma_sourced_merge(s: NodeView, prev: u64, es: Seq<EntryView>)
    requires
        contiguous(s.log),
        crate::log::runs_from(es, prev + 1),
        crate::log::holds_index(s.log, prev),
        prev + es.len() < u64::MAX,
    ensures
        sourced(s, model::merge_entries(s, es).node, es),
        contiguous(model::merge_entries(s, es).node.log),
        first_index_of(model::merge_entries(s, es).node.log) == first_index_of(s.log),
{
    crate::node_laws::lemma_merge_entries(s, prev, es);
    crate::node_laws::lemma_matched_prefix(s.log, es);
    lemma_contiguous_positions(s.log);
    let n = model::merge_entries(s, es).node;
    let k = model::matched(s.log, es);
    if es.len() > 0 && k < es.len() {
        let attach = (es[0].index + k) as u64;
        let suffix = es.subrange(k as int, es.len() as int);
        assert(es[0].index == prev + 1);
        if k > 0 {
            assert(es[k - 1].index == prev + k);
            assert(term_at_of(s.log, es[k - 1].index) is Some);
        }
        assert(crate::log::runs_from(suffix, attach as int)) by {
            assert forall|i: int| 0 <= i < suffix.len() implies #[trigger] suffix[i].index == attach + i by {
                assert(suffix[i] == es[k + i]);
            }
        }
        crate::log::lemma_truncate_and_append(s.log, attach, suffix);
        lemma_contiguous_positions(n.log);
        assert(n.log[0] == s.log[0]);
        assert forall|i: u64| #[trigger] uncompacted(n.log, i) implies ((uncompacted(s.log, i) && entry_at_of(
            n.log,
            i,
        ) == entry_at_of(s.log, i)) || (exists|j: int| 0 <= j < es.len() && entry_at_of(n.log, i) == Some(
            es[j],
        )) || (n.role == Role::Leader && i > last_index_of(s.log) && term_at_of(n.log, i) == Some(
            n.current_term,
        ))) by {
            if i < attach {
                assert(entry_at_of(n.log, i) == entry_at_of(s.log, i));
            } else {
                let q = (i - attach) as int;
                assert(suffix[q].index == i);
                assert(entry_at_of(n.log, suffix[q].index) == Some(suffix[q]));
                assert(suffix[q] == es[k + q]);
            }
        }
    } else {
        assert(n.log == s.log);
    }
}

pub proof fn lemma_sourced_compact(s: NodeView, idx: u64, term: u64, es: Seq<EntryView>)
    requires
        contiguous(s.log),
    ensures
        sourced(s, NodeView { log: crate::log::compacted(s.log, idx, term), ..s }, es),
        last_index_of(crate::log::compacted(s.log, idx, term)) >= last_index_of(s.log),
{
    crate::log::lemma_compact(s.log, idx, term);
    lemma_contiguous_positions(s.log);
    let c = crate::log::compacted(s.log, idx, term);
    lemma_contiguous_positions(c);
    let n = NodeView { log: c, ..s };
    assert forall|i: u64| #[trigger] uncompacted(n.log, i) implies ((uncompacted(s.log, i) && entry_at_of(
        n.log,
        i,
    ) == entry_at_of(s.log, i)) || (exists|j: int| 0 <= j < es.len() && entry_at_of(n.log, i) == Some(es[j]))
        || (n.role == Role::Leader && i > last_index_of(s.log) && term_at_of(n.log, i) == Some(
        n.current_term,
    ))) by {
        if idx > first_index_of(s.log) {
            assert(crate::log::holds_index(s.log, i));
        }
    }
}

pub proof fn lemma_sourced_same(s: NodeView, n: NodeView, es: Seq<EntryView>)
    requires
        n.log == s.log,
    ensures
        sourced(s, n, es),
{
}

pub proof fn lemma_become_leader_sourced(s: NodeView, es: Seq<EntryView>)
    requires
        contiguous(s.log),
        last_index_of(s.log) + 1 < u64::MAX,
    ensures
        sourced(s, model::become_leader(s).node, es),
{
    let last = last_index_of(s.log);
    let noop = EntryView { index: (last + 1) as u64, term: s.current_term, command: Seq::empty() };
    lemma_sourced_push(s, model::become_leader(s).node, es, noop);
}

pub proof fn lemma_start_real_election_sourced(s: NodeView, es: Seq<EntryView>)
    requires
        contiguous(s.log),
        last_index_of(s.log) + 1 < u64::MAX,
    ensures
        sourced(s, model::start_real_election(s).node, es),
{
    let n = NodeView {
        current_term: (s.current_term + 1) as u64,
        role: Role::Candidate,
        voted_for: Some(s.id),
        votes_received: set![s.id],
        election_elapsed: 0,
        ..s
    };
    if s.peers.len() == 0 {
        lemma_become_leader_sourced(n, es);
    }
}

/// Where the entries of a server's log come from after it handles a message:
/// its old log, the entries the message carries, or entries it appends as
/// leader; a leader that stays leader never shortens its log.
pub proof fn lemma_step_sourced(s: NodeView, m: MessageView)
    requires
        contiguous(s.log),
        last_index_of(s.log) + 1 < u64::MAX,
        s.current_term + 1 < u64::MAX,
        model::message_ok(m),
    ensures
        sourced(s, step(s, m).node, received(m)),
        s.role == Role::Leader && step(s, m).node.role == Role::Leader ==> last_index_of(step(s, m).node.log)
            >= last_index_of(s.log),
{
    let exempt = model::is_pre_vote_kind(m.kind) || model::is_client_kind(m.kind);
    let f = if m.term > s.current_term && !exempt {
        model::become_follower(s, m.term, None)
    } else {
        model::unchanged(s)
    };
    let n = f.node;
    let t = step(s, m);
    let es = received(m);
    if !(m.term < n.current_term && !exempt) {
        match m.kind {
            KindView::ClientRequest { command } => {
                if n.role == Role::Leader {
                    let e = EntryView { index: (last_index_of(n.log) + 1) as u64, term: n.current_term, command };
                    lemma_sourced_push(s, t.node, es, e);
                }
            },
            KindView::PreVoteResponse { vote_granted } => {
                if n.role == Role::PreCandidate && m.term == n.current_term && vote_granted {
                    let p = NodeView { pre_votes_received: n.pre_votes_received.insert(m.from), ..n };
                    if p.pre_votes_received.len() >= model::majority(n) {
                        lemma_start_real_election_sourced(p, es);
                    }
                }
            },
            KindView::RequestVoteResponse { vote_granted } => {
                if n.role == Role::Candidate && m.term == n.current_term && vote_granted {
                    let p = NodeView { votes_received: n.votes_received.insert(m.from), ..n };
                    if p.votes_received.len() >= model::majority(n) {
                        lemma_become_leader_sourced(p, es);
                    }
                }
            },
            KindView::AppendEntries { prev_log_index, prev_log_term, entries, leader_commit } => {
                if m.term >= n.current_term {
                    let g = model::become_follower(n, m.term, Some(m.from));
                    if term_at_of(g.node.log, prev_log_index) == Some(prev_log_term) {
                        lemma_contiguous_positions(g.node.log);
                        lemma_sourced_merge(g.node, prev_log_index, entries);
                        let mg = model::merge_entries(g.node, entries);
                        assert(t.node.log == mg.node.log);
                    }
                }
            },
            KindView::InstallSnapshot { last_included_index, last_included_term, .. } => {
                crate::log::lemma_sentinel_only(last_included_index, last_included_term);
            },
            _ => {},
        }
    }
}

/// Where the entries of a server's log come from after a clock tick.
pub proof fn lemma_tick_sourced(s: NodeView, timeout: u64)
    requires
        contiguous(s.log),
        last_index_of(s.log) + 1 < u64::MAX,
    ensures
        sourced(s, model::tick(s, timeout).node, Seq::empty()),
        s.role == Role::Leader && model::tick(s, timeout).node.role == Role::Leader ==> last_index_of(
            model::tick(s, timeout).node.log,
        ) >= last_index_of(s.log),
{
    if s.role != Role::Leader && (s.election_elapsed + 1) as u64 >= timeout {
        let z = NodeView { election_elapsed: 0, ..s };
        let n = NodeView { role: Role::PreCandidate, pre_votes_received: set![z.id], election_elapsed: 0, ..z };
        if s.peers.len() == 0 {
            lemma_start_real_election_sourced(n, Seq::empty());
        }
    }
}

/// Where the entries of a server's log come from after a proposal.
pub proof fn lemma_propose_sourced(s: NodeView, command: Seq<u8>)
    requires
        contiguous(s.log),
        last_index_of(s.log) + 1 < u64::MAX,
    ensures
        sourced(s, model::propose(s, command).node, Seq::empty()),
        last_index_of(model::propose(s, command).node.log) >= last_index_of(s.log),
{
    if s.role == Role::Leader {
        let e = EntryView { index: (last_index_of(s.log) + 1) as u64, term: s.current_term, command };
        lemma_sourced_push(s, model::propose(s, command).node, Seq::empty(), e);
    }
}

/// Where the entries of a server's log come from after compaction.
pub proof fn lemma_compact_sourced(s: NodeView, li: u64, lt: u64, data: Seq<u8>)
    requires
        contiguous(s.log),
    ensures
        sourced(s, model::compact_logs(s, li, lt, data).node, Seq::empty()),
        last_index_of(model::compact_logs(s, li, lt, data).node.log) >= last_index_of(s.log),
{
    lemma_sourced_compact(s, li, lt, Seq::empty());
}

/// Like `sourced`, and each entry kept or received also keeps its link to
/// the entry before it: a kept entry keeps the term before it, and a received
/// entry follows the term the message gives for its predecessor (`pt` before
/// the first, the previous received entry's after that).
pub open spec fn linked(s: NodeView, n: NodeView, pt: u64, es: Seq<EntryView>) -> bool {
    forall|i: u64|
        #[trigger] uncompacted(n.log, i) ==> ((uncompacted(s.log, i) && entry_at_of(n.log, i) == entry_at_of(
            s.log,
            i,
        ) && term_at_of(n.log, (i - 1) as u64) == term_at_of(s.log, (i - 1) as u64)) || (exists|j: int|
            0 <= j < es.len() && entry_at_of(n.log, i) == Some(es[j]) && term_at_of(n.log, (i - 1) as u64)
                == Some(
                if j == 0 {
                    pt
                } else {
                    es[j - 1].term
                },
            )) || (n.role == Role::Leader && i > last_index_of(s.log) && term_at_of(n.log, i) == Some(
            n.current_term,
        )))
}

/// The term a message gives for the entry before its first received entry.
pub open spec fn received_prev_term(m: MessageView) -> u64 {
    match m.kind {
        KindView::AppendEntries { prev_log_term, .. } => prev_log_term,
        _ => 0,
    }
}

pub proof fn lemma_linked_push(s: NodeView, n: NodeView, pt: u64, es: Seq<EntryView>, e: EntryView)
    requires
        contiguous(s.log),
        n.log == s.log.push(e),
        e.index == last_index_of(s.log) + 1,
        n.role == Role::Leader,
        e.term == n.current_term,
    ensures
        linked(s, n, pt, es),
{
    lemma_append(s.log, seq![e]);
    assert(s.log.push(e) =~= s.log + seq![e]);
    lemma_contiguous_positions(s.log);
    lemma_contiguous_positions(n.log);
    assert forall|i: u64| #[trigger] uncompacted(n.log, i) implies ((uncompacted(s.log, i) && entry_at_of(
        n.log,
        i,
    ) == entry_at_of(s.log, i) && term_at_of(n.log, (i - 1) as u64) == term_at_of(s.log, (i - 1) as u64))
        || (exists|j: int|
        0 <= j < es.len() && entry_at_of(n.log, i) == Some(es[j]) && term_at_of(n.log, (i - 1) as u64)
            == Some(
            if j == 0 {
                pt
            } else {
                es[j - 1].term
            },
        )) || (n.role == Role::Leader && i > last_index_of(s.log) && term_at_of(n.log, i) == Some(
        n.current_term,
    ))) by {
        if i <= last_index_of(s.log) {
            assert(crate::log::holds_index(s.log, i));
            assert(crate::log::holds_index(s.log, (i - 1) as u64));
            assert(entry_at_of(n.log, i) == entry_at_of(s.log, i));
            assert(entry_at_of(n.log, (i - 1) as u64) == entry_at_of(s.log, (i - 1) as u64));
        } else {
            assert(entry_at_of(n.log, e.index) == Some(e));
        }
    }
}

pub proof fn lemma_linked_merge(s: NodeView, prev: u64, pt: u64, es: Seq<EntryView>)
    requires
        contiguous(s.log),
        crate::log::runs_from(es, prev + 1),
        term_at_of(s.log, prev) == Some(pt),
        prev + es.len() < u64::MAX,
    ensures
        linked(s, model::merge_entries(s, es).node, pt, es),
{
    lemma_contiguous_positions(s.log);
    crate::node_laws::lemma_merge_entries(s, prev, es);
    crate::node_laws::lemma_matched_prefix(s.log, es);
    let n = model::merge_entries(s, es).node;
    let k = model::matched(s.log, es);
    if es.len() > 0 && k < es.len() {
        let attach = (es[0].index + k) as u64;
        let suffix = es.subrange(k as int, es.len() as int);
        assert(es[0].index == prev + 1);
        if k > 0 {
            assert(es[k - 1].index == prev + k);
            assert(term_at_of(s.log, es[k - 1].index) is Some);
        }
        assert(crate::log::runs_from(suffix, attach as int)) by {
            assert forall|i: int| 0 <= i < suffix.len() implies #[trigger] suffix[i].index == attach + i by {
                assert(suffix[i] == es[k + i]);
            }
        }
        crate::log::lemma_truncate_and_append(s.log, attach, suffix);
        lemma_contiguous_positions(n.log);
        assert(n.log[0] == s.log[0]);
        assert forall|i: u64| #[trigger] uncompacted(n.log, i) implies ((uncompacted(s.log, i) && entry_at_of(
            n.log,
            i,
        ) == entry_at_of(s.log, i) && term_at_of(n.log, (i - 1) as u64) == term_at_of(
            s.log,
            (i - 1) as u64,
        )) || (exists|j: int|
            0 <= j < es.len() && entry_at_of(n.log, i) == Some(es[j]) && term_at_of(n.log, (i - 1) as u64)
                == Some(
                if j == 0 {
                    pt
                } else {
                    es[j - 1].term
                },
            )) || (n.role == Role::Leader && i > last_index_of(s.log) && term_at_of(n.log, i) == Some(
            n.current_term,
        ))) by {
            if i < attach {
                assert(entry_at_of(n.log, i) == entry_at_of(s.log, i));
                assert(entry_at_of(n.log, (i - 1) as u64) == entry_at_of(s.log, (i - 1) as u64));
            } else {
                let q = (i - attach) as int;
                let j = k + q;
                assert(suffix[q].index == i);
                assert(entry_at_of(n.log, suffix[q].index) == Some(suffix[q]));
                assert(suffix[q] == es[j]);
                if q > 0 {
                    assert(suffix[q - 1] == es[j - 1]);
                    assert(entry_at_of(n.log, suffix[q - 1].index) == Some(suffix[q - 1]));
                } else if k > 0 {
                    assert(entry_at_of(n.log, (i - 1) as u64) == entry_at_of(s.log, (i - 1) as u64));
                    assert(term_at_of(s.log, es[k - 1].index) == Some(es[k - 1].term));
                } else {
                    assert(entry_at_of(n.log, prev) == entry_at_of(s.log, prev));
                }
            }
        }
    } else {
        assert(n.log == s.log);
    }
}

pub proof fn lemma_linked_compact(s: NodeView, idx: u64, term: u64, pt: u64, es: Seq<EntryView>)
    requires
        contiguous(s.log),
        term_at_of(s.log, idx) is Some ==> term_at_of(s.log, idx) == Some(term),
    ensures
        linked(s, NodeView { log: crate::log::compacted(s.log, idx, term), ..s }, pt, es),
{
    crate::log::lemma_compact(s.log, idx, term);
    lemma_contiguous_positions(s.log);
    let c = crate::log::compacted(s.log, idx, term);
    lemma_contiguous_positions(c);
    let n = NodeView { log: c, ..s };
    assert forall|i: u64| #[trigger] uncompacted(n.log, i) implies ((uncompacted(s.log, i) && entry_at_of(
        n.log,
        i,
    ) == entry_at_of(s.log, i) && term_at_of(n.log, (i - 1) as u64) == term_at_of(s.log, (i - 1) as u64))
        || (exists|j: int|
        0 <= j < es.len() && entry_at_of(n.log, i) == Some(es[j]) && term_at_of(n.log, (i - 1) as u64)
            == Some(
            if j == 0 {
                pt
            } else {
                es[j - 1].term
            },
        )) || (n.role == Role::Leader && i > last_index_of(s.log) && term_at_of(n.log, i) == Some(
        n.current_term,
    ))) by {
        if idx > first_index_of(s.log) {
            assert(crate::log::holds_index(s.log, i));
            assert(crate::log::holds_index(s.log, (i - 1) as u64));
            if (i - 1) as u64 > idx {
                assert(entry_at_of(n.log, (i - 1) as u64) == entry_at_of(s.log, (i - 1) as u64));
            }
        }
    }
}

pub proof fn lemma_become_leader_linked(s: NodeView, pt: u64, es: Seq<EntryView>)
    requires
        contiguous(s.log),
        last_index_of(s.log) + 1 < u64::MAX,
    ensures
        linked(s, model::become_leader(s).node, pt, es),
{
    let last = last_index_of(s.log);
    let noop = EntryView { index: (last + 1) as u64, term: s.current_term, command: Seq::empty() };
    lemma_linked_push(s, model::become_leader(s).node, pt, es, noop);
}

pub proof fn lemma_start_real_election_linked(s: NodeView, pt: u64, es: Seq<EntryView>)
    requires
        contiguous(s.log),
        last_index_of(s.log) + 1 < u64::MAX,
    ensures
        linked(s, model::start_real_election(s).node, pt, es),
{
    let n = NodeView {
        current_term: (s.current_term + 1) as u64,
        role: Role::Candidate,
        voted_for: Some(s.id),
        votes_received: set![s.id],
        election_elapsed: 0,
        ..s
    };
    if s.peers.len() == 0 {
        lemma_become_leader_linked(n, pt, es);
    }
}

/// How the entries of a server's log, and their links to the entries before
/// them, come about when it handles a message.
pub proof fn lemma_step_linked(s: NodeView, m: MessageView)
    requires
        contiguous(s.log),
        last_index_of(s.log) + 1 < u64::MAX,
        s.current_term + 1 < u64::MAX,
        model::message_ok(m),
    ensures
        linked(s, step(s, m).node, received_prev_term(m), received(m)),
{
    let exempt = model::is_pre_vote_kind(m.kind) || model::is_client_kind(m.kind);
    let f = if m.term > s.current_term && !exempt {
        model::become_follower(s, m.term, None)
    } else {
        model::unchanged(s)
    };
    let n = f.node;
    let t = step(s, m);
    let es = received(m);
    let pt = received_prev_term(m);
    if !(m.term < n.current_term && !exempt) {
        match m.kind {
            KindView::ClientRequest { command } => {
                if n.role == Role::Leader {
                    let e = EntryView { index: (last_index_of(n.log) + 1) as u64, term: n.current_term, command };
                    lemma_linked_push(s, t.node, pt, es, e);
                }
            },
            KindView::PreVoteResponse { vote_granted } => {
                if n.role == Role::PreCandidate && m.term == n.current_term && vote_granted {
                    let p = NodeView { pre_votes_received: n.pre_votes_received.insert(m.from), ..n };
                    if p.pre_votes_received.len() >= model::majority(n) {
                        lemma_start_real_election_linked(p, pt, es);
                    }
                }
            },
            KindView::RequestVoteResponse { vote_granted } => {
                if n.role == Role::Candidate && m.term == n.current_term && vote_granted {
                    let p = NodeView { votes_received: n.votes_received.insert(m.from), ..n };
                    if p.votes_received.len() >= model::majority(n) {
                        lemma_become_leader_linked(p, pt, es);
                    }
                }
            },
            KindView::AppendEntries { prev_log_index, prev_log_term, entries, leader_commit } => {
                if m.term >= n.current_term {
                    let g = model::become_follower(n, m.term, Some(m.from));
                    if term_at_of(g.node.log, prev_log_index) == Some(prev_log_term) {
                        lemma_linked_merge(g.node, prev_log_index, prev_log_term, entries);
                        let mg = model::merge_entries(g.node, entries);
                        assert(t.node.log == mg.node.log);
                    }
                }
            },
            KindView::InstallSnapshot { last_included_index, last_included_term, .. } => {
                crate::log::lemma_sentinel_only(last_included_index, last_included_term);
            },
            _ => {},
        }
    }
}

/// How the entries of a server's log come about on a clock tick.
pub proof fn lemma_tick_linked(s: NodeView, timeout: u64)
    requires
        contiguous(s.log),
        last_index_of(s.log) + 1 < u64::MAX,
    ensures
        linked(s, model::tick(s, timeout).node, 0, Seq::empty()),
{
    if s.role != Role::Leader && (s.election_elapsed + 1) as u64 >= timeout {
        let z = NodeView { election_elapsed: 0, ..s };
        let n = NodeView { role: Role::PreCandidate, pre_votes_received: set![z.id], election_elapsed: 0, ..z };
        if s.peers.len() == 0 {
            lemma_start_real_election_linked(n, 0, Seq::empty());
        }
    }
}

/// How the entries of a server's log come about on a proposal.
pub proof fn lemma_propose_linked(s: NodeView, command: Seq<u8>)
    requires
        contiguous(s.log),
        last_index_of(s.log) + 1 < u64::MAX,
    ensures
        linked(s, model::propose(s, command).node, 0, Seq::empty()),
{
    if s.role == Role::Leader {
        let e = EntryView { index: (last_index_of(s.log) + 1) as u64, term: s.current_term, command };
        lemma_linked_push(s, model::propose(s, command).node, 0, Seq::empty(), e);
    }
}

/// How the entries of a server's log come about on a compaction that records
/// the true term of the compacted index.
pub proof fn lemma_compact_linked(s: NodeView, li: u64, lt: u64, data: Seq<u8>)
    requires
        contiguous(s.log),
        term_at_of(s.log, li) is Some ==> term_at_of(s.log, li) == Some(lt),
    ensures
        linked(s, model::compact_logs(s, li, lt, data).node, 0, Seq::empty()),
{
    lemma_linked_compact(s, li, lt, 0, Seq::empty());
}

} // verus!
