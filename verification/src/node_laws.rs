use vstd::prelude::*;
use crate::message::{EntryView, KindView, MessageView};
use crate::log::{lemma_append, lemma_compact, contiguous, entry_at_of, first_index_of, last_index_of, lemma_contiguous_positions, lemma_truncate_and_append, term_at_of};
use crate::node::Role;
use crate::node_model as model;
use crate::node_model::{step, NodeView};
use crate::node::ActionView;

verus! {

/// Handling a message never lowers the server's term.
pub proof fn lemma_step_term_never_decreases(s: NodeView, m: MessageView)
    requires
        s.current_term + 1 < u64::MAX,
        model::message_ok(m),
    ensures
        step(s, m).node.current_term >= s.current_term,
{
}

} // verus!

verus! {

/// A clock tick never lowers the server's term.
pub proof fn lemma_tick_term_never_decreases(s: NodeView, timeout: u64)
    requires
        s.current_term + 1 < u64::MAX,
    ensures
        model::tick(s, timeout).node.current_term >= s.current_term,
{
}

/// Handling a message never lowers the commit index.
pub proof fn lemma_step_commit_never_decreases(s: NodeView, m: MessageView)
    requires
        s.current_term + 1 < u64::MAX,
        model::message_ok(m),
    ensures
        step(s, m).node.commit_index >= s.commit_index,
{
}

/// Within one term a server votes for at most one candidate: once it has
/// voted, handling a message that leaves its term unchanged leaves its vote unchanged.
pub proof fn lemma_step_one_vote_per_term(s: NodeView, m: MessageView)
    requires
        s.current_term + 1 < u64::MAX,
        model::message_ok(m),
        s.voted_for is Some,
        step(s, m).node.current_term == s.current_term,
    ensures
        step(s, m).node.voted_for == s.voted_for,
{
}

/// A message from an older term (other than a pre-vote or client message) is
/// ignored: no state changes and nothing is sent.
pub proof fn lemma_step_ignores_stale_terms(s: NodeView, m: MessageView)
    requires
        m.term < s.current_term,
        !model::is_pre_vote_kind(m.kind),
        !model::is_client_kind(m.kind),
    ensures
        step(s, m) == model::unchanged(s),
{
}

/// A pre-vote request never disturbs its receiver: the state is unchanged and
/// the only action is the reply.
pub proof fn lemma_pre_vote_request_leaves_state(s: NodeView, m: MessageView)
    requires
        m.kind is PreVote,
    ensures
        step(s, m).node == s,
        step(s, m).actions.len() == 1,
        step(s, m).actions[0] is Send,
        !step(s, m).redraw,
{
}

/// A server raises its term above both its own and the message's only by
/// winning a majority of pre-votes.
pub proof fn lemma_step_term_raised_only_by_pre_vote_majority(s: NodeView, m: MessageView)
    requires
        s.current_term + 1 < u64::MAX,
        model::message_ok(m),
        step(s, m).node.current_term > s.current_term,
        step(s, m).node.current_term > m.term,
    ensures
        m.kind is PreVoteResponse,
        s.role == Role::PreCandidate,
        s.pre_votes_received.insert(m.from).len() >= model::majority(s),
{
}

/// A server with peers never raises its term on a clock tick: it only asks for pre-votes.
pub proof fn lemma_tick_keeps_term_with_peers(s: NodeView, timeout: u64)
    requires
        s.current_term + 1 < u64::MAX,
        s.peers.len() > 0,
    ensures
        model::tick(s, timeout).node.current_term == s.current_term,
{
}

/// A leader that is still leader after handling a message has only added to
/// its log (Leader Append-Only).
pub proof fn lemma_step_leader_append_only(s: NodeView, m: MessageView)
    requires
        s.current_term + 1 < u64::MAX,
        model::message_ok(m),
        s.role == Role::Leader,
        step(s, m).node.role == Role::Leader,
    ensures
        s.log.len() <= step(s, m).node.log.len(),
        step(s, m).node.log.take(s.log.len() as int) == s.log,
{
}

} // verus!

verus! {

/// An index that the search for the highest committable index returns above
/// the commit index does qualify for commit.
pub proof fn lemma_best_commit_qualifies(s: NodeView, n: u64)
    ensures
        model::best_commit_upto(s, n) > s.commit_index ==> model::commit_qualifies(
            s,
            model::best_commit_upto(s, n),
        ),
    decreases n,
{
    if n > s.commit_index && !model::commit_qualifies(s, n) {
        lemma_best_commit_qualifies(s, (n - 1) as u64);
    }
}

/// Every entry taken for applying lies at or below the bound.
pub proof fn lemma_take_while_bound(es: Seq<EntryView>, c: u64)
    ensures
        forall|i: int|
            0 <= i < model::take_while_le(es, c).len() ==> (#[trigger] model::take_while_le(
                es,
                c,
            )[i]).index <= c,
    decreases es.len(),
{
    if es.len() > 0 && es[0].index <= c {
        lemma_take_while_bound(es.drop_first(), c);
        let t = model::take_while_le(es, c);
        let r = model::take_while_le(es.drop_first(), c);
        assert forall|i: int| 0 <= i < t.len() implies (#[trigger] t[i]).index <= c by {
            if i > 0 {
                assert(t[i] == r[i - 1]);
            }
        }
    }
}

/// A leader commits by counting replicas only entries of its own term; it
/// never commits an entry of an earlier term that way (the Figure 8 rule).
pub proof fn lemma_step_leader_commits_own_term(s: NodeView, m: MessageView)
    requires
        s.current_term + 1 < u64::MAX,
        model::message_ok(m),
        s.role == Role::Leader,
        step(s, m).node.role == Role::Leader,
        step(s, m).node.commit_index > s.commit_index,
    ensures
        term_at_of(step(s, m).node.log, step(s, m).node.commit_index) == Some(s.current_term),
{
    let last = last_index_of(s.log);
    lemma_best_commit_qualifies(s, last);
    match m.kind {
        KindView::AppendEntriesResponse { success, .. } => {
            if success {
                let n = NodeView {
                    next_index: s.next_index.insert(m.from, (last + 1) as u64),
                    match_index: s.match_index.insert(m.from, last),
                    ..s
                };
                lemma_best_commit_qualifies(n, last);
            }
        },
        KindView::InstallSnapshotResponse => {
            let first = first_index_of(s.log);
            let n = NodeView {
                match_index: s.match_index.insert(m.from, first),
                next_index: s.next_index.insert(m.from, (first + 1) as u64),
                ..s
            };
            lemma_best_commit_qualifies(n, last);
        },
        KindView::ClientRequest { command } => {
            let e = EntryView { index: (last + 1) as u64, term: s.current_term, command };
            let n = NodeView { log: s.log.push(e), ..s };
            lemma_best_commit_qualifies(n, last_index_of(n.log));
        },
        _ => {},
    }
}

} // verus!

verus! {

/// The entries counted as matching are held by the log with their terms; the
/// first one past them, if any, is not.
pub proof fn lemma_matched_prefix(log: Seq<EntryView>, es: Seq<EntryView>)
    ensures
        model::matched(log, es) <= es.len(),
        forall|j: int|
            0 <= j < model::matched(log, es) ==> term_at_of(log, (#[trigger] es[j]).index) == Some(
                es[j].term,
            ),
        model::matched(log, es) < es.len() ==> term_at_of(log, es[model::matched(log, es) as int].index)
            != Some(es[model::matched(log, es) as int].term),
    decreases es.len(),
{
    if es.len() > 0 && term_at_of(log, es[0].index) == Some(es[0].term) {
        let d = es.drop_first();
        lemma_matched_prefix(log, d);
        assert forall|j: int|
            0 <= j < model::matched(log, es) implies term_at_of(log, (#[trigger] es[j]).index) == Some(
            es[j].term,
        ) by {
            if j > 0 {
                assert(es[j] == d[j - 1]);
            }
        }
        if model::matched(log, es) < es.len() {
            assert(es[model::matched(log, es) as int] == d[model::matched(log, d) as int]);
        }
    }
}

/// Merging entries that continue a held index `prev` keeps the log contiguous,
/// leaves everything up to `prev` as it was, and afterwards the log holds
/// every merged entry's term at that entry's index.
pub proof fn lemma_merge_entries(s: NodeView, prev: u64, es: Seq<EntryView>)
    requires
        contiguous(s.log),
        crate::log::runs_from(es, prev + 1),
        crate::log::holds_index(s.log, prev),
        prev + es.len() < u64::MAX,
    ensures
        contiguous(model::merge_entries(s, es).node.log),
        forall|i: u64|
            #![trigger entry_at_of(model::merge_entries(s, es).node.log, i)]
            first_index_of(s.log) <= i <= prev ==> entry_at_of(model::merge_entries(s, es).node.log, i)
                == entry_at_of(s.log, i),
        forall|k: int|
            0 <= k < es.len() ==> term_at_of(model::merge_entries(s, es).node.log, (#[trigger] es[k]).index)
                == Some(es[k].term),
{
    lemma_contiguous_positions(s.log);
    lemma_matched_prefix(s.log, es);
    let k = model::matched(s.log, es);
    let r = model::merge_entries(s, es).node.log;
    if es.len() > 0 && k < es.len() {
        let attach = (es[0].index + k) as u64;
        let suffix = es.subrange(k as int, es.len() as int);
        assert(es[0].index == prev + 1);
        if k > 0 {
            assert(es[k - 1].index == prev + k);
            assert(term_at_of(s.log, es[k - 1].index) is Some);
        }
        assert(crate::log::runs_from(suffix, attach as int)) by {
            assert forall|i: int| 0 <= i < suffix.len() implies #[trigger] suffix[i].index == attach + i by {
                assert(suffix[i] == es[k + i]);
            }
        }
        lemma_truncate_and_append(s.log, attach, suffix);
        lemma_contiguous_positions(r);
        assert forall|j: int| 0 <= j < es.len() implies term_at_of(r, (#[trigger] es[j]).index) == Some(
            es[j].term,
        ) by {
            if j < k {
                assert(entry_at_of(r, es[j].index) == entry_at_of(s.log, es[j].index));
            } else {
                assert(suffix[j - k] == es[j]);
                assert(entry_at_of(r, suffix[j - k].index) == Some(suffix[j - k]));
            }
        }
    }
}

/// Log Matching on the follower's side: once a server accepts an append
/// request whose previous index and term it holds, its log stays contiguous,
/// is unchanged up to the previous index, and holds every sent entry's term
/// at that entry's index.
pub proof fn lemma_step_accepted_append(s: NodeView, m: MessageView)
    requires
        contiguous(s.log),
        s.current_term + 1 < u64::MAX,
        model::message_ok(m),
        m.term >= s.current_term,
        m.kind is AppendEntries,
        term_at_of(s.log, m.kind->prev_log_index) == Some(m.kind->prev_log_term),
    ensures
        contiguous(step(s, m).node.log),
        forall|i: u64|
            #![trigger entry_at_of(step(s, m).node.log, i)]
            first_index_of(s.log) <= i <= m.kind->prev_log_index ==> entry_at_of(step(s, m).node.log, i)
                == entry_at_of(s.log, i),
        forall|k: int|
            0 <= k < m.kind->entries.len() ==> term_at_of(
                step(s, m).node.log,
                (#[trigger] m.kind->entries[k]).index,
            ) == Some(m.kind->entries[k].term),
        step(s, m).actions.last() == ActionView::Send(
            MessageView {
                from: s.id,
                to: m.from,
                term: m.term,
                kind: KindView::AppendEntriesResponse {
                    success: true,
                    conflict_term: None,
                    conflict_index: None,
                },
            },
        ),
{
    let prev = m.kind->prev_log_index;
    let es = m.kind->entries;
    let f0 = if m.term > s.current_term {
        model::become_follower(s, m.term, None)
    } else {
        model::unchanged(s)
    };
    let f = model::become_follower(f0.node, m.term, Some(m.from));
    lemma_merge_entries(f.node, prev, es);
}

} // verus!
verus! {

/// Becoming leader appends the no-op entry right after the last one.
pub proof fn lemma_become_leader_contiguous(s: NodeView)
    requires
        contiguous(s.log),
        last_index_of(s.log) + 1 < u64::MAX,
    ensures
        contiguous(model::become_leader(s).node.log),
{
    let last = last_index_of(s.log);
    let noop = EntryView { index: (last + 1) as u64, term: s.current_term, command: Seq::empty() };
    lemma_append(s.log, seq![noop]);
    assert(s.log.push(noop) =~= s.log + seq![noop]);
}

pub proof fn lemma_start_real_election_contiguous(s: NodeView)
    requires
        contiguous(s.log),
        last_index_of(s.log) + 1 < u64::MAX,
    ensures
        contiguous(model::start_real_election(s).node.log),
{
    let n = NodeView {
        current_term: (s.current_term + 1) as u64,
        role: Role::Candidate,
        voted_for: Some(s.id),
        votes_received: set![s.id],
        election_elapsed: 0,
        ..s
    };
    lemma_become_leader_contiguous(n);
}

pub proof fn lemma_propose_contiguous(s: NodeView, command: Seq<u8>)
    requires
        contiguous(s.log),
        last_index_of(s.log) + 1 < u64::MAX,
    ensures
        contiguous(model::propose(s, command).node.log),
{
    let e = EntryView { index: (last_index_of(s.log) + 1) as u64, term: s.current_term, command };
    lemma_append(s.log, seq![e]);
    assert(s.log.push(e) =~= s.log + seq![e]);
}

/// Handling a message keeps the log contiguous: every index from the
/// sentinel's to the last one is held, each at its own position.
pub proof fn lemma_step_keeps_log_contiguous(s: NodeView, m: MessageView)
    requires
        contiguous(s.log),
        last_index_of(s.log) + 1 < u64::MAX,
        s.current_term + 1 < u64::MAX,
        model::message_ok(m),
    ensures
        contiguous(step(s, m).node.log),
{
    let exempt = model::is_pre_vote_kind(m.kind) || model::is_client_kind(m.kind);
    let f = if m.term > s.current_term && !exempt {
        model::become_follower(s, m.term, None)
    } else {
        model::unchanged(s)
    };
    let n = f.node;
    match m.kind {
        KindView::ClientRequest { command } => {
            lemma_propose_contiguous(n, command);
        },
        KindView::PreVoteResponse { .. } => {
            let p = NodeView { pre_votes_received: n.pre_votes_received.insert(m.from), ..n };
            lemma_start_real_election_contiguous(p);
        },
        KindView::RequestVoteResponse { .. } => {
            let p = NodeView { votes_received: n.votes_received.insert(m.from), ..n };
            lemma_become_leader_contiguous(p);
        },
        KindView::AppendEntries { prev_log_index, prev_log_term, entries, .. } => {
            let g = model::become_follower(n, m.term, Some(m.from));
            lemma_contiguous_positions(n.log);
            if term_at_of(n.log, prev_log_index) == Some(prev_log_term) {
                lemma_merge_entries(g.node, prev_log_index, entries);
            }
        },
        KindView::InstallSnapshot { last_included_index, last_included_term, .. } => {
            crate::log::lemma_sentinel_only(last_included_index, last_included_term);
        },
        _ => {},
    }
}

/// Clock ticks, proposals and compaction keep the log contiguous.
pub proof fn lemma_local_events_keep_log_contiguous(
    s: NodeView,
    timeout: u64,
    command: Seq<u8>,
    li: u64,
    lt: u64,
    data: Seq<u8>,
)
    requires
        contiguous(s.log),
        last_index_of(s.log) + 1 < u64::MAX,
    ensures
        contiguous(model::tick(s, timeout).node.log),
        contiguous(model::propose(s, command).node.log),
        contiguous(model::compact_logs(s, li, lt, data).node.log),
{
    if s.role != Role::Leader && (s.election_elapsed + 1) as u64 >= timeout {
        let z = NodeView { election_elapsed: 0, ..s };
        let n = NodeView {
            role: Role::PreCandidate,
            pre_votes_received: set![z.id],
            election_elapsed: 0,
            ..z
        };
        lemma_start_real_election_contiguous(n);
    }
    lemma_propose_contiguous(s, command);
    lemma_compact(s.log, li, lt);
}

} // verus!
verus! {

/// Applying committed entries never goes past the commit index.
pub proof fn lemma_apply_within_commit(s: NodeView)
    requires
        s.last_applied <= s.commit_index,
    ensures
        model::apply_committed(s).node.commit_index == s.commit_index,
        model::apply_committed(s).node.last_applied <= s.commit_index,
{
    if s.commit_index > s.last_applied {
        let from = crate::log::entries_from_of(s.log, (s.last_applied + 1) as u64);
        let es = model::take_while_le(from, s.commit_index);
        lemma_take_while_bound(from, s.commit_index);
        if es.len() > 0 {
            assert(es.last() == es[es.len() - 1]);
        }
    }
}

} // verus!
verus! {

/// A server never applies past its commit index: if that holds before a
/// message, it holds after it.
pub proof fn lemma_step_applied_within_commit(s: NodeView, m: MessageView)
    requires
        s.last_applied <= s.commit_index,
        s.current_term + 1 < u64::MAX,
        model::message_ok(m),
    ensures
        step(s, m).node.last_applied <= step(s, m).node.commit_index,
{
    let exempt = model::is_pre_vote_kind(m.kind) || model::is_client_kind(m.kind);
    let f = if m.term > s.current_term && !exempt {
        model::become_follower(s, m.term, None)
    } else {
        model::unchanged(s)
    };
    let n = f.node;
    let last = last_index_of(n.log);
    match m.kind {
        KindView::ClientRequest { command } => {
            let e = EntryView { index: (last + 1) as u64, term: n.current_term, command };
            let p = NodeView { log: n.log.push(e), ..n };
            lemma_best_commit_bounds_apply(p);
        },
        KindView::AppendEntries { prev_log_index, prev_log_term, entries, leader_commit } => {
            let g = model::become_follower(n, m.term, Some(m.from));
            let mg = model::chain(g, model::merge_entries(g.node, entries));
            let q = mg.node;
            if leader_commit > q.commit_index {
                let l = last_index_of(q.log);
                let nc = if leader_commit < l { leader_commit } else { l };
                if nc > q.commit_index {
                    lemma_apply_within_commit(NodeView { commit_index: nc, ..q });
                }
            }
        },
        KindView::AppendEntriesResponse { success, .. } => {
            if success {
                let p = NodeView {
                    next_index: n.next_index.insert(m.from, (last + 1) as u64),
                    match_index: n.match_index.insert(m.from, last),
                    ..n
                };
                lemma_best_commit_bounds_apply(p);
            }
        },
        KindView::InstallSnapshotResponse => {
            let first = first_index_of(n.log);
            let p = NodeView {
                match_index: n.match_index.insert(m.from, first),
                next_index: n.next_index.insert(m.from, (first + 1) as u64),
                ..n
            };
            lemma_best_commit_bounds_apply(p);
        },
        _ => {},
    }
}

/// Advancing the commit index and applying keeps applied within committed.
pub proof fn lemma_best_commit_bounds_apply(s: NodeView)
    requires
        s.last_applied <= s.commit_index,
    ensures
        model::maybe_advance_commit(s).node.last_applied <= model::maybe_advance_commit(s).node.commit_index,
{
    let nc = model::best_commit_upto(s, last_index_of(s.log));
    if nc > s.commit_index {
        lemma_apply_within_commit(NodeView { commit_index: nc, ..s });
    }
}

} // verus!
verus! {

/// A server becomes leader on a message only once the votes it holds for its
/// term reach a majority of the cluster.
pub proof fn lemma_step_leader_only_with_majority(s: NodeView, m: MessageView)
    requires
        s.current_term + 1 < u64::MAX,
        model::message_ok(m),
        s.role != Role::Leader,
        step(s, m).node.role == Role::Leader,
    ensures
        step(s, m).node.votes_received.len() >= model::majority(s),
{
}

/// A clock tick makes a server leader only when it has no peers.
pub proof fn lemma_tick_leader_only_alone(s: NodeView, timeout: u64)
    requires
        s.current_term + 1 < u64::MAX,
        s.role != Role::Leader,
        model::tick(s, timeout).node.role == Role::Leader,
    ensures
        s.peers.len() == 0,
{
}

} // verus!

verus! {

/// Taking entries while they fall at or below `c` takes a prefix.
proof fn lemma_take_while_prefix(es: Seq<EntryView>, c: u64)
    ensures
        model::take_while_le(es, c).len() <= es.len(),
        forall|i: int|
            0 <= i < model::take_while_le(es, c).len() ==> #[trigger] model::take_while_le(es, c)[i]
                == es[i],
    decreases es.len(),
{
    if es.len() > 0 && es[0].index <= c {
        lemma_take_while_prefix(es.drop_first(), c);
        let t = model::take_while_le(es, c);
        let r = model::take_while_le(es.drop_first(), c);
        assert forall|i: int| 0 <= i < t.len() implies #[trigger] t[i] == es[i] by {
            if i > 0 {
                assert(t[i] == r[i - 1]);
            }
        }
    }
}

/// On a contiguous log, applying committed entries never lowers the applied index.
proof fn lemma_apply_advances(s: NodeView)
    requires
        contiguous(s.log),
    ensures
        model::apply_committed(s).node.last_applied >= s.last_applied,
{
    if s.commit_index > s.last_applied {
        let from = crate::log::entries_from_of(s.log, (s.last_applied + 1) as u64);
        let es = model::take_while_le(from, s.commit_index);
        lemma_take_while_prefix(from, s.commit_index);
        if es.len() > 0 {
            let k = es.len() - 1;
            assert(es.last() == es[k]);
            assert(es[k] == from[k]);
            let start = (s.last_applied + 1) as u64;
            if start <= s.log[0].index {
                assert(from[k] == s.log[k + 1]);
            } else {
                assert(from[k] == s.log[start - s.log[0].index + k]);
            }
        }
    }
}

/// On a contiguous log, advancing the commit index never lowers the applied index.
proof fn lemma_best_commit_advances(s: NodeView)
    requires
        contiguous(s.log),
    ensures
        model::maybe_advance_commit(s).node.last_applied >= s.last_applied,
{
    let nc = model::best_commit_upto(s, last_index_of(s.log));
    if nc > s.commit_index {
        lemma_apply_advances(NodeView { commit_index: nc, ..s });
    }
}

/// Handling a message never lowers the applied index of a server whose log
/// is contiguous and whose applied index is within its commit index.
pub proof fn lemma_step_applied_never_decreases(s: NodeView, m: MessageView)
    requires
        contiguous(s.log),
        s.last_applied <= s.commit_index,
        last_index_of(s.log) + 1 < u64::MAX,
        s.current_term + 1 < u64::MAX,
        model::message_ok(m),
    ensures
        step(s, m).node.last_applied >= s.last_applied,
{
    let exempt = model::is_pre_vote_kind(m.kind) || model::is_client_kind(m.kind);
    let f = if m.term > s.current_term && !exempt {
        model::become_follower(s, m.term, None)
    } else {
        model::unchanged(s)
    };
    let n = f.node;
    let last = last_index_of(n.log);
    match m.kind {
        KindView::ClientRequest { command } => {
            let e = EntryView { index: (last + 1) as u64, term: n.current_term, command };
            let p = NodeView { log: n.log.push(e), ..n };
            assert(contiguous(p.log));
            lemma_best_commit_advances(p);
        },
        KindView::AppendEntries { prev_log_index, prev_log_term, entries, leader_commit } => {
            let g = model::become_follower(n, m.term, Some(m.from));
            lemma_contiguous_positions(n.log);
            if term_at_of(n.log, prev_log_index) == Some(prev_log_term) {
                lemma_merge_entries(g.node, prev_log_index, entries);
                let mg = model::chain(g, model::merge_entries(g.node, entries));
                let q = mg.node;
                if leader_commit > q.commit_index {
                    let l = last_index_of(q.log);
                    let nc = if leader_commit < l { leader_commit } else { l };
                    if nc > q.commit_index {
                        lemma_apply_advances(NodeView { commit_index: nc, ..q });
                    }
                }
            }
        },
        KindView::AppendEntriesResponse { success, .. } => {
            if success {
                let p = NodeView {
                    next_index: n.next_index.insert(m.from, (last + 1) as u64),
                    match_index: n.match_index.insert(m.from, last),
                    ..n
                };
                lemma_best_commit_advances(p);
            }
        },
        KindView::InstallSnapshotResponse => {
            let first = first_index_of(n.log);
            let p = NodeView {
                match_index: n.match_index.insert(m.from, first),
                next_index: n.next_index.insert(m.from, (first + 1) as u64),
                ..n
            };
            lemma_best_commit_advances(p);
        },
        _ => {},
    }
}

/// Across a message the term, the commit index and the applied index never
/// go down, and the applied index stays within the commit index.
pub proof fn lemma_step_progress_monotone(s: NodeView, m: MessageView)
    requires
        contiguous(s.log),
        s.last_applied <= s.commit_index,
        last_index_of(s.log) + 1 < u64::MAX,
        s.current_term + 1 < u64::MAX,
        model::message_ok(m),
    ensures
        step(s, m).node.current_term >= s.current_term,
        step(s, m).node.commit_index >= s.commit_index,
        step(s, m).node.last_applied >= s.last_applied,
        step(s, m).node.last_applied <= step(s, m).node.commit_index,
{
    lemma_step_term_never_decreases(s, m);
    lemma_step_commit_never_decreases(s, m);
    lemma_step_applied_never_decreases(s, m);
    lemma_step_applied_within_commit(s, m);
}

} // verus!

verus! {

/// A server that has voted for `a` in its term refuses a request from any
/// other candidate: the reply is a refusal, its vote stays with `a`, and
/// nothing is persisted.
pub proof fn lemma_request_vote_refused_after_voting(s: NodeView, from: u64, lli: u64, llt: u64, a: u64)
    requires
        s.voted_for == Some(a),
        a != from,
    ensures
        model::handle_request_vote(s, from, lli, llt).node == s,
        model::handle_request_vote(s, from, lli, llt).actions == seq![
            model::send(s, from, KindView::RequestVoteResponse { vote_granted: false }),
        ],
{
    assert(model::handle_request_vote(s, from, lli, llt).actions =~= seq![
        model::send(s, from, KindView::RequestVoteResponse { vote_granted: false }),
    ]);
}

} // verus!

verus! {

/// The message is an append request the server accepts whose entries it
/// does not all hold and which attach at or below its commit index, so that
/// committed entries are cut off.
pub open spec fn cuts_committed(s: NodeView, m: MessageView) -> bool {
    match m.kind {
        KindView::AppendEntries { prev_log_index, prev_log_term, entries, .. } => {
            &&& m.term >= s.current_term
            &&& term_at_of(s.log, prev_log_index) == Some(prev_log_term)
            &&& model::matched(s.log, entries) < entries.len()
            &&& model::attach_point(entries, model::matched(s.log, entries)) <= s.commit_index
        },
        _ => false,
    }
}

/// The commit index found by the search lies at or below the larger of the
/// commit index and the bound searched from.
proof fn lemma_best_commit_upto_bound(s: NodeView, n: u64)
    ensures
        model::best_commit_upto(s, n) <= if n <= s.commit_index { s.commit_index } else { n },
    decreases n,
{
    if n > s.commit_index && !model::commit_qualifies(s, n) {
        lemma_best_commit_upto_bound(s, (n - 1) as u64);
    }
}

/// Advancing the commit index keeps it within the log.
proof fn lemma_advance_commit_within_log(s: NodeView)
    requires
        s.commit_index <= last_index_of(s.log),
    ensures
        model::maybe_advance_commit(s).node.commit_index <= last_index_of(
            model::maybe_advance_commit(s).node.log,
        ),
{
    lemma_best_commit_upto_bound(s, last_index_of(s.log));
}

/// A server's commit index stays within its log across a message, unless
/// the message is an append request that cuts off committed entries.
pub proof fn lemma_step_commit_within_log(s: NodeView, m: MessageView)
    requires
        contiguous(s.log),
        s.commit_index <= last_index_of(s.log),
        last_index_of(s.log) + 1 < u64::MAX,
        s.current_term + 1 < u64::MAX,
        model::message_ok(m),
        !cuts_committed(s, m),
    ensures
        step(s, m).node.commit_index <= last_index_of(step(s, m).node.log),
{
    let exempt = model::is_pre_vote_kind(m.kind) || model::is_client_kind(m.kind);
    let f = if m.term > s.current_term && !exempt {
        model::become_follower(s, m.term, None)
    } else {
        model::unchanged(s)
    };
    let n = f.node;
    let last = last_index_of(n.log);
    match m.kind {
        KindView::ClientRequest { command } => {
            let e = EntryView { index: (last + 1) as u64, term: n.current_term, command };
            let p = NodeView { log: n.log.push(e), ..n };
            lemma_advance_commit_within_log(p);
        },
        KindView::AppendEntries { prev_log_index, prev_log_term, entries, leader_commit } => {
            if m.term >= s.current_term && term_at_of(n.log, prev_log_index) == Some(prev_log_term) {
                let g = model::become_follower(n, m.term, Some(m.from));
                lemma_contiguous_positions(n.log);
                lemma_merge_entries(g.node, prev_log_index, entries);
                model::lemma_append_request_merges(n.log, prev_log_index, entries);
                let mg = model::chain(g, model::merge_entries(g.node, entries));
                let q = mg.node;
                lemma_contiguous_positions(q.log);
                if entries.len() > 0 && model::matched(n.log, entries) < entries.len() {
                    let x = entries.last();
                    assert(x == entries[entries.len() - 1]);
                    assert(term_at_of(q.log, x.index) == Some(x.term));
                    assert(crate::log::holds_index(q.log, x.index));
                    assert(x.index == prev_log_index + entries.len());
                }
            }
        },
        KindView::AppendEntriesResponse { success, .. } => {
            if success {
                let p = NodeView {
                    next_index: n.next_index.insert(m.from, (last + 1) as u64),
                    match_index: n.match_index.insert(m.from, last),
                    ..n
                };
                lemma_advance_commit_within_log(p);
            }
        },
        KindView::InstallSnapshotResponse => {
            let first = first_index_of(n.log);
            let p = NodeView {
                match_index: n.match_index.insert(m.from, first),
                next_index: n.next_index.insert(m.from, (first + 1) as u64),
                ..n
            };
            lemma_advance_commit_within_log(p);
        },
        _ => {},
    }
}

} // verus!
