use vstd::prelude::*;
use crate::message::{EntryView, KindView, MessageView};
use crate::log::{last_index_of, last_term_of, term_at_of};
use crate::node::{ActionView, Role};
use crate::node_model as model;
use crate::node_model::{step, NodeView, Transition};

verus! {

/// A reply that grants a vote.
pub open spec fn is_grant(k: KindView) -> bool {
    k matches KindView::RequestVoteResponse { vote_granted } && vote_granted
}

/// Every message among `acts` is sent by `id` and grants no vote.
pub open spec fn plain_sends(id: u64, acts: Seq<ActionView>) -> bool {
    forall|i: int|
        0 <= i < acts.len() ==> (#[trigger] acts[i] matches ActionView::Send(msg) ==> msg.from == id
            && !is_grant(msg.kind))
}

/// Every message among `acts` is sent by `id`, and a vote it grants is the
/// vote that `n` holds, in `n`'s term.
pub open spec fn sends_ok(id: u64, n: NodeView, acts: Seq<ActionView>) -> bool {
    forall|i: int|
        0 <= i < acts.len() ==> (#[trigger] acts[i] matches ActionView::Send(msg) ==> msg.from == id
            && (is_grant(msg.kind) ==> msg.term == n.current_term && n.voted_for == Some(msg.to)))
}

pub proof fn lemma_plain_concat(id: u64, a: Seq<ActionView>, b: Seq<ActionView>)
    requires
        plain_sends(id, a),
        plain_sends(id, b),
    ensures
        plain_sends(id, a + b),
{
    assert forall|i: int| 0 <= i < (a + b).len() implies (#[trigger] (a + b)[i] matches ActionView::Send(
        msg,
    ) ==> msg.from == id && !is_grant(msg.kind)) by {
        if i >= a.len() {
            assert((a + b)[i] == b[i - a.len()]);
        } else {
            assert((a + b)[i] == a[i]);
        }
    }
}

pub proof fn lemma_plain_push(id: u64, a: Seq<ActionView>, x: ActionView)
    requires
        plain_sends(id, a),
        x matches ActionView::Send(msg) ==> msg.from == id && !is_grant(msg.kind),
    ensures
        plain_sends(id, a.push(x)),
{
    assert forall|i: int| 0 <= i < a.push(x).len() implies (#[trigger] a.push(x)[i] matches ActionView::Send(
        msg,
    ) ==> msg.from == id && !is_grant(msg.kind)) by {
        if i < a.len() {
            assert(a.push(x)[i] == a[i]);
        }
    }
}

pub proof fn lemma_plain_chain(id: u64, t1: Transition, t2: Transition)
    requires
        plain_sends(id, t1.actions),
        plain_sends(id, t2.actions),
    ensures
        plain_sends(id, model::chain(t1, t2).actions),
{
    lemma_plain_concat(id, t1.actions, t2.actions);
}

pub proof fn lemma_plain_sends_ok(id: u64, n: NodeView, acts: Seq<ActionView>)
    requires
        plain_sends(id, acts),
    ensures
        sends_ok(id, n, acts),
{
    assert forall|i: int| 0 <= i < acts.len() implies (#[trigger] acts[i] matches ActionView::Send(msg) ==> msg.from
        == id && (is_grant(msg.kind) ==> msg.term == n.current_term && n.voted_for == Some(msg.to))) by {
        assert(acts[i] matches ActionView::Send(msg) ==> msg.from == id && !is_grant(msg.kind));
    }
}

pub proof fn lemma_broadcast_plain(s: NodeView)
    ensures
        plain_sends(s.id, model::broadcast(s)),
{
    assert forall|i: int| 0 <= i < model::broadcast(s).len() implies (#[trigger] model::broadcast(s)[i] matches ActionView::Send(
        msg,
    ) ==> msg.from == s.id && !is_grant(msg.kind)) by {
        assert(model::broadcast(s)[i] == model::replicate_action(s, s.peers[i]));
    }
}

pub proof fn lemma_become_leader_plain(s: NodeView)
    ensures
        plain_sends(s.id, model::become_leader(s).actions),
{
    let last = last_index_of(s.log);
    let noop = EntryView { index: (last + 1) as u64, term: s.current_term, command: Seq::empty() };
    let t = model::become_leader(s);
    lemma_broadcast_plain(t.node);
    lemma_plain_concat(s.id, seq![ActionView::AppendEntries { entries: seq![noop] }], model::broadcast(t.node));
}

pub proof fn lemma_start_real_election_plain(s: NodeView)
    ensures
        plain_sends(s.id, model::start_real_election(s).actions),
{
    let t = (s.current_term + 1) as u64;
    let n = NodeView {
        current_term: t,
        role: Role::Candidate,
        voted_for: Some(s.id),
        votes_received: set![s.id],
        election_elapsed: 0,
        ..s
    };
    let asks = s.peers.map_values(
        |p: u64|
            model::send(
                n,
                p,
                KindView::RequestVote { last_log_index: last_index_of(s.log), last_log_term: last_term_of(s.log) },
            ),
    );
    let head = seq![ActionView::PersistHardState { term: t, voted_for: Some(s.id) }];
    assert(plain_sends(s.id, asks));
    lemma_plain_concat(s.id, head, asks);
    if s.peers.len() == 0 {
        lemma_become_leader_plain(n);
        lemma_plain_concat(s.id, head + asks, model::become_leader(n).actions);
    }
}

pub proof fn lemma_start_pre_vote_plain(s: NodeView)
    ensures
        plain_sends(s.id, model::start_pre_vote(s).actions),
{
    let n = NodeView { role: Role::PreCandidate, pre_votes_received: set![s.id], election_elapsed: 0, ..s };
    let asks = s.peers.map_values(
        |p: u64|
            ActionView::Send(
                MessageView {
                    from: s.id,
                    to: p,
                    term: (s.current_term + 1) as u64,
                    kind: KindView::PreVote {
                        last_log_index: last_index_of(s.log),
                        last_log_term: last_term_of(s.log),
                    },
                },
            ),
    );
    assert(plain_sends(s.id, asks));
    if s.peers.len() == 0 {
        lemma_start_real_election_plain(n);
        lemma_plain_concat(s.id, asks, model::start_real_election(n).actions);
    }
}

pub proof fn lemma_propose_plain(s: NodeView, command: Seq<u8>)
    ensures
        plain_sends(s.id, model::propose(s, command).actions),
{
    if s.role == Role::Leader {
        let e = EntryView { index: (last_index_of(s.log) + 1) as u64, term: s.current_term, command };
        let n = NodeView { log: s.log.push(e), ..s };
        lemma_broadcast_plain(n);
        lemma_plain_concat(s.id, seq![ActionView::AppendEntries { entries: seq![e] }], model::broadcast(n));
        if s.peers.len() == 0 {
            lemma_plain_concat(
                s.id,
                seq![ActionView::AppendEntries { entries: seq![e] }] + model::broadcast(n),
                model::maybe_advance_commit(n).actions,
            );
        }
    }
}

pub proof fn lemma_tick_plain(s: NodeView, timeout: u64)
    ensures
        plain_sends(s.id, model::tick(s, timeout).actions),
{
    if s.role == Role::Leader {
        lemma_broadcast_plain(NodeView { heartbeat_elapsed: 0, ..s });
    } else if (s.election_elapsed + 1) as u64 >= timeout {
        lemma_start_pre_vote_plain(NodeView { election_elapsed: 0, ..s });
    }
}

pub proof fn lemma_plain_then_ok(id: u64, n: NodeView, a: Seq<ActionView>, b: Seq<ActionView>)
    requires
        plain_sends(id, a),
        sends_ok(id, n, b),
    ensures
        sends_ok(id, n, a + b),
{
    assert forall|i: int| 0 <= i < (a + b).len() implies (#[trigger] (a + b)[i] matches ActionView::Send(
        msg,
    ) ==> msg.from == id && (is_grant(msg.kind) ==> msg.term == n.current_term && n.voted_for == Some(
        msg.to,
    ))) by {
        if i >= a.len() {
            assert((a + b)[i] == b[i - a.len()]);
        } else {
            assert((a + b)[i] == a[i]);
        }
    }
}

pub proof fn lemma_append_entries_plain(
    s: NodeView,
    from: u64,
    term: u64,
    prev: u64,
    prev_term: u64,
    es: Seq<EntryView>,
    leader_commit: u64,
)
    ensures
        plain_sends(s.id, model::handle_append_entries(s, from, term, prev, prev_term, es, leader_commit).actions),
{
    if term >= s.current_term {
        let f = model::become_follower(s, term, Some(from));
        let s1 = f.node;
        assert(plain_sends(s.id, f.actions));
        match term_at_of(s1.log, prev) {
            Some(t) => {
                if t == prev_term {
                    let mg = model::merge_entries(s1, es);
                    lemma_plain_chain(s.id, f, mg);
                    let m = model::chain(f, mg);
                    let fc = model::follow_commit(m.node, leader_commit);
                    lemma_plain_chain(s.id, m, fc);
                    let c = model::chain(m, fc);
                    lemma_plain_push(
                        s.id,
                        c.actions,
                        model::send(
                            c.node,
                            from,
                            KindView::AppendEntriesResponse {
                                success: true,
                                conflict_term: None,
                                conflict_index: None,
                            },
                        ),
                    );
                } else {
                    lemma_plain_push(
                        s.id,
                        f.actions,
                        model::send(
                            s1,
                            from,
                            KindView::AppendEntriesResponse {
                                success: false,
                                conflict_term: Some(t),
                                conflict_index: Some(model::run_start(s1.log, prev, t)),
                            },
                        ),
                    );
                }
            },
            None => {
                lemma_plain_push(
                    s.id,
                    f.actions,
                    model::send(
                        s1,
                        from,
                        KindView::AppendEntriesResponse {
                            success: false,
                            conflict_term: None,
                            conflict_index: Some((last_index_of(s1.log) + 1) as u64),
                        },
                    ),
                );
            },
        }
    } else {
        lemma_plain_push(
            s.id,
            Seq::empty(),
            model::send(
                s,
                from,
                KindView::AppendEntriesResponse { success: false, conflict_term: None, conflict_index: None },
            ),
        );
    }
}

pub proof fn lemma_install_snapshot_plain(
    s: NodeView,
    from: u64,
    term: u64,
    li: u64,
    lt: u64,
    data: Seq<u8>,
    done: bool,
)
    ensures
        plain_sends(s.id, model::handle_install_snapshot(s, from, term, li, lt, data, done).actions),
{
    if term >= s.current_term {
        let f = model::become_follower(s, term, Some(from));
        let s1 = f.node;
        assert(plain_sends(s.id, f.actions));
        if li > s1.commit_index && done {
            let s2 = NodeView {
                log: seq![crate::log::sentinel_view(li, lt)],
                commit_index: li,
                last_applied: li,
                ..s1
            };
            let snap = ActionView::PersistSnapshot { last_included_index: li, last_included_term: lt, data };
            lemma_plain_push(s.id, f.actions, snap);
            lemma_plain_push(s.id, f.actions.push(snap), model::send(s2, from, KindView::InstallSnapshotResponse));
        } else {
            lemma_plain_push(s.id, f.actions, model::send(s1, from, KindView::InstallSnapshotResponse));
        }
    } else {
        lemma_plain_push(s.id, Seq::empty(), model::send(s, from, KindView::InstallSnapshotResponse));
    }
}

pub proof fn lemma_dispatch_sends_ok(s: NodeView, m: MessageView)
    ensures
        sends_ok(s.id, model::dispatch(s, m).node, model::dispatch(s, m).actions),
        model::dispatch(s, m).node.id == s.id,
{
    let t = model::dispatch(s, m);
    match m.kind {
        KindView::ClientRequest { command } => {
            if s.role == Role::Leader {
                lemma_propose_plain(s, command);
                let p = model::propose(s, command);
                lemma_plain_push(
                    s.id,
                    p.actions,
                    model::send(p.node, m.from, KindView::ClientResponse { success: true, leader_hint: Some(s.id) }),
                );
            } else {
                lemma_plain_push(
                    s.id,
                    Seq::empty(),
                    model::send(s, m.from, KindView::ClientResponse { success: false, leader_hint: s.leader_id }),
                );
            }
            lemma_plain_sends_ok(s.id, t.node, t.actions);
        },
        KindView::PreVote { last_log_index, last_log_term } => {
            assert(plain_sends(s.id, t.actions));
            lemma_plain_sends_ok(s.id, t.node, t.actions);
        },
        KindView::PreVoteResponse { vote_granted } => {
            if s.role == Role::PreCandidate && m.term == s.current_term && vote_granted {
                let n = NodeView { pre_votes_received: s.pre_votes_received.insert(m.from), ..s };
                lemma_start_real_election_plain(n);
            }
            lemma_plain_sends_ok(s.id, t.node, t.actions);
        },
        KindView::RequestVote { .. } => {
            if t.actions.len() == 2 {
                assert(sends_ok(s.id, t.node, t.actions)) by {
                    assert forall|i: int| 0 <= i < t.actions.len() implies (#[trigger] t.actions[i] matches ActionView::Send(
                        msg,
                    ) ==> msg.from == s.id && (is_grant(msg.kind) ==> msg.term == t.node.current_term
                        && t.node.voted_for == Some(msg.to))) by {
                        if i == 1 {
                        }
                    }
                }
            } else {
                assert(sends_ok(s.id, t.node, t.actions));
            }
        },
        KindView::RequestVoteResponse { vote_granted } => {
            if s.role == Role::Candidate && m.term == s.current_term && vote_granted {
                let n = NodeView { votes_received: s.votes_received.insert(m.from), ..s };
                if n.votes_received.len() >= model::majority(s) {
                    lemma_become_leader_plain(n);
                }
            }
            lemma_plain_sends_ok(s.id, t.node, t.actions);
        },
        KindView::AppendEntries { prev_log_index, prev_log_term, entries, leader_commit } => {
            lemma_append_entries_plain(s, m.from, m.term, prev_log_index, prev_log_term, entries, leader_commit);
            lemma_plain_sends_ok(s.id, t.node, t.actions);
        },
        KindView::AppendEntriesResponse { success, conflict_term, conflict_index } => {
            if s.role == Role::Leader && m.term == s.current_term && !success {
                let n = NodeView {
                    next_index: s.next_index.insert(
                        m.from,
                        model::retry_index(s, m.from, conflict_term, conflict_index),
                    ),
                    ..s
                };
                lemma_plain_push(s.id, Seq::empty(), model::replicate_action(n, m.from));
            }
            lemma_plain_sends_ok(s.id, t.node, t.actions);
        },
        KindView::InstallSnapshot { last_included_index, last_included_term, offset, data, done } => {
            lemma_install_snapshot_plain(s, m.from, m.term, last_included_index, last_included_term, data, done);
            lemma_plain_sends_ok(s.id, t.node, t.actions);
        },
        KindView::InstallSnapshotResponse => {
            lemma_plain_sends_ok(s.id, t.node, t.actions);
        },
        KindView::ClientResponse { .. } => {
            lemma_plain_sends_ok(s.id, t.node, t.actions);
        },
    }
}

/// Every message a server sends on handling a message carries its own id, and
/// a vote it grants is the vote it then holds, in the term it then has.
pub proof fn lemma_step_sends_ok(s: NodeView, m: MessageView)
    ensures
        sends_ok(s.id, step(s, m).node, step(s, m).actions),
        step(s, m).node.id == s.id,
        step(s, m).node.peers == s.peers,
{
    let exempt = model::is_pre_vote_kind(m.kind) || model::is_client_kind(m.kind);
    let f = if m.term > s.current_term && !exempt {
        model::become_follower(s, m.term, None)
    } else {
        model::unchanged(s)
    };
    assert(plain_sends(s.id, f.actions));
    if !(m.term < f.node.current_term && !exempt) {
        lemma_dispatch_sends_ok(f.node, m);
        let d = model::dispatch(f.node, m);
        lemma_plain_then_ok(s.id, d.node, f.actions, d.actions);
    } else {
        lemma_plain_sends_ok(s.id, f.node, f.actions);
    }
}

/// A server that is a candidate or leader after an event votes for itself,
/// and its votes come either from a fresh election in the next term, or from
/// the votes it already held as candidate or leader in the same term, with at
/// most the sender of a granting reply `m` of that term added.
pub open spec fn candidacy_follows(s: NodeView, n: NodeView, m: Option<MessageView>) -> bool {
    (n.role == Role::Candidate || n.role == Role::Leader) ==> (n.voted_for == Some(s.id) && (
    (n.current_term == s.current_term + 1 && n.votes_received == set![s.id]) || (n.current_term
        == s.current_term && (s.role == Role::Candidate || s.role == Role::Leader) && (n.votes_received
        == s.votes_received || (m matches Some(msg) && is_grant(msg.kind) && msg.term == s.current_term
        && n.votes_received == s.votes_received.insert(msg.from))))))
}

pub proof fn lemma_start_real_election_candidacy(s: NodeView)
    requires
        s.current_term + 1 < u64::MAX,
    ensures
        model::start_real_election(s).node.voted_for == Some(s.id),
        model::start_real_election(s).node.current_term == s.current_term + 1,
        model::start_real_election(s).node.votes_received == set![s.id],
        model::start_real_election(s).node.id == s.id,
        model::start_real_election(s).node.peers == s.peers,
        model::start_real_election(s).node.role == Role::Leader ==> s.peers.len() == 0,
{
}

/// How candidacy follows from handling a message.
pub proof fn lemma_step_candidacy(s: NodeView, m: MessageView)
    requires
        s.current_term + 1 < u64::MAX,
        model::message_ok(m),
        s.role == Role::Candidate || s.role == Role::Leader ==> s.voted_for == Some(s.id),
    ensures
        candidacy_follows(s, step(s, m).node, Some(m)),
        step(s, m).node.role == Role::Leader && s.role == Role::Leader ==> step(s, m).node.current_term
            == s.current_term,
        step(s, m).node.role == Role::Leader && s.role != Role::Leader ==> step(
            s,
            m,
        ).node.votes_received.len() >= model::majority(s),
        step(s, m).node.role == Role::Candidate && step(s, m).node.current_term == s.current_term
            ==> s.role == Role::Candidate,
{
    match m.kind {
        KindView::PreVoteResponse { vote_granted } => {
            if s.role == Role::PreCandidate && m.term == s.current_term && vote_granted {
                let n = NodeView { pre_votes_received: s.pre_votes_received.insert(m.from), ..s };
                lemma_start_real_election_candidacy(n);
            }
        },
        _ => {},
    }
}

/// How candidacy follows from a clock tick.
pub proof fn lemma_tick_candidacy(s: NodeView, timeout: u64)
    requires
        s.current_term + 1 < u64::MAX,
        s.role == Role::Candidate || s.role == Role::Leader ==> s.voted_for == Some(s.id),
    ensures
        candidacy_follows(s, model::tick(s, timeout).node, None),
        model::tick(s, timeout).node.role == Role::Leader && s.role == Role::Leader ==> model::tick(
            s,
            timeout,
        ).node.current_term == s.current_term,
        model::tick(s, timeout).node.role == Role::Leader && s.role != Role::Leader ==> model::tick(
            s,
            timeout,
        ).node.votes_received.len() >= model::majority(s),
        model::tick(s, timeout).node.id == s.id,
        model::tick(s, timeout).node.peers == s.peers,
        model::tick(s, timeout).node.current_term >= s.current_term,
        model::tick(s, timeout).node.current_term == s.current_term ==> model::tick(s, timeout).node.voted_for
            == s.voted_for,
        model::tick(s, timeout).node.role == Role::Candidate && model::tick(s, timeout).node.current_term
            == s.current_term ==> s.role == Role::Candidate,
{
    if s.role != Role::Leader && (s.election_elapsed + 1) as u64 >= timeout {
        let z = NodeView { election_elapsed: 0, ..s };
        if s.peers.len() == 0 {
            let n = NodeView { role: Role::PreCandidate, pre_votes_received: set![z.id], election_elapsed: 0, ..z };
            lemma_start_real_election_candidacy(n);
            assert(set![s.id].len() == 1) by {
                assert(set![s.id] =~= Set::<u64>::empty().insert(s.id));
            }
        }
    }
}

} // verus!
