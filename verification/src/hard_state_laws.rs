use vstd::prelude::*;
use crate::message::{EntryView, KindView, MessageView};
use crate::log::{last_index_of, term_at_of};
use crate::node::{ActionView, Role};
use crate::node_model as model;
use crate::node_model::{step, NodeView, Transition};

verus! {

/// The term and vote of the last hard-state write among `acts`, if any.
pub open spec fn last_hard_state(acts: Seq<ActionView>) -> Option<(u64, Option<u64>)>
    decreases acts.len(),
{
    if acts.len() == 0 {
        None
    } else {
        match acts.last() {
            ActionView::PersistHardState { term, voted_for } => Some((term, voted_for)),
            _ => last_hard_state(acts.drop_last()),
        }
    }
}

/// A transition from a state with term and vote `(term, vote)` either keeps
/// them and writes no hard state, or ends its hard-state writes with the new ones.
pub open spec fn persists_hard_state(term: u64, vote: Option<u64>, t: Transition) -> bool {
    ||| (last_hard_state(t.actions) is None && t.node.current_term == term && t.node.voted_for == vote)
    ||| last_hard_state(t.actions) == Some((t.node.current_term, t.node.voted_for))
}

/// Actions none of which writes the hard state.
pub open spec fn no_hard_state(acts: Seq<ActionView>) -> bool {
    forall|i: int| 0 <= i < acts.len() ==> !((#[trigger] acts[i]) is PersistHardState)
}

/// A transition that keeps the term and vote and writes no hard state.
pub open spec fn quiet(s: NodeView, t: Transition) -> bool {
    &&& t.node.current_term == s.current_term
    &&& t.node.voted_for == s.voted_for
    &&& no_hard_state(t.actions)
}

pub proof fn lemma_last_hard_state_concat(a: Seq<ActionView>, b: Seq<ActionView>)
    ensures
        last_hard_state(a + b) == if last_hard_state(b) is Some {
            last_hard_state(b)
        } else {
            last_hard_state(a)
        },
    decreases b.len(),
{
    if b.len() == 0 {
        assert(a + b =~= a);
    } else {
        assert((a + b).drop_last() =~= a + b.drop_last());
        assert((a + b).last() == b.last());
        lemma_last_hard_state_concat(a, b.drop_last());
    }
}

pub proof fn lemma_no_hard_state(acts: Seq<ActionView>)
    requires
        no_hard_state(acts),
    ensures
        last_hard_state(acts) is None,
    decreases acts.len(),
{
    if acts.len() > 0 {
        assert(acts.last() == acts[acts.len() - 1]);
        lemma_no_hard_state(acts.drop_last());
    }
}

pub proof fn lemma_quiet_persists(s: NodeView, t: Transition)
    requires
        quiet(s, t),
    ensures
        persists_hard_state(s.current_term, s.voted_for, t),
{
    lemma_no_hard_state(t.actions);
}

pub proof fn lemma_no_hard_state_concat(a: Seq<ActionView>, b: Seq<ActionView>)
    requires
        no_hard_state(a),
        no_hard_state(b),
    ensures
        no_hard_state(a + b),
{
    assert forall|i: int| 0 <= i < (a + b).len() implies !((#[trigger] (a + b)[i]) is PersistHardState) by {
        if i >= a.len() {
            assert((a + b)[i] == b[i - a.len()]);
        }
    }
}

pub proof fn lemma_chain_quiet(s: NodeView, t1: Transition, t2: Transition)
    requires
        quiet(s, t1),
        quiet(t1.node, t2),
    ensures
        quiet(s, model::chain(t1, t2)),
{
    lemma_no_hard_state_concat(t1.actions, t2.actions);
}

pub proof fn lemma_chain_act_quiet(s: NodeView, t: Transition, a: ActionView)
    requires
        quiet(s, t),
        !(a is PersistHardState),
    ensures
        quiet(s, model::chain_act(t, a)),
{
    assert(no_hard_state(t.actions.push(a)));
}

pub proof fn lemma_chain_persists(term: u64, vote: Option<u64>, t1: Transition, t2: Transition)
    requires
        persists_hard_state(term, vote, t1),
        persists_hard_state(t1.node.current_term, t1.node.voted_for, t2),
    ensures
        persists_hard_state(term, vote, model::chain(t1, t2)),
{
    lemma_last_hard_state_concat(t1.actions, t2.actions);
}

pub proof fn lemma_chain_act_persists(term: u64, vote: Option<u64>, t: Transition, a: ActionView)
    requires
        persists_hard_state(term, vote, t),
        !(a is PersistHardState),
    ensures
        persists_hard_state(term, vote, model::chain_act(t, a)),
{
    assert(t.actions.push(a).drop_last() =~= t.actions);
}

pub proof fn lemma_persists_then_quiet(term: u64, vote: Option<u64>, t1: Transition, t2: Transition)
    requires
        persists_hard_state(term, vote, t1),
        quiet(t1.node, t2),
    ensures
        persists_hard_state(term, vote, model::chain(t1, t2)),
{
    lemma_quiet_persists(t1.node, t2);
    lemma_chain_persists(term, vote, t1, t2);
}

} // verus!

verus! {

pub proof fn lemma_broadcast_quiet(s: NodeView)
    ensures
        no_hard_state(model::broadcast(s)),
{
}

pub proof fn lemma_become_leader_quiet(s: NodeView)
    ensures
        quiet(s, model::become_leader(s)),
{
    let last = last_index_of(s.log);
    let noop = EntryView { index: (last + 1) as u64, term: s.current_term, command: Seq::empty() };
    let t = model::become_leader(s);
    lemma_broadcast_quiet(t.node);
    lemma_no_hard_state_concat(seq![ActionView::AppendEntries { entries: seq![noop] }], model::broadcast(t.node));
}

pub proof fn lemma_propose_quiet(s: NodeView, command: Seq<u8>)
    ensures
        quiet(s, model::propose(s, command)),
{
    if s.role == Role::Leader {
        let e = EntryView { index: (last_index_of(s.log) + 1) as u64, term: s.current_term, command };
        let n = NodeView { log: s.log.push(e), ..s };
        lemma_broadcast_quiet(n);
        lemma_no_hard_state_concat(seq![ActionView::AppendEntries { entries: seq![e] }], model::broadcast(n));
        if s.peers.len() == 0 {
            let appended = Transition {
                node: n,
                actions: seq![ActionView::AppendEntries { entries: seq![e] }] + model::broadcast(n),
                redraw: false,
            };
            lemma_chain_quiet(s, appended, model::maybe_advance_commit(n));
        }
    }
}

pub proof fn lemma_become_follower_persists(s: NodeView, term: u64, leader: Option<u64>)
    requires
        term >= s.current_term,
    ensures
        persists_hard_state(s.current_term, s.voted_for, model::become_follower(s, term, leader)),
{
    let t = model::become_follower(s, term, leader);
    if term > s.current_term {
        assert(t.actions.drop_last() =~= Seq::<ActionView>::empty());
    }
}

/// Starting an election writes the new term and the vote for itself, and what
/// follows in the same transition writes no other hard state.
pub proof fn lemma_start_real_election_persists(s: NodeView)
    ensures
        persists_hard_state(s.current_term, s.voted_for, model::start_real_election(s)),
{
    let t = (s.current_term + 1) as u64;
    let n = NodeView {
        current_term: t,
        role: Role::Candidate,
        voted_for: Some(s.id),
        votes_received: set![s.id],
        election_elapsed: 0,
        ..s
    };
    let asks = s.peers.map_values(
        |p: u64|
            model::send(
                n,
                p,
                KindView::RequestVote {
                    last_log_index: last_index_of(s.log),
                    last_log_term: crate::log::last_term_of(s.log),
                },
            ),
    );
    let head = seq![ActionView::PersistHardState { term: t, voted_for: Some(s.id) }];
    assert(no_hard_state(asks));
    lemma_no_hard_state(asks);
    lemma_last_hard_state_concat(head, asks);
    assert(head.drop_last() =~= Seq::<ActionView>::empty());
    let started = Transition { node: n, actions: head + asks, redraw: true };
    assert(persists_hard_state(s.current_term, s.voted_for, started));
    if s.peers.len() == 0 {
        lemma_become_leader_quiet(n);
        lemma_persists_then_quiet(s.current_term, s.voted_for, started, model::become_leader(n));
    }
}

pub proof fn lemma_start_pre_vote_persists(s: NodeView)
    ensures
        persists_hard_state(s.current_term, s.voted_for, model::start_pre_vote(s)),
{
    let n = NodeView {
        role: Role::PreCandidate,
        pre_votes_received: set![s.id],
        election_elapsed: 0,
        ..s
    };
    let asks = s.peers.map_values(
        |p: u64|
            ActionView::Send(
                MessageView {
                    from: s.id,
                    to: p,
                    term: (s.current_term + 1) as u64,
                    kind: KindView::PreVote {
                        last_log_index: last_index_of(s.log),
                        last_log_term: crate::log::last_term_of(s.log),
                    },
                },
            ),
    );
    assert(no_hard_state(asks));
    let started = Transition { node: n, actions: asks, redraw: true };
    lemma_quiet_persists(s, started);
    if s.peers.len() == 0 {
        lemma_start_real_election_persists(n);
        lemma_chain_persists(s.current_term, s.voted_for, started, model::start_real_election(n));
    }
}

/// Durability on the clock: a tick either keeps the term and vote and writes
/// no hard state, or its last hard-state write carries the term and vote the
/// server ends with.
pub proof fn lemma_tick_persists_hard_state(s: NodeView, timeout: u64)
    ensures
        persists_hard_state(s.current_term, s.voted_for, model::tick(s, timeout)),
{
    if s.role == Role::Leader {
        let n = NodeView { heartbeat_elapsed: 0, ..s };
        lemma_broadcast_quiet(n);
        lemma_quiet_persists(s, model::tick(s, timeout));
    } else if (s.election_elapsed + 1) as u64 >= timeout {
        lemma_start_pre_vote_persists(NodeView { election_elapsed: 0, ..s });
    }
}

} // verus!

verus! {

pub proof fn lemma_append_entries_persists(
    s: NodeView,
    from: u64,
    term: u64,
    prev: u64,
    prev_term: u64,
    es: Seq<EntryView>,
    leader_commit: u64,
)
    ensures
        persists_hard_state(
            s.current_term,
            s.voted_for,
            model::handle_append_entries(s, from, term, prev, prev_term, es, leader_commit),
        ),
{
    if term >= s.current_term {
        let f = model::become_follower(s, term, Some(from));
        let s1 = f.node;
        lemma_become_follower_persists(s, term, Some(from));
        match term_at_of(s1.log, prev) {
            Some(t) => {
                if t == prev_term {
                    let mg = model::merge_entries(s1, es);
                    assert(quiet(s1, mg));
                    lemma_persists_then_quiet(s.current_term, s.voted_for, f, mg);
                    let m = model::chain(f, mg);
                    let fc = model::follow_commit(m.node, leader_commit);
                    assert(quiet(m.node, fc));
                    lemma_persists_then_quiet(s.current_term, s.voted_for, m, fc);
                    let c = model::chain(m, fc);
                    lemma_chain_act_persists(
                        s.current_term,
                        s.voted_for,
                        c,
                        model::send(
                            c.node,
                            from,
                            KindView::AppendEntriesResponse {
                                success: true,
                                conflict_term: None,
                                conflict_index: None,
                            },
                        ),
                    );
                } else {
                    lemma_chain_act_persists(
                        s.current_term,
                        s.voted_for,
                        f,
                        model::send(
                            s1,
                            from,
                            KindView::AppendEntriesResponse {
                                success: false,
                                conflict_term: Some(t),
                                conflict_index: Some(model::run_start(s1.log, prev, t)),
                            },
                        ),
                    );
                }
            },
            None => {
                lemma_chain_act_persists(
                    s.current_term,
                    s.voted_for,
                    f,
                    model::send(
                        s1,
                        from,
                        KindView::AppendEntriesResponse {
                            success: false,
                            conflict_term: None,
                            conflict_index: Some((last_index_of(s1.log) + 1) as u64),
                        },
                    ),
                );
            },
        }
    } else {
        lemma_no_hard_state(model::handle_append_entries(s, from, term, prev, prev_term, es, leader_commit).actions);
    }
}

pub proof fn lemma_install_snapshot_persists(
    s: NodeView,
    from: u64,
    term: u64,
    li: u64,
    lt: u64,
    data: Seq<u8>,
    done: bool,
)
    ensures
        persists_hard_state(
            s.current_term,
            s.voted_for,
            model::handle_install_snapshot(s, from, term, li, lt, data, done),
        ),
{
    if term >= s.current_term {
        let f = model::become_follower(s, term, Some(from));
        let s1 = f.node;
        lemma_become_follower_persists(s, term, Some(from));
        if li > s1.commit_index && done {
            let s2 = NodeView {
                log: seq![crate::log::sentinel_view(li, lt)],
                commit_index: li,
                last_applied: li,
                ..s1
            };
            let snap = ActionView::PersistSnapshot { last_included_index: li, last_included_term: lt, data };
            let t = Transition { node: s2, actions: f.actions.push(snap), redraw: true };
            assert(t.actions.drop_last() =~= f.actions);
            assert(persists_hard_state(s.current_term, s.voted_for, t));
            lemma_chain_act_persists(
                s.current_term,
                s.voted_for,
                t,
                model::send(s2, from, KindView::InstallSnapshotResponse),
            );
        } else {
            lemma_chain_act_persists(
                s.current_term,
                s.voted_for,
                f,
                model::send(s1, from, KindView::InstallSnapshotResponse),
            );
        }
    } else {
        lemma_no_hard_state(model::handle_install_snapshot(s, from, term, li, lt, data, done).actions);
    }
}

pub proof fn lemma_dispatch_persists(s: NodeView, m: MessageView)
    ensures
        persists_hard_state(s.current_term, s.voted_for, model::dispatch(s, m)),
{
    match m.kind {
        KindView::ClientRequest { command } => {
            if s.role == Role::Leader {
                lemma_propose_quiet(s, command);
                let p = model::propose(s, command);
                let a = model::send(p.node, m.from, KindView::ClientResponse { success: true, leader_hint: Some(s.id) });
                lemma_chain_act_quiet(s, p, a);
                lemma_quiet_persists(s, model::chain_act(p, a));
            } else {
                let a = model::send(s, m.from, KindView::ClientResponse { success: false, leader_hint: s.leader_id });
                lemma_chain_act_quiet(s, model::unchanged(s), a);
                lemma_quiet_persists(s, model::chain_act(model::unchanged(s), a));
            }
        },
        KindView::PreVoteResponse { vote_granted } => {
            if s.role == Role::PreCandidate && m.term == s.current_term && vote_granted {
                let n = NodeView { pre_votes_received: s.pre_votes_received.insert(m.from), ..s };
                lemma_start_real_election_persists(n);
            }
        },
        KindView::RequestVote { last_log_index, last_log_term } => {
            let t = model::dispatch(s, m);
            if t.actions.len() == 2 {
                let head = seq![t.actions[0]];
                assert(t.actions.drop_last() =~= head);
                assert(head.drop_last() =~= Seq::<ActionView>::empty());
                assert(last_hard_state(head) == Some((s.current_term, Some(m.from))));
                assert(last_hard_state(t.actions) == last_hard_state(head));
            } else {
                lemma_no_hard_state(t.actions);
            }
        },
        KindView::RequestVoteResponse { vote_granted } => {
            if s.role == Role::Candidate && m.term == s.current_term && vote_granted {
                let n = NodeView { votes_received: s.votes_received.insert(m.from), ..s };
                lemma_become_leader_quiet(n);
                lemma_quiet_persists(s, model::dispatch(s, m));
            }
        },
        KindView::AppendEntries { prev_log_index, prev_log_term, entries, leader_commit } => {
            lemma_append_entries_persists(s, m.from, m.term, prev_log_index, prev_log_term, entries, leader_commit);
        },
        KindView::AppendEntriesResponse { success, conflict_term, conflict_index } => {
            lemma_quiet_persists(s, model::dispatch(s, m));
        },
        KindView::InstallSnapshot { last_included_index, last_included_term, offset, data, done } => {
            lemma_install_snapshot_persists(s, m.from, m.term, last_included_index, last_included_term, data, done);
        },
        KindView::InstallSnapshotResponse => {
            lemma_quiet_persists(s, model::dispatch(s, m));
        },
        _ => {
            lemma_no_hard_state(model::dispatch(s, m).actions);
        },
    }
}

/// Durability of votes and terms: whenever handling a message changes the
/// server's term or vote, the transition asks the host to persist them, and
/// the last such request carries exactly the term and vote the server ends
/// with; when it asks for no such write, the term and vote are unchanged.
pub proof fn lemma_step_persists_hard_state(s: NodeView, m: MessageView)
    ensures
        persists_hard_state(s.current_term, s.voted_for, step(s, m)),
{
    let exempt = model::is_pre_vote_kind(m.kind) || model::is_client_kind(m.kind);
    let f = if m.term > s.current_term && !exempt {
        model::become_follower(s, m.term, None)
    } else {
        model::unchanged(s)
    };
    if m.term > s.current_term && !exempt {
        lemma_become_follower_persists(s, m.term, None);
    }
    if !(m.term < f.node.current_term && !exempt) {
        lemma_dispatch_persists(f.node, m);
        lemma_chain_persists(s.current_term, s.voted_for, f, model::dispatch(f.node, m));
    }
}

} // verus!
