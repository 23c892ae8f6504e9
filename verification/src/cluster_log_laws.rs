use vstd::prelude::*;
use crate::cluster::{
    apply, enabled, event_server, initial, inv, is_campaigning, lemma_apply_inv, lemma_initial_inv,
    lemma_inv_election_safe, log_entries, record, run, runs, transition, election_safe, Cluster, Event,
};
use crate::election_laws::{lemma_step_candidacy, lemma_tick_candidacy};
use crate::node_laws::{lemma_local_events_keep_log_contiguous, lemma_step_keeps_log_contiguous, lemma_step_term_never_decreases};
use crate::log::{contiguous, entry_at_of, last_index_of, term_at_of};
use crate::log_matching_laws::{
    append_ok, appends_from, lemma_compact_sourced, lemma_no_appends, lemma_propose_appends,
    lemma_propose_sourced, lemma_sourced_same, lemma_step_appends, lemma_step_sourced, lemma_tick_appends,
    lemma_tick_sourced, no_appends, received, sourced, uncompacted,
};
use crate::message::{EntryView, MessageView};
use crate::node_model::Transition;
use crate::node::{ActionView, Role};

verus! {

/// The invariant behind Log Matching.
pub open spec fn log_inv(c: Cluster) -> bool {
    &&& forall|id: u64| #[trigger] c.nodes.contains_key(id) ==> contiguous(c.nodes[id].log)
    &&& forall|id: u64|
        #[trigger] c.nodes.contains_key(id) ==> log_entries(c.nodes[id].log).submap_of(c.entries)
    &&& forall|msg: MessageView, j: int|
        #[trigger] c.sent.contains(msg) && 0 <= j < received(msg).len() ==> c.entries.contains_key(
            (#[trigger] received(msg)[j].term, received(msg)[j].index),
        ) && c.entries[(received(msg)[j].term, received(msg)[j].index)] == received(msg)[j].command
    &&& forall|t: u64, i: u64, id: u64|
        #[trigger] c.entries.contains_key((t, i)) && #[trigger] c.nodes.contains_key(id)
            && c.nodes[id].role == Role::Leader && c.nodes[id].current_term == t ==> i <= last_index_of(
            c.nodes[id].log,
        )
    &&& forall|t: u64, i: u64|
        #[trigger] c.entries.contains_key((t, i)) ==> exists|k: u64| #[trigger] c.leaders.contains((t, k))
    &&& forall|t: u64, k: u64|
        #[trigger] c.leaders.contains((t, k)) ==> c.nodes.contains_key(k) && (c.nodes[k].current_term > t
            || (c.nodes[k].current_term == t && c.nodes[k].role != Role::Candidate))
}

/// Log Matching, as the simulation checks it: two servers whose logs hold an
/// index past their sentinels with the same term hold the same entry there.
pub open spec fn logs_agree(c: Cluster) -> bool {
    forall|a: u64, b: u64, i: u64|
        c.nodes.contains_key(a) && c.nodes.contains_key(b) && #[trigger] uncompacted(
            c.nodes[a].log,
            i,
        ) && #[trigger] uncompacted(c.nodes[b].log, i) && term_at_of(c.nodes[a].log, i) == term_at_of(
            c.nodes[b].log,
            i,
        ) ==> entry_at_of(c.nodes[a].log, i) == entry_at_of(c.nodes[b].log, i)
}

pub proof fn lemma_submap_at(m1: Map<(u64, u64), Seq<u8>>, m2: Map<(u64, u64), Seq<u8>>, k: (u64, u64))
    requires
        m1.submap_of(m2),
        m1.contains_key(k),
    ensures
        m2.contains_key(k),
        m2[k] == m1[k],
{
    assert(m1.dom().contains(k) && m2.dom().contains(k) ==> m1[k] == m2[k]);
}

/// The invariant gives Log Matching.
pub proof fn lemma_log_inv_agree(c: Cluster)
    requires
        log_inv(c),
    ensures
        logs_agree(c),
{
    assert forall|a: u64, b: u64, i: u64|
        c.nodes.contains_key(a) && c.nodes.contains_key(b) && #[trigger] uncompacted(
            c.nodes[a].log,
            i,
        ) && #[trigger] uncompacted(c.nodes[b].log, i) && term_at_of(c.nodes[a].log, i) == term_at_of(
            c.nodes[b].log,
            i,
        ) implies entry_at_of(c.nodes[a].log, i) == entry_at_of(c.nodes[b].log, i) by {
        let la = c.nodes[a].log;
        let lb = c.nodes[b].log;
        crate::log::lemma_contiguous_positions(la);
        crate::log::lemma_contiguous_positions(lb);
        let t = term_at_of(la, i)->0;
        assert(log_entries(la).submap_of(c.entries));
        assert(log_entries(lb).submap_of(c.entries));
        assert(log_entries(la).contains_key((t, i)));
        assert(log_entries(lb).contains_key((t, i)));
        lemma_submap_at(log_entries(la), c.entries, (t, i));
        lemma_submap_at(log_entries(lb), c.entries, (t, i));
    }
}

/// What a transition of server `id` must satisfy for the log invariant to survive it.
pub open spec fn log_step_fits(c: Cluster, id: u64, t: Transition, es: Seq<EntryView>) -> bool {
    let n = c.nodes[id];
    &&& contiguous(t.node.log)
    &&& sourced(n, t.node, es)
    &&& forall|j: int|
        0 <= j < es.len() ==> c.entries.contains_key(((#[trigger] es[j]).term, es[j].index))
            && c.entries[(es[j].term, es[j].index)] == es[j].command
    &&& appends_from(t.node.log, t.actions)
    &&& t.node.current_term >= n.current_term
    &&& n.role == Role::Leader && t.node.role == Role::Leader ==> last_index_of(t.node.log)
        >= last_index_of(n.log) && t.node.current_term == n.current_term
    &&& t.node.role == Role::Leader && n.role != Role::Leader ==> (t.node.current_term == n.current_term
        + 1 || (t.node.current_term == n.current_term && n.role == Role::Candidate))
    &&& t.node.role == Role::Candidate && t.node.current_term == n.current_term ==> n.role
        == Role::Candidate
}

pub proof fn lemma_record_log_inv(c: Cluster, id: u64, t: Transition, es: Seq<EntryView>)
    requires
        log_inv(c),
        c.nodes.contains_key(id),
        log_step_fits(c, id, t, es),
        inv(record(c, id, t)),
        election_safe(record(c, id, t)),
    ensures
        log_inv(record(c, id, t)),
{
    let c2 = record(c, id, t);
    let n = c.nodes[id];
    let n2 = t.node;
    let l2 = log_entries(n2.log);
    crate::log::lemma_contiguous_positions(n2.log);
    crate::log::lemma_contiguous_positions(n.log);
    assert(c2.nodes.dom() =~= c.nodes.dom());
    // every key of the new log is either recorded with the same command, or new
    // and appended by this server as leader of its current term
    assert forall|k: (u64, u64)| #[trigger] l2.contains_key(k) implies (c.entries.contains_key(k)
        && c.entries[k] == l2[k]) || (!c.entries.contains_key(k) && n2.role == Role::Leader && k.0
        == n2.current_term && k.1 > last_index_of(n.log)) by {
        let i = k.1;
        let e = entry_at_of(n2.log, i)->0;
        assert(uncompacted(n2.log, i));
        assert(e.index == i && e.term == k.0);
        if uncompacted(n.log, i) && entry_at_of(n2.log, i) == entry_at_of(n.log, i) {
            assert(log_entries(n.log).contains_key(k));
            assert(log_entries(n.log).submap_of(c.entries));
            lemma_submap_at(log_entries(n.log), c.entries, k);
        } else if exists|j: int| 0 <= j < es.len() && entry_at_of(n2.log, i) == Some(es[j]) {
            let j = choose|j: int| 0 <= j < es.len() && entry_at_of(n2.log, i) == Some(es[j]);
            assert(es[j] == e);
        } else {
            assert(n2.role == Role::Leader && i > last_index_of(n.log) && k.0 == n2.current_term);
            if c.entries.contains_key(k) {
                let kk = choose|kk: u64| #[trigger] c.leaders.contains((k.0, kk));
                assert(c2.leaders.contains((k.0, kk)));
                assert(c2.leaders.contains((k.0, id)));
                assert(kk == id);
                if n.role == Role::Leader {
                    assert(i <= last_index_of(n.log));
                }
            }
        }
    }
    assert(c.entries.submap_of(c2.entries)) by {
        assert forall|k: (u64, u64)| #[trigger] c.entries.dom().contains(k) implies #[trigger] c2.entries.dom().contains(
            k,
        ) && c.entries[k] == c2.entries[k] by {
            if l2.contains_key(k) {
                assert(c.entries.contains_key(k) && c.entries[k] == l2[k]);
            }
        }
    }
    assert(c.leaders.subset_of(c2.leaders));
    // logs
    assert forall|j: u64| #[trigger] c2.nodes.contains_key(j) implies log_entries(c2.nodes[j].log).submap_of(
        c2.entries,
    ) by {
        if j != id {
            assert(log_entries(c.nodes[j].log).submap_of(c.entries));
            assert forall|k: (u64, u64)| #[trigger] log_entries(c2.nodes[j].log).dom().contains(k) implies #[trigger] c2.entries.dom().contains(
                k,
            ) && log_entries(c2.nodes[j].log)[k] == c2.entries[k] by {
                lemma_submap_at(log_entries(c.nodes[j].log), c.entries, k);
                lemma_submap_at(c.entries, c2.entries, k);
            }
        }
    }
    // messages
    assert forall|msg: MessageView, j: int| #[trigger] c2.sent.contains(msg) && 0 <= j < received(msg).len() implies c2.entries.contains_key(
        (#[trigger] received(msg)[j].term, received(msg)[j].index),
    ) && c2.entries[(received(msg)[j].term, received(msg)[j].index)] == received(msg)[j].command by {
        let e = received(msg)[j];
        let k = (e.term, e.index);
        if c.sent.contains(msg) {
            lemma_submap_at(c.entries, c2.entries, k);
        } else {
            let a = choose|a: int| 0 <= a < t.actions.len() && t.actions[a] == ActionView::Send(msg);
            assert(t.actions[a] matches ActionView::Send(x) ==> append_ok(n2.log, x.kind));
            assert(msg.kind is AppendEntries);
            assert(uncompacted(n2.log, e.index) && entry_at_of(n2.log, e.index) == Some(e));
            assert(l2.contains_key(k));
        }
    }
    // leaders' logs reach every recorded index of their term
    assert forall|tt: u64, i: u64, k: u64|
        #[trigger] c2.entries.contains_key((tt, i)) && #[trigger] c2.nodes.contains_key(k)
            && c2.nodes[k].role == Role::Leader && c2.nodes[k].current_term == tt implies i <= last_index_of(
        c2.nodes[k].log,
    ) by {
        let key = (tt, i);
        if k != id {
            if !c.entries.contains_key(key) {
                assert(l2.contains_key(key));
                assert(c2.leaders.contains((tt, id)));
                assert(c2.leaders.contains((tt, k)));
            }
        } else if !c.entries.contains_key(key) {
            assert(l2.contains_key(key));
        } else if n.role != Role::Leader {
            let kk = choose|kk: u64| #[trigger] c.leaders.contains((tt, kk));
            assert(c2.leaders.contains((tt, kk)));
            assert(c2.leaders.contains((tt, id)));
        }
    }
    assert forall|tt: u64, i: u64| #[trigger] c2.entries.contains_key((tt, i)) implies exists|k: u64| #[trigger] c2.leaders.contains(
        (tt, k),
    ) by {
        if c.entries.contains_key((tt, i)) {
            let kk = choose|kk: u64| #[trigger] c.leaders.contains((tt, kk));
            assert(c2.leaders.contains((tt, kk)));
        } else {
            assert(l2.contains_key((tt, i)));
            assert(c2.leaders.contains((tt, id)));
        }
    }
    assert forall|tt: u64, k: u64| #[trigger] c2.leaders.contains((tt, k)) implies c2.nodes.contains_key(k) && (
    c2.nodes[k].current_term > tt || (c2.nodes[k].current_term == tt && c2.nodes[k].role
        != Role::Candidate)) by {
        if c.leaders.contains((tt, k)) {
            if k == id {
            }
        }
    }
}

/// The entries an event hands its server: those of a delivered append request.
pub open spec fn event_received(e: Event) -> Seq<EntryView> {
    match e {
        Event::Deliver { msg, .. } => received(msg),
        _ => Seq::empty(),
    }
}

/// Every event that can happen fits the log invariant.
pub proof fn lemma_event_log_fits(c: Cluster, e: Event)
    requires
        inv(c),
        log_inv(c),
        enabled(c, e),
    ensures
        log_step_fits(c, event_server(e), transition(c, e), event_received(e)),
{
    let id = event_server(e);
    let n = c.nodes[id];
    let t = transition(c, e);
    assert(is_campaigning(n) ==> n.voted_for == Some(n.id));
    assert(contiguous(n.log));
    match e {
        Event::Deliver { id, msg } => {
            lemma_step_keeps_log_contiguous(n, msg);
            lemma_step_sourced(n, msg);
            lemma_step_appends(n, msg);
            lemma_step_term_never_decreases(n, msg);
            lemma_step_candidacy(n, msg);
            let es = received(msg);
            assert forall|j: int| 0 <= j < es.len() implies c.entries.contains_key(
                ((#[trigger] es[j]).term, es[j].index),
            ) && c.entries[(es[j].term, es[j].index)] == es[j].command by {
                assert(msg.kind is AppendEntries);
                assert(c.sent.contains(msg));
            }
        },
        Event::Tick { id, timeout } => {
            lemma_local_events_keep_log_contiguous(n, timeout, Seq::empty(), 0, 0, Seq::empty());
            lemma_tick_sourced(n, timeout);
            lemma_tick_appends(n, timeout);
            lemma_tick_candidacy(n, timeout);
        },
        Event::Propose { id, command } => {
            lemma_propose_sourced(n, command);
            lemma_propose_appends(n, command);
        },
        Event::Compact { id, index, term, data } => {
            lemma_local_events_keep_log_contiguous(n, 0, Seq::empty(), index, term, data);
            lemma_compact_sourced(n, index, term, data);
            assert(no_appends(t.actions));
            lemma_no_appends(t.node.log, t.actions);
        },
        Event::Restart { id } => {
            lemma_sourced_same(n, t.node, Seq::empty());
            lemma_no_appends(t.node.log, t.actions);
        },
    }
}

/// Every event that can happen keeps both invariants.
pub proof fn lemma_apply_log_inv(c: Cluster, e: Event)
    requires
        inv(c),
        log_inv(c),
        enabled(c, e),
    ensures
        inv(apply(c, e)),
        log_inv(apply(c, e)),
{
    lemma_apply_inv(c, e);
    lemma_inv_election_safe(apply(c, e));
    lemma_event_log_fits(c, e);
    lemma_record_log_inv(c, event_server(e), transition(c, e), event_received(e));
}

/// A fresh cluster whose servers' logs hold only their sentinels.
pub open spec fn fresh(c: Cluster) -> bool {
    &&& initial(c)
    &&& c.entries == Map::<(u64, u64), Seq<u8>>::empty()
    &&& c.prev_terms == Map::<(u64, u64), u64>::empty()
    &&& forall|id: u64| #[trigger] c.nodes.contains_key(id) ==> c.nodes[id].log.len() == 1
}

/// Log Matching (Raft §5.3), as the simulation checks it: in every cluster
/// that starts with empty logs, whatever happens — messages lost, duplicated,
/// reordered or delayed, servers crashing and restarting, logs compacted —
/// two servers that hold an entry of the same term at the same index, past
/// their snapshots, hold the same entry.
pub proof fn lemma_log_matching(c: Cluster, es: Seq<Event>)
    requires
        fresh(c),
        runs(c, es),
    ensures
        logs_agree(run(c, es)),
        log_inv(run(c, es)),
        inv(run(c, es)),
    decreases es.len(),
{
    if es.len() == 0 {
        lemma_initial_inv(c);
        assert forall|id: u64| #[trigger] c.nodes.contains_key(id) implies log_entries(c.nodes[id].log).submap_of(
            c.entries,
        ) by {
            assert(log_entries(c.nodes[id].log) =~= Map::<(u64, u64), Seq<u8>>::empty());
        }
    } else {
        let prev = es.drop_last();
        assert forall|i: int| 0 <= i < prev.len() implies enabled(#[trigger] run(c, prev.take(i)), prev[i]) by {
            assert(prev.take(i) =~= es.take(i));
            assert(enabled(run(c, es.take(i)), es[i]));
        }
        lemma_log_matching(c, prev);
        assert(es.take(es.len() - 1) =~= prev);
        assert(enabled(run(c, es.take(es.len() - 1)), es[es.len() - 1]));
        lemma_apply_log_inv(run(c, prev), es.last());
    }
    lemma_log_inv_agree(run(c, es));
}

} // verus!
