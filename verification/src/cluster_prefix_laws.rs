use vstd::prelude::*;
use crate::cluster::{
    apply, enabled, event_server, inv, lemma_inv_election_safe, log_entries, log_prev_terms, record, run,
    runs, transition, election_safe, Cluster, Event,
};
use crate::cluster_log_laws::{
    event_received, fresh, lemma_apply_log_inv, lemma_event_log_fits, lemma_log_inv_agree, log_inv,
    log_step_fits, logs_agree,
};
use crate::log::{contiguous, entry_at_of, first_index_of, last_index_of, term_at_of};
use crate::log_matching_laws::{
    append_ok, linked, lemma_compact_linked, lemma_propose_linked, lemma_step_linked, lemma_tick_linked,
    received, received_prev_term, uncompacted,
};
use crate::message::{EntryView, MessageView};
use crate::node::{ActionView, Role};
use crate::node_model::Transition;

verus! {

/// Compactions record the true term of the index they compact at.
pub open spec fn compaction_exact(c: Cluster, e: Event) -> bool {
    e matches Event::Compact { id, index, term, .. } ==> (term_at_of(c.nodes[id].log, index) is Some
        ==> term_at_of(c.nodes[id].log, index) == Some(term))
}

/// Every event of `es` can happen in turn, and every compaction among them is exact.
pub open spec fn runs_exact(c: Cluster, es: Seq<Event>) -> bool {
    &&& runs(c, es)
    &&& forall|i: int| 0 <= i < es.len() ==> compaction_exact(#[trigger] run(c, es.take(i)), es[i])
}

/// The invariant behind the prefix part of Log Matching.
pub open spec fn prefix_inv(c: Cluster) -> bool {
    &&& c.prev_terms.dom() == c.entries.dom()
    &&& forall|id: u64|
        #[trigger] c.nodes.contains_key(id) ==> log_prev_terms(c.nodes[id].log).submap_of(c.prev_terms)
    &&& forall|msg: MessageView, j: int|
        #[trigger] c.sent.contains(msg) && 0 <= j < received(msg).len() ==> c.prev_terms.contains_key(
            (#[trigger] received(msg)[j].term, received(msg)[j].index),
        ) && c.prev_terms[(received(msg)[j].term, received(msg)[j].index)] == if j == 0 {
            received_prev_term(msg)
        } else {
            received(msg)[j - 1].term
        }
}

/// Log Matching (Raft §5.3): two servers whose logs hold an entry of the
/// same term at the same index hold the same entries at every index up to it
/// that both hold past their sentinels.
pub open spec fn logs_match_prefix(c: Cluster) -> bool {
    forall|a: u64, b: u64, i: u64, j: u64|
        #![trigger uncompacted(c.nodes[a].log, i), uncompacted(c.nodes[b].log, i), entry_at_of(c.nodes[a].log, j)]
        c.nodes.contains_key(a) && c.nodes.contains_key(b) && uncompacted(c.nodes[a].log, i)
            && uncompacted(c.nodes[b].log, i) && term_at_of(c.nodes[a].log, i) == term_at_of(
            c.nodes[b].log,
            i,
        ) && first_index_of(c.nodes[a].log) < j <= i && first_index_of(c.nodes[b].log) < j ==> entry_at_of(
            c.nodes[a].log,
            j,
        ) == entry_at_of(c.nodes[b].log, j)
}

pub proof fn lemma_prefix_down(c: Cluster, a: u64, b: u64, i: u64, j: u64)
    requires
        log_inv(c),
        prefix_inv(c),
        c.nodes.contains_key(a),
        c.nodes.contains_key(b),
        uncompacted(c.nodes[a].log, i),
        uncompacted(c.nodes[b].log, i),
        term_at_of(c.nodes[a].log, i) == term_at_of(c.nodes[b].log, i),
        first_index_of(c.nodes[a].log) < j <= i,
        first_index_of(c.nodes[b].log) < j,
    ensures
        entry_at_of(c.nodes[a].log, j) == entry_at_of(c.nodes[b].log, j),
    decreases i - j,
{
    lemma_log_inv_agree(c);
    let la = c.nodes[a].log;
    let lb = c.nodes[b].log;
    crate::log::lemma_contiguous_positions(la);
    crate::log::lemma_contiguous_positions(lb);
    if j < i {
        let t = term_at_of(la, i)->0;
        assert(log_prev_terms(la).contains_key((t, i)));
        assert(log_prev_terms(lb).contains_key((t, i)));
        assert(log_prev_terms(la).submap_of(c.prev_terms));
        assert(log_prev_terms(lb).submap_of(c.prev_terms));
        lemma_prev_terms_at(log_prev_terms(la), c.prev_terms, (t, i));
        lemma_prev_terms_at(log_prev_terms(lb), c.prev_terms, (t, i));
        assert(term_at_of(la, (i - 1) as u64) == term_at_of(lb, (i - 1) as u64));
        lemma_prefix_down(c, a, b, (i - 1) as u64, j);
    }
}

pub proof fn lemma_prev_terms_at(m1: Map<(u64, u64), u64>, m2: Map<(u64, u64), u64>, k: (u64, u64))
    requires
        m1.submap_of(m2),
        m1.contains_key(k),
    ensures
        m2.contains_key(k),
        m2[k] == m1[k],
{
    assert(m1.dom().contains(k) && m2.dom().contains(k) ==> m1[k] == m2[k]);
}

/// The invariants give the prefix part of Log Matching.
pub proof fn lemma_prefix_inv_match(c: Cluster)
    requires
        log_inv(c),
        prefix_inv(c),
    ensures
        logs_match_prefix(c),
{
    assert forall|a: u64, b: u64, i: u64, j: u64|
        #![trigger uncompacted(c.nodes[a].log, i), uncompacted(c.nodes[b].log, i), entry_at_of(c.nodes[a].log, j)]
        c.nodes.contains_key(a) && c.nodes.contains_key(b) && uncompacted(c.nodes[a].log, i)
            && uncompacted(c.nodes[b].log, i) && term_at_of(c.nodes[a].log, i) == term_at_of(
            c.nodes[b].log,
            i,
        ) && first_index_of(c.nodes[a].log) < j <= i && first_index_of(c.nodes[b].log) < j implies entry_at_of(
        c.nodes[a].log,
        j,
    ) == entry_at_of(c.nodes[b].log, j) by {
        lemma_prefix_down(c, a, b, i, j);
    }
}

pub proof fn lemma_record_prefix_inv(c: Cluster, id: u64, t: Transition, pt: u64, es: Seq<EntryView>)
    requires
        log_inv(c),
        prefix_inv(c),
        c.nodes.contains_key(id),
        log_step_fits(c, id, t, es),
        linked(c.nodes[id], t.node, pt, es),
        forall|j: int|
            0 <= j < es.len() ==> c.prev_terms.contains_key(((#[trigger] es[j]).term, es[j].index))
                && c.prev_terms[(es[j].term, es[j].index)] == if j == 0 {
                pt
            } else {
                es[j - 1].term
            },
        inv(record(c, id, t)),
        election_safe(record(c, id, t)),
    ensures
        prefix_inv(record(c, id, t)),
{
    let c2 = record(c, id, t);
    let n = c.nodes[id];
    let n2 = t.node;
    let p2 = log_prev_terms(n2.log);
    crate::log::lemma_contiguous_positions(n2.log);
    crate::log::lemma_contiguous_positions(n.log);
    assert(c2.nodes.dom() =~= c.nodes.dom());
    assert(p2.dom() =~= log_entries(n2.log).dom());
    assert forall|k: (u64, u64)| #[trigger] p2.contains_key(k) && c.prev_terms.contains_key(k) implies c.prev_terms[k]
        == p2[k] by {
        let i = k.1;
        assert(uncompacted(n2.log, i));
        if uncompacted(n.log, i) && entry_at_of(n2.log, i) == entry_at_of(n.log, i) && term_at_of(
            n2.log,
            (i - 1) as u64,
        ) == term_at_of(n.log, (i - 1) as u64) {
            assert(log_prev_terms(n.log).contains_key(k));
            assert(log_prev_terms(n.log).submap_of(c.prev_terms));
            lemma_prev_terms_at(log_prev_terms(n.log), c.prev_terms, k);
        } else if exists|j: int|
            0 <= j < es.len() && entry_at_of(n2.log, i) == Some(es[j]) && term_at_of(n2.log, (i - 1) as u64)
                == Some(
                if j == 0 {
                    pt
                } else {
                    es[j - 1].term
                },
            ) {
            let j = choose|j: int|
                0 <= j < es.len() && entry_at_of(n2.log, i) == Some(es[j]) && term_at_of(
                    n2.log,
                    (i - 1) as u64,
                ) == Some(
                    if j == 0 {
                        pt
                    } else {
                        es[j - 1].term
                    },
                );
            assert(es[j].index == i && es[j].term == k.0);
        } else {
            assert(n2.role == Role::Leader && i > last_index_of(n.log) && k.0 == n2.current_term);
            assert(c.entries.contains_key(k));
            let kk = choose|kk: u64| #[trigger] c.leaders.contains((k.0, kk));
            assert(c2.leaders.contains((k.0, kk)));
            assert(c2.leaders.contains((k.0, id)));
            assert(kk == id);
            if n.role == Role::Leader {
                assert(i <= last_index_of(n.log));
            }
        }
    }
    assert(c.prev_terms.submap_of(c2.prev_terms)) by {
        assert forall|k: (u64, u64)| #[trigger] c.prev_terms.dom().contains(k) implies #[trigger] c2.prev_terms.dom().contains(
            k,
        ) && c.prev_terms[k] == c2.prev_terms[k] by {
            if p2.contains_key(k) {
                assert(c.prev_terms[k] == p2[k]);
            }
        }
    }
    assert(c2.prev_terms.dom() =~= c2.entries.dom());
    assert forall|j: u64| #[trigger] c2.nodes.contains_key(j) implies log_prev_terms(c2.nodes[j].log).submap_of(
        c2.prev_terms,
    ) by {
        if j != id {
            assert(log_prev_terms(c.nodes[j].log).submap_of(c.prev_terms));
            assert forall|k: (u64, u64)| #[trigger] log_prev_terms(c2.nodes[j].log).dom().contains(k) implies #[trigger] c2.prev_terms.dom().contains(
                k,
            ) && log_prev_terms(c2.nodes[j].log)[k] == c2.prev_terms[k] by {
                lemma_prev_terms_at(log_prev_terms(c.nodes[j].log), c.prev_terms, k);
                lemma_prev_terms_at(c.prev_terms, c2.prev_terms, k);
            }
        }
    }
    assert forall|msg: MessageView, j: int| #[trigger] c2.sent.contains(msg) && 0 <= j < received(msg).len() implies c2.prev_terms.contains_key(
        (#[trigger] received(msg)[j].term, received(msg)[j].index),
    ) && c2.prev_terms[(received(msg)[j].term, received(msg)[j].index)] == if j == 0 {
        received_prev_term(msg)
    } else {
        received(msg)[j - 1].term
    } by {
        let e = received(msg)[j];
        let k = (e.term, e.index);
        if c.sent.contains(msg) {
            lemma_prev_terms_at(c.prev_terms, c2.prev_terms, k);
        } else {
            let a = choose|a: int| 0 <= a < t.actions.len() && t.actions[a] == ActionView::Send(msg);
            assert(t.actions[a] matches ActionView::Send(x) ==> append_ok(n2.log, x.kind));
            assert(msg.kind is AppendEntries);
            let es2 = received(msg);
            assert(uncompacted(n2.log, e.index) && entry_at_of(n2.log, e.index) == Some(e));
            assert(p2.contains_key(k));
            if j > 0 {
                assert(entry_at_of(n2.log, es2[j - 1].index) == Some(es2[j - 1]));
                assert(es2[j - 1].index == e.index - 1);
            }
        }
    }
}

/// The term an event gives for the entry before the first entry it hands its server.
pub open spec fn event_prev_term(e: Event) -> u64 {
    match e {
        Event::Deliver { msg, .. } => received_prev_term(msg),
        _ => 0,
    }
}

/// Every event that can happen, with exact compaction, keeps all three invariants.
pub proof fn lemma_apply_prefix_inv(c: Cluster, e: Event)
    requires
        inv(c),
        log_inv(c),
        prefix_inv(c),
        enabled(c, e),
        compaction_exact(c, e),
    ensures
        inv(apply(c, e)),
        log_inv(apply(c, e)),
        prefix_inv(apply(c, e)),
{
    let id = event_server(e);
    let n = c.nodes[id];
    let t = transition(c, e);
    lemma_apply_log_inv(c, e);
    lemma_inv_election_safe(apply(c, e));
    lemma_event_log_fits(c, e);
    assert(contiguous(n.log));
    match e {
        Event::Deliver { id, msg } => {
            lemma_step_linked(n, msg);
            let es = received(msg);
            assert forall|j: int| 0 <= j < es.len() implies c.prev_terms.contains_key(
                ((#[trigger] es[j]).term, es[j].index),
            ) && c.prev_terms[(es[j].term, es[j].index)] == if j == 0 {
                received_prev_term(msg)
            } else {
                es[j - 1].term
            } by {
                assert(msg.kind is AppendEntries);
                assert(c.sent.contains(msg));
            }
        },
        Event::Tick { id, timeout } => {
            lemma_tick_linked(n, timeout);
        },
        Event::Propose { id, command } => {
            lemma_propose_linked(n, command);
        },
        Event::Compact { id, index, term, data } => {
            lemma_compact_linked(n, index, term, data);
        },
        Event::Restart { id } => {
        },
    }
    lemma_record_prefix_inv(c, id, t, event_prev_term(e), event_received(e));
}

/// Log Matching (Raft §5.3) in full: in every cluster that starts with empty
/// logs, whatever happens — messages lost, duplicated, reordered or delayed,
/// servers crashing and restarting, logs compacted at their true terms — two
/// servers whose logs hold an entry of the same term at the same index hold
/// the same entries at every index up to it that both hold past their snapshots.
pub proof fn lemma_log_matching_prefix(c: Cluster, es: Seq<Event>)
    requires
        fresh(c),
        runs_exact(c, es),
    ensures
        logs_match_prefix(run(c, es)),
        logs_agree(run(c, es)),
        inv(run(c, es)),
        log_inv(run(c, es)),
        prefix_inv(run(c, es)),
    decreases es.len(),
{
    if es.len() == 0 {
        crate::cluster_log_laws::lemma_log_matching(c, es);
        assert forall|id: u64| #[trigger] c.nodes.contains_key(id) implies log_prev_terms(c.nodes[id].log).submap_of(
            c.prev_terms,
        ) by {
            assert(log_prev_terms(c.nodes[id].log) =~= Map::<(u64, u64), u64>::empty());
        }
    } else {
        let prev = es.drop_last();
        assert forall|i: int| 0 <= i < prev.len() implies enabled(#[trigger] run(c, prev.take(i)), prev[i])
            && compaction_exact(run(c, prev.take(i)), prev[i]) by {
            assert(prev.take(i) =~= es.take(i));
            assert(enabled(run(c, es.take(i)), es[i]));
            assert(compaction_exact(run(c, es.take(i)), es[i]));
        }
        lemma_log_matching_prefix(c, prev);
        assert(es.take(es.len() - 1) =~= prev);
        assert(enabled(run(c, es.take(es.len() - 1)), es[es.len() - 1]));
        assert(compaction_exact(run(c, es.take(es.len() - 1)), es[es.len() - 1]));
        lemma_apply_prefix_inv(run(c, prev), es.last());
    }
    lemma_log_inv_agree(run(c, es));
    lemma_prefix_inv_match(run(c, es));
}

} // verus!
