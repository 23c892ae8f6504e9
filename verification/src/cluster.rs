use vstd::prelude::*;
use vstd::set_lib::{lemma_len_subset, lemma_set_intersect_union_lens};
use crate::election_laws::{candidacy_follows, is_grant, lemma_plain_sends_ok, lemma_propose_plain, lemma_step_candidacy, lemma_step_sends_ok, lemma_tick_candidacy, lemma_tick_plain, plain_sends, sends_ok};
use crate::node_laws::{lemma_step_one_vote_per_term, lemma_step_term_never_decreases};
use crate::message::{EntryView, MessageView};
use crate::log::{entry_at_of, last_index_of, term_at_of};
use crate::log_matching_laws::uncompacted;
use crate::node::{ActionView, Role};
use crate::node_model as model;
use crate::node_model::{NodeView, Transition};

verus! {

/// A cluster of servers and the network between them, with history
/// variables: every vote any server has held, as `(voter, term, candidate)`;
/// every leadership any server has held, as `(term, leader)`; and, for every
/// log entry any server has held past its sentinel, by `(term, index)`, its
/// command and the term of the entry before it in that log.
pub struct Cluster {
    pub nodes: Map<u64, NodeView>,
    pub sent: Set<MessageView>,
    pub votes: Set<(u64, u64, u64)>,
    pub leaders: Set<(u64, u64)>,
    pub entries: Map<(u64, u64), Seq<u8>>,
    pub prev_terms: Map<(u64, u64), u64>,
}

/// What can happen in a cluster: a message sent earlier (or a client request)
/// reaches its server, possibly again and in any order; a server's clock
/// ticks; a leader is handed a command; a server compacts its log; a server
/// crashes and restarts from its persisted state.
pub enum Event {
    Deliver { id: u64, msg: MessageView },
    Tick { id: u64, timeout: u64 },
    Propose { id: u64, command: Seq<u8> },
    Compact { id: u64, index: u64, term: u64, data: Seq<u8> },
    Restart { id: u64 },
}

/// The messages sent by `acts`.
pub open spec fn sent_by(acts: Seq<ActionView>) -> Set<MessageView> {
    Set::new(|msg: MessageView| exists|i: int| 0 <= i < acts.len() && acts[i] == ActionView::Send(msg))
}

/// The entries a log holds past its sentinel: their commands by term and index.
pub open spec fn log_entries(log: Seq<EntryView>) -> Map<(u64, u64), Seq<u8>> {
    Map::new(
        |k: (u64, u64)| uncompacted(log, k.1) && term_at_of(log, k.1) == Some(k.0),
        |k: (u64, u64)| entry_at_of(log, k.1)->0.command,
    )
}

/// The entries a log holds past its sentinel: the terms of the entries before
/// them, by term and index.
pub open spec fn log_prev_terms(log: Seq<EntryView>) -> Map<(u64, u64), u64> {
    Map::new(
        |k: (u64, u64)| uncompacted(log, k.1) && term_at_of(log, k.1) == Some(k.0),
        |k: (u64, u64)| term_at_of(log, (k.1 - 1) as u64)->0,
    )
}

/// The cluster once server `id` has taken transition `t`: its new state, the
/// messages it sent, and its vote, leadership and log entries added to the history.
pub open spec fn record(c: Cluster, id: u64, t: Transition) -> Cluster {
    Cluster {
        nodes: c.nodes.insert(id, t.node),
        sent: c.sent + sent_by(t.actions),
        votes: match t.node.voted_for {
            Some(v) => c.votes.insert((id, t.node.current_term, v)),
            None => c.votes,
        },
        leaders: if t.node.role == Role::Leader {
            c.leaders.insert((t.node.current_term, id))
        } else {
            c.leaders
        },
        entries: c.entries.union_prefer_right(log_entries(t.node.log)),
        prev_terms: c.prev_terms.union_prefer_right(log_prev_terms(t.node.log)),
    }
}

/// A server after a crash and restart: the term, vote and log it persisted
/// survive; the volatile state of elections and replication starts afresh.
pub open spec fn restarted(n: NodeView) -> NodeView {
    NodeView {
        role: Role::Follower,
        leader_id: None,
        votes_received: Set::empty(),
        pre_votes_received: Set::empty(),
        next_index: Map::empty(),
        match_index: Map::empty(),
        election_elapsed: 0,
        heartbeat_elapsed: 0,
        ..n
    }
}

/// The transition server `id` takes on event `e`.
pub open spec fn transition(c: Cluster, e: Event) -> Transition {
    match e {
        Event::Deliver { id, msg } => model::step(c.nodes[id], msg),
        Event::Tick { id, timeout } => model::tick(c.nodes[id], timeout),
        Event::Propose { id, command } => model::propose(c.nodes[id], command),
        Event::Compact { id, index, term, data } => model::compact_logs(c.nodes[id], index, term, data),
        Event::Restart { id } => Transition {
            node: restarted(c.nodes[id]),
            actions: Seq::empty(),
            redraw: true,
        },
    }
}

/// The server an event happens at.
pub open spec fn event_server(e: Event) -> u64 {
    match e {
        Event::Deliver { id, .. } => id,
        Event::Tick { id, .. } => id,
        Event::Propose { id, .. } => id,
        Event::Compact { id, .. } => id,
        Event::Restart { id } => id,
    }
}

pub open spec fn apply(c: Cluster, e: Event) -> Cluster {
    record(c, event_server(e), transition(c, e))
}

/// Whether event `e` can happen: it is at a server of the cluster whose term
/// and last index leave room for one more, and a delivered message was sent to
/// that server earlier, or comes from a client, and is well formed.
pub open spec fn enabled(c: Cluster, e: Event) -> bool {
    &&& c.nodes.contains_key(event_server(e))
    &&& c.nodes[event_server(e)].current_term + 1 < u64::MAX
    &&& last_index_of(c.nodes[event_server(e)].log) + 1 < u64::MAX
    &&& e matches Event::Deliver { id, msg } ==> msg.to == id && (c.sent.contains(msg)
        || msg.kind is ClientRequest) && model::message_ok(msg)
}

/// The cluster after the events `es`, in order.
pub open spec fn run(c: Cluster, es: Seq<Event>) -> Cluster
    decreases es.len(),
{
    if es.len() == 0 {
        c
    } else {
        apply(run(c, es.drop_last()), es.last())
    }
}

/// Every event of `es` can happen in turn.
pub open spec fn runs(c: Cluster, es: Seq<Event>) -> bool {
    forall|i: int| 0 <= i < es.len() ==> enabled(#[trigger] run(c, es.take(i)), es[i])
}

/// Every server knows the whole cluster as its peers and itself, once each.
pub open spec fn membership_ok(c: Cluster) -> bool {
    &&& c.nodes.dom().finite()
    &&& forall|id: u64|
        #[trigger] c.nodes.contains_key(id) ==> {
            &&& c.nodes[id].id == id
            &&& c.nodes[id].peers.no_duplicates()
            &&& !c.nodes[id].peers.contains(id)
            &&& c.nodes[id].peers.to_set().insert(id) == c.nodes.dom()
        }
}

/// A fresh cluster: nothing sent, no server has voted or led, all are followers.
pub open spec fn initial(c: Cluster) -> bool {
    &&& membership_ok(c)
    &&& c.sent == Set::<MessageView>::empty()
    &&& c.votes == Set::<(u64, u64, u64)>::empty()
    &&& c.leaders == Set::<(u64, u64)>::empty()
    &&& forall|id: u64|
        #[trigger] c.nodes.contains_key(id) ==> c.nodes[id].voted_for is None && c.nodes[id].role
            == Role::Follower
}

/// Election Safety: at most one server has ever led any given term.
pub open spec fn election_safe(c: Cluster) -> bool {
    forall|t: u64, i: u64, k: u64|
        #[trigger] c.leaders.contains((t, i)) && #[trigger] c.leaders.contains((t, k)) ==> i == k
}

/// The servers that have voted for `i` in term `t`.
pub open spec fn voters(c: Cluster, t: u64, i: u64) -> Set<u64> {
    c.nodes.dom().filter(|v: u64| c.votes.contains((v, t, i)))
}

/// The number of votes that make a majority of the cluster.
pub open spec fn quorum(c: Cluster) -> int {
    (c.nodes.dom().len() / 2 + 1) as int
}

pub open spec fn is_campaigning(n: NodeView) -> bool {
    n.role == Role::Candidate || n.role == Role::Leader
}

/// The inductive invariant behind Election Safety.
pub open spec fn inv(c: Cluster) -> bool {
    &&& membership_ok(c)
    &&& forall|j: u64, t: u64, v: u64, w: u64|
        #[trigger] c.votes.contains((j, t, v)) && #[trigger] c.votes.contains((j, t, w)) ==> v == w
    &&& forall|j: u64, t: u64, v: u64|
        #[trigger] c.votes.contains((j, t, v)) ==> c.nodes.contains_key(j) && c.nodes[j].current_term
            >= t && (c.nodes[j].current_term == t ==> c.nodes[j].voted_for == Some(v))
    &&& forall|j: u64|
        #[trigger] c.nodes.contains_key(j) && c.nodes[j].voted_for is Some ==> c.votes.contains(
            (j, c.nodes[j].current_term, c.nodes[j].voted_for->0),
        )
    &&& forall|msg: MessageView|
        #[trigger] c.sent.contains(msg) ==> c.nodes.contains_key(msg.from) && (is_grant(msg.kind)
            ==> c.votes.contains((msg.from, msg.term, msg.to)))
    &&& forall|i: u64|
        #[trigger] c.nodes.contains_key(i) && is_campaigning(c.nodes[i]) ==> c.nodes[i].voted_for == Some(
            i,
        ) && forall|v: u64|
            #[trigger] c.nodes[i].votes_received.contains(v) ==> c.nodes.contains_key(v) && c.votes.contains(
                (v, c.nodes[i].current_term, i),
            )
    &&& forall|t: u64, i: u64| #[trigger] c.leaders.contains((t, i)) ==> voters(c, t, i).len() >= quorum(c)
    &&& forall|i: u64|
        #[trigger] c.nodes.contains_key(i) && c.nodes[i].role == Role::Leader ==> c.leaders.contains(
            (c.nodes[i].current_term, i),
        )
}

} // verus!

verus! {

/// Two majorities of a finite set share a member.
pub proof fn lemma_quorums_intersect(d: Set<u64>, a: Set<u64>, b: Set<u64>) -> (v: u64)
    requires
        d.finite(),
        a.subset_of(d),
        b.subset_of(d),
        a.len() >= d.len() / 2 + 1,
        b.len() >= d.len() / 2 + 1,
    ensures
        a.contains(v),
        b.contains(v),
{
    lemma_len_subset(a, d);
    lemma_len_subset(b, d);
    lemma_len_subset(a + b, d);
    lemma_set_intersect_union_lens(a, b);
    assert(a.intersect(b).len() > 0);
    if a.intersect(b) =~= Set::<u64>::empty() {
        assert(a.intersect(b).len() == 0);
    }
    let v = a.intersect(b).choose();
    v
}

/// The invariant gives Election Safety.
pub proof fn lemma_inv_election_safe(c: Cluster)
    requires
        inv(c),
    ensures
        election_safe(c),
{
    assert forall|t: u64, i: u64, k: u64|
        #[trigger] c.leaders.contains((t, i)) && #[trigger] c.leaders.contains((t, k)) implies i == k by {
        let d = c.nodes.dom();
        let v = lemma_quorums_intersect(d, voters(c, t, i), voters(c, t, k));
        assert(c.votes.contains((v, t, i)));
        assert(c.votes.contains((v, t, k)));
    }
}

/// A fresh cluster satisfies the invariant.
pub proof fn lemma_initial_inv(c: Cluster)
    requires
        initial(c),
    ensures
        inv(c),
{
}

/// A server's majority is the cluster's quorum.
pub proof fn lemma_majority_is_quorum(c: Cluster, id: u64)
    requires
        membership_ok(c),
        c.nodes.contains_key(id),
    ensures
        model::majority(c.nodes[id]) == quorum(c),
{
    let n = c.nodes[id];
    n.peers.unique_seq_to_set();
    assert(!n.peers.to_set().contains(id));
    assert(c.nodes.dom().len() == n.peers.len() + 1);
}

} // verus!

verus! {

/// What a transition of one server must satisfy for the invariant to survive it.
pub open spec fn step_fits(c: Cluster, id: u64, t: Transition, m: Option<MessageView>) -> bool {
    let n = c.nodes[id];
    &&& t.node.id == id
    &&& t.node.peers == n.peers
    &&& t.node.current_term >= n.current_term
    &&& t.node.current_term == n.current_term && n.voted_for is Some ==> t.node.voted_for == n.voted_for
    &&& sends_ok(id, t.node, t.actions)
    &&& candidacy_follows(n, t.node, m)
    &&& (m matches Some(msg) ==> (is_grant(msg.kind) ==> c.sent.contains(msg) && msg.to == id))
    &&& t.node.role == Role::Leader && n.role == Role::Leader ==> t.node.current_term == n.current_term
    &&& t.node.role == Role::Leader && n.role != Role::Leader ==> t.node.votes_received.len()
        >= model::majority(n)
}

pub proof fn lemma_record_inv(c: Cluster, id: u64, t: Transition, m: Option<MessageView>)
    requires
        inv(c),
        c.nodes.contains_key(id),
        step_fits(c, id, t, m),
    ensures
        inv(record(c, id, t)),
{
    let c2 = record(c, id, t);
    let n = c.nodes[id];
    let n2 = t.node;
    assert(c2.nodes.dom() =~= c.nodes.dom());
    assert(c.votes.subset_of(c2.votes));
    // membership
    assert forall|k: u64| #[trigger] c2.nodes.contains_key(k) implies {
        &&& c2.nodes[k].id == k
        &&& c2.nodes[k].peers.no_duplicates()
        &&& !c2.nodes[k].peers.contains(k)
        &&& c2.nodes[k].peers.to_set().insert(k) == c2.nodes.dom()
    } by {
        assert(c.nodes.contains_key(k));
    }
    // one vote per server and term
    assert forall|j: u64, tt: u64, v: u64, w: u64|
        #[trigger] c2.votes.contains((j, tt, v)) && #[trigger] c2.votes.contains((j, tt, w)) implies v
        == w by {
        if c.votes.contains((j, tt, v)) && c.votes.contains((j, tt, w)) {
        } else if c.votes.contains((j, tt, v)) {
            assert(j == id && tt == n2.current_term && n2.voted_for == Some(w));
        } else if c.votes.contains((j, tt, w)) {
            assert(j == id && tt == n2.current_term && n2.voted_for == Some(v));
        }
    }
    // votes agree with the servers' state
    assert forall|j: u64, tt: u64, v: u64| #[trigger] c2.votes.contains((j, tt, v)) implies c2.nodes.contains_key(
        j,
    ) && c2.nodes[j].current_term >= tt && (c2.nodes[j].current_term == tt ==> c2.nodes[j].voted_for
        == Some(v)) by {
        if !c.votes.contains((j, tt, v)) {
            assert(j == id && tt == n2.current_term && n2.voted_for == Some(v));
        }
    }
    assert forall|j: u64| #[trigger] c2.nodes.contains_key(j) && c2.nodes[j].voted_for is Some implies c2.votes.contains(
        (j, c2.nodes[j].current_term, c2.nodes[j].voted_for->0),
    ) by {
        if j != id {
            assert(c.votes.contains((j, c.nodes[j].current_term, c.nodes[j].voted_for->0)));
        }
    }
    // messages
    assert forall|msg: MessageView| #[trigger] c2.sent.contains(msg) implies c2.nodes.contains_key(msg.from)
        && (is_grant(msg.kind) ==> c2.votes.contains((msg.from, msg.term, msg.to))) by {
        if !c.sent.contains(msg) {
            let i = choose|i: int| 0 <= i < t.actions.len() && t.actions[i] == ActionView::Send(msg);
            assert(t.actions[i] matches ActionView::Send(x) ==> x.from == id && (is_grant(x.kind)
                ==> x.term == n2.current_term && n2.voted_for == Some(x.to)));
        }
    }
    // candidates and leaders
    assert forall|i: u64| #[trigger] c2.nodes.contains_key(i) && is_campaigning(c2.nodes[i]) implies c2.nodes[i].voted_for
        == Some(i) && forall|v: u64|
        #[trigger] c2.nodes[i].votes_received.contains(v) ==> c2.nodes.contains_key(v) && c2.votes.contains(
            (v, c2.nodes[i].current_term, i),
        ) by {
        if i == id {
            assert forall|v: u64| #[trigger] n2.votes_received.contains(v) implies c2.nodes.contains_key(v)
                && c2.votes.contains((v, n2.current_term, id)) by {
                if n2.current_term == n.current_term + 1 && n2.votes_received == set![n.id] {
                    assert(v == id);
                } else if n2.votes_received == n.votes_received {
                    assert(c.votes.contains((v, n.current_term, id)));
                } else {
                    let msg = m->0;
                    if v == msg.from && !n.votes_received.contains(v) {
                        assert(c.sent.contains(msg));
                        assert(c.votes.contains((msg.from, msg.term, msg.to)));
                    } else {
                        assert(c.votes.contains((v, n.current_term, id)));
                    }
                }
            }
        } else {
            assert(c.nodes[i] == c2.nodes[i]);
            assert forall|v: u64| #[trigger] c2.nodes[i].votes_received.contains(v) implies c2.nodes.contains_key(
                v,
            ) && c2.votes.contains((v, c2.nodes[i].current_term, i)) by {
                assert(c.votes.contains((v, c.nodes[i].current_term, i)));
            }
        }
    }
    // leaders hold a quorum of votes
    assert(quorum(c2) == quorum(c));
    assert forall|tt: u64, i: u64| #[trigger] c2.leaders.contains((tt, i)) implies voters(c2, tt, i).len()
        >= quorum(c2) by {
        assert(voters(c2, tt, i).finite());
        if c.leaders.contains((tt, i)) {
            assert(voters(c, tt, i).subset_of(voters(c2, tt, i)));
            lemma_len_subset(voters(c, tt, i), voters(c2, tt, i));
        } else {
            assert(tt == n2.current_term && i == id && n2.role == Role::Leader);
            assert(n.role != Role::Leader);
            lemma_majority_is_quorum(c, id);
            assert(n2.votes_received.subset_of(voters(c2, tt, i))) by {
                assert forall|v: u64| #[trigger] n2.votes_received.contains(v) implies voters(c2, tt, i).contains(
                    v,
                ) by {
                    assert(c2.nodes.contains_key(id) && is_campaigning(c2.nodes[id]));
                }
            }
            lemma_len_subset(n2.votes_received, voters(c2, tt, i));
        }
    }
    assert forall|i: u64| #[trigger] c2.nodes.contains_key(i) && c2.nodes[i].role == Role::Leader implies c2.leaders.contains(
        (c2.nodes[i].current_term, i),
    ) by {
        if i != id {
            assert(c.leaders.contains((c.nodes[i].current_term, i)));
        }
    }
}

} // verus!

verus! {

/// Every event that can happen keeps the invariant.
pub proof fn lemma_apply_inv(c: Cluster, e: Event)
    requires
        inv(c),
        enabled(c, e),
    ensures
        inv(apply(c, e)),
{
    let id = event_server(e);
    let n = c.nodes[id];
    let t = transition(c, e);
    assert(is_campaigning(n) ==> n.voted_for == Some(n.id));
    match e {
        Event::Deliver { id, msg } => {
            lemma_step_sends_ok(n, msg);
            lemma_step_term_never_decreases(n, msg);
            if n.voted_for is Some && t.node.current_term == n.current_term {
                lemma_step_one_vote_per_term(n, msg);
            }
            lemma_step_candidacy(n, msg);
            lemma_record_inv(c, id, t, Some(msg));
        },
        Event::Tick { id, timeout } => {
            lemma_tick_candidacy(n, timeout);
            lemma_tick_plain(n, timeout);
            lemma_plain_sends_ok(id, t.node, t.actions);
            lemma_record_inv(c, id, t, None);
        },
        Event::Propose { id, command } => {
            lemma_propose_plain(n, command);
            lemma_plain_sends_ok(id, t.node, t.actions);
            lemma_record_inv(c, id, t, None);
        },
        Event::Compact { id, index, term, data } => {
            assert(plain_sends(id, t.actions));
            lemma_plain_sends_ok(id, t.node, t.actions);
            lemma_record_inv(c, id, t, None);
        },
        Event::Restart { id } => {
            assert(plain_sends(id, t.actions));
            lemma_plain_sends_ok(id, t.node, t.actions);
            lemma_record_inv(c, id, t, None);
        },
    }
}

/// Election Safety (Raft §5.2): in every cluster that starts fresh, whatever
/// happens — messages lost, duplicated, reordered or delayed, servers crashing
/// and restarting from their persisted term and vote — at most one server is
/// ever leader of any given term.
pub proof fn lemma_election_safety(c: Cluster, es: Seq<Event>)
    requires
        initial(c),
        runs(c, es),
    ensures
        election_safe(run(c, es)),
        inv(run(c, es)),
    decreases es.len(),
{
    if es.len() == 0 {
        lemma_initial_inv(c);
    } else {
        let prev = es.drop_last();
        assert forall|i: int| 0 <= i < prev.len() implies enabled(#[trigger] run(c, prev.take(i)), prev[i]) by {
            assert(prev.take(i) =~= es.take(i));
            assert(enabled(run(c, es.take(i)), es[i]));
        }
        lemma_election_safety(c, prev);
        assert(es.take(es.len() - 1) =~= prev);
        assert(enabled(run(c, es.take(es.len() - 1)), es[es.len() - 1]));
        lemma_apply_inv(run(c, prev), es.last());
    }
    lemma_inv_election_safe(run(c, es));
}

} // verus!
