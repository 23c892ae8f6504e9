use vstd::prelude::*;
use crate::message::{entries_view, opt_node_view, EntryView, LogEntry, Message, MessageView};
use std::collections::{HashMap, HashSet};
use rand::rngs::SmallRng;
use crate::log::{entries_from_of, first_index_of, last_index_of, last_term_of, term_at_of, RaftLog};
use crate::message::{KindView, MessageKind, SnapshotMeta, clone_entries, opt_index_view, opt_term_view};
use crate::message::EntryView as EntryV;
use crate::node_model as model;
use crate::node_model::{NodeView, Transition};
use crate::rng::{draw_range, seeded_rng};
use crate::types::{LogIndex, NodeId, Term};

verus! {

/// What a server currently is in the protocol.
#[derive(Debug, Clone, Copy, PartialEq, Eq, Structural)]
pub enum Role {
    Follower,
    PreCandidate,
    Candidate,
    Leader,
}

/// Work that a server asks of its host after handling an event.
#[derive(Debug, PartialEq, Eq)]
pub enum Action {
    Send(Message),
    AppendEntries { entries: Vec<LogEntry> },
    TruncateAndAppend { from_index: LogIndex, entries: Vec<LogEntry> },
    PersistHardState { term: Term, voted_for: Option<NodeId> },
    Apply { entries: Vec<LogEntry> },
    PersistSnapshot { last_included_index: LogIndex, last_included_term: Term, data: Vec<u8> },
}

/// The mathematical value of an action.
pub enum ActionView {
    Send(MessageView),
    AppendEntries { entries: Seq<EntryView> },
    TruncateAndAppend { from_index: u64, entries: Seq<EntryView> },
    PersistHardState { term: u64, voted_for: Option<u64> },
    Apply { entries: Seq<EntryView> },
    PersistSnapshot { last_included_index: u64, last_included_term: u64, data: Seq<u8> },
}

impl View for Action {
    type V = ActionView;

    open spec fn view(&self) -> ActionView {
        match self {
            Action::Send(m) => ActionView::Send(m@),
            Action::AppendEntries { entries } => ActionView::AppendEntries {
                entries: entries_view(entries@),
            },
            Action::TruncateAndAppend { from_index, entries } => ActionView::TruncateAndAppend {
                from_index: from_index.0,
                entries: entries_view(entries@),
            },
            Action::PersistHardState { term, voted_for } => ActionView::PersistHardState {
                term: term.0,
                voted_for: opt_node_view(*voted_for),
            },
            Action::Apply { entries } => ActionView::Apply { entries: entries_view(entries@) },
            Action::PersistSnapshot { last_included_index, last_included_term, data } =>
                ActionView::PersistSnapshot {
                last_included_index: last_included_index.0,
                last_included_term: last_included_term.0,
                data: data@,
            },
        }
    }
}

pub open spec fn actions_view(s: Seq<Action>) -> Seq<ActionView> {
    s.map_values(|a: Action| a@)
}

} // verus!

verus! {

broadcast use vstd::std_specs::hash::group_hash_axioms;

/// How a server is set up.
#[derive(Debug)]
pub struct Config {
    pub id: NodeId,
    pub peers: Vec<NodeId>,
    pub election_timeout_ticks: u64,
    pub heartbeat_interval_ticks: u64,
    pub rng_seed: u64,
}

impl Clone for Config {
    fn clone(&self) -> (r: Self)
        ensures
            r.id == self.id,
            r.peers@ == self.peers@,
            r.election_timeout_ticks == self.election_timeout_ticks,
            r.heartbeat_interval_ticks == self.heartbeat_interval_ticks,
            r.rng_seed == self.rng_seed,
    {
        Config {
            id: self.id,
            peers: self.peers.clone(),
            election_timeout_ticks: self.election_timeout_ticks,
            heartbeat_interval_ticks: self.heartbeat_interval_ticks,
            rng_seed: self.rng_seed,
        }
    }
}

/// The largest election timeout base for which a randomized timeout, below
/// twice the base, still fits in a `u64`.
pub open spec fn max_timeout_base() -> u64 {
    0x7fff_ffff_ffff_ffffu64
}

/// The settings a server can be built from: the heartbeat fires before the
/// election timeout, and a randomized timeout fits in a `u64`.
pub open spec fn config_ok(config: Config) -> bool {
    &&& config.heartbeat_interval_ticks < config.election_timeout_ticks
    &&& config.election_timeout_ticks <= max_timeout_base()
    &&& config.peers@.len() < usize::MAX
}

pub open spec fn node_ids_view(s: Seq<NodeId>) -> Seq<u64> {
    s.map_values(|p: NodeId| p.0)
}

} // verus!

verus! {

/// One Raft server: its persistent state, its volatile state, and the timers
/// that drive elections and heartbeats.  It performs no I/O: every event
/// returns the actions the host must carry out.
pub struct RaftNode {
    pub id: NodeId,
    peers: Vec<NodeId>,
    current_term: Term,
    voted_for: Option<NodeId>,
    log: RaftLog,
    commit_index: LogIndex,
    last_applied: LogIndex,
    role: Role,
    next_index: HashMap<u64, u64>,
    match_index: HashMap<u64, u64>,
    election_timeout_base: u64,
    election_timeout: u64,
    election_elapsed: u64,
    heartbeat_interval: u64,
    heartbeat_elapsed: u64,
    votes_received: HashSet<u64>,
    pre_votes_received: HashSet<u64>,
    rng: SmallRng,
    leader_id: Option<NodeId>,
}

impl View for RaftNode {
    type V = NodeView;

    closed spec fn view(&self) -> NodeView {
        NodeView {
            id: self.id.0,
            peers: node_ids_view(self.peers@),
            current_term: self.current_term.0,
            voted_for: opt_node_view(self.voted_for),
            log: self.log@,
            commit_index: self.commit_index.0,
            last_applied: self.last_applied.0,
            role: self.role,
            next_index: self.next_index@,
            match_index: self.match_index@,
            election_timeout_base: self.election_timeout_base,
            election_elapsed: self.election_elapsed,
            heartbeat_interval: self.heartbeat_interval,
            heartbeat_elapsed: self.heartbeat_elapsed,
            votes_received: self.votes_received@,
            pre_votes_received: self.pre_votes_received@,
            leader_id: opt_node_view(self.leader_id),
        }
    }
}

proof fn lemma_push_contains(s: Seq<u64>, x: u64)
    ensures
        forall|k: u64| #[trigger] s.push(x).contains(k) <==> (s.contains(k) || k == x),
{
    assert forall|k: u64| #[trigger] s.push(x).contains(k) <==> (s.contains(k) || k == x) by {
        if s.contains(k) {
            let j = choose|j: int| 0 <= j < s.len() && s[j] == k;
            assert(s.push(x)[j] == k);
        }
        if k == x {
            assert(s.push(x)[s.len() as int] == k);
        }
        if s.push(x).contains(k) {
            let j = choose|j: int| 0 <= j < s.push(x).len() && s.push(x)[j] == k;
            if j < s.len() {
                assert(s[j] == k);
            }
        }
    }
}

/// The timeout after which a follower or candidate starts an election: the
/// base plus a random draw below the base.
fn randomize_election_timeout(base: u64, rng: &mut SmallRng) -> (r: u64)
    requires
        0 < base <= max_timeout_base(),
    ensures
        base <= r < 2 * base,
{
    base + draw_range(rng, 0, base - 1)
}

/// The bytes sent as snapshot data when a peer lags behind the retained log.
fn placeholder_snapshot_bytes() -> (r: Vec<u8>)
    ensures
        r@ == model::placeholder_snapshot(),
{
    let r = vec![
        115u8, 105, 109, 117, 108, 97, 116, 101, 100, 45, 99, 111, 109, 112, 97, 99, 116, 101,
        100, 45, 115, 110, 97, 112, 115, 104, 111, 116,
    ];
    assert(r@ =~= model::placeholder_snapshot());
    r
}

impl RaftNode {
    /// The election timeout currently in force (drawn at random).
    pub closed spec fn election_timeout(&self) -> u64 {
        self.election_timeout
    }

    /// The server's internal invariant: the timers stay within their bounds
    /// and the log and counters leave room for the next index and term.
    pub closed spec fn inv(&self) -> bool {
        &&& self.log.wf()
        &&& 0 < self.election_timeout_base <= max_timeout_base()
        &&& self.election_timeout_base <= self.election_timeout < 2 * self.election_timeout_base
        &&& self.election_elapsed < self.election_timeout
        &&& self.heartbeat_elapsed <= self.heartbeat_interval
        &&& self.heartbeat_interval < self.election_timeout_base
        &&& self.peers@.len() < usize::MAX
        &&& self.current_term.0 < u64::MAX
        &&& last_index_of(self.log@) < u64::MAX
        &&& first_index_of(self.log@) < u64::MAX
        &&& self.commit_index.0 < u64::MAX
    }

    /// A timeout drawn afresh lies in `[base, 2 * base)`; otherwise it is kept.
    pub open spec fn timeout_follows(&self, old: &RaftNode, redraw: bool) -> bool {
        &&& redraw ==> self@.election_timeout_base <= self.election_timeout() < 2
            * self@.election_timeout_base
        &&& !redraw ==> self.election_timeout() == old.election_timeout()
    }

    /// A fresh server: a follower in term 0 with an empty log.
    pub fn new(config: Config) -> (r: RaftNode)
        requires
            config_ok(config),
        ensures
            r.inv(),
            r@ == (NodeView {
                id: config.id.0,
                peers: node_ids_view(config.peers@),
                current_term: 0,
                voted_for: None,
                log: seq![crate::log::sentinel_view(0, 0)],
                commit_index: 0,
                last_applied: 0,
                role: Role::Follower,
                next_index: Map::empty(),
                match_index: Map::empty(),
                election_timeout_base: config.election_timeout_ticks,
                election_elapsed: 0,
                heartbeat_interval: config.heartbeat_interval_ticks,
                heartbeat_elapsed: 0,
                votes_received: Set::empty(),
                pre_votes_received: Set::empty(),
                leader_id: None,
            }),
            config.election_timeout_ticks <= r.election_timeout() < 2
                * config.election_timeout_ticks,
    {
        let election_timeout = config.election_timeout_ticks;
        let heartbeat_interval = config.heartbeat_interval_ticks;
        let mut rng = seeded_rng(config.rng_seed);
        let randomized_timeout = randomize_election_timeout(election_timeout, &mut rng);
        let r = RaftNode {
            id: config.id,
            peers: config.peers,
            current_term: Term(0),
            voted_for: None,
            log: RaftLog::new(),
            commit_index: LogIndex(0),
            last_applied: LogIndex(0),
            role: Role::Follower,
            next_index: HashMap::new(),
            match_index: HashMap::new(),
            election_timeout_base: election_timeout,
            election_timeout: randomized_timeout,
            election_elapsed: 0,
            heartbeat_interval,
            heartbeat_elapsed: 0,
            votes_received: HashSet::new(),
            pre_votes_received: HashSet::new(),
            rng,
            leader_id: None,
        };
        proof {
            crate::log::lemma_sentinel_only(0, 0);
        }
        r
    }

    /// A server rebuilt from persisted state: a follower holding the given
    /// term, vote, log and progress.
    pub fn restore(
        config: Config,
        current_term: Term,
        voted_for: Option<NodeId>,
        log: RaftLog,
        commit_index: LogIndex,
        last_applied: LogIndex,
    ) -> (r: RaftNode)
        requires
            config_ok(config),
            log.wf(),
            current_term.0 < u64::MAX,
            last_index_of(log@) < u64::MAX,
            first_index_of(log@) < u64::MAX,
            commit_index.0 < u64::MAX,
        ensures
            r.inv(),
            r@ == (NodeView {
                id: config.id.0,
                peers: node_ids_view(config.peers@),
                current_term: current_term.0,
                voted_for: opt_node_view(voted_for),
                log: log@,
                commit_index: commit_index.0,
                last_applied: last_applied.0,
                role: Role::Follower,
                next_index: Map::empty(),
                match_index: Map::empty(),
                election_timeout_base: config.election_timeout_ticks,
                election_elapsed: 0,
                heartbeat_interval: config.heartbeat_interval_ticks,
                heartbeat_elapsed: 0,
                votes_received: Set::empty(),
                pre_votes_received: Set::empty(),
                leader_id: None,
            }),
            config.election_timeout_ticks <= r.election_timeout() < 2
                * config.election_timeout_ticks,
    {
        let mut node = Self::new(config);
        node.current_term = current_term;
        node.voted_for = voted_for;
        node.log = log;
        node.commit_index = commit_index;
        node.last_applied = last_applied;
        node
    }

    pub fn id(&self) -> (r: NodeId)
        ensures
            r.0 == self@.id,
    {
        self.id
    }

    pub fn role(&self) -> (r: Role)
        ensures
            r == self@.role,
    {
        self.role
    }

    pub fn current_term(&self) -> (r: Term)
        ensures
            r.0 == self@.current_term,
    {
        self.current_term
    }

    pub fn voted_for(&self) -> (r: Option<NodeId>)
        ensures
            opt_node_view(r) == self@.voted_for,
    {
        self.voted_for
    }

    pub fn commit_index(&self) -> (r: LogIndex)
        ensures
            r.0 == self@.commit_index,
    {
        self.commit_index
    }

    pub fn last_applied(&self) -> (r: LogIndex)
        ensures
            r.0 == self@.last_applied,
    {
        self.last_applied
    }

    pub fn log(&self) -> (r: &RaftLog)
        ensures
            r@ == self@.log,
            self.inv() ==> r.wf(),
    {
        &self.log
    }

    pub fn leader_id(&self) -> (r: Option<NodeId>)
        ensures
            opt_node_view(r) == self@.leader_id,
    {
        self.leader_id
    }

    fn message(&self, to: NodeId, kind: MessageKind) -> (a: Action)
        ensures
            a@ == model::send(self@, to.0, kind@),
    {
        Action::Send(Message { from: self.id, to, term: self.current_term, kind })
    }

    fn replicate_to_peer(&self, peer: NodeId, actions: &mut Vec<Action>)
        requires
            self.inv(),
        ensures
            actions_view(final(actions)@) == actions_view(old(actions)@).push(
                model::replicate_action(self@, peer.0),
            ),
    {
        let next = match self.next_index.get(&peer.0) {
            Some(n) => *n,
            None => 1,
        };
        let first = self.log.first_index();
        let a = if next <= first.0 {
            let meta = match self.log.snapshot_meta() {
                Some(m) => m,
                None => SnapshotMeta { last_included_index: LogIndex(0), last_included_term: Term(0) },
            };
            self.message(
                peer,
                MessageKind::InstallSnapshot {
                    last_included_index: meta.last_included_index,
                    last_included_term: meta.last_included_term,
                    offset: 0,
                    data: placeholder_snapshot_bytes(),
                    done: true,
                },
            )
        } else {
            let prev_log_index = LogIndex(next).prev();
            let prev_log_term = match self.log.term_at(prev_log_index) {
                Some(t) => t,
                None => Term(0),
            };
            let entries = clone_entries(self.log.entries_from(LogIndex(next)));
            self.message(
                peer,
                MessageKind::AppendEntries {
                    prev_log_index,
                    prev_log_term,
                    entries,
                    leader_commit: self.commit_index,
                },
            )
        };
        actions.push(a);
        proof {
            assert(actions_view(actions@) =~= actions_view(old(actions)@).push(
                model::replicate_action(self@, peer.0),
            ));
        }
    }

    /// This server moved from `old` to `self` as `t` describes, appending
    /// `t`'s actions to the ones already gathered.
    pub open spec fn performs(
        &self,
        old: &RaftNode,
        acts: Seq<Action>,
        old_acts: Seq<Action>,
        t: Transition,
    ) -> bool {
        &&& self@ == t.node
        &&& actions_view(acts) == actions_view(old_acts) + t.actions
        &&& self.timeout_follows(old, t.redraw)
    }

    fn broadcast_heartbeats(&self, actions: &mut Vec<Action>)
        requires
            self.inv(),
        ensures
            actions_view(final(actions)@) == actions_view(old(actions)@) + model::broadcast(self@),
    {
        let ghost b = model::broadcast(self@);
        let mut i: usize = 0;
        while i < self.peers.len()
            invariant
                self.inv(),
                i <= self.peers@.len(),
                b == model::broadcast(self@),
                actions_view(actions@) == actions_view(old(actions)@) + b.take(i as int),
            decreases self.peers@.len() - i,
        {
            let peer = self.peers[i];
            self.replicate_to_peer(peer, actions);
            assert(b.take(i + 1) =~= b.take(i as int).push(b[i as int]));
            i = i + 1;
        }
        assert(b.take(self.peers@.len() as int) =~= b);
    }

    fn become_follower(&mut self, term: Term, leader: Option<NodeId>, actions: &mut Vec<Action>)
        requires
            old(self).inv(),
            term.0 < u64::MAX,
        ensures
            final(self).inv(),
            final(self).performs(
                old(self),
                final(actions)@,
                old(actions)@,
                model::become_follower(old(self)@, term.0, opt_node_view(leader)),
            ),
    {
        let term_changed = term.0 > self.current_term.0;
        self.current_term = term;
        self.role = Role::Follower;
        self.leader_id = leader;
        self.election_elapsed = 0;
        self.election_timeout = randomize_election_timeout(self.election_timeout_base, &mut self.rng);
        if term_changed {
            self.voted_for = None;
            actions.push(Action::PersistHardState { term: self.current_term, voted_for: None });
        }
        proof {
            let t = model::become_follower(old(self)@, term.0, opt_node_view(leader));
            assert(actions_view(actions@) =~= actions_view(old(actions)@) + t.actions);
        }
    }

    fn become_leader(&mut self, actions: &mut Vec<Action>)
        requires
            old(self).inv(),
            last_index_of(old(self)@.log) + 1 < u64::MAX,
        ensures
            final(self).inv(),
            final(self).performs(
                old(self),
                final(actions)@,
                old(actions)@,
                model::become_leader(old(self)@),
            ),
    {
        let ghost s0 = self@;
        self.role = Role::Leader;
        self.leader_id = Some(self.id);
        self.heartbeat_elapsed = 0;
        let last_index = self.log.last_index();
        let mut next_index: HashMap<u64, u64> = HashMap::new();
        let mut match_index: HashMap<u64, u64> = HashMap::new();
        let ghost pv = node_ids_view(self.peers@);
        let mut i: usize = 0;
        while i < self.peers.len()
            invariant
                i <= self.peers@.len(),
                pv == node_ids_view(self.peers@),
                last_index.0 + 1 < u64::MAX,
                next_index@ == Map::new(
                    |k: u64| pv.take(i as int).contains(k),
                    |k: u64| (last_index.0 + 1) as u64,
                ),
                match_index@ == Map::new(|k: u64| pv.take(i as int).contains(k), |k: u64| 0u64),
            decreases self.peers@.len() - i,
        {
            let peer = self.peers[i];
            next_index.insert(peer.0, last_index.0 + 1);
            match_index.insert(peer.0, 0);
            proof {
                assert(pv[i as int] == peer.0);
                assert(pv.take(i + 1) =~= pv.take(i as int).push(peer.0));
                lemma_push_contains(pv.take(i as int), peer.0);
                assert(next_index@ =~= Map::new(
                    |k: u64| pv.take(i + 1).contains(k),
                    |k: u64| (last_index.0 + 1) as u64,
                ));
                assert(match_index@ =~= Map::new(
                    |k: u64| pv.take(i + 1).contains(k),
                    |k: u64| 0u64,
                ));
            }
            i = i + 1;
        }
        proof {
            assert(pv.take(self.peers@.len() as int) =~= pv);
        }
        self.next_index = next_index;
        self.match_index = match_index;
        let noop = LogEntry { index: last_index.next(), term: self.current_term, command: Vec::new() };
        let ghost nv = noop@;
        let mut one: Vec<LogEntry> = Vec::new();
        one.push(noop.clone());
        assert(entries_view(one@) =~= seq![nv]);
        actions.push(Action::AppendEntries { entries: one });
        let ghost a1 = actions_view(actions@);
        assert(a1 =~= actions_view(old(actions)@) + seq![ActionView::AppendEntries { entries: seq![nv] }]);
        let mut v: Vec<LogEntry> = Vec::new();
        v.push(noop);
        assert(entries_view(v@) =~= seq![nv]);
        self.log.append(v);
        let ghost mid = self@;
        self.broadcast_heartbeats(actions);
        proof {
            let t = model::become_leader(s0);
            assert(self@ =~= t.node);
            assert(actions_view(actions@) =~= actions_view(old(actions)@) + t.actions);
        }
    }

    /// Sends one message to every peer, in the order of the peer list.
    fn send_to_peers(&self, term: Term, kind: &MessageKind, actions: &mut Vec<Action>)
        ensures
            actions_view(final(actions)@) == actions_view(old(actions)@) + node_ids_view(
                self.peers@,
            ).map_values(
                |p: u64|
                    ActionView::Send(
                        MessageView { from: self.id.0, to: p, term: term.0, kind: kind@ },
                    ),
            ),
    {
        let ghost b = node_ids_view(self.peers@).map_values(
            |p: u64|
                ActionView::Send(MessageView { from: self.id.0, to: p, term: term.0, kind: kind@ }),
        );
        let mut i: usize = 0;
        while i < self.peers.len()
            invariant
                i <= self.peers@.len(),
                b == node_ids_view(self.peers@).map_values(
                    |p: u64|
                        ActionView::Send(
                            MessageView { from: self.id.0, to: p, term: term.0, kind: kind@ },
                        ),
                ),
                actions_view(actions@) == actions_view(old(actions)@) + b.take(i as int),
            decreases self.peers@.len() - i,
        {
            let peer = self.peers[i];
            let k = kind.clone();
            let ghost before = actions_view(actions@);
            actions.push(Action::Send(Message { from: self.id, to: peer, term, kind: k }));
            assert(node_ids_view(self.peers@)[i as int] == peer.0);
            assert(b[i as int] == ActionView::Send(
                MessageView { from: self.id.0, to: peer.0, term: term.0, kind: kind@ },
            ));
            assert(actions_view(actions@) =~= before.push(b[i as int]));
            assert(b.take(i + 1) =~= b.take(i as int).push(b[i as int]));
            assert(actions_view(actions@) =~= actions_view(old(actions)@) + b.take(i + 1));
            i = i + 1;
        }
        assert(b.take(self.peers@.len() as int) =~= b);
    }

    fn start_real_election(&mut self, actions: &mut Vec<Action>)
        requires
            old(self).inv(),
            old(self)@.current_term + 1 < u64::MAX,
            last_index_of(old(self)@.log) + 1 < u64::MAX,
        ensures
            final(self).inv(),
            final(self).performs(
                old(self),
                final(actions)@,
                old(actions)@,
                model::start_real_election(old(self)@),
            ),
    {
        let ghost s0 = self@;
        self.current_term = self.current_term.next();
        self.role = Role::Candidate;
        self.voted_for = Some(self.id);
        self.votes_received.clear();
        self.votes_received.insert(self.id.0);
        self.election_elapsed = 0;
        self.election_timeout = randomize_election_timeout(self.election_timeout_base, &mut self.rng);
        actions.push(Action::PersistHardState { term: self.current_term, voted_for: Some(self.id) });
        let last_log_index = self.log.last_index();
        let last_log_term = self.log.last_term();
        let kind = MessageKind::RequestVote { last_log_index, last_log_term };
        self.send_to_peers(self.current_term, &kind, actions);
        let ghost started = Transition {
            node: self@,
            actions: actions_view(actions@).subrange(
                actions_view(old(actions)@).len() as int,
                actions_view(actions@).len() as int,
            ),
            redraw: true,
        };
        proof {
            let t = model::start_real_election(s0);
            assert(self@ =~= (NodeView {
                current_term: (s0.current_term + 1) as u64,
                role: Role::Candidate,
                voted_for: Some(s0.id),
                votes_received: set![s0.id],
                election_elapsed: 0,
                ..s0
            }));
            assert(actions_view(actions@) =~= actions_view(old(actions)@) + seq![
                ActionView::PersistHardState {
                    term: (s0.current_term + 1) as u64,
                    voted_for: Some(s0.id),
                },
            ] + s0.peers.map_values(
                |p: u64|
                    model::send(
                        self@,
                        p,
                        KindView::RequestVote {
                            last_log_index: last_index_of(s0.log),
                            last_log_term: last_term_of(s0.log),
                        },
                    ),
            ));
        }
        if self.peers.len() == 0 {
            self.become_leader(actions);
        }
        proof {
            let t = model::start_real_election(s0);
            assert(actions_view(actions@) =~= actions_view(old(actions)@) + t.actions);
        }
    }

    fn start_pre_vote(&mut self, actions: &mut Vec<Action>)
        requires
            old(self).inv(),
            old(self)@.current_term + 1 < u64::MAX,
            last_index_of(old(self)@.log) + 1 < u64::MAX,
        ensures
            final(self).inv(),
            final(self).performs(
                old(self),
                final(actions)@,
                old(actions)@,
                model::start_pre_vote(old(self)@),
            ),
    {
        let ghost s0 = self@;
        self.role = Role::PreCandidate;
        self.pre_votes_received.clear();
        self.pre_votes_received.insert(self.id.0);
        self.election_elapsed = 0;
        self.election_timeout = randomize_election_timeout(self.election_timeout_base, &mut self.rng);
        let last_log_index = self.log.last_index();
        let last_log_term = self.log.last_term();
        let proposed_term = self.current_term.next();
        let kind = MessageKind::PreVote { last_log_index, last_log_term };
        self.send_to_peers(proposed_term, &kind, actions);
        proof {
            assert(self@ =~= (NodeView {
                role: Role::PreCandidate,
                pre_votes_received: set![s0.id],
                election_elapsed: 0,
                ..s0
            }));
        }
        if self.peers.len() == 0 {
            self.start_real_election(actions);
        }
        proof {
            let t = model::start_pre_vote(s0);
            assert(actions_view(actions@) =~= actions_view(old(actions)@) + t.actions);
        }
    }

    /// Advances the clock by one tick: a leader may send heartbeats, anyone
    /// else may start an election once its timeout has passed.
    pub fn tick(&mut self) -> (actions: Vec<Action>)
        requires
            old(self).inv(),
            old(self)@.current_term + 1 < u64::MAX,
            last_index_of(old(self)@.log) + 1 < u64::MAX,
        ensures
            final(self).inv(),
            final(self).performs(
                old(self),
                actions@,
                Seq::empty(),
                model::tick(old(self)@, old(self).election_timeout()),
            ),
    {
        let mut actions: Vec<Action> = Vec::new();
        let ghost s0 = self@;
        match self.role {
            Role::Leader => {
                self.heartbeat_elapsed = self.heartbeat_elapsed + 1;
                if self.heartbeat_elapsed >= self.heartbeat_interval {
                    self.heartbeat_elapsed = 0;
                    self.broadcast_heartbeats(&mut actions);
                }
            },
            _ => {
                self.election_elapsed = self.election_elapsed + 1;
                if self.election_elapsed >= self.election_timeout {
                    self.election_elapsed = 0;
                    self.start_pre_vote(&mut actions);
                }
            },
        }
        proof {
            let t = model::tick(s0, old(self).election_timeout());
            assert(actions_view(actions@) =~= actions_view(Seq::<Action>::empty()) + t.actions);
        }
        actions
    }

    fn apply_committed_entries(&mut self, actions: &mut Vec<Action>)
        requires
            old(self).inv(),
        ensures
            final(self).inv(),
            final(self).performs(
                old(self),
                final(actions)@,
                old(actions)@,
                model::apply_committed(old(self)@),
            ),
    {
        let ghost s0 = self@;
        if self.commit_index.0 > self.last_applied.0 {
            let start = self.last_applied.next();
            let commit = self.commit_index.0;
            let src = self.log.entries_from(start);
            let ghost es = entries_from_of(s0.log, start.0);
            let mut to_apply: Vec<LogEntry> = Vec::new();
            let mut i: usize = 0;
            while i < src.len()
                invariant_except_break
                    i <= src@.len(),
                    entries_view(src@) == es,
                    entries_view(to_apply@) == es.take(i as int),
                    forall|j: int| 0 <= j < i ==> (#[trigger] es[j]).index <= commit,
                ensures
                    i <= src@.len(),
                    entries_view(to_apply@) == es.take(i as int),
                    forall|j: int| 0 <= j < i ==> (#[trigger] es[j]).index <= commit,
                    i == src@.len() || es[i as int].index > commit,
                decreases src@.len() - i,
            {
                if src[i].index.0 <= commit {
                    let e = src[i].clone();
                    assert(es[i as int] == src@[i as int]@);
                    let ghost before = to_apply@;
                    to_apply.push(e);
                    assert(to_apply@ == before.push(e));
                    assert(entries_view(to_apply@) =~= entries_view(before).push(e@));
                    assert(es.take(i + 1) =~= es.take(i as int).push(es[i as int]));
                    i = i + 1;
                } else {
                    break;
                }
            }
            proof {
                model::lemma_take_while_split(es, commit, i as int);
                if i == src@.len() {
                    assert(es.skip(i as int) =~= Seq::<EntryView>::empty());
                }
                assert(model::take_while_le(es.skip(i as int), commit) =~= Seq::<EntryView>::empty());
                assert(es.take(i as int) + Seq::<EntryView>::empty() =~= es.take(i as int));
            }
            if to_apply.len() > 0 {
                self.last_applied = to_apply[to_apply.len() - 1].index;
                let ghost tv = entries_view(to_apply@);
                assert(tv.last() == to_apply@[to_apply@.len() - 1]@);
                actions.push(Action::Apply { entries: to_apply });
                proof {
                    let t = model::apply_committed(s0);
                    assert(actions_view(actions@) =~= actions_view(old(actions)@) + t.actions);
                }
            } else {
                proof {
                    assert(actions_view(actions@) =~= actions_view(old(actions)@) + Seq::empty());
                }
            }
        } else {
            proof {
                assert(actions_view(actions@) =~= actions_view(old(actions)@) + Seq::empty());
            }
        }
    }

    fn maybe_advance_commit_index(&mut self, actions: &mut Vec<Action>)
        requires
            old(self).inv(),
        ensures
            final(self).inv(),
            final(self).performs(
                old(self),
                final(actions)@,
                old(actions)@,
                model::maybe_advance_commit(old(self)@),
            ),
    {
        let ghost s0 = self@;
        let last = self.log.last_index();
        let mut new_commit = self.commit_index.0;
        let mut n = self.commit_index.0 + 1;
        let majority = (self.peers.len() + 1) / 2 + 1;
        while n <= last.0
            invariant
                self@ == s0,
                self.inv(),
                last.0 == last_index_of(s0.log),
                s0.commit_index < n,
                n <= last.0 + 1 || n == s0.commit_index + 1,
                last.0 < u64::MAX,
                majority == model::majority(s0),
                new_commit == model::best_commit_upto(s0, (n - 1) as u64),
            decreases last.0 + 1 - n,
        {
            let qualifies = match self.log.term_at(LogIndex(n)) {
                Some(t) => t.0 == self.current_term.0,
                None => false,
            };
            if qualifies {
                let mut count: usize = 1;
                let mut j: usize = 0;
                let ghost pv = s0.peers;
                while j < self.peers.len()
                    invariant
                        self@ == s0,
                        self.inv(),
                        pv == s0.peers,
                        j <= self.peers@.len(),
                        count == 1 + model::match_count(pv.take(j as int), s0.match_index, n),
                        count <= j + 1,
                    decreases self.peers@.len() - j,
                {
                    let peer = self.peers[j];
                    let m = match self.match_index.get(&peer.0) {
                        Some(v) => *v,
                        None => 0,
                    };
                    proof {
                        assert(pv[j as int] == peer.0);
                        assert(pv.take(j + 1).drop_last() =~= pv.take(j as int));
                        assert(pv.take(j + 1).last() == peer.0);
                    }
                    if m >= n {
                        count = count + 1;
                    }
                    j = j + 1;
                }
                proof {
                    assert(pv.take(self.peers@.len() as int) =~= pv);
                }
                if count >= majority {
                    new_commit = n;
                }
            }
            n = n + 1;
        }
        proof {
            model::lemma_best_commit_bounds(s0, last.0);
            assert(new_commit == model::best_commit_upto(s0, last.0));
        }
        if new_commit > self.commit_index.0 {
            self.commit_index = LogIndex(new_commit);
            self.apply_committed_entries(actions);
        } else {
            proof {
                assert(actions_view(actions@) =~= actions_view(old(actions)@) + Seq::empty());
            }
        }
    }

    fn broadcast_append_entries(&self, actions: &mut Vec<Action>)
        requires
            self.inv(),
        ensures
            actions_view(final(actions)@) == actions_view(old(actions)@) + model::broadcast(self@),
    {
        self.broadcast_heartbeats(actions);
    }

    /// Appends a client command to the log of a leader and replicates it; any
    /// other server ignores it.
    pub fn propose(&mut self, command: Vec<u8>) -> (actions: Vec<Action>)
        requires
            old(self).inv(),
            last_index_of(old(self)@.log) + 1 < u64::MAX,
        ensures
            final(self).inv(),
            final(self).performs(
                old(self),
                actions@,
                Seq::empty(),
                model::propose(old(self)@, command@),
            ),
    {
        let mut actions: Vec<Action> = Vec::new();
        let ghost s0 = self@;
        if self.role != Role::Leader {
            assert(actions_view(actions@) =~= actions_view(Seq::<Action>::empty()) + Seq::empty());
            return actions;
        }
        let entry = LogEntry {
            index: self.log.last_index().next(),
            term: self.current_term,
            command,
        };
        let ghost ev = entry@;
        let mut one: Vec<LogEntry> = Vec::new();
        one.push(entry.clone());
        assert(entries_view(one@) =~= seq![ev]);
        actions.push(Action::AppendEntries { entries: one });
        let mut v: Vec<LogEntry> = Vec::new();
        v.push(entry);
        assert(entries_view(v@) =~= seq![ev]);
        self.log.append(v);
        self.broadcast_append_entries(&mut actions);
        proof {
            assert(self@ =~= NodeView { log: s0.log.push(ev), ..s0 });
            assert(actions_view(actions@) =~= seq![ActionView::AppendEntries { entries: seq![ev] }]
                + model::broadcast(self@));
        }
        if self.peers.len() == 0 {
            self.maybe_advance_commit_index(&mut actions);
        }
        proof {
            let t = model::propose(s0, command@);
            assert(actions_view(actions@) =~= actions_view(Seq::<Action>::empty()) + t.actions);
        }
        actions
    }

    /// Compacts the log up to a committed index, asking the host to persist the snapshot.
    pub fn compact_logs(&mut self, last_included_index: LogIndex, last_included_term: Term, data: Vec<u8>) -> (actions: Vec<Action>)
        requires
            old(self).inv(),
        ensures
            final(self).inv(),
            final(self).performs(
                old(self),
                actions@,
                Seq::empty(),
                model::compact_logs(old(self)@, last_included_index.0, last_included_term.0, data@),
            ),
    {
        let mut actions: Vec<Action> = Vec::new();
        let ghost s0 = self@;
        let ghost dv = data@;
        if last_included_index.0 > self.commit_index.0 {
            assert(actions_view(actions@) =~= actions_view(Seq::<Action>::empty()) + Seq::empty());
            return actions;
        }
        self.log.compact(last_included_index, last_included_term);
        proof {
            let c = crate::log::compacted(s0.log, last_included_index.0, last_included_term.0);
            let b = s0.log[0].index;
            if last_included_index.0 > b && last_included_index.0 - b < s0.log.len() {
                let off = last_included_index.0 - b;
                if off + 1 < s0.log.len() {
                    assert(c[c.len() - 1] == s0.log[s0.log.len() - 1]);
                }
            }
            assert(last_index_of(c) < u64::MAX);
        }
        actions.push(Action::PersistSnapshot { last_included_index, last_included_term, data });
        proof {
            let t = model::compact_logs(s0, last_included_index.0, last_included_term.0, dv);
            assert(self@ =~= t.node);
            assert(actions_view(actions@) =~= actions_view(Seq::<Action>::empty()) + t.actions);
        }
        actions
    }

    fn is_log_up_to_date(&self, candidate_last_index: LogIndex, candidate_last_term: Term) -> (r: bool)
        requires
            self.inv(),
        ensures
            r == model::log_up_to_date(self@, candidate_last_index.0, candidate_last_term.0),
    {
        let my_last_term = self.log.last_term();
        let my_last_index = self.log.last_index();
        if candidate_last_term.0 != my_last_term.0 {
            candidate_last_term.0 > my_last_term.0
        } else {
            candidate_last_index.0 >= my_last_index.0
        }
    }

    fn handle_pre_vote(
        &self,
        from: NodeId,
        proposed_term: Term,
        last_log_index: LogIndex,
        last_log_term: Term,
        actions: &mut Vec<Action>,
    )
        requires
            self.inv(),
        ensures
            self.performs(
                self,
                final(actions)@,
                old(actions)@,
                model::handle_pre_vote(self@, from.0, proposed_term.0, last_log_index.0, last_log_term.0),
            ),
    {
        let log_ok = self.is_log_up_to_date(last_log_index, last_log_term);
        let leader_lease_active = self.leader_id.is_some()
            && self.election_elapsed < self.election_timeout_base;
        let grant = proposed_term.0 >= self.current_term.0 && log_ok && !leader_lease_active;
        let a = self.message(from, MessageKind::PreVoteResponse { vote_granted: grant });
        actions.push(a);
        proof {
            let t = model::handle_pre_vote(self@, from.0, proposed_term.0, last_log_index.0, last_log_term.0);
            assert(actions_view(actions@) =~= actions_view(old(actions)@) + t.actions);
        }
    }

    fn handle_pre_vote_response(&mut self, from: NodeId, msg_term: Term, vote_granted: bool, actions: &mut Vec<Action>)
        requires
            old(self).inv(),
            old(self)@.current_term + 1 < u64::MAX,
            last_index_of(old(self)@.log) + 1 < u64::MAX,
        ensures
            final(self).inv(),
            final(self).performs(
                old(self),
                final(actions)@,
                old(actions)@,
                model::handle_pre_vote_response(old(self)@, from.0, msg_term.0, vote_granted),
            ),
    {
        let ghost s0 = self@;
        if self.role != Role::PreCandidate || msg_term.0 != self.current_term.0 || !vote_granted {
            assert(actions_view(actions@) =~= actions_view(old(actions)@) + Seq::empty());
            return;
        }
        self.pre_votes_received.insert(from.0);
        let majority = (self.peers.len() + 1) / 2 + 1;
        if self.pre_votes_received.len() >= majority {
            self.start_real_election(actions);
        } else {
            assert(actions_view(actions@) =~= actions_view(old(actions)@) + Seq::empty());
        }
    }

    fn handle_request_vote(
        &mut self,
        from: NodeId,
        last_log_index: LogIndex,
        last_log_term: Term,
        actions: &mut Vec<Action>,
    )
        requires
            old(self).inv(),
        ensures
            final(self).inv(),
            final(self).performs(
                old(self),
                final(actions)@,
                old(actions)@,
                model::handle_request_vote(old(self)@, from.0, last_log_index.0, last_log_term.0),
            ),
    {
        let ghost s0 = self@;
        let leader_lease_active = self.leader_id.is_some()
            && self.election_elapsed < self.election_timeout_base;
        let can_vote = match self.voted_for {
            None => true,
            Some(v) => v.0 == from.0,
        };
        let log_ok = self.is_log_up_to_date(last_log_index, last_log_term);
        let grant = can_vote && log_ok && !leader_lease_active;
        if grant {
            self.voted_for = Some(from);
            self.election_elapsed = 0;
            actions.push(Action::PersistHardState { term: self.current_term, voted_for: Some(from) });
        }
        let a = self.message(from, MessageKind::RequestVoteResponse { vote_granted: grant });
        actions.push(a);
        proof {
            let t = model::handle_request_vote(s0, from.0, last_log_index.0, last_log_term.0);
            assert(self@ =~= t.node);
            assert(actions_view(actions@) =~= actions_view(old(actions)@) + t.actions);
        }
    }

    fn handle_request_vote_response(&mut self, from: NodeId, msg_term: Term, vote_granted: bool, actions: &mut Vec<Action>)
        requires
            old(self).inv(),
            last_index_of(old(self)@.log) + 1 < u64::MAX,
        ensures
            final(self).inv(),
            final(self).performs(
                old(self),
                final(actions)@,
                old(actions)@,
                model::handle_request_vote_response(old(self)@, from.0, msg_term.0, vote_granted),
            ),
    {
        if self.role != Role::Candidate || msg_term.0 != self.current_term.0 || !vote_granted {
            assert(actions_view(actions@) =~= actions_view(old(actions)@) + Seq::empty());
            return;
        }
        self.votes_received.insert(from.0);
        let majority = (self.peers.len() + 1) / 2 + 1;
        if self.votes_received.len() >= majority {
            self.become_leader(actions);
        } else {
            assert(actions_view(actions@) =~= actions_view(old(actions)@) + Seq::empty());
        }
    }

    /// The start of the run of entries with term `t` that ends at `prev`.
    fn conflict_run_start(&self, prev: LogIndex, t: Term) -> (r: LogIndex)
        requires
            self.inv(),
        ensures
            r.0 == model::run_start(self@.log, prev.0, t.0),
    {
        let first = self.log.first_index();
        let mut first_idx = prev;
        while first_idx.0 > first.0
            invariant_except_break
                self.inv(),
                first.0 == first_index_of(self@.log),
                model::run_start(self@.log, first_idx.0, t.0) == model::run_start(
                    self@.log,
                    prev.0,
                    t.0,
                ),
            ensures
                model::run_start(self@.log, first_idx.0, t.0) == first_idx.0,
                model::run_start(self@.log, first_idx.0, t.0) == model::run_start(
                    self@.log,
                    prev.0,
                    t.0,
                ),
            decreases first_idx.0,
        {
            let p = first_idx.prev();
            let same = match self.log.term_at(p) {
                Some(pt) => pt.0 == t.0,
                None => false,
            };
            if same {
                first_idx = p;
            } else {
                break;
            }
        }
        first_idx
    }

    /// How many leading entries of `entries` the log already holds with the
    /// same term, and whether each of those has a next index.
    fn matched_prefix(&self, entries: &[LogEntry]) -> (r: (usize, bool))
        requires
            self.inv(),
        ensures
            r.0 == model::matched(self@.log, entries_view(entries@)),
            r.1 == forall|j: int| 0 <= j < r.0 ==> (#[trigger] entries_view(entries@)[j]).index < u64::MAX,
    {
        let ghost es = entries_view(entries@);
        let mut k: usize = 0;
        let mut fits = true;
        while k < entries.len()
            invariant_except_break
                k <= entries@.len(),
                es == entries_view(entries@),
                self.inv(),
                forall|j: int| 0 <= j < k ==> term_at_of(self@.log, (#[trigger] es[j]).index) == Some(es[j].term),
                fits == forall|j: int| 0 <= j < k ==> (#[trigger] es[j]).index < u64::MAX,
            ensures
                k <= entries@.len(),
                forall|j: int| 0 <= j < k ==> term_at_of(self@.log, (#[trigger] es[j]).index) == Some(es[j].term),
                fits == forall|j: int| 0 <= j < k ==> (#[trigger] es[j]).index < u64::MAX,
                k == entries@.len() || term_at_of(self@.log, es[k as int].index) != Some(es[k as int].term),
            decreases entries@.len() - k,
        {
            let e = &entries[k];
            assert(es[k as int] == e@);
            let same = match self.log.term_at(e.index) {
                Some(local_t) => local_t.0 == e.term.0,
                None => false,
            };
            if same {
                if e.index.0 == u64::MAX {
                    fits = false;
                }
                k = k + 1;
            } else {
                break;
            }
        }
        proof {
            model::lemma_matched_split(self@.log, es, k as int);
            if k == entries@.len() {
                assert(es.skip(k as int) =~= Seq::<EntryV>::empty());
            } else {
                assert(es.skip(k as int)[0] == es[k as int]);
            }
        }
        (k, fits)
    }

    /// Drops the incoming entries the log already holds and writes the rest
    /// in place of whatever follows them.
    fn merge_entries(&mut self, entries: Vec<LogEntry>, actions: &mut Vec<Action>)
        requires
            old(self).inv(),
            model::merge_ok(old(self)@.log, entries_view(entries@)),
        ensures
            final(self).inv(),
            final(self).performs(
                old(self),
                final(actions)@,
                old(actions)@,
                model::merge_entries(old(self)@, entries_view(entries@)),
            ),
    {
        let ghost s0 = self@;
        let ghost es = entries_view(entries@);
        if entries.len() == 0 {
            assert(actions_view(actions@) =~= actions_view(old(actions)@) + Seq::empty());
            return;
        }
        let first_index = entries[0].index;
        assert(es[0] == entries@[0]@);
        let (k, _fits) = self.matched_prefix(entries.as_slice());
        proof {
            model::lemma_matched_bound(s0.log, es);
        }
        let attach_idx = if k == 0 {
            first_index
        } else {
            assert(es[k - 1] == entries@[k - 1]@);
            entries[k - 1].index.next()
        };
        assert(attach_idx.0 == model::attach_point(es, k as nat));
        let start_offset = attach_idx.0 - first_index.0;
        if start_offset < entries.len() as u64 {
            let mut entries = entries;
            let suffix = entries.split_off(start_offset as usize);
            let ghost sv = entries_view(suffix@);
            assert(sv =~= es.subrange(start_offset as int, es.len() as int));
            let copy = clone_entries(suffix.as_slice());
            actions.push(Action::TruncateAndAppend { from_index: attach_idx, entries: copy });
            self.log.truncate_and_append(attach_idx, suffix);
            proof {
                let t = model::merge_entries(s0, es);
                assert(self@ =~= t.node);
                assert(actions_view(actions@) =~= actions_view(old(actions)@) + t.actions);
            }
        } else {
            assert(actions_view(actions@) =~= actions_view(old(actions)@) + Seq::empty());
        }
    }

    /// Follows the leader's commit index as far as the local log reaches.
    fn follow_commit(&mut self, leader_commit: LogIndex, actions: &mut Vec<Action>)
        requires
            old(self).inv(),
        ensures
            final(self).inv(),
            final(self).performs(
                old(self),
                final(actions)@,
                old(actions)@,
                model::follow_commit(old(self)@, leader_commit.0),
            ),
    {
        if leader_commit.0 > self.commit_index.0 {
            let last_new_entry_idx = self.log.last_index();
            let new_commit = if leader_commit.0 < last_new_entry_idx.0 {
                leader_commit
            } else {
                last_new_entry_idx
            };
            if new_commit.0 > self.commit_index.0 {
                self.commit_index = new_commit;
                self.apply_committed_entries(actions);
                return;
            }
        }
        assert(actions_view(actions@) =~= actions_view(old(actions)@) + Seq::empty());
    }

    fn handle_append_entries(
        &mut self,
        from: NodeId,
        term: Term,
        prev_log_index: LogIndex,
        prev_log_term: Term,
        entries: Vec<LogEntry>,
        leader_commit: LogIndex,
        actions: &mut Vec<Action>,
    )
        requires
            old(self).inv(),
            term.0 < u64::MAX,
            term.0 >= old(self)@.current_term && term_at_of(old(self)@.log, prev_log_index.0) == Some(
                prev_log_term.0,
            ) ==> model::merge_ok(old(self)@.log, entries_view(entries@)),
        ensures
            final(self).inv(),
            final(self).performs(
                old(self),
                final(actions)@,
                old(actions)@,
                model::handle_append_entries(
                    old(self)@,
                    from.0,
                    term.0,
                    prev_log_index.0,
                    prev_log_term.0,
                    entries_view(entries@),
                    leader_commit.0,
                ),
            ),
    {
        let ghost s0 = self@;
        let ghost es = entries_view(entries@);
        if term.0 < self.current_term.0 {
            let a = self.message(
                from,
                MessageKind::AppendEntriesResponse {
                    success: false,
                    conflict_term: None,
                    conflict_index: None,
                },
            );
            actions.push(a);
            assert(actions_view(actions@) =~= actions_view(old(actions)@) + seq![a@]);
            return;
        }
        self.become_follower(term, Some(from), actions);
        let ghost s1 = self@;
        let ghost a1 = actions@;
        let local_term = self.log.term_at(prev_log_index);
        match local_term {
            None => {
                let last_idx = self.log.last_index();
                let a = self.message(
                    from,
                    MessageKind::AppendEntriesResponse {
                        success: false,
                        conflict_term: None,
                        conflict_index: Some(last_idx.next()),
                    },
                );
                actions.push(a);
                assert(actions_view(actions@) =~= actions_view(a1).push(a@));
                return;
            },
            Some(t) => {
                if t.0 != prev_log_term.0 {
                    let first_idx = self.conflict_run_start(prev_log_index, t);
                    let a = self.message(
                        from,
                        MessageKind::AppendEntriesResponse {
                            success: false,
                            conflict_term: Some(t),
                            conflict_index: Some(first_idx),
                        },
                    );
                    actions.push(a);
                    assert(actions_view(actions@) =~= actions_view(a1).push(a@));
                    return;
                }
            },
        }
        self.merge_entries(entries, actions);
        self.follow_commit(leader_commit, actions);
        let ghost a3 = actions@;
        let a = self.message(
            from,
            MessageKind::AppendEntriesResponse { success: true, conflict_term: None, conflict_index: None },
        );
        actions.push(a);
        proof {
            assert(actions_view(actions@) =~= actions_view(a3).push(a@));
            let t = model::handle_append_entries(
                s0,
                from.0,
                term.0,
                prev_log_index.0,
                prev_log_term.0,
                es,
                leader_commit.0,
            );
            assert(actions_view(actions@) =~= actions_view(old(actions)@) + t.actions);
        }
    }

    /// The highest retained index whose term is `t`.
    fn last_index_with_term(&self, t: Term) -> (r: Option<LogIndex>)
        requires
            self.inv(),
        ensures
            opt_index_view(r) == model::last_with_term(self@.log, t.0, last_index_of(self@.log)),
    {
        let first = self.log.first_index();
        let last = self.log.last_index();
        if last.0 < first.0 {
            return None;
        }
        let mut idx = last.0;
        loop
            invariant
                self.inv(),
                first.0 == first_index_of(self@.log),
                first.0 <= idx,
                model::last_with_term(self@.log, t.0, idx) == model::last_with_term(
                    self@.log,
                    t.0,
                    last_index_of(self@.log),
                ),
            decreases idx,
        {
            let found = match self.log.term_at(LogIndex(idx)) {
                Some(x) => x.0 == t.0,
                None => false,
            };
            if found {
                return Some(LogIndex(idx));
            }
            if idx == first.0 {
                return None;
            }
            idx = idx - 1;
        }
    }

    fn handle_append_entries_response(
        &mut self,
        from: NodeId,
        term: Term,
        success: bool,
        conflict_term: Option<Term>,
        conflict_index: Option<LogIndex>,
        actions: &mut Vec<Action>,
    )
        requires
            old(self).inv(),
        ensures
            final(self).inv(),
            final(self).performs(
                old(self),
                final(actions)@,
                old(actions)@,
                model::handle_append_entries_response(
                    old(self)@,
                    from.0,
                    term.0,
                    success,
                    opt_term_view(conflict_term),
                    opt_index_view(conflict_index),
                ),
            ),
    {
        let ghost s0 = self@;
        if self.role != Role::Leader || term.0 != self.current_term.0 {
            assert(actions_view(actions@) =~= actions_view(old(actions)@) + Seq::empty());
            return;
        }
        if success {
            let next = self.log.last_index().next();
            let match_idx = self.log.last_index();
            self.next_index.insert(from.0, next.0);
            self.match_index.insert(from.0, match_idx.0);
            self.maybe_advance_commit_index(actions);
        } else {
            let mut next = match self.next_index.get(&from.0) {
                Some(n) => LogIndex(*n),
                None => LogIndex(1),
            };
            match conflict_term {
                Some(c_term) => {
                    let last_index_of_term = self.last_index_with_term(c_term);
                    proof {
                        model::lemma_last_with_term_bound(s0.log, c_term.0, last_index_of(s0.log));
                    }
                    match last_index_of_term {
                        Some(last_idx) => {
                            next = last_idx.next();
                        },
                        None => {
                            next = match conflict_index {
                                Some(ci) => ci,
                                None => LogIndex(1),
                            };
                        },
                    }
                },
                None => {
                    match conflict_index {
                        Some(c_index) => {
                            next = c_index;
                        },
                        None => {
                            next = next.prev();
                        },
                    }
                },
            }
            if next.0 == 0 {
                next = LogIndex(1);
            }
            assert(next.0 == model::retry_index(
                s0,
                from.0,
                opt_term_view(conflict_term),
                opt_index_view(conflict_index),
            ));
            self.next_index.insert(from.0, next.0);
            self.replicate_to_peer(from, actions);
            proof {
                let t = model::handle_append_entries_response(
                    s0,
                    from.0,
                    term.0,
                    success,
                    opt_term_view(conflict_term),
                    opt_index_view(conflict_index),
                );
                assert(self@ =~= t.node);
                assert(actions_view(actions@) =~= actions_view(old(actions)@) + t.actions);
            }
        }
    }

    fn handle_install_snapshot(
        &mut self,
        from: NodeId,
        term: Term,
        last_included_index: LogIndex,
        last_included_term: Term,
        data: Vec<u8>,
        done: bool,
        actions: &mut Vec<Action>,
    )
        requires
            old(self).inv(),
            term.0 < u64::MAX,
            last_included_index.0 < u64::MAX,
        ensures
            final(self).inv(),
            final(self).performs(
                old(self),
                final(actions)@,
                old(actions)@,
                model::handle_install_snapshot(
                    old(self)@,
                    from.0,
                    term.0,
                    last_included_index.0,
                    last_included_term.0,
                    data@,
                    done,
                ),
            ),
    {
        let ghost s0 = self@;
        let ghost dv = data@;
        if term.0 < self.current_term.0 {
            let a = self.message(from, MessageKind::InstallSnapshotResponse);
            actions.push(a);
            assert(actions_view(actions@) =~= actions_view(old(actions)@) + seq![a@]);
            return;
        }
        self.become_follower(term, Some(from), actions);
        let ghost a1 = actions@;
        if last_included_index.0 <= self.commit_index.0 {
            let a = self.message(from, MessageKind::InstallSnapshotResponse);
            actions.push(a);
            assert(actions_view(actions@) =~= actions_view(a1).push(a@));
            return;
        }
        if done {
            self.log.install_snapshot(SnapshotMeta { last_included_index, last_included_term });
            self.commit_index = last_included_index;
            self.last_applied = last_included_index;
            actions.push(Action::PersistSnapshot { last_included_index, last_included_term, data });
            assert(actions_view(actions@) =~= actions_view(a1).push(
                ActionView::PersistSnapshot {
                    last_included_index: last_included_index.0,
                    last_included_term: last_included_term.0,
                    data: dv,
                },
            ));
        } else {
            assert(actions_view(actions@) =~= actions_view(a1));
        }
        let ghost a2 = actions@;
        let a = self.message(from, MessageKind::InstallSnapshotResponse);
        actions.push(a);
        proof {
            assert(actions_view(actions@) =~= actions_view(a2).push(a@));
            let t = model::handle_install_snapshot(
                s0,
                from.0,
                term.0,
                last_included_index.0,
                last_included_term.0,
                dv,
                done,
            );
            assert(self@ =~= t.node);
            assert(actions_view(actions@) =~= actions_view(old(actions)@) + t.actions);
        }
    }

    fn handle_install_snapshot_response(&mut self, from: NodeId, term: Term, actions: &mut Vec<Action>)
        requires
            old(self).inv(),
        ensures
            final(self).inv(),
            final(self).performs(
                old(self),
                final(actions)@,
                old(actions)@,
                model::handle_install_snapshot_response(old(self)@, from.0, term.0),
            ),
    {
        if self.role != Role::Leader || term.0 != self.current_term.0 {
            assert(actions_view(actions@) =~= actions_view(old(actions)@) + Seq::empty());
            return;
        }
        let first_idx = self.log.first_index();
        self.match_index.insert(from.0, first_idx.0);
        self.next_index.insert(from.0, first_idx.next().0);
        self.maybe_advance_commit_index(actions);
    }

    /// Handles one incoming message: a newer term first turns this server into
    /// a follower, a stale one is ignored, and the message is then handled by kind.
    pub fn step(&mut self, msg: Message) -> (actions: Vec<Action>)
        requires
            old(self).inv(),
            model::message_fits(msg@),
            model::step_ok(old(self)@, msg@),
            old(self)@.current_term + 1 < u64::MAX,
            last_index_of(old(self)@.log) + 1 < u64::MAX,
        ensures
            final(self).inv(),
            final(self).performs(old(self), actions@, Seq::empty(), model::step(old(self)@, msg@)),
    {
        let ghost s0 = self@;
        let ghost mv = msg@;
        let mut actions: Vec<Action> = Vec::new();
        let is_pre_vote_msg = match &msg.kind {
            MessageKind::PreVote { .. } => true,
            MessageKind::PreVoteResponse { .. } => true,
            _ => false,
        };
        let is_client_msg = match &msg.kind {
            MessageKind::ClientRequest { .. } => true,
            MessageKind::ClientResponse { .. } => true,
            _ => false,
        };
        let from = msg.from;
        let term = msg.term;
        if term.0 > self.current_term.0 && !is_pre_vote_msg && !is_client_msg {
            self.become_follower(term, None, &mut actions);
        } else {
            assert(actions_view(actions@) =~= actions_view(Seq::<Action>::empty()) + Seq::empty());
        }
        let ghost s1 = self@;
        let ghost a1 = actions@;
        if term.0 < self.current_term.0 && !is_pre_vote_msg && !is_client_msg {
            return actions;
        }
        match msg.kind {
            MessageKind::ClientRequest { command } => {
                if self.role == Role::Leader {
                    let mut propose_actions = self.propose(command);
                    let ghost pv = actions_view(propose_actions@);
                    actions.append(&mut propose_actions);
                    let ghost a2 = actions@;
                    assert(actions_view(a2) =~= actions_view(a1) + pv);
                    let a = self.message(
                        from,
                        MessageKind::ClientResponse { success: true, leader_hint: Some(self.id) },
                    );
                    actions.push(a);
                    assert(actions_view(actions@) =~= actions_view(a2).push(a@));
                } else {
                    let a = self.message(
                        from,
                        MessageKind::ClientResponse { success: false, leader_hint: self.leader_id },
                    );
                    actions.push(a);
                    assert(actions_view(actions@) =~= actions_view(a1).push(a@));
                }
            },
            MessageKind::ClientResponse { .. } => {
                assert(actions_view(actions@) =~= actions_view(a1) + Seq::empty());
            },
            MessageKind::PreVote { last_log_index, last_log_term } => {
                self.handle_pre_vote(from, term, last_log_index, last_log_term, &mut actions);
            },
            MessageKind::PreVoteResponse { vote_granted } => {
                self.handle_pre_vote_response(from, term, vote_granted, &mut actions);
            },
            MessageKind::RequestVote { last_log_index, last_log_term } => {
                self.handle_request_vote(from, last_log_index, last_log_term, &mut actions);
            },
            MessageKind::RequestVoteResponse { vote_granted } => {
                self.handle_request_vote_response(from, term, vote_granted, &mut actions);
            },
            MessageKind::AppendEntries { prev_log_index, prev_log_term, entries, leader_commit } => {
                self.handle_append_entries(
                    from,
                    term,
                    prev_log_index,
                    prev_log_term,
                    entries,
                    leader_commit,
                    &mut actions,
                );
            },
            MessageKind::AppendEntriesResponse { success, conflict_term, conflict_index } => {
                self.handle_append_entries_response(
                    from,
                    term,
                    success,
                    conflict_term,
                    conflict_index,
                    &mut actions,
                );
            },
            MessageKind::InstallSnapshot {
                last_included_index,
                last_included_term,
                offset: _,
                data,
                done,
            } => {
                self.handle_install_snapshot(
                    from,
                    term,
                    last_included_index,
                    last_included_term,
                    data,
                    done,
                    &mut actions,
                );
            },
            MessageKind::InstallSnapshotResponse => {
                self.handle_install_snapshot_response(from, term, &mut actions);
            },
        }
        proof {
            let t = model::step(s0, mv);
            assert(actions_view(actions@) =~= actions_view(Seq::<Action>::empty()) + t.actions);
        }
        actions
    }

    /// Whether this server can take `msg`: it lies within the machine's
    /// limits, and an append request it would accept carries entries its log
    /// can merge.
    pub fn accepts(&self, msg: &Message) -> (r: bool)
        requires
            self.inv(),
        ensures
            r == (model::message_fits(msg@) && model::step_ok(self@, msg@)),
    {
        if msg.term.0 >= u64::MAX - 1 {
            return false;
        }
        match &msg.kind {
            MessageKind::InstallSnapshot { last_included_index, .. } => last_included_index.0 < u64::MAX,
            MessageKind::AppendEntries { prev_log_index, prev_log_term, entries, .. } => {
                let ghost es = entries_view(entries@);
                if msg.term.0 < self.current_term.0 {
                    return true;
                }
                let held = match self.log.term_at(*prev_log_index) {
                    Some(t) => t.0 == prev_log_term.0,
                    None => false,
                };
                if !held || entries.len() == 0 {
                    return true;
                }
                let (k, fits) = self.matched_prefix(entries.as_slice());
                if !fits {
                    return false;
                }
                proof {
                    model::lemma_matched_bound(self@.log, es);
                }
                let first = entries[0].index.0;
                assert(es[0] == entries@[0]@);
                let attach: u64 = if k == 0 {
                    first
                } else {
                    assert(es[k - 1] == entries@[k - 1]@);
                    entries[k - 1].index.0 + 1
                };
                if attach < first {
                    return false;
                }
                if attach - first < entries.len() as u64 {
                    let last = entries.len() - 1;
                    assert(es.last() == entries@[last as int]@);
                    self.log.first_index().0 < attach && entries[last].index.0 < u64::MAX
                } else {
                    true
                }
            },
            _ => true,
        }
    }

    /// The term and log leave room for one more election and one more entry,
    /// as handling a message or a tick may need.
    pub fn has_headroom(&self) -> (r: bool)
        requires
            self.inv(),
        ensures
            r == (self@.current_term + 1 < u64::MAX && last_index_of(self@.log) + 1 < u64::MAX),
    {
        self.current_term.0 < u64::MAX - 1 && self.log.last_index().0 < u64::MAX - 1
    }
}

} // verus!

verus! {


} // verus!
