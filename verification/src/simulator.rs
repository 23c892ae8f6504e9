use vstd::prelude::*;
use rand::rngs::SmallRng;
use crate::invariants::{applied_scan, election_scan, SafetyViolation, lemma_election_scan_records, lemma_recorded_leaders_unique, leaders_recorded, logs_match, nodes_view, one_leader_per_term, SafetyInvariants};
use crate::log::{last_index_of, first_index_of, term_at_of, RaftLog};
use crate::node_model as model;
use crate::message::{clone_entries, opt_node_view, Message, MessageView, SnapshotMeta};
use crate::network::{due_count, msgs_view, sends_run, SimNetwork};
use crate::node::{actions_view, config_ok, node_ids_view, Action, ActionView, Config, RaftNode, Role};
use crate::node_model::NodeView;
use crate::rng::{draw_u64, seeded_rng};
use crate::sim_storage::{
    disk_apply, disk_apply_all, gap_fault, kept_before, lemma_refused_stops, lemma_rejected_unique, refusal, refused_at,
    rejected_at, writes_disk, DiskFault, StableDisk,
};
use crate::sim_storage::disk_put_all;
use crate::message::entries_view;
use crate::types::{NodeId, Term};
use crate::text::{decimal, push_decimal};
use vstd::string::StringExecFns;

verus! {

/// The report of a run that has outgrown the tick, term or index counters.
pub open spec fn exhausted_message(node: u64) -> Seq<char> {
    "SIMULATION LIMIT REACHED: node "@ + decimal(node as nat)
        + " has no room left for another tick, term or index"@
}

/// The report of a write to a disk that does not exist.
pub open spec fn missing_disk_message(node: u64) -> Seq<char> {
    "No disk for node "@ + decimal(node as nat)
}

fn exhausted_text(node: u64) -> (r: String)
    ensures
        r@ == exhausted_message(node),
{
    let mut out = String::new();
    out.append("SIMULATION LIMIT REACHED: node ");
    push_decimal(&mut out, node);
    out.append(" has no room left for another tick, term or index");
    out
}

fn missing_disk_text(node: u64) -> (r: String)
    ensures
        r@ == missing_disk_message(node),
{
    let mut out = String::new();
    out.append("No disk for node ");
    push_decimal(&mut out, node);
    out
}

/// The bytes a server's compacted prefix is persisted as in the simulation:
/// the text `snapshot-data-compaction`.
pub open spec fn compaction_bytes() -> Seq<u8> {
    seq![
        115u8, 110, 97, 112, 115, 104, 111, 116, 45, 100, 97, 116, 97, 45, 99, 111, 109, 112, 97,
        99, 116, 105, 111, 110,
    ]
}

/// The bytes a server's compacted prefix is persisted as in the simulation.
fn compaction_data() -> (r: Vec<u8>)
    ensures
        r@ == compaction_bytes(),
{
    vec![
        115u8, 110, 97, 112, 115, 104, 111, 116, 45, 100, 97, 116, 97, 45, 99, 111, 109, 112, 97,
        99, 116, 105, 111, 110,
    ]
}

/// A deterministic, seeded simulation of a cluster: servers, their disks, the
/// network between them, and a checker of the safety properties after every step.
pub struct Simulator {
    pub seed: u64,
    rng: SmallRng,
    nodes: Vec<RaftNode>,
    disks: Vec<StableDisk>,
    network: SimNetwork,
    invariants: SafetyInvariants,
    tick_count: u64,
    node_configs: Vec<Config>,
    fault: Option<String>,
}

/// The server has room for one more term and one more entry.
pub open spec fn has_room(n: NodeView) -> bool {
    n.current_term + 1 < u64::MAX && last_index_of(n.log) + 1 < u64::MAX
}

/// Compaction of a server's log up to its commit index, at the term held
/// there (0 where the log does not hold it), with the simulation's data.
pub open spec fn compaction_of(n: NodeView) -> model::Transition {
    let t: u64 = match term_at_of(n.log, n.commit_index) {
        Some(t) => t,
        None => 0,
    };
    model::compact_logs(n, n.commit_index, t, compaction_bytes())
}

/// The ids `1..=n`, in order.
pub open spec fn first_ids(n: nat) -> Seq<u64> {
    Seq::new(n, |i: int| (i + 1) as u64)
}

/// Whether an id is other than `id`.
pub open spec fn not_id(id: u64) -> spec_fn(u64) -> bool {
    |x: u64| x != id
}

/// The ids `1..=n` but `id`, in order.
pub open spec fn other_ids(n: nat, id: u64) -> Seq<u64> {
    first_ids(n).filter(not_id(id))
}

/// Server `id` of a cluster of `n` as it first starts: every other id as a
/// peer, term 0, no vote, a log holding only the sentinel, nothing committed
/// or applied, a follower with an election timeout of 15 ticks and
/// heartbeats every 4.
pub open spec fn fresh_node(n: nat, id: u64) -> NodeView {
    NodeView {
        id,
        peers: other_ids(n, id),
        current_term: 0,
        voted_for: None,
        log: seq![crate::log::sentinel_view(0, 0)],
        commit_index: 0,
        last_applied: 0,
        role: Role::Follower,
        next_index: Map::empty(),
        match_index: Map::empty(),
        election_timeout_base: 15,
        election_elapsed: 0,
        heartbeat_interval: 4,
        heartbeat_elapsed: 0,
        votes_received: Set::empty(),
        pre_votes_received: Set::empty(),
        leader_id: None,
    }
}

/// The log a server restarts with from disk `d`: the snapshot point's
/// sentinel followed by the entries stored after the disk's own sentinel.
pub open spec fn restored_log(d: StableDisk) -> Seq<crate::message::EntryView> {
    seq![crate::log::sentinel_view(d.snapshot_point_view().0, d.snapshot_point_view().1)] + d.entries().skip(1)
}

/// A server restarted with settings `c` from disk `d`: the disk's term, vote
/// and log, committed and applied up to the snapshot point, a follower.
pub open spec fn restored_node(c: Config, d: StableDisk) -> NodeView {
    NodeView {
        id: c.id.0,
        peers: node_ids_view(c.peers@),
        current_term: d.current_term.0,
        voted_for: opt_node_view(d.voted_for),
        log: restored_log(d),
        commit_index: d.snapshot_point_view().0,
        last_applied: d.snapshot_point_view().0,
        role: Role::Follower,
        next_index: Map::empty(),
        match_index: Map::empty(),
        election_timeout_base: c.election_timeout_ticks,
        election_elapsed: 0,
        heartbeat_interval: c.heartbeat_interval_ticks,
        heartbeat_elapsed: 0,
        votes_received: Set::empty(),
        pre_votes_received: Set::empty(),
        leader_id: None,
    }
}

/// The messages due by tick `t` in queue `q`, in delivery order.
pub open spec fn due_msgs(q: Seq<(u64, MessageView)>, t: u64) -> Seq<MessageView> {
    q.take(due_count(q, t)).map_values(|s: (u64, MessageView)| s.1)
}

/// The messages among `acts` that are to be sent, in order.
pub open spec fn sent_msgs(acts: Seq<ActionView>) -> Seq<MessageView>
    decreases acts.len(),
{
    if acts.len() == 0 {
        Seq::empty()
    } else {
        let p = sent_msgs(acts.drop_last());
        match acts.last() {
            ActionView::Send(m) => p.push(m),
            _ => p,
        }
    }
}

/// The ids of the servers, in order.
pub open spec fn live_ids(ns: Seq<NodeView>) -> Seq<u64> {
    ns.map_values(|n: NodeView| n.id)
}

impl Simulator {
    /// The live servers, in the order they are ticked.
    pub closed spec fn live(&self) -> Seq<NodeView> {
        nodes_view(self.nodes@)
    }

    /// The leader recorded for each term by the safety checks so far.
    pub closed spec fn leaders_seen(&self) -> Map<u64, u64> {
        self.invariants.leaders()
    }

    /// The entry recorded as applied at each index by the safety checks so far.
    pub closed spec fn applied_seen(&self) -> Map<u64, (u64, Seq<u8>)> {
        self.invariants.applied()
    }

    /// A fault met while handling a proposal, to be reported by the next step.
    pub closed spec fn pending_fault(&self) -> Option<String> {
        self.fault
    }

    /// The number of ticks run so far.
    pub closed spec fn ticks(&self) -> u64 {
        self.tick_count
    }

    /// The seed the simulation was built from.
    pub closed spec fn seed_value(&self) -> u64 {
        self.seed
    }

    /// The disks, in the order of the configured servers.
    pub closed spec fn disks_view(&self) -> Seq<StableDisk> {
        self.disks@
    }

    /// The ids of the configured servers, in order.
    pub closed spec fn configured_ids(&self) -> Seq<NodeId> {
        self.node_configs@.map_values(|c: Config| c.id)
    }

    /// The simulation's internal invariant.
    pub closed spec fn wf(&self) -> bool {
        &&& forall|i: int| 0 <= i < self.nodes@.len() ==> (#[trigger] self.nodes@[i]).inv()
        &&& forall|i: int, j: int|
            0 <= i < j < self.nodes@.len() ==> (#[trigger] self.nodes@[i])@.id != (
            #[trigger] self.nodes@[j])@.id
        &&& self.disks@.len() == self.node_configs@.len()
        &&& forall|i: int|
            0 <= i < self.disks@.len() ==> (#[trigger] self.disks@[i]).entries().len() >= 1
                && self.disks@[i].node_id == self.node_configs@[i].id
        &&& forall|i: int| 0 <= i < self.node_configs@.len() ==> config_ok(#[trigger] self.node_configs@[i])
        &&& forall|i: int, j: int|
            0 <= i < j < self.node_configs@.len() ==> (#[trigger] self.node_configs@[i]).id != (
            #[trigger] self.node_configs@[j]).id
    }

    fn node_position(&self, id: NodeId) -> (r: Option<usize>)
        ensures
            r matches Some(p) ==> p < self.nodes@.len() && self.nodes@[p as int]@.id == id.0,
            r is None ==> forall|i: int| 0 <= i < self.nodes@.len() ==> (#[trigger] self.nodes@[i])@.id != id.0,
    {
        let mut i: usize = 0;
        while i < self.nodes.len()
            invariant
                i <= self.nodes@.len(),
                forall|j: int| 0 <= j < i ==> (#[trigger] self.nodes@[j])@.id != id.0,
            decreases self.nodes@.len() - i,
        {
            if self.nodes[i].id().0 == id.0 {
                return Some(i);
            }
            i = i + 1;
        }
        None
    }

    fn config_position(&self, id: NodeId) -> (r: Option<usize>)
        ensures
            r matches Some(p) ==> p < self.node_configs@.len() && self.node_configs@[p as int].id == id,
            r is None ==> forall|i: int|
                0 <= i < self.node_configs@.len() ==> (#[trigger] self.node_configs@[i]).id != id,
    {
        let mut i: usize = 0;
        while i < self.node_configs.len()
            invariant
                i <= self.node_configs@.len(),
                forall|j: int| 0 <= j < i ==> (#[trigger] self.node_configs@[j]).id != id,
            decreases self.node_configs@.len() - i,
        {
            if self.node_configs[i].id.0 == id.0 {
                return Some(i);
            }
            i = i + 1;
        }
        None
    }

    /// Server `from` asked for `acts`: its disk writes were made in turn on its
    /// disk, which `after` holds (no other disk changed), and `r` is `Ok`
    /// exactly when every write could be made; otherwise it reports the first
    /// write that could not, or that `from` has no disk.  The messages it asked
    /// to send, up to that first failure, went to the network in turn.
    pub closed spec fn writes_done(
        self,
        after: Simulator,
        from: NodeId,
        acts: Seq<ActionView>,
        r: Result<(), String>,
    ) -> bool {
        &&& after.node_configs@ == self.node_configs@
        &&& after.disks@.len() == self.disks@.len()
        &&& if self.configured(from) {
            let k = self.place(from);
            let dv = self.disks@[k].disk_view();
            &&& forall|j: int| 0 <= j < self.disks@.len() && j != k ==> after.disks@[j] == self.disks@[j]
            &&& after.disks@[k].node_id == self.disks@[k].node_id
            &&& (r is Ok <==> disk_apply_all(dv, acts) is Some)
            &&& (r is Ok ==> after.disks@[k].disk_view() == disk_apply_all(dv, acts)->0)
            &&& (r matches Err(e) ==> exists|j: int|
                refused_at(dv, acts, j) && e@ == refusal(
                    disk_apply_all(dv, #[trigger] acts.take(j))->0,
                    acts[j],
                    from,
                ).message())
        } else {
            &&& after.disks@ == self.disks@
            &&& (r is Ok <==> forall|i: int| 0 <= i < acts.len() ==> !writes_disk(#[trigger] acts[i]))
            &&& (r matches Err(e) ==> e@ == missing_disk_message(from.0))
        }
        &&& exists|n: int|
            0 <= n <= acts.len() && #[trigger] sends_run(
                self.network,
                self.tick_count,
                self.network.queue(),
                sent_msgs(acts.take(n)),
                after.network.queue(),
            ) && (r is Ok ==> n == acts.len()) && (r is Err ==> if self.configured(from) {
                refused_at(self.disks@[self.place(from)].disk_view(), acts, n)
            } else {
                n < acts.len() && writes_disk(acts[n]) && forall|j: int|
                    0 <= j < n ==> !writes_disk(#[trigger] acts[j])
            })
    }

    /// The live servers, the disks, the network and the clock are as in `self`.
    pub closed spec fn same_servers(self, after: Simulator) -> bool {
        &&& after.nodes@ == self.nodes@
        &&& after.disks@ == self.disks@
        &&& after.node_configs@ == self.node_configs@
        &&& after.network == self.network
        &&& after.tick_count == self.tick_count
    }

    /// What server `from` asking for `acts` does depends only on the disks,
    /// the network and the clock, and only the disks and the network of the
    /// outcome are concerned.
    proof fn lemma_writes_done_frame(
        self,
        s: Simulator,
        after: Simulator,
        after2: Simulator,
        from: NodeId,
        acts: Seq<ActionView>,
        r: Result<(), String>,
    )
        requires
            self.writes_done(after, from, acts, r),
            s.disks == self.disks,
            s.node_configs == self.node_configs,
            s.network == self.network,
            s.tick_count == self.tick_count,
            after2.disks == after.disks,
            after2.node_configs == after.node_configs,
            after2.network == after.network,
        ensures
            s.writes_done(after2, from, acts, r),
    {
        let n = choose|n: int|
            0 <= n <= acts.len() && #[trigger] sends_run(
                self.network,
                self.tick_count,
                self.network.queue(),
                sent_msgs(acts.take(n)),
                after.network.queue(),
            ) && (r is Ok ==> n == acts.len()) && (r is Err ==> if self.configured(from) {
                refused_at(self.disks@[self.place(from)].disk_view(), acts, n)
            } else {
                n < acts.len() && writes_disk(acts[n]) && forall|j: int|
                    0 <= j < n ==> !writes_disk(#[trigger] acts[j])
            });
        assert(s.configured(from) == self.configured(from));
        assert(s.place(from) == self.place(from));
        assert(sends_run(
            s.network,
            s.tick_count,
            s.network.queue(),
            sent_msgs(acts.take(n)),
            after2.network.queue(),
        ));
    }

    /// Message `msg` was delivered: the live server it is addressed to, if
    /// any, took it (or, with a message it cannot take or no room left, the
    /// delivery failed) and its writes went to its disk.
    pub closed spec fn delivery(self, after: Simulator, msg: MessageView, r: Result<(), String>) -> bool {
        &&& after.node_configs@ == self.node_configs@
        &&& (forall|p: int| 0 <= p < self.live().len() ==> self.live()[p].id != msg.to) ==> (r is Ok
            && self.same_servers(after))
        &&& forall|p: int|
            0 <= p < self.live().len() && self.live()[p].id == msg.to ==> if has_room(
                #[trigger] self.live()[p],
            ) && model::message_fits(msg) && model::step_ok(self.live()[p], msg) {
                &&& after.live() == self.live().update(p, model::step(self.live()[p], msg).node)
                &&& self.writes_done(after, NodeId(msg.to), model::step(self.live()[p], msg).actions, r)
            } else {
                &&& r matches Err(e) && e@ == exhausted_message(msg.to)
                &&& self.same_servers(after)
            }
    }

    /// Server `id`, if live, ticked (or, with no room left, the tick failed)
    /// and its writes went to its disk.
    pub closed spec fn ticking(self, after: Simulator, id: u64, r: Result<(), String>) -> bool {
        &&& after.node_configs@ == self.node_configs@
        &&& (forall|p: int| 0 <= p < self.live().len() ==> self.live()[p].id != id) ==> (r is Ok
            && self.same_servers(after))
        &&& forall|p: int|
            0 <= p < self.live().len() && self.live()[p].id == id ==> if has_room(
                #[trigger] self.live()[p],
            ) {
                &&& after.live() == self.live().update(
                    p,
                    model::tick(self.live()[p], self.nodes@[p].election_timeout()).node,
                )
                &&& self.writes_done(
                    after,
                    NodeId(id),
                    model::tick(self.live()[p], self.nodes@[p].election_timeout()).actions,
                    r,
                )
            } else {
                &&& r matches Err(e) && e@ == exhausted_message(id)
                &&& self.same_servers(after)
            }
    }

    /// Server `id`, if live and holding more than 15 entries, compacted its log
    /// up to its commit index and its writes went to its disk.
    pub closed spec fn compaction(self, after: Simulator, id: u64, r: Result<(), String>) -> bool {
        &&& after.node_configs@ == self.node_configs@
        &&& (forall|p: int| 0 <= p < self.live().len() ==> self.live()[p].id != id) ==> (r is Ok
            && self.same_servers(after))
        &&& forall|p: int|
            0 <= p < self.live().len() && self.live()[p].id == id ==> if (
            #[trigger] self.live()[p]).log.len() <= 16 {
                &&& r is Ok
                &&& self.same_servers(after)
            } else {
                &&& after.live() == self.live().update(p, compaction_of(self.live()[p]).node)
                &&& self.writes_done(after, NodeId(id), compaction_of(self.live()[p]).actions, r)
            }
    }

    /// The messages `msgs` were delivered in turn, stopping at the first
    /// delivery that failed, whose error is `r`.
    pub closed spec fn deliveries(self, after: Simulator, msgs: Seq<MessageView>, r: Result<(), String>) -> bool
        decreases msgs.len(),
    {
        if msgs.len() == 0 {
            r is Ok && self.same_servers(after)
        } else {
            exists|mid: Simulator, r1: Result<(), String>|
                #[trigger] self.delivery(mid, msgs[0], r1) && if r1 is Err {
                    r == r1 && mid.same_servers(after)
                } else {
                    mid.deliveries(after, msgs.drop_first(), r)
                }
        }
    }

    /// The servers `ids` ticked in turn, stopping at the first tick that
    /// failed, whose error is `r`.
    pub closed spec fn tickings(self, after: Simulator, ids: Seq<u64>, r: Result<(), String>) -> bool
        decreases ids.len(),
    {
        if ids.len() == 0 {
            r is Ok && self.same_servers(after)
        } else {
            exists|mid: Simulator, r1: Result<(), String>|
                #[trigger] self.ticking(mid, ids[0], r1) && if r1 is Err {
                    r == r1 && mid.same_servers(after)
                } else {
                    mid.tickings(after, ids.drop_first(), r)
                }
        }
    }

    /// The servers `ids` compacted in turn, stopping at the first compaction
    /// that failed, whose error is `r`.
    pub closed spec fn compactions(self, after: Simulator, ids: Seq<u64>, r: Result<(), String>) -> bool
        decreases ids.len(),
    {
        if ids.len() == 0 {
            r is Ok && self.same_servers(after)
        } else {
            exists|mid: Simulator, r1: Result<(), String>|
                #[trigger] self.compaction(mid, ids[0], r1) && if r1 is Err {
                    r == r1 && mid.same_servers(after)
                } else {
                    mid.compactions(after, ids.drop_first(), r)
                }
        }
    }

    proof fn lemma_same_transitive(self, b: Simulator, c: Simulator)
        requires
            self.same_servers(b),
            b.same_servers(c),
        ensures
            self.same_servers(c),
    {
    }

    /// Delivering one more message after a run of deliveries that succeeded
    /// extends the run.
    #[verifier::rlimit(80)]
    #[verifier::spinoff_prover]
    proof fn lemma_deliveries_snoc(
        self,
        cur: Simulator,
        next: Simulator,
        msgs: Seq<MessageView>,
        ok: Result<(), String>,
        x: MessageView,
        r: Result<(), String>,
    )
        requires
            ok is Ok,
            self.deliveries(cur, msgs, ok),
            cur.delivery(next, x, r),
        ensures
            self.deliveries(next, msgs.push(x), r),
        decreases msgs.len(),
    {
        if msgs.len() == 0 {
            assert(self.delivery(next, x, r));
            assert(next.same_servers(next));
            assert(msgs.push(x).drop_first() =~= Seq::<MessageView>::empty());
            assert(msgs.push(x)[0] == x);
            if r is Ok {
                assert(next.deliveries(next, Seq::<MessageView>::empty(), r));
            }
            assert(self.delivery(next, msgs.push(x)[0], r));
        } else {
            let (mid, r0) = choose|mid: Simulator, r0: Result<(), String>|
                #[trigger] self.delivery(mid, msgs[0], r0) && if r0 is Err {
                    ok == r0 && mid.same_servers(cur)
                } else {
                    mid.deliveries(cur, msgs.drop_first(), ok)
                };
            mid.lemma_deliveries_snoc(cur, next, msgs.drop_first(), ok, x, r);
            assert(msgs.push(x).drop_first() =~= msgs.drop_first().push(x));
            assert(msgs.push(x)[0] == msgs[0]);
        }
    }

    /// Ticking one more server after a run of ticks that succeeded extends the run.
    proof fn lemma_tickings_snoc(
        self,
        cur: Simulator,
        next: Simulator,
        ids: Seq<u64>,
        ok: Result<(), String>,
        x: u64,
        r: Result<(), String>,
    )
        requires
            ok is Ok,
            self.tickings(cur, ids, ok),
            cur.ticking(next, x, r),
        ensures
            self.tickings(next, ids.push(x), r),
        decreases ids.len(),
    {
        if ids.len() == 0 {
            assert(self.ticking(next, x, r));
            assert(next.same_servers(next));
            assert(ids.push(x).drop_first() =~= Seq::<u64>::empty());
            assert(ids.push(x)[0] == x);
            if r is Ok {
                assert(next.tickings(next, Seq::<u64>::empty(), r));
            }
            assert(self.ticking(next, ids.push(x)[0], r));
        } else {
            let (mid, r0) = choose|mid: Simulator, r0: Result<(), String>|
                #[trigger] self.ticking(mid, ids[0], r0) && if r0 is Err {
                    ok == r0 && mid.same_servers(cur)
                } else {
                    mid.tickings(cur, ids.drop_first(), ok)
                };
            mid.lemma_tickings_snoc(cur, next, ids.drop_first(), ok, x, r);
            assert(ids.push(x).drop_first() =~= ids.drop_first().push(x));
            assert(ids.push(x)[0] == ids[0]);
        }
    }

    /// Compacting one more server after a run of compactions that succeeded extends the run.
    proof fn lemma_compactions_snoc(
        self,
        cur: Simulator,
        next: Simulator,
        ids: Seq<u64>,
        ok: Result<(), String>,
        x: u64,
        r: Result<(), String>,
    )
        requires
            ok is Ok,
            self.compactions(cur, ids, ok),
            cur.compaction(next, x, r),
        ensures
            self.compactions(next, ids.push(x), r),
        decreases ids.len(),
    {
        if ids.len() == 0 {
            assert(self.compaction(next, x, r));
            assert(next.same_servers(next));
            assert(ids.push(x).drop_first() =~= Seq::<u64>::empty());
            assert(ids.push(x)[0] == x);
            if r is Ok {
                assert(next.compactions(next, Seq::<u64>::empty(), r));
            }
            assert(self.compaction(next, ids.push(x)[0], r));
        } else {
            let (mid, r0) = choose|mid: Simulator, r0: Result<(), String>|
                #[trigger] self.compaction(mid, ids[0], r0) && if r0 is Err {
                    ok == r0 && mid.same_servers(cur)
                } else {
                    mid.compactions(cur, ids.drop_first(), ok)
                };
            mid.lemma_compactions_snoc(cur, next, ids.drop_first(), ok, x, r);
            assert(ids.push(x).drop_first() =~= ids.drop_first().push(x));
            assert(ids.push(x)[0] == ids[0]);
        }
    }

    /// Client command `cmd` was handed to the first live leader, if any, and
    /// `r` tells whether there was one.  With room for another entry and
    /// another tick, the leader's log took the command and its writes went to
    /// its disk, a write its disk could not take becoming the pending fault;
    /// without room, the pending fault reports that.  With no leader nothing
    /// changed.
    pub closed spec fn proposal(self, after: Simulator, cmd: Seq<u8>, r: bool) -> bool {
        &&& after.tick_count == self.tick_count
        &&& after.invariants == self.invariants
        &&& (r <==> exists|p: int| 0 <= p < self.live().len() && #[trigger] self.live()[p].role == Role::Leader)
        &&& (!r ==> after == self)
        &&& forall|p: int|
            0 <= p < self.live().len() && #[trigger] self.live()[p].role == Role::Leader && (forall|q: int|
                0 <= q < p ==> self.live()[q].role != Role::Leader) ==> if has_room(self.live()[p])
                && self.room_for_tick() {
                &&& after.live() == self.live().update(p, model::propose(self.live()[p], cmd).node)
                &&& exists|res: Result<(), String>|
                    #[trigger] self.writes_done(
                        after,
                        NodeId(self.live()[p].id),
                        model::propose(self.live()[p], cmd).actions,
                        res,
                    ) && after.fault == match res {
                        Ok(_) => self.fault,
                        Err(e) => Some(e),
                    }
            } else {
                &&& self.same_servers(after)
                &&& after.fault matches Some(f) && f@ == exhausted_message(self.live()[p].id)
            }
    }

    /// There is room for one more tick: deliveries scheduled during it fit in the counter.
    pub closed spec fn room_for_tick(self) -> bool {
        self.tick_count + self.network.max_delay() + 4 <= u64::MAX
    }

    /// One tick run from `self` to `after` with result `r`: the messages due
    /// at the next tick were delivered in turn; then every server live after
    /// that ticked in turn; then every server live after that compacted in
    /// turn; each stage stopping at the first failure, whose error is `r`;
    /// and otherwise `r` is `Ok` exactly when the safety checks pass.
    pub closed spec fn tick_run(self, after: Simulator, r: Result<(), String>) -> bool {
        let due = due_msgs(self.network.queue(), (self.tick_count + 1) as u64);
        exists|s0: Simulator, k: int, a: Simulator, ra: Result<(), String>|
            self.drained_to(s0) && 0 <= k <= due.len() && #[trigger] s0.deliveries(a, due.take(k), ra) && (
            ra is Err ==> r == ra && a.same_servers(after)) && (ra is Ok ==> k == due.len()
                && a.after_deliveries(after, r, self.leaders_seen(), self.applied_seen()))
    }

    /// `s0` is `self` one tick later, with the messages due at that tick
    /// taken out of the network.
    pub closed spec fn drained_to(self, s0: Simulator) -> bool {
        let q = self.network.queue();
        &&& s0.nodes@ == self.nodes@
        &&& s0.disks@ == self.disks@
        &&& s0.node_configs@ == self.node_configs@
        &&& s0.tick_count == self.tick_count + 1
        &&& s0.network.queue() == q.skip(due_count(q, (self.tick_count + 1) as u64))
        &&& s0.network.cut_links() == self.network.cut_links()
        &&& s0.network.max_delay() == self.network.max_delay()
        &&& s0.network.loss_coin() == self.network.loss_coin()
        &&& s0.network.duplication_coin() == self.network.duplication_coin()
    }

    /// The rest of a tick run from `self` once the due messages are delivered:
    /// every live server ticked in turn, stopping at the first failure, then
    /// the compactions and safety checks, against the records `leaders` and
    /// `applied` taken before the tick.
    pub closed spec fn after_deliveries(
        self,
        after: Simulator,
        r: Result<(), String>,
        leaders: Map<u64, u64>,
        applied: Map<u64, (u64, Seq<u8>)>,
    ) -> bool {
        let ids = live_ids(self.live());
        exists|k: int, b: Simulator, rb: Result<(), String>|
            0 <= k <= ids.len() && #[trigger] self.tickings(b, ids.take(k), rb) && (rb is Err ==> r == rb
                && b.same_servers(after)) && (rb is Ok ==> k == ids.len() && b.after_ticks(
                after,
                r,
                leaders,
                applied,
            ))
    }

    /// The rest of a tick run from `self` once every server ticked: every live
    /// server compacted in turn, stopping at the first failure; otherwise `r`
    /// is `Ok` exactly when the safety checks against `leaders` and `applied`
    /// pass on the servers as they then stand.
    pub closed spec fn after_ticks(
        self,
        after: Simulator,
        r: Result<(), String>,
        leaders: Map<u64, u64>,
        applied: Map<u64, (u64, Seq<u8>)>,
    ) -> bool {
        let ids = live_ids(self.live());
        exists|k: int, c: Simulator, rc: Result<(), String>|
            0 <= k <= ids.len() && #[trigger] self.compactions(c, ids.take(k), rc) && (rc is Err ==> r
                == rc && c.same_servers(after)) && (rc is Ok ==> k == ids.len() && c.same_servers(after)
                && (r is Ok <==> (election_scan(leaders, after.live()).1 is None && logs_match(after.live())
                && applied_scan(applied, after.live()).1 is None)))
    }

    /// Carries out what a server asked for: messages go to the network, log
    /// and hard-state writes go to its disk.  A write its disk cannot take is
    /// reported as an error.
    #[verifier::rlimit(60)]
    fn process_actions(&mut self, from_id: NodeId, actions: Vec<Action>) -> (r: Result<(), String>)
        requires
            old(self).wf(),
            old(self).tick_count + old(self).network.max_delay() + 3 <= u64::MAX,
        ensures
            final(self).wf(),
            final(self).nodes == old(self).nodes,
            final(self).tick_count == old(self).tick_count,
            final(self).network.max_delay() == old(self).network.max_delay(),
            final(self).network.cut_links() == old(self).network.cut_links(),
            final(self).network.loss_coin() == old(self).network.loss_coin(),
            final(self).network.duplication_coin() == old(self).network.duplication_coin(),
            final(self).fault == old(self).fault,
            final(self).invariants == old(self).invariants,
            old(self).writes_done(*final(self), from_id, actions_view(actions@), r),
    {
        let ghost acts = actions_view(actions@);
        let ghost configured = self.configured(from_id);
        let ghost k = self.place(from_id);
        let ghost dv = self.disks@[k].disk_view();
        let mut i: usize = 0;
        while i < actions.len()
            invariant
                self.wf(),
                self.nodes == old(self).nodes,
                self.tick_count == old(self).tick_count,
                self.network.max_delay() == old(self).network.max_delay(),
                self.network.cut_links() == old(self).network.cut_links(),
                self.network.loss_coin() == old(self).network.loss_coin(),
                self.network.duplication_coin() == old(self).network.duplication_coin(),
                self.fault == old(self).fault,
                self.invariants == old(self).invariants,
                self.tick_count + self.network.max_delay() + 3 <= u64::MAX,
                i <= actions@.len(),
                sends_run(
                    old(self).network,
                    old(self).tick_count,
                    old(self).network.queue(),
                    sent_msgs(acts.take(i as int)),
                    self.network.queue(),
                ),
                acts == actions_view(actions@),
                configured == old(self).configured(from_id),
                k == old(self).place(from_id),
                self.node_configs == old(self).node_configs,
                self.disks@.len() == old(self).disks@.len(),
                configured ==> 0 <= k < self.disks@.len() && dv == old(self).disks@[k].disk_view(),
                configured ==> forall|j: int|
                    0 <= j < self.disks@.len() && j != k ==> self.disks@[j] == old(self).disks@[j],
                configured ==> self.disks@[k].node_id == old(self).disks@[k].node_id,
                configured ==> disk_apply_all(dv, acts.take(i as int)) == Some(self.disks@[k].disk_view()),
                !configured ==> self.disks == old(self).disks,
                !configured ==> forall|j: int| 0 <= j < i ==> !writes_disk(#[trigger] acts[j]),
            decreases actions@.len() - i,
        {
            proof {
                assert(acts.take(i + 1).drop_last() =~= acts.take(i as int));
                assert(acts.take(i + 1).last() == acts[i as int]);
                assert(acts[i as int] == actions@[i as int]@);
            }
            proof {
                if !(acts[i as int] is Send) {
                    assert(sent_msgs(acts.take(i + 1)) == sent_msgs(acts.take(i as int)));
                }
            }
            match &actions[i] {
                Action::Send(msg) => {
                    let ghost q = self.network.queue();
                    let ghost mv = msg@;
                    self.network.send(msg.clone(), self.tick_count, &mut self.rng);
                    proof {
                        assert(sent_msgs(acts.take(i + 1)) == sent_msgs(acts.take(i as int)).push(mv));
                        assert(sent_msgs(acts.take(i + 1)).drop_last() =~= sent_msgs(acts.take(i as int)));
                    }
                },
                Action::Apply { .. } => {},
                _ => {
                    let d = match self.config_position(from_id) {
                        Some(d) => d,
                        None => {
                            proof {
                                assert(!self.configured(from_id));
                                assert(writes_disk(acts[i as int]));
                            }
                            return Err(missing_disk_text(from_id.0));
                        },
                    };
                    proof {
                        assert(self.configured_ids()[d as int] == from_id);
                        self.lemma_place_unique(from_id, d as int);
                        assert(self.configured(from_id));
                    }
                    let ghost before = self.disks@;
                    let ghost cur = self.disks@[k].disk_view();
                    let mut disk = self.disks.remove(d);
                    assert(disk.entries().len() >= 1);
                    assert(disk.node_id == from_id);
                    let res: Result<(), String> = match &actions[i] {
                        Action::AppendEntries { entries } => match disk.try_append_entries(
                            entries.as_slice(),
                        ) {
                            Ok(()) => Ok(()),
                            Err(f) => {
                                proof {
                                    let j = choose|j: int|
                                        rejected_at(cur.entries, entries_view(entries@), j) && Err::<
                                            (),
                                            DiskFault,
                                        >(f) == Err::<(), DiskFault>(
                                            gap_fault(cur.entries, entries_view(entries@), j, from_id),
                                        ) && disk.entries() == disk_put_all(
                                            cur.entries,
                                            #[trigger] entries_view(entries@).take(j),
                                        );
                                    lemma_rejected_unique(cur.entries, entries_view(entries@), j);
                                }
                                let m = f.describe();
                                proof {
                                    assert(m@ == refusal(cur, acts[i as int], from_id).message());
                                    assert(disk_apply(cur, acts[i as int]) is None);
                                }
                                Err(m)
                            },
                        },
                        Action::TruncateAndAppend { from_index, entries } => match disk.try_truncate_and_append(
                            *from_index,
                            entries.as_slice(),
                        ) {
                            Ok(()) => Ok(()),
                            Err(f) => {
                                proof {
                                    if from_index.0 > cur.entries[0].index {
                                        let kb = kept_before(cur.entries, from_index.0);
                                        let j = choose|j: int|
                                            rejected_at(kb, entries_view(entries@), j) && Err::<
                                                (),
                                                DiskFault,
                                            >(f) == Err::<(), DiskFault>(
                                                gap_fault(kb, entries_view(entries@), j, from_id),
                                            ) && disk.entries() == disk_put_all(
                                                kb,
                                                #[trigger] entries_view(entries@).take(j),
                                            );
                                        lemma_rejected_unique(kb, entries_view(entries@), j);
                                    }
                                }
                                let m = f.describe();
                                proof {
                                    assert(m@ == refusal(cur, acts[i as int], from_id).message());
                                    assert(disk_apply(cur, acts[i as int]) is None);
                                }
                                Err(m)
                            },
                        },
                        Action::PersistHardState { term, voted_for } => {
                            disk.write_hard_state(*term, *voted_for);
                            Ok(())
                        },
                        Action::PersistSnapshot { last_included_index, last_included_term, data } => {
                            disk.write_snapshot(
                                SnapshotMeta {
                                    last_included_index: *last_included_index,
                                    last_included_term: *last_included_term,
                                },
                                data.clone(),
                            );
                            Ok(())
                        },
                        _ => Ok(()),
                    };
                    self.disks.insert(d, disk);
                    proof {
                        assert forall|j: int| 0 <= j < self.disks@.len() implies (
                        #[trigger] self.disks@[j]).entries().len() >= 1 && self.disks@[j].node_id
                            == self.node_configs@[j].id by {
                            if j != d {
                                assert(self.disks@[j] == before[j]);
                            }
                        }
                        assert forall|j: int| 0 <= j < self.disks@.len() && j != k implies self.disks@[j]
                            == old(self).disks@[j] by {
                            assert(self.disks@[j] == before[j]);
                        }
                    }
                    match res {
                        Ok(()) => {},
                        Err(e) => {
                            proof {
                                assert(refused_at(dv, acts, i as int));
                                lemma_refused_stops(dv, acts, i as int);
                                assert(e@ == refusal(
                                    disk_apply_all(dv, acts.take(i as int))->0,
                                    acts[i as int],
                                    from_id,
                                ).message());
                            }
                            return Err(e);
                        },
                    }
                },
            }
            i = i + 1;
        }
        proof {
            assert(acts.take(acts.len() as int) =~= acts);
        }
        Ok(())
    }

    /// Whether the simulation has room for one more tick: deliveries scheduled
    /// during it must fit in the tick counter.
    fn tick_room(&self) -> (r: bool)
        ensures
            r == (self.tick_count + self.network.max_delay() + 4 <= u64::MAX),
    {
        self.tick_count <= u64::MAX - 4 && self.network.max_delay_ticks() <= u64::MAX - 4 - self.tick_count
    }

    /// Hands a message to the live server it is addressed to, if any, and
    /// carries out what that server asks for.
    fn deliver(&mut self, msg: Message) -> (r: Result<(), String>)
        requires
            old(self).wf(),
            old(self).tick_count + old(self).network.max_delay() + 3 <= u64::MAX,
        ensures
            final(self).wf(),
            final(self).tick_count == old(self).tick_count,
            final(self).network.max_delay() == old(self).network.max_delay(),
            final(self).network.cut_links() == old(self).network.cut_links(),
            final(self).fault == old(self).fault,
            final(self).invariants == old(self).invariants,
            final(self).node_configs@ == old(self).node_configs@,
            old(self).delivery(*final(self), msg@, r),
    {
        let to_id = msg.to;
        let ghost mv = msg@;
        match self.node_position(to_id) {
            None => Ok(()),
            Some(p) => {
                let ghost before = self.nodes@;
                proof {
                    self.lemma_live_unique(p as int);
                }
                let mut node = self.nodes.remove(p);
                assert(node == before[p as int]);
                if !node.has_headroom() || !node.accepts(&msg) {
                    self.nodes.insert(p, node);
                    proof { self.lemma_nodes_restored(before, p as int); }
                    return Err(exhausted_text(to_id.0));
                }
                let ghost n0 = node@;
                let actions = node.step(msg);
                self.nodes.insert(p, node);
                proof {
                    self.lemma_nodes_replaced(before, p as int);
                    assert(self.nodes@ =~= before.update(p as int, node));
                    assert(self.live() =~= old(self).live().update(p as int, model::step(n0, mv).node));
                    assert(actions_view(actions@) =~= model::step(n0, mv).actions) by {
                        assert(actions_view(Seq::<Action>::empty()) =~= Seq::<ActionView>::empty());
                        assert(Seq::<ActionView>::empty() + model::step(n0, mv).actions =~= model::step(
                            n0,
                            mv,
                        ).actions);
                    }
                }
                let ghost mid = *self;
                let r = self.process_actions(to_id, actions);
                proof {
                    mid.lemma_writes_done_frame(*old(self), *self, *self, to_id, model::step(n0, mv).actions, r);
                }
                r
            },
        }
    }

    /// Only the server at place `p` among the live ones has its id.
    proof fn lemma_live_unique(&self, p: int)
        requires
            self.wf(),
            0 <= p < self.nodes@.len(),
        ensures
            forall|q: int| 0 <= q < self.live().len() && self.live()[q].id == self.live()[p].id ==> q == p,
            self.live().len() == self.nodes@.len(),
            forall|q: int| 0 <= q < self.live().len() ==> #[trigger] self.live()[q] == self.nodes@[q]@,
    {
        assert forall|q: int| 0 <= q < self.live().len() && self.live()[q].id == self.live()[p].id implies q
            == p by {
            assert(self.live()[q] == self.nodes@[q]@);
            assert(self.live()[p] == self.nodes@[p]@);
            if q < p {
                assert(self.nodes@[q]@.id != self.nodes@[p]@.id);
            } else if p < q {
                assert(self.nodes@[p]@.id != self.nodes@[q]@.id);
            }
        }
    }

    proof fn lemma_nodes_restored(&self, before: Seq<RaftNode>, p: int)
        requires
            0 <= p < before.len(),
            self.nodes@ == before.remove(p).insert(p, before[p]),
        ensures
            self.nodes@ == before,
    {
        assert(self.nodes@ =~= before);
    }

    proof fn lemma_nodes_replaced(&self, before: Seq<RaftNode>, p: int)
        requires
            0 <= p < before.len(),
            self.nodes@.len() == before.len(),
            forall|k: int| 0 <= k < before.len() && k != p ==> self.nodes@[k] == before[k],
            forall|i: int| 0 <= i < before.len() ==> (#[trigger] before[i]).inv(),
            forall|i: int, j: int| 0 <= i < j < before.len() ==> (#[trigger] before[i])@.id != (#[trigger] before[j])@.id,
            self.nodes@[p].inv(),
            self.nodes@[p]@.id == before[p]@.id,
        ensures
            forall|i: int| 0 <= i < self.nodes@.len() ==> (#[trigger] self.nodes@[i]).inv(),
            forall|i: int, j: int|
                0 <= i < j < self.nodes@.len() ==> (#[trigger] self.nodes@[i])@.id != (
                #[trigger] self.nodes@[j])@.id,
    {
        assert forall|i: int| 0 <= i < self.nodes@.len() implies (#[trigger] self.nodes@[i]).inv() by {
            if i != p {
                assert(self.nodes@[i] == before[i]);
            }
        }
        assert forall|i: int, j: int| 0 <= i < j < self.nodes@.len() implies (
        #[trigger] self.nodes@[i])@.id != (#[trigger] self.nodes@[j])@.id by {
            assert(self.nodes@[i]@.id == before[i]@.id);
            assert(self.nodes@[j]@.id == before[j]@.id);
        }
    }

    /// Ticks the live server with id `id`, if any, and carries out what it asks for.
    fn tick_node(&mut self, id: NodeId) -> (r: Result<(), String>)
        requires
            old(self).wf(),
            old(self).tick_count + old(self).network.max_delay() + 3 <= u64::MAX,
        ensures
            final(self).wf(),
            final(self).tick_count == old(self).tick_count,
            final(self).network.max_delay() == old(self).network.max_delay(),
            final(self).network.cut_links() == old(self).network.cut_links(),
            final(self).fault == old(self).fault,
            final(self).invariants == old(self).invariants,
            final(self).node_configs@ == old(self).node_configs@,
            old(self).ticking(*final(self), id.0, r),
    {
        match self.node_position(id) {
            None => Ok(()),
            Some(p) => {
                let ghost before = self.nodes@;
                proof {
                    self.lemma_live_unique(p as int);
                }
                let mut node = self.nodes.remove(p);
                assert(node == before[p as int]);
                if !node.has_headroom() {
                    self.nodes.insert(p, node);
                    proof { self.lemma_nodes_restored(before, p as int); }
                    return Err(exhausted_text(id.0));
                }
                let ghost n0 = node@;
                let ghost to = node.election_timeout();
                let actions = node.tick();
                self.nodes.insert(p, node);
                proof {
                    self.lemma_nodes_replaced(before, p as int);
                    assert(self.nodes@ =~= before.update(p as int, node));
                    assert(self.live() =~= old(self).live().update(p as int, model::tick(n0, to).node));
                    assert(actions_view(actions@) =~= model::tick(n0, to).actions) by {
                        assert(actions_view(Seq::<Action>::empty()) =~= Seq::<ActionView>::empty());
                        assert(Seq::<ActionView>::empty() + model::tick(n0, to).actions =~= model::tick(
                            n0,
                            to,
                        ).actions);
                    }
                }
                let ghost mid = *self;
                let r = self.process_actions(id, actions);
                proof {
                    mid.lemma_writes_done_frame(*old(self), *self, *self, id, model::tick(n0, to).actions, r);
                }
                r
            },
        }
    }

    /// Compacts the log of the live server with id `id` up to its commit
    /// index once it holds more than 15 entries, and carries out what it asks for.
    fn compact_node(&mut self, id: NodeId) -> (r: Result<(), String>)
        requires
            old(self).wf(),
            old(self).tick_count + old(self).network.max_delay() + 3 <= u64::MAX,
        ensures
            final(self).wf(),
            final(self).tick_count == old(self).tick_count,
            final(self).network.max_delay() == old(self).network.max_delay(),
            final(self).network.cut_links() == old(self).network.cut_links(),
            final(self).fault == old(self).fault,
            final(self).invariants == old(self).invariants,
            final(self).node_configs@ == old(self).node_configs@,
            old(self).compaction(*final(self), id.0, r),
    {
        match self.node_position(id) {
            None => Ok(()),
            Some(p) => {
                let ghost before = self.nodes@;
                proof {
                    self.lemma_live_unique(p as int);
                }
                let mut node = self.nodes.remove(p);
                assert(node == before[p as int]);
                if node.log().len() <= 15 {
                    self.nodes.insert(p, node);
                    proof { self.lemma_nodes_restored(before, p as int); }
                    return Ok(());
                }
                let ghost n0 = node@;
                let commit_idx = node.commit_index();
                let commit_term = match node.log().term_at(commit_idx) {
                    Some(t) => t,
                    None => Term(0),
                };
                let actions = node.compact_logs(commit_idx, commit_term, compaction_data());
                self.nodes.insert(p, node);
                proof {
                    self.lemma_nodes_replaced(before, p as int);
                    assert(self.nodes@ =~= before.update(p as int, node));
                    assert(self.live() =~= old(self).live().update(p as int, compaction_of(n0).node));
                    assert(actions_view(actions@) =~= compaction_of(n0).actions) by {
                        assert(actions_view(Seq::<Action>::empty()) =~= Seq::<ActionView>::empty());
                        assert(Seq::<ActionView>::empty() + compaction_of(n0).actions =~= compaction_of(
                            n0,
                        ).actions);
                    }
                }
                let ghost mid = *self;
                let r = self.process_actions(id, actions);
                proof {
                    mid.lemma_writes_done_frame(*old(self), *self, *self, id, compaction_of(n0).actions, r);
                }
                r
            },
        }
    }

    /// The ids of the live servers, in order.
    fn alive_ids(&self) -> (r: Vec<NodeId>)
        ensures
            r@.len() == self.nodes@.len(),
            forall|i: int| 0 <= i < r@.len() ==> (#[trigger] r@[i]).0 == self.nodes@[i]@.id,
    {
        let mut r: Vec<NodeId> = Vec::new();
        let mut i: usize = 0;
        while i < self.nodes.len()
            invariant
                i <= self.nodes@.len(),
                r@.len() == i,
                forall|k: int| 0 <= k < i ==> (#[trigger] r@[k]).0 == self.nodes@[k]@.id,
            decreases self.nodes@.len() - i,
        {
            r.push(self.nodes[i].id());
            i = i + 1;
        }
        r
    }

    /// Delivers `deliveries` in turn, stopping at the first that fails.
    #[verifier::rlimit(50)]
    fn deliver_all(&mut self, deliveries: &Vec<Message>) -> (r: Result<(), String>)
        requires
            old(self).wf(),
            old(self).tick_count + old(self).network.max_delay() + 3 <= u64::MAX,
        ensures
            final(self).wf(),
            final(self).tick_count == old(self).tick_count,
            final(self).network.max_delay() == old(self).network.max_delay(),
            final(self).fault == old(self).fault,
            final(self).invariants == old(self).invariants,
            exists|k: int|
                0 <= k <= deliveries@.len() && #[trigger] old(self).deliveries(
                    *final(self),
                    msgs_view(deliveries@).take(k),
                    r,
                ) && (r is Ok ==> k == deliveries@.len()),
    {
        let ghost due = msgs_view(deliveries@);
        proof {
            assert(due.take(0) =~= Seq::<MessageView>::empty());
        }
        let mut done: Result<(), String> = Ok(());
        let mut i: usize = 0;
        while i < deliveries.len()
            invariant
                self.wf(),
                self.tick_count == old(self).tick_count,
                self.network.max_delay() == old(self).network.max_delay(),
                self.fault == old(self).fault,
                self.invariants == old(self).invariants,
                self.tick_count + self.network.max_delay() + 3 <= u64::MAX,
                i <= deliveries@.len(),
                due == msgs_view(deliveries@),
                due.len() == deliveries@.len(),
                done is Ok,
                old(self).deliveries(*self, due.take(i as int), done),
            decreases deliveries@.len() - i,
        {
            let msg = deliveries[i].clone();
            let ghost cur = *self;
            let res = self.deliver(msg);
            proof {
                old(self).lemma_deliveries_snoc(cur, *self, due.take(i as int), done, due[i as int], res);
                assert(due.take(i as int).push(due[i as int]) =~= due.take(i + 1));
            }
            if res.is_err() {
                return res;
            }
            done = res;
            i = i + 1;
        }
        done
    }

    /// Ticks every live server in turn, stopping at the first tick that fails.
    fn tick_all(&mut self) -> (r: Result<(), String>)
        requires
            old(self).wf(),
            old(self).tick_count + old(self).network.max_delay() + 3 <= u64::MAX,
        ensures
            final(self).wf(),
            final(self).tick_count == old(self).tick_count,
            final(self).network.max_delay() == old(self).network.max_delay(),
            final(self).fault == old(self).fault,
            final(self).invariants == old(self).invariants,
            exists|k: int|
                0 <= k <= live_ids(old(self).live()).len() && #[trigger] old(self).tickings(
                    *final(self),
                    live_ids(old(self).live()).take(k),
                    r,
                ) && (r is Ok ==> k == live_ids(old(self).live()).len()),
    {
        let alive = self.alive_ids();
        let ghost ids = live_ids(old(self).live());
        proof {
            assert(ids.take(0) =~= Seq::<u64>::empty());
        }
        let mut done: Result<(), String> = Ok(());
        let mut k: usize = 0;
        while k < alive.len()
            invariant
                self.wf(),
                self.tick_count == old(self).tick_count,
                self.network.max_delay() == old(self).network.max_delay(),
                self.fault == old(self).fault,
                self.invariants == old(self).invariants,
                self.tick_count + self.network.max_delay() + 3 <= u64::MAX,
                k <= alive@.len(),
                ids == live_ids(old(self).live()),
                alive@.len() == ids.len(),
                forall|j: int| 0 <= j < alive@.len() ==> (#[trigger] alive@[j]).0 == ids[j],
                done is Ok,
                old(self).tickings(*self, ids.take(k as int), done),
            decreases alive@.len() - k,
        {
            let ghost cur = *self;
            let res = self.tick_node(alive[k]);
            proof {
                old(self).lemma_tickings_snoc(cur, *self, ids.take(k as int), done, ids[k as int], res);
                assert(ids.take(k as int).push(ids[k as int]) =~= ids.take(k + 1));
            }
            if res.is_err() {
                return res;
            }
            done = res;
            k = k + 1;
        }
        done
    }

    /// Compacts every live server in turn, stopping at the first that fails.
    fn compact_all(&mut self) -> (r: Result<(), String>)
        requires
            old(self).wf(),
            old(self).tick_count + old(self).network.max_delay() + 3 <= u64::MAX,
        ensures
            final(self).wf(),
            final(self).tick_count == old(self).tick_count,
            final(self).network.max_delay() == old(self).network.max_delay(),
            final(self).fault == old(self).fault,
            final(self).invariants == old(self).invariants,
            exists|k: int|
                0 <= k <= live_ids(old(self).live()).len() && #[trigger] old(self).compactions(
                    *final(self),
                    live_ids(old(self).live()).take(k),
                    r,
                ) && (r is Ok ==> k == live_ids(old(self).live()).len()),
    {
        let alive = self.alive_ids();
        let ghost ids = live_ids(old(self).live());
        proof {
            assert(ids.take(0) =~= Seq::<u64>::empty());
        }
        let mut done: Result<(), String> = Ok(());
        let mut k: usize = 0;
        while k < alive.len()
            invariant
                self.wf(),
                self.tick_count == old(self).tick_count,
                self.network.max_delay() == old(self).network.max_delay(),
                self.fault == old(self).fault,
                self.invariants == old(self).invariants,
                self.tick_count + self.network.max_delay() + 3 <= u64::MAX,
                k <= alive@.len(),
                ids == live_ids(old(self).live()),
                alive@.len() == ids.len(),
                forall|j: int| 0 <= j < alive@.len() ==> (#[trigger] alive@[j]).0 == ids[j],
                done is Ok,
                old(self).compactions(*self, ids.take(k as int), done),
            decreases alive@.len() - k,
        {
            let ghost cur = *self;
            let res = self.compact_node(alive[k]);
            proof {
                old(self).lemma_compactions_snoc(cur, *self, ids.take(k as int), done, ids[k as int], res);
                assert(ids.take(k as int).push(ids[k as int]) =~= ids.take(k + 1));
            }
            if res.is_err() {
                return res;
            }
            done = res;
            k = k + 1;
        }
        done
    }

    /// Runs one tick: delivers the messages now due, ticks every live server,
    /// compacts long logs, then checks the safety properties.  An error reports
    /// a safety violation, a write a disk could not take, or a server that ran
    /// out of room for another term or index.
    #[verifier::spinoff_prover]
    #[verifier::rlimit(40)]
    pub fn step(&mut self) -> (r: Result<(), String>)
        requires
            old(self).wf(),
        ensures
            final(self).wf(),
            old(self).pending_fault() matches Some(f) ==> r == Err::<(), String>(f),
            old(self).pending_fault() is None && !old(self).room_for_tick() ==> (r matches Err(e)
                && e@ == exhausted_message(0)),
            old(self).pending_fault() is None && old(self).room_for_tick() ==> old(self).tick_run(
                *final(self),
                r,
            ),
            r is Ok ==> final(self).ticks() == old(self).ticks() + 1,
            r is Ok ==> logs_match(final(self).live()),
            r is Ok ==> election_scan(old(self).leaders_seen(), final(self).live()) == (
                final(self).leaders_seen(),
                None::<SafetyViolation>,
            ),
            r is Ok ==> applied_scan(old(self).applied_seen(), final(self).live()) == (
                final(self).applied_seen(),
                None::<SafetyViolation>,
            ),
            r is Ok ==> old(self).leaders_seen().submap_of(final(self).leaders_seen()),
            r is Ok ==> leaders_recorded(final(self).leaders_seen(), final(self).live()),
            r is Ok ==> one_leader_per_term(final(self).live()),
    {
        if self.fault.is_some() {
            let f = match self.fault.take() {
                Some(f) => f,
                None => String::new(),
            };
            return Err(f);
        }
        if !self.tick_room() {
            return Err(exhausted_text(0));
        }
        self.tick_count = self.tick_count + 1;
        let tick = self.tick_count;
        let deliveries = self.network.drain_due(tick);
        let ghost ltop = old(self).leaders_seen();
        let ghost atop = old(self).applied_seen();
        proof {
            assert(msgs_view(deliveries@) == due_msgs(old(self).network.queue(), (old(self).tick_count + 1) as u64));
            assert(old(self).drained_to(*self));
        }
        let ghost s0 = *self;
        let r1 = self.deliver_all(&deliveries);
        if let Err(e) = r1 {
            proof {
                assert(old(self).tick_run(*self, Err(e)));
            }
            return Err(e);
        }
        let ghost a = *self;
        let r2 = self.tick_all();
        if let Err(e) = r2 {
            proof {
                assert(a.after_deliveries(*self, Err(e), ltop, atop));
                assert(old(self).tick_run(*self, Err(e)));
            }
            return Err(e);
        }
        let ghost b = *self;
        let r3 = self.compact_all();
        if let Err(e) = r3 {
            proof {
                assert(b.after_ticks(*self, Err(e), ltop, atop));
                assert(a.after_deliveries(*self, Err(e), ltop, atop));
                assert(old(self).tick_run(*self, Err(e)));
            }
            return Err(e);
        }
        let ghost c = *self;
        let ghost pre = self.invariants.leaders();
        let res = self.invariants.verify_safety(self.nodes.as_slice());
        proof {
            lemma_election_scan_records(pre, nodes_view(self.nodes@));
            if res is Ok {
                lemma_recorded_leaders_unique(self.invariants.leaders(), nodes_view(self.nodes@));
            }
        }
        let r = match res {
            Ok(()) => Ok(()),
            Err(v) => Err(v.describe()),
        };
        proof {
            assert(c.same_servers(*self));
            assert(b.after_ticks(*self, r, ltop, atop));
            assert(a.after_deliveries(*self, r, ltop, atop));
            assert(old(self).tick_run(*self, r));
        }
        r
    }

    /// Builds a cluster of `num_nodes` servers with ids `1..=num_nodes`, each
    /// with a blank disk, an election timeout of 15 ticks, heartbeats every 4
    /// ticks, and a generator seed drawn from the simulation's seeded
    /// generator; then starts every server from its disk.
    pub fn new(seed: u64, num_nodes: usize) -> (r: Simulator)
        requires
            num_nodes < usize::MAX,
        ensures
            r.wf(),
            r.seed_value() == seed,
            r.ticks() == 0,
            live_ids(r.live()) == Seq::new(num_nodes as nat, |i: int| (i + 1) as u64),
            r.live().len() == num_nodes,
            forall|k: int| 0 <= k < num_nodes ==> #[trigger] r.live()[k] == fresh_node(num_nodes as nat, (k + 1) as u64),
            r.disks_view().len() == num_nodes,
            forall|k: int| 0 <= k < num_nodes ==> (#[trigger] r.disks_view()[k]).is_blank(),
            r.net().queue() == Seq::<(u64, MessageView)>::empty(),
            r.net().cut_links() == Set::<(u64, u64)>::empty(),
            r.net().max_delay() == 3,
            r.net().loss_coin().is_never(),
            r.net().duplication_coin().is_never(),
            r.leaders_seen() == Map::<u64, u64>::empty(),
            r.applied_seen() == Map::<u64, (u64, Seq<u8>)>::empty(),
            r.pending_fault() is None,
    {
        let mut rng = seeded_rng(seed);
        let mut node_ids: Vec<NodeId> = Vec::new();
        let mut i: usize = 1;
        while i <= num_nodes
            invariant
                1 <= i <= num_nodes + 1,
                num_nodes < usize::MAX,
                node_ids@.len() == i - 1,
                forall|k: int| 0 <= k < node_ids@.len() ==> (#[trigger] node_ids@[k]).0 == k + 1,
            decreases num_nodes + 1 - i,
        {
            node_ids.push(NodeId(i as u64));
            assert(node_ids@[i - 1].0 == i);
            i = i + 1;
        }
        let mut disks: Vec<StableDisk> = Vec::new();
        let mut node_configs: Vec<Config> = Vec::new();
        let mut j: usize = 0;
        while j < node_ids.len()
            invariant
                j <= node_ids@.len(),
                node_ids@.len() == num_nodes,
                num_nodes < usize::MAX,
                forall|k: int| 0 <= k < node_ids@.len() ==> (#[trigger] node_ids@[k]).0 == k + 1,
                disks@.len() == j,
                forall|k: int| 0 <= k < j ==> (#[trigger] disks@[k]).is_blank(),
                node_configs@.len() == j,
                forall|k: int| 0 <= k < j ==> (#[trigger] node_configs@[k]).id == node_ids@[k],
                forall|k: int|
                    0 <= k < j ==> (#[trigger] disks@[k]).entries().len() >= 1 && disks@[k].node_id
                        == node_configs@[k].id,
                forall|k: int| 0 <= k < j ==> config_ok(#[trigger] node_configs@[k]),
                forall|k: int|
                    0 <= k < j ==> node_ids_view((#[trigger] node_configs@[k]).peers@) == other_ids(
                        num_nodes as nat,
                        (k + 1) as u64,
                    ) && node_configs@[k].election_timeout_ticks == 15
                        && node_configs@[k].heartbeat_interval_ticks == 4,
            decreases node_ids@.len() - j,
        {
            let id = node_ids[j];
            disks.push(StableDisk::new(id));
            let mut peers: Vec<NodeId> = Vec::new();
            let ghost all = first_ids(num_nodes as nat);
            let ghost keep = not_id(id.0);
            proof {
                reveal(Seq::filter);
                assert(all.take(0) =~= Seq::<u64>::empty());
                assert(node_ids_view(peers@) =~= all.take(0).filter(keep));
            }
            let mut q: usize = 0;
            while q < node_ids.len()
                invariant
                    q <= node_ids@.len(),
                    node_ids@.len() == num_nodes,
                    num_nodes < usize::MAX,
                    peers@.len() <= q,
                    forall|k: int| 0 <= k < node_ids@.len() ==> (#[trigger] node_ids@[k]).0 == k + 1,
                    all == first_ids(num_nodes as nat),
                    keep == not_id(id.0),
                    node_ids_view(peers@) == all.take(q as int).filter(keep),
                decreases node_ids@.len() - q,
            {
                proof {
                    reveal(Seq::filter);
                    assert(all.take(q + 1).drop_last() =~= all.take(q as int));
                    assert(all.take(q + 1).last() == node_ids@[q as int].0);
                }
                if node_ids[q].0 != id.0 {
                    peers.push(node_ids[q]);
                    proof {
                        assert(node_ids_view(peers@) =~= node_ids_view(peers@.drop_last()).push(node_ids@[q as int].0));
                    }
                }
                q = q + 1;
            }
            proof {
                assert(all.take(num_nodes as int) =~= all);
                assert(id.0 == j + 1);
            }
            let rng_seed = draw_u64(&mut rng);
            node_configs.push(
                Config {
                    id,
                    peers,
                    election_timeout_ticks: 15,
                    heartbeat_interval_ticks: 4,
                    rng_seed,
                },
            );
            j = j + 1;
        }
        let mut sim = Simulator {
            seed,
            rng,
            nodes: Vec::new(),
            disks,
            network: SimNetwork::new(),
            invariants: SafetyInvariants::new(),
            tick_count: 0,
            node_configs,
            fault: None,
        };
        let mut c: usize = 0;
        proof {
            assert(live_ids(sim.live()) =~= Seq::new(0, |i: int| (i + 1) as u64));
        }
        while c < num_nodes
            invariant
                sim.wf(),
                sim.seed_value() == seed,
                sim.ticks() == 0,
                c <= num_nodes,
                num_nodes < usize::MAX,
                sim.configured_ids().len() == num_nodes,
                sim.disks_view().len() == num_nodes,
                forall|k: int| 0 <= k < num_nodes ==> (#[trigger] sim.configured_ids()[k]).0 == k + 1,
                forall|k: int| 0 <= k < num_nodes ==> (#[trigger] sim.disks_view()[k]).is_blank(),
                live_ids(sim.live()) == Seq::new(c as nat, |i: int| (i + 1) as u64),
                sim.live().len() == c,
                forall|k: int| 0 <= k < c ==> #[trigger] sim.live()[k] == fresh_node(num_nodes as nat, (k + 1) as u64),
                forall|k: int|
                    0 <= k < num_nodes ==> node_ids_view((#[trigger] sim.config_at(k)).peers@) == other_ids(
                        num_nodes as nat,
                        (k + 1) as u64,
                    ) && sim.config_at(k).election_timeout_ticks == 15
                        && sim.config_at(k).heartbeat_interval_ticks == 4 && sim.config_at(k).id.0 == k + 1,
                sim.net().queue() == Seq::<(u64, MessageView)>::empty(),
                sim.net().cut_links() == Set::<(u64, u64)>::empty(),
                sim.net().max_delay() == 3,
                sim.net().loss_coin().is_never(),
                sim.net().duplication_coin().is_never(),
                sim.leaders_seen() == Map::<u64, u64>::empty(),
                sim.applied_seen() == Map::<u64, (u64, Seq<u8>)>::empty(),
                sim.pending_fault() is None,
            decreases num_nodes - c,
        {
            let id = NodeId((c + 1) as u64);
            proof {
                sim.lemma_configured_at(c as int);
                assert(sim.configured_ids()[c as int].0 == c + 1);
                assert(sim.configured(id));
                assert(sim.place(id) == c as int) by {
                    sim.lemma_place_unique(id, c as int);
                }
                assert(sim.disk(c as int) == sim.disks_view()[c as int]);
                let ids = live_ids(sim.live());
                assert(ids.len() == c);
                assert(sim.live().len() == c);
                assert forall|p: int| 0 <= p < sim.live().len() implies sim.live()[p].id != id.0 by {
                    assert(ids[p] == sim.live()[p].id);
                    assert(ids[p] == p + 1);
                }
            }
            let ghost before = sim;
            proof {
                let d = sim.disk(c as int);
                assert(d.entries().skip(1) =~= Seq::<crate::message::EntryView>::empty());
                assert(restored_log(d) =~= seq![crate::log::sentinel_view(0, 0)]);
                assert(restored_node(sim.config_at(c as int), d) == fresh_node(num_nodes as nat, (c + 1) as u64));
            }
            sim.spawn_node(id);
            proof {
                assert(live_ids(sim.live()) =~= Seq::new((c + 1) as nat, |i: int| (i + 1) as u64));
                assert(sim.live() == before.live().push(fresh_node(num_nodes as nat, (c + 1) as u64)));
            }
            c = c + 1;
        }
        sim
    }

    /// Whether a server with id `id` is configured.
    pub closed spec fn configured(&self, id: NodeId) -> bool {
        exists|k: int| 0 <= k < self.node_configs@.len() && (#[trigger] self.node_configs@[k]).id == id
    }

    /// The disk of the configured server at place `k`.
    pub closed spec fn disk(&self, k: int) -> StableDisk {
        self.disks@[k]
    }

    /// The settings of the configured server at place `k`.
    pub closed spec fn config_at(&self, k: int) -> Config {
        self.node_configs@[k]
    }

    /// The place of server `id` among the configured ones.
    pub closed spec fn place(&self, id: NodeId) -> int {
        choose|k: int| 0 <= k < self.node_configs@.len() && (#[trigger] self.node_configs@[k]).id == id
    }

    /// (Re)starts server `id` from its disk: its log is the disk's snapshot
    /// point followed by the entries stored after the disk's base, and its
    /// commit and applied indices are the snapshot point.  A running server of
    /// that id is replaced.  A disk whose term or indices leave no room to run
    /// is not started from.
    pub fn spawn_node(&mut self, id: NodeId)
        requires
            old(self).wf(),
            old(self).configured(id),
        ensures
            final(self).wf(),
            final(self).ticks() == old(self).ticks(),
            final(self).disks_view() == old(self).disks_view(),
            final(self).configured_ids() == old(self).configured_ids(),
            forall|k: int| #[trigger] final(self).config_at(k) == old(self).config_at(k),
            final(self).seed_value() == old(self).seed_value(),
            final(self).net() == old(self).net(),
            final(self).leaders_seen() == old(self).leaders_seen(),
            final(self).applied_seen() == old(self).applied_seen(),
            final(self).pending_fault() == old(self).pending_fault(),
            ({
                let d = old(self).disk(old(self).place(id));
                let restored = seq![
                    crate::log::sentinel_view(
                        d.snapshot_point_view().0,
                        d.snapshot_point_view().1,
                    ),
                ] + d.entries().skip(1);
                let ok = d.current_term.0 < u64::MAX && last_index_of(restored) < u64::MAX
                    && first_index_of(restored) < u64::MAX;
                &&& !ok ==> final(self).live() == old(self).live()
                &&& ok ==> {
                    &&& (exists|p: int| 0 <= p < old(self).live().len() && old(self).live()[p].id == id.0)
                        ==> live_ids(final(self).live()) == live_ids(old(self).live())
                    &&& (forall|p: int| 0 <= p < old(self).live().len() ==> old(self).live()[p].id != id.0)
                        ==> live_ids(final(self).live()) == live_ids(old(self).live()).push(id.0)
                    &&& exists|p: int|
                        0 <= p < final(self).live().len() && final(self).live()[p].id == id.0
                            && final(self).live()[p].current_term == d.current_term.0
                            && final(self).live()[p].log == restored
                            && final(self).live()[p].commit_index == d.snapshot_point_view().0
                            && final(self).live()[p].last_applied == d.snapshot_point_view().0
                    &&& (forall|p: int| 0 <= p < old(self).live().len() ==> old(self).live()[p].id != id.0)
                        ==> final(self).live() == old(self).live().push(
                        restored_node(old(self).config_at(old(self).place(id)), d),
                    )
                    &&& forall|p: int|
                        0 <= p < old(self).live().len() && old(self).live()[p].id == id.0
                            ==> final(self).live() == old(self).live().update(
                            p,
                            restored_node(old(self).config_at(old(self).place(id)), d),
                        )
                }
            }),
    {
        let c = match self.config_position(id) {
            Some(c) => c,
            None => {
                proof {
                    let k = choose|k: int|
                        0 <= k < self.node_configs@.len() && (#[trigger] self.node_configs@[k]).id == id;
                    assert(self.node_configs@[k].id != id);
                }
                return;
            },
        };
        proof {
            let k = self.place(id);
            assert(0 <= k < self.node_configs@.len() && self.node_configs@[k].id == id);
            if k != c {
                if k < c {
                    assert(self.node_configs@[k].id != self.node_configs@[c as int].id);
                } else {
                    assert(self.node_configs@[c as int].id != self.node_configs@[k].id);
                }
            }
            assert(k == c);
        }
        let config = self.node_configs[c].clone();
        let disk = &self.disks[c];
        let (meta, commit) = disk.snapshot_point();
        let stored = disk.log_entries.len();
        assert(disk.entries().len() >= 1);
        let rest = clone_entries(vstd::slice::slice_subrange(disk.log_entries.as_slice(), 1, stored));
        assert(crate::message::entries_view(rest@) =~= disk.entries().skip(1));
        let log = RaftLog::restore(meta, rest);
        let ghost restored = log@;
        if !(disk.current_term.0 < u64::MAX && log.last_index().0 < u64::MAX && log.first_index().0
            < u64::MAX) {
            return;
        }
        proof {
            let d = old(self).disk(old(self).place(id));
            assert(d == *disk);
            assert(restored == seq![
                crate::log::sentinel_view(d.snapshot_point_view().0, d.snapshot_point_view().1),
            ] + d.entries().skip(1));
        }
        let node = RaftNode::restore(config, disk.current_term, disk.voted_for, log, commit, commit);
        let ghost nv = node@;
        assert(nv == restored_node(old(self).config_at(old(self).place(id)), old(self).disk(old(self).place(id))));
        assert(nv.current_term == disk.current_term.0 && nv.log == restored && nv.commit_index == commit.0
            && nv.last_applied == commit.0 && nv.id == id.0);
        match self.node_position(id) {
            Some(p) => {
                let ghost before = self.nodes@;
                proof {
                    self.lemma_live_unique(p as int);
                }
                let _old = self.nodes.remove(p);
                self.nodes.insert(p, node);
                proof {
                    self.lemma_nodes_replaced(before, p as int);
                    assert(live_ids(self.live()) =~= live_ids(nodes_view(before)));
                    assert(self.live()[p as int] == nv);
                    assert(old(self).live()[p as int].id == id.0);
                    assert(self.live() =~= old(self).live().update(p as int, nv));
                }
            },
            None => {
                let ghost before = self.nodes@;
                self.nodes.push(node);
                proof {
                    assert(self.live() =~= nodes_view(before).push(nv));
                    assert(self.live() =~= old(self).live().push(nv));
                    assert(live_ids(self.live()) =~= live_ids(nodes_view(before)).push(id.0));
                    assert(self.live()[before.len() as int] == nv);
                    assert forall|i: int, j: int| 0 <= i < j < self.nodes@.len() implies (
                    #[trigger] self.nodes@[i])@.id != (#[trigger] self.nodes@[j])@.id by {
                        if j == before.len() {
                            assert(before[i]@.id != id.0);
                        } else {
                            assert(self.nodes@[i] == before[i] && self.nodes@[j] == before[j]);
                        }
                    }
                    assert forall|i: int| 0 <= i < self.nodes@.len() implies (#[trigger] self.nodes@[i]).inv() by {
                        if i < before.len() {
                            assert(self.nodes@[i] == before[i]);
                        }
                    }
                }
            },
        }
    }

    proof fn lemma_configured_at(&self, k: int)
        requires
            0 <= k < self.configured_ids().len(),
        ensures
            self.configured(self.configured_ids()[k]),
            self.node_configs@[k].id == self.configured_ids()[k],
    {
        assert(self.node_configs@[k].id == self.configured_ids()[k]);
    }

    proof fn lemma_place_unique(&self, id: NodeId, k: int)
        requires
            self.wf(),
            0 <= k < self.configured_ids().len(),
            self.configured_ids()[k] == id,
        ensures
            self.place(id) == k,
    {
        assert(self.node_configs@[k].id == id);
        let p = self.place(id);
        assert(0 <= p < self.node_configs@.len() && self.node_configs@[p].id == id);
        if p < k {
            assert(self.node_configs@[p].id != self.node_configs@[k].id);
        } else if p > k {
            assert(self.node_configs@[k].id != self.node_configs@[p].id);
        }
    }

    /// Stops server `id`: it leaves the live servers; its disk stays.
    pub fn crash_node(&mut self, id: NodeId)
        requires
            old(self).wf(),
        ensures
            final(self).wf(),
            final(self).ticks() == old(self).ticks(),
            final(self).disks_view() == old(self).disks_view(),
            final(self).configured_ids() == old(self).configured_ids(),
            forall|p: int| 0 <= p < final(self).live().len() ==> final(self).live()[p].id != id.0,
            (forall|p: int| 0 <= p < old(self).live().len() ==> old(self).live()[p].id != id.0)
                ==> final(self).live() == old(self).live(),
            forall|p: int|
                0 <= p < old(self).live().len() && old(self).live()[p].id == id.0 ==> final(self).live()
                    == old(self).live().remove(p),
    {
        match self.node_position(id) {
            Some(p) => {
                let ghost before = self.nodes@;
                let _gone = self.nodes.remove(p);
                proof {
                    assert(old(self).live()[p as int].id == id.0);
                    assert(self.live() =~= nodes_view(before).remove(p as int));
                    assert forall|q: int| 0 <= q < self.live().len() implies self.live()[q].id != id.0 by {
                        if q < p {
                            assert(self.nodes@[q] == before[q]);
                            assert(before[q]@.id != before[p as int]@.id);
                        } else {
                            assert(self.nodes@[q] == before[q + 1]);
                            assert(before[p as int]@.id != before[q + 1]@.id);
                        }
                    }
                    assert forall|q: int|
                        0 <= q < before.len() && before[q]@.id == id.0 implies q == p by {
                        if q < p {
                            assert(before[q]@.id != before[p as int]@.id);
                        } else if q > p {
                            assert(before[p as int]@.id != before[q]@.id);
                        }
                    }
                    assert forall|i: int, j: int| 0 <= i < j < self.nodes@.len() implies (
                    #[trigger] self.nodes@[i])@.id != (#[trigger] self.nodes@[j])@.id by {
                        let i0 = if i < p { i } else { i + 1 };
                        let j0 = if j < p { j } else { j + 1 };
                        assert(self.nodes@[i] == before[i0] && self.nodes@[j] == before[j0]);
                    }
                    assert forall|i: int| 0 <= i < self.nodes@.len() implies (#[trigger] self.nodes@[i]).inv() by {
                        let i0 = if i < p { i } else { i + 1 };
                        assert(self.nodes@[i] == before[i0]);
                    }
                }
            },
            None => {},
        }
    }

    /// The network, for adjusting loss, duplication, delays and partitions.
    pub fn network_mut(&mut self) -> (r: &mut SimNetwork)
        ensures
            *r == old(self).net(),
            *final(self) == old(self).with_network(*final(r)),
    {
        &mut self.network
    }

    /// The network.
    pub closed spec fn net(&self) -> SimNetwork {
        self.network
    }

    /// The same simulation with the network replaced.
    pub closed spec fn with_network(self, n: SimNetwork) -> Simulator {
        Simulator { network: n, ..self }
    }

    /// Replacing the network leaves the servers, disks, clock and invariant as they were.
    pub proof fn lemma_with_network(self, n: SimNetwork)
        ensures
            self.with_network(n).wf() == self.wf(),
            self.with_network(n).live() == self.live(),
            self.with_network(n).ticks() == self.ticks(),
            self.with_network(n).disks_view() == self.disks_view(),
            self.with_network(n).configured_ids() == self.configured_ids(),
            self.with_network(n).net() == n,
            self.with_network(n).leaders_seen() == self.leaders_seen(),
            self.with_network(n).applied_seen() == self.applied_seen(),
            self.with_network(n).pending_fault() == self.pending_fault(),
    {
    }

    /// Hands a client command to the first live leader, if there is one, and
    /// carries out what it asks for; returns whether there was a leader.  A
    /// write its disk cannot take, or a leader out of room for another entry,
    /// is reported by the next `step`.
    pub fn propose_command(&mut self, client_cmd: Vec<u8>) -> (r: bool)
        requires
            old(self).wf(),
        ensures
            final(self).wf(),
            final(self).ticks() == old(self).ticks(),
            r == exists|p: int| 0 <= p < old(self).live().len() && old(self).live()[p].role == Role::Leader,
            old(self).proposal(*final(self), client_cmd@, r),
    {
        let mut p: usize = 0;
        while p < self.nodes.len()
            invariant_except_break
                p <= self.nodes@.len(),
                forall|q: int| 0 <= q < p ==> (#[trigger] self.nodes@[q])@.role != Role::Leader,
            ensures
                p <= self.nodes@.len(),
                forall|q: int| 0 <= q < p ==> (#[trigger] self.nodes@[q])@.role != Role::Leader,
                p < self.nodes@.len() ==> self.nodes@[p as int]@.role == Role::Leader,
            decreases self.nodes@.len() - p,
        {
            if self.nodes[p].role() == Role::Leader {
                break;
            }
            p = p + 1;
        }
        if p == self.nodes.len() {
            proof {
                assert forall|q: int| 0 <= q < old(self).live().len() implies old(self).live()[q].role
                    != Role::Leader by {
                    assert(self.nodes@[q]@.role != Role::Leader);
                }
            }
            return false;
        }
        assert(old(self).live()[p as int].role == Role::Leader);
        let leader_id = self.nodes[p].id();
        let ghost before = self.nodes@;
        let mut node = self.nodes.remove(p);
        assert(node == before[p as int]);
        if !node.has_headroom() || !self.tick_room() {
            self.nodes.insert(p, node);
            proof { self.lemma_nodes_restored(before, p as int); }
            self.fault = Some(exhausted_text(leader_id.0));
            return true;
        }
        let ghost n0 = node@;
        let ghost cmd = client_cmd@;
        let actions = node.propose(client_cmd);
        self.nodes.insert(p, node);
        proof {
            self.lemma_nodes_replaced(before, p as int);
            assert(self.nodes@ =~= before.update(p as int, node));
            assert(self.live() =~= old(self).live().update(p as int, model::propose(n0, cmd).node));
            assert(actions_view(actions@) =~= model::propose(n0, cmd).actions) by {
                assert(actions_view(Seq::<Action>::empty()) =~= Seq::<ActionView>::empty());
                assert(Seq::<ActionView>::empty() + model::propose(n0, cmd).actions =~= model::propose(
                    n0,
                    cmd,
                ).actions);
            }
        }
        let ghost mid = *self;
        let res = self.process_actions(leader_id, actions);
        let ghost written = *self;
        proof {
            mid.lemma_writes_done_frame(*old(self), written, written, leader_id, model::propose(n0, cmd).actions, res);
        }
        match res {
            Ok(()) => {},
            Err(e) => {
                self.fault = Some(e);
            },
        }
        proof {
            old(self).lemma_writes_done_frame(*old(self), written, *self, leader_id, model::propose(n0, cmd).actions, res);
            assert(old(self).live()[p as int].id == leader_id.0);
        }
        true
    }
}

} // verus!
