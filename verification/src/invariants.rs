use vstd::prelude::*;
use std::collections::HashMap;
use crate::log::{entry_at_of, first_index_of, last_index_of, term_at_of};
use crate::node::{RaftNode, Role};
use crate::node_model::NodeView;
use crate::types::{LogIndex, NodeId, Term};
use crate::text::{decimal, push_decimal};
use vstd::string::StringExecFns;

verus! {

broadcast use vstd::std_specs::hash::group_hash_axioms;

/// A breach of one of the Raft safety properties, found across a set of servers.
#[derive(Debug, Clone, Copy, PartialEq, Eq, Structural)]
pub enum SafetyViolation {
    /// Two servers have been leader in the same term.
    ElectionSafety { existing_leader: NodeId, node: NodeId, term: Term },
    /// Two logs hold the same term at an index (both uncompacted) but different commands.
    LogMatching { node_a: NodeId, node_b: NodeId, index: LogIndex, term: Term },
    /// A server applied at an index an entry other than the one applied there before.
    StateMachineSafety { node: NodeId, index: LogIndex, term: Term, committed_term: Term },
}

/// Compares two byte strings.
pub fn bytes_equal(a: &[u8], b: &[u8]) -> (r: bool)
    ensures
        r == (a@ == b@),
{
    if a.len() != b.len() {
        return false;
    }
    let mut i: usize = 0;
    while i < a.len()
        invariant
            a@.len() == b@.len(),
            i <= a@.len(),
            forall|j: int| 0 <= j < i ==> a@[j] == b@[j],
        decreases a@.len() - i,
    {
        if a[i] != b[i] {
            return false;
        }
        i = i + 1;
    }
    assert(a@ =~= b@);
    true
}

pub open spec fn nodes_view(nodes: Seq<RaftNode>) -> Seq<NodeView> {
    nodes.map_values(|n: RaftNode| n@)
}

/// Records, term by term, the leader seen: the records after looking at `ns`
/// in order, and the first server found leading a term already recorded for another.
pub open spec fn election_scan(m: Map<u64, u64>, ns: Seq<NodeView>) -> (Map<u64, u64>, Option<
    SafetyViolation,
>)
    decreases ns.len(),
{
    if ns.len() == 0 {
        (m, None)
    } else {
        let (m1, r) = election_scan(m, ns.drop_last());
        let n = ns.last();
        if r is Some || n.role != Role::Leader {
            (m1, r)
        } else if m1.contains_key(n.current_term) {
            if m1[n.current_term] != n.id {
                (
                    m1,
                    Some(
                        SafetyViolation::ElectionSafety {
                            existing_leader: NodeId(m1[n.current_term]),
                            node: NodeId(n.id),
                            term: Term(n.current_term),
                        },
                    ),
                )
            } else {
                (m1, None)
            }
        } else {
            (m1.insert(n.current_term, n.id), None)
        }
    }
}

/// Once a violation is found, looking at more servers does not change the outcome.
pub proof fn lemma_election_scan_stops(m: Map<u64, u64>, ns: Seq<NodeView>, k: int)
    requires
        0 <= k <= ns.len(),
        election_scan(m, ns.take(k)).1 is Some,
    ensures
        election_scan(m, ns) == election_scan(m, ns.take(k)),
    decreases ns.len() - k,
{
    if k < ns.len() {
        assert(ns.drop_last().take(k) =~= ns.take(k));
        lemma_election_scan_stops(m, ns.drop_last(), k);
    } else {
        assert(ns.take(k) =~= ns);
    }
}

/// Every leader among `ns` leads a different term from every other leader.
pub open spec fn one_leader_per_term(ns: Seq<NodeView>) -> bool {
    forall|i: int, j: int|
        0 <= i < ns.len() && 0 <= j < ns.len() && (#[trigger] ns[i]).role == Role::Leader && (
        #[trigger] ns[j]).role == Role::Leader && ns[i].current_term == ns[j].current_term ==> ns[i].id
            == ns[j].id
}

/// Every leader among `ns` is the leader recorded for its term in `m`.
pub open spec fn leaders_recorded(m: Map<u64, u64>, ns: Seq<NodeView>) -> bool {
    forall|k: int|
        0 <= k < ns.len() && (#[trigger] ns[k]).role == Role::Leader ==> m.contains_key(ns[k].current_term)
            && m[ns[k].current_term] == ns[k].id
}

/// The scan only adds records, and when it finds no violation every leader it
/// looked at is the one recorded for its term.
pub proof fn lemma_election_scan_records(m: Map<u64, u64>, ns: Seq<NodeView>)
    ensures
        m.submap_of(election_scan(m, ns).0),
        election_scan(m, ns).1 is None ==> leaders_recorded(election_scan(m, ns).0, ns),
    decreases ns.len(),
{
    if ns.len() > 0 {
        let d = ns.drop_last();
        lemma_election_scan_records(m, d);
        let (m1, r) = election_scan(m, d);
        let out = election_scan(m, ns).0;
        assert(m1.submap_of(out));
        assert forall|k: u64| #[trigger] m.contains_key(k) implies out.contains_key(k) && out[k] == m[k] by {
            assert(m1.contains_key(k) && m1[k] == m[k]);
        }
        if election_scan(m, ns).1 is None {
            assert forall|k: int|
                0 <= k < ns.len() && (#[trigger] ns[k]).role == Role::Leader implies out.contains_key(
                ns[k].current_term,
            ) && out[ns[k].current_term] == ns[k].id by {
                if k < ns.len() - 1 {
                    assert(ns[k] == d[k]);
                }
            }
        }
    }
}

/// Records that name one leader per term leave no two leaders in one term.
pub proof fn lemma_recorded_leaders_unique(m: Map<u64, u64>, ns: Seq<NodeView>)
    requires
        leaders_recorded(m, ns),
    ensures
        one_leader_per_term(ns),
{
}

pub open spec fn min_u64(a: u64, b: u64) -> u64 {
    if a < b {
        a
    } else {
        b
    }
}

/// Servers `a` and `b` hold the same term at index `idx` (both past their
/// sentinels) but different commands there.
pub open spec fn log_mismatch(a: NodeView, b: NodeView, idx: u64) -> bool {
    &&& 1 <= idx <= min_u64(last_index_of(a.log), last_index_of(b.log))
    &&& term_at_of(a.log, idx) is Some
    &&& term_at_of(a.log, idx) == term_at_of(b.log, idx)
    &&& idx > first_index_of(a.log)
    &&& idx > first_index_of(b.log)
    &&& entry_at_of(a.log, idx)->0.command != entry_at_of(b.log, idx)->0.command
}

/// `(i, j, idx)` comes before `(i2, j2, idx2)` in the order the logs are compared.
pub open spec fn comes_before(i: int, j: int, idx: int, i2: int, j2: int, idx2: int) -> bool {
    i < i2 || (i == i2 && j < j2) || (i == i2 && j == j2 && idx < idx2)
}

/// No two of the servers disagree on a command at an index where their terms agree.
pub open spec fn logs_match(ns: Seq<NodeView>) -> bool {
    forall|i: int, j: int, idx: u64|
        0 <= i < j < ns.len() ==> !#[trigger] log_mismatch(ns[i], ns[j], idx)
}

/// `v` reports the first disagreement, taking pairs of servers in order and
/// indices upwards.
pub open spec fn is_first_mismatch(ns: Seq<NodeView>, v: SafetyViolation) -> bool {
    exists|i: int, j: int, idx: u64|
        #![trigger log_mismatch(ns[i], ns[j], idx)]
        {
            &&& 0 <= i < j < ns.len()
            &&& log_mismatch(ns[i], ns[j], idx)
            &&& v == (SafetyViolation::LogMatching {
                node_a: NodeId(ns[i].id),
                node_b: NodeId(ns[j].id),
                index: LogIndex(idx),
                term: Term(term_at_of(ns[i].log, idx)->0),
            })
            &&& forall|i2: int, j2: int, idx2: u64|
                0 <= i2 < j2 < ns.len() && comes_before(i2, j2, idx2 as int, i, j, idx as int)
                    ==> !#[trigger] log_mismatch(ns[i2], ns[j2], idx2)
        }
}

/// Records what was applied at each index: after the server's entries at
/// indices `1..=upto`, or the first one that differs from the record.
pub open spec fn applied_scan_node(m: Map<u64, (u64, Seq<u8>)>, n: NodeView, upto: u64) -> (Map<
    u64,
    (u64, Seq<u8>),
>, Option<SafetyViolation>)
    decreases upto,
{
    if upto == 0 {
        (m, None)
    } else {
        let (m1, r) = applied_scan_node(m, n, (upto - 1) as u64);
        if r is Some {
            (m1, r)
        } else {
            match entry_at_of(n.log, upto) {
                None => (m1, None),
                Some(e) => if e.command.len() == 0 {
                    (m1, None)
                } else if m1.contains_key(upto) {
                    if m1[upto].0 != e.term || m1[upto].1 != e.command {
                        (
                            m1,
                            Some(
                                SafetyViolation::StateMachineSafety {
                                    node: NodeId(n.id),
                                    index: LogIndex(upto),
                                    term: Term(e.term),
                                    committed_term: Term(m1[upto].0),
                                },
                            ),
                        )
                    } else {
                        (m1, None)
                    }
                } else {
                    (m1.insert(upto, (e.term, e.command)), None)
                },
            }
        }
    }
}

pub open spec fn applied_scan(m: Map<u64, (u64, Seq<u8>)>, ns: Seq<NodeView>) -> (Map<
    u64,
    (u64, Seq<u8>),
>, Option<SafetyViolation>)
    decreases ns.len(),
{
    if ns.len() == 0 {
        (m, None)
    } else {
        let (m1, r) = applied_scan(m, ns.drop_last());
        if r is Some {
            (m1, r)
        } else {
            applied_scan_node(m1, ns.last(), ns.last().last_applied)
        }
    }
}

/// Once a server's scan finds a violation, scanning further indices keeps it.
pub proof fn lemma_applied_node_stops(m: Map<u64, (u64, Seq<u8>)>, n: NodeView, k: u64, upto: u64)
    requires
        k <= upto,
        applied_scan_node(m, n, k).1 is Some,
    ensures
        applied_scan_node(m, n, upto) == applied_scan_node(m, n, k),
    decreases upto - k,
{
    if k < upto {
        lemma_applied_node_stops(m, n, k, (upto - 1) as u64);
    }
}

/// Once a violation is found, scanning more servers keeps it.
pub proof fn lemma_applied_scan_stops(m: Map<u64, (u64, Seq<u8>)>, ns: Seq<NodeView>, k: int)
    requires
        0 <= k <= ns.len(),
        applied_scan(m, ns.take(k)).1 is Some,
    ensures
        applied_scan(m, ns) == applied_scan(m, ns.take(k)),
    decreases ns.len() - k,
{
    if k < ns.len() {
        assert(ns.drop_last().take(k) =~= ns.take(k));
        lemma_applied_scan_stops(m, ns.drop_last(), k);
    } else {
        assert(ns.take(k) =~= ns);
    }
}

/// Checks, after every simulated step, the safety properties of Raft across
/// all live servers, remembering leaders per term and applied commands per index.
pub struct SafetyInvariants {
    term_leaders: HashMap<u64, u64>,
    committed_entries: HashMap<u64, (u64, Vec<u8>)>,
}

impl SafetyInvariants {
    /// The leader recorded for each term.
    pub closed spec fn leaders(&self) -> Map<u64, u64> {
        self.term_leaders@
    }

    /// The term and command recorded as applied at each index.
    pub closed spec fn applied(&self) -> Map<u64, (u64, Seq<u8>)> {
        self.committed_entries@.map_values(|v: (u64, Vec<u8>)| (v.0, v.1@))
    }

    pub fn new() -> (r: SafetyInvariants)
        ensures
            r.leaders() == Map::<u64, u64>::empty(),
            r.applied() == Map::<u64, (u64, Seq<u8>)>::empty(),
    {
        let r = SafetyInvariants { term_leaders: HashMap::new(), committed_entries: HashMap::new() };
        assert(r.applied() =~= Map::<u64, (u64, Seq<u8>)>::empty());
        r
    }

    fn check_election_safety(&mut self, nodes: &[RaftNode]) -> (r: Result<(), SafetyViolation>)
        ensures
            (final(self).leaders(), match r {
                Ok(()) => None,
                Err(v) => Some(v),
            }) == election_scan(old(self).leaders(), nodes_view(nodes@)),
            final(self).applied() == old(self).applied(),
    {
        let ghost ns = nodes_view(nodes@);
        let mut i: usize = 0;
        while i < nodes.len()
            invariant
                i <= nodes@.len(),
                ns == nodes_view(nodes@),
                (self.leaders(), None::<SafetyViolation>) == election_scan(
                    old(self).leaders(),
                    ns.take(i as int),
                ),
                self.applied() == old(self).applied(),
            decreases nodes@.len() - i,
        {
            let node = &nodes[i];
            proof {
                assert(ns.take(i + 1).drop_last() =~= ns.take(i as int));
                assert(ns.take(i + 1).last() == node@);
            }
            if node.role() == Role::Leader {
                let term = node.current_term();
                match self.term_leaders.get(&term.0) {
                    Some(existing) => {
                        let existing_leader = *existing;
                        if existing_leader != node.id().0 {
                            proof {
                                lemma_election_scan_stops(old(self).leaders(), ns, i + 1);
                            }
                            return Err(
                                SafetyViolation::ElectionSafety {
                                    existing_leader: NodeId(existing_leader),
                                    node: node.id(),
                                    term,
                                },
                            );
                        }
                    },
                    None => {
                        self.term_leaders.insert(term.0, node.id().0);
                    },
                }
            }
            i = i + 1;
        }
        proof {
            assert(ns.take(nodes@.len() as int) =~= ns);
        }
        Ok(())
    }

    fn check_log_matching(&self, nodes: &[RaftNode]) -> (r: Result<(), SafetyViolation>)
        requires
            forall|k: int| 0 <= k < nodes@.len() ==> (#[trigger] nodes@[k]).inv(),
        ensures
            r is Ok <==> logs_match(nodes_view(nodes@)),
            r matches Err(v) ==> is_first_mismatch(nodes_view(nodes@), v),
    {
        let ghost ns = nodes_view(nodes@);
        let mut i: usize = 0;
        while i < nodes.len()
            invariant
                i <= nodes@.len(),
                ns == nodes_view(nodes@),
                forall|k: int| 0 <= k < nodes@.len() ==> (#[trigger] nodes@[k]).inv(),
                forall|i2: int, j2: int, idx2: u64|
                    0 <= i2 < j2 < ns.len() && i2 < i ==> !#[trigger] log_mismatch(ns[i2], ns[j2], idx2),
            decreases nodes@.len() - i,
        {
            let mut j: usize = i + 1;
            while j < nodes.len()
                invariant
                    i < nodes@.len(),
                    i + 1 <= j <= nodes@.len(),
                    ns == nodes_view(nodes@),
                    forall|k: int| 0 <= k < nodes@.len() ==> (#[trigger] nodes@[k]).inv(),
                    forall|i2: int, j2: int, idx2: u64|
                        0 <= i2 < j2 < ns.len() && (i2 < i || (i2 == i && j2 < j)) ==> !#[trigger] log_mismatch(
                            ns[i2],
                            ns[j2],
                            idx2,
                        ),
                decreases nodes@.len() - j,
            {
                let n1 = &nodes[i];
                let n2 = &nodes[j];
                assert(ns[i as int] == n1@ && ns[j as int] == n2@);
                assert(n1.inv() && n2.inv());
                let l1 = n1.log();
                let l2 = n2.log();
                let last1 = l1.last_index();
                let last2 = l2.last_index();
                let min_last = if last1.0 < last2.0 { last1.0 } else { last2.0 };
                let first1 = l1.first_index();
                let first2 = l2.first_index();
                let mut idx: u64 = 0;
                while idx < min_last
                    invariant
                        i < j < nodes@.len(),
                        ns == nodes_view(nodes@),
                        ns[i as int] == n1@,
                        ns[j as int] == n2@,
                        forall|i2: int, j2: int, idx2: u64|
                            0 <= i2 < j2 < ns.len() && (i2 < i || (i2 == i && j2 < j)) ==> !#[trigger] log_mismatch(
                                ns[i2],
                                ns[j2],
                                idx2,
                            ),
                        idx <= min_last,
                        min_last == min_u64(last_index_of(n1@.log), last_index_of(n2@.log)),
                        l1@ == n1@.log,
                        l2@ == n2@.log,
                        l1.wf(),
                        l2.wf(),
                        first1.0 == first_index_of(n1@.log),
                        first2.0 == first_index_of(n2@.log),
                        forall|idx2: u64| idx2 <= idx ==> !#[trigger] log_mismatch(n1@, n2@, idx2),
                    decreases min_last - idx,
                {
                    idx = idx + 1;
                    let t1 = l1.term_at(LogIndex(idx));
                    let t2 = l2.term_at(LogIndex(idx));
                    let same = match (t1, t2) {
                        (Some(a), Some(b)) => a.0 == b.0,
                        _ => false,
                    };
                    if same && idx > first1.0 && idx > first2.0 {
                        let e1 = l1.entry_at(LogIndex(idx)).unwrap();
                        let e2 = l2.entry_at(LogIndex(idx)).unwrap();
                        if !bytes_equal(e1.command.as_slice(), e2.command.as_slice()) {
                            let term = t1.unwrap();
                            proof {
                                assert(log_mismatch(ns[i as int], ns[j as int], idx));
                                assert forall|i2: int, j2: int, idx2: u64|
                                    0 <= i2 < j2 < ns.len() && comes_before(
                                        i2,
                                        j2,
                                        idx2 as int,
                                        i as int,
                                        j as int,
                                        idx as int,
                                    ) implies !#[trigger] log_mismatch(ns[i2], ns[j2], idx2) by {
                                    if i2 == i && j2 == j {
                                        assert(idx2 <= idx - 1);
                                    }
                                }
                            }
                            return Err(
                                SafetyViolation::LogMatching {
                                    node_a: n1.id(),
                                    node_b: n2.id(),
                                    index: LogIndex(idx),
                                    term,
                                },
                            );
                        }
                    }
                }
                proof {
                    assert forall|idx2: u64| !#[trigger] log_mismatch(n1@, n2@, idx2) by {
                        if idx2 > idx {
                        }
                    }
                }
                j = j + 1;
            }
            i = i + 1;
        }
        Ok(())
    }

    fn check_state_machine_safety(&mut self, nodes: &[RaftNode]) -> (r: Result<(), SafetyViolation>)
        requires
            forall|k: int| 0 <= k < nodes@.len() ==> (#[trigger] nodes@[k]).inv(),
        ensures
            (final(self).applied(), match r {
                Ok(()) => None,
                Err(v) => Some(v),
            }) == applied_scan(old(self).applied(), nodes_view(nodes@)),
            final(self).leaders() == old(self).leaders(),
    {
        let ghost ns = nodes_view(nodes@);
        let ghost m0 = old(self).applied();
        let mut i: usize = 0;
        while i < nodes.len()
            invariant
                i <= nodes@.len(),
                ns == nodes_view(nodes@),
                m0 == old(self).applied(),
                forall|k: int| 0 <= k < nodes@.len() ==> (#[trigger] nodes@[k]).inv(),
                (self.applied(), None::<SafetyViolation>) == applied_scan(m0, ns.take(i as int)),
                self.leaders() == old(self).leaders(),
            decreases nodes@.len() - i,
        {
            let node = &nodes[i];
            assert(ns[i as int] == node@);
            assert(node.inv());
            proof {
                assert(ns.take(i + 1).drop_last() =~= ns.take(i as int));
                assert(ns.take(i + 1).last() == node@);
            }
            let ghost m_start = self.applied();
            let last_applied = node.last_applied().0;
            let log = node.log();
            let mut idx: u64 = 0;
            while idx < last_applied
                invariant
                    i < nodes@.len(),
                    ns == nodes_view(nodes@),
                    ns[i as int] == node@,
                    m0 == old(self).applied(),
                    (m_start, None::<SafetyViolation>) == applied_scan(m0, ns.take(i as int)),
                    idx <= last_applied,
                    last_applied == node@.last_applied,
                    log@ == node@.log,
                    log.wf(),
                    (self.applied(), None::<SafetyViolation>) == applied_scan_node(m_start, node@, idx),
                    self.leaders() == old(self).leaders(),
                decreases last_applied - idx,
            {
                idx = idx + 1;
                let ghost before = self.applied();
                match log.entry_at(LogIndex(idx)) {
                    None => {},
                    Some(entry) => {
                        if entry.command.len() != 0 {
                            match self.committed_entries.get(&idx) {
                                Some(recorded) => {
                                    let rt = recorded.0;
                                    let same = rt == entry.term.0 && bytes_equal(
                                        recorded.1.as_slice(),
                                        entry.command.as_slice(),
                                    );
                                    assert(before[idx] == (recorded.0, recorded.1@));
                                    if !same {
                                        proof {
                                            lemma_applied_node_stops(m_start, node@, idx, last_applied);
                                            assert(ns.take(i + 1).drop_last() =~= ns.take(i as int));
                                            lemma_applied_scan_stops(m0, ns, i + 1);
                                        }
                                        return Err(
                                            SafetyViolation::StateMachineSafety {
                                                node: node.id(),
                                                index: LogIndex(idx),
                                                term: entry.term,
                                                committed_term: Term(rt),
                                            },
                                        );
                                    }
                                },
                                None => {
                                    let ghost cv = entry.command@;
                                    self.committed_entries.insert(
                                        idx,
                                        (entry.term.0, entry.command.clone()),
                                    );
                                    assert(self.applied() =~= before.insert(idx, (entry.term.0, cv)));
                                },
                            }
                        }
                    },
                }
            }
            i = i + 1;
        }
        proof {
            assert(ns.take(nodes@.len() as int) =~= ns);
        }
        Ok(())
    }

    /// Checks every safety property over the live servers: election safety,
    /// log matching, and state machine safety, stopping at the first breach.
    pub fn verify_safety(&mut self, nodes: &[RaftNode]) -> (r: Result<(), SafetyViolation>)
        requires
            forall|k: int| 0 <= k < nodes@.len() ==> (#[trigger] nodes@[k]).inv(),
        ensures
            ({
                let ns = nodes_view(nodes@);
                let (m1, e1) = election_scan(old(self).leaders(), ns);
                &&& final(self).leaders() == m1
                &&& e1 matches Some(v) ==> r == Err::<(), SafetyViolation>(v)
                    && final(self).applied() == old(self).applied()
                &&& e1 is None && !logs_match(ns) ==> (r matches Err(v) && is_first_mismatch(ns, v))
                    && final(self).applied() == old(self).applied()
                &&& e1 is None && logs_match(ns) ==> (final(self).applied(), match r {
                    Ok(()) => None,
                    Err(v) => Some(v),
                }) == applied_scan(old(self).applied(), ns)
            }),
    {
        match self.check_election_safety(nodes) {
            Ok(()) => {},
            Err(v) => {
                return Err(v);
            },
        }
        match self.check_log_matching(nodes) {
            Ok(()) => {},
            Err(v) => {
                return Err(v);
            },
        }
        self.check_state_machine_safety(nodes)
    }
}

} // verus!

verus! {

/// The report of two leaders in one term.
pub open spec fn election_safety_message(existing_leader: u64, node: u64, term: u64) -> Seq<char> {
    "ELECTION SAFETY VIOLATION: Nodes "@ + decimal(existing_leader as nat) + " and "@ + decimal(
        node as nat,
    ) + " both claim leadership in Term "@ + decimal(term as nat)
}

/// The report of two logs that disagree on a command.
pub open spec fn log_matching_message(node_a: u64, node_b: u64, index: u64, term: u64) -> Seq<char> {
    "LOG MATCHING VIOLATION: Node "@ + decimal(node_a as nat) + " and Node "@ + decimal(node_b as nat)
        + " match at index "@ + decimal(index as nat) + " term Some(T"@ + decimal(term as nat)
        + "), but commands differ!"@
}

/// The report of a command applied differently at one index.
pub open spec fn state_machine_message(node: u64, index: u64, term: u64, committed_term: u64) -> Seq<
    char,
> {
    "STATE MACHINE SAFETY VIOLATION: Node "@ + decimal(node as nat) + " applied command index "@
        + decimal(index as nat) + " with Term "@ + decimal(term as nat)
        + ", but index was already committed with Term "@ + decimal(committed_term as nat)
}

fn election_safety_text(existing_leader: u64, node: u64, term: u64) -> (r: String)
    ensures
        r@ == election_safety_message(existing_leader, node, term),
{
    let mut out = String::new();
    out.append("ELECTION SAFETY VIOLATION: Nodes ");
    push_decimal(&mut out, existing_leader);
    out.append(" and ");
    push_decimal(&mut out, node);
    out.append(" both claim leadership in Term ");
    push_decimal(&mut out, term);
    out
}

fn log_matching_text(node_a: u64, node_b: u64, index: u64, term: u64) -> (r: String)
    ensures
        r@ == log_matching_message(node_a, node_b, index, term),
{
    let mut out = String::new();
    out.append("LOG MATCHING VIOLATION: Node ");
    push_decimal(&mut out, node_a);
    out.append(" and Node ");
    push_decimal(&mut out, node_b);
    out.append(" match at index ");
    push_decimal(&mut out, index);
    out.append(" term Some(T");
    push_decimal(&mut out, term);
    out.append("), but commands differ!");
    out
}

fn state_machine_text(node: u64, index: u64, term: u64, committed_term: u64) -> (r: String)
    ensures
        r@ == state_machine_message(node, index, term, committed_term),
{
    let mut out = String::new();
    out.append("STATE MACHINE SAFETY VIOLATION: Node ");
    push_decimal(&mut out, node);
    out.append(" applied command index ");
    push_decimal(&mut out, index);
    out.append(" with Term ");
    push_decimal(&mut out, term);
    out.append(", but index was already committed with Term ");
    push_decimal(&mut out, committed_term);
    out
}

impl SafetyViolation {
    /// The report printed for this violation.
    pub open spec fn message(&self) -> Seq<char> {
        match *self {
            SafetyViolation::ElectionSafety { existing_leader, node, term } => election_safety_message(
                existing_leader.0,
                node.0,
                term.0,
            ),
            SafetyViolation::LogMatching { node_a, node_b, index, term } => log_matching_message(
                node_a.0,
                node_b.0,
                index.0,
                term.0,
            ),
            SafetyViolation::StateMachineSafety { node, index, term, committed_term } =>
                state_machine_message(node.0, index.0, term.0, committed_term.0),
        }
    }

    /// The report printed for this violation.
    pub fn describe(&self) -> (r: String)
        ensures
            r@ == self.message(),
    {
        match self {
            SafetyViolation::ElectionSafety { existing_leader, node, term } => election_safety_text(
                existing_leader.0,
                node.0,
                term.0,
            ),
            SafetyViolation::LogMatching { node_a, node_b, index, term } => log_matching_text(
                node_a.0,
                node_b.0,
                index.0,
                term.0,
            ),
            SafetyViolation::StateMachineSafety { node, index, term, committed_term } =>
                state_machine_text(node.0, index.0, term.0, committed_term.0),
        }
    }
}

} // verus!

verus! {

/// Two leaders of one term with different ids are always reported: the
/// election scan that the safety check runs ends in a violation.
pub proof fn lemma_two_leaders_reported(m: Map<u64, u64>, ns: Seq<NodeView>, i: int, j: int)
    requires
        0 <= i < ns.len(),
        0 <= j < ns.len(),
        ns[i].role == Role::Leader,
        ns[j].role == Role::Leader,
        ns[i].current_term == ns[j].current_term,
        ns[i].id != ns[j].id,
    ensures
        election_scan(m, ns).1 is Some,
{
    lemma_election_scan_records(m, ns);
    if election_scan(m, ns).1 is None {
        let out = election_scan(m, ns).0;
        assert(out[ns[i].current_term] == ns[i].id);
        assert(out[ns[j].current_term] == ns[j].id);
    }
}

/// A leader of a term already recorded for another id is always reported.
pub proof fn lemma_recorded_rival_reported(m: Map<u64, u64>, ns: Seq<NodeView>, k: int)
    requires
        0 <= k < ns.len(),
        ns[k].role == Role::Leader,
        m.contains_key(ns[k].current_term),
        m[ns[k].current_term] != ns[k].id,
    ensures
        election_scan(m, ns).1 is Some,
{
    lemma_election_scan_records(m, ns);
    if election_scan(m, ns).1 is None {
        let out = election_scan(m, ns).0;
        assert(out[ns[k].current_term] == ns[k].id);
        assert(out[ns[k].current_term] == m[ns[k].current_term]);
    }
}

} // verus!
