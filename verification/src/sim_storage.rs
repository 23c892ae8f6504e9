use vstd::prelude::*;
use crate::log::{compacted, sentinel_view};
use crate::message::{entries_view, opt_node_view, EntryView, LogEntry, SnapshotMeta};
use crate::node::ActionView;
use crate::types::{LogIndex, NodeId, Term};
use crate::text::{decimal, push_decimal};
use vstd::string::StringExecFns;

verus! {

/// Whether the disk can take entry `e`: either it falls below the disk's base
/// and is skipped, or it lands on a stored position or right after the last.
pub open spec fn disk_put_ok(log: Seq<EntryView>, e: EntryView) -> bool {
    log.len() >= 1 && (e.index < log[0].index || e.index - log[0].index <= log.len())
}

/// The stored entries after writing `e`: an entry below the base is skipped, a
/// stored entry of the same term is kept, one of another term is cut off
/// together with everything after it and replaced, and an entry right after
/// the last one is appended.
pub open spec fn disk_put(log: Seq<EntryView>, e: EntryView) -> Seq<EntryView> {
    if e.index < log[0].index {
        log
    } else {
        let off = e.index - log[0].index;
        if off < log.len() {
            if log[off].term != e.term {
                log.take(off).push(e)
            } else {
                log
            }
        } else {
            log.push(e)
        }
    }
}

/// The stored entries after writing `es` one after another.
pub open spec fn disk_put_all(log: Seq<EntryView>, es: Seq<EntryView>) -> Seq<EntryView>
    decreases es.len(),
{
    if es.len() == 0 {
        log
    } else {
        disk_put(disk_put_all(log, es.drop_last()), es.last())
    }
}

/// Every entry of `es` can be written in turn.
pub open spec fn disk_accepts(log: Seq<EntryView>, es: Seq<EntryView>) -> bool {
    forall|i: int| 0 <= i < es.len() ==> disk_put_ok(disk_put_all(log, #[trigger] es.take(i)), es[i])
}

/// The entries that stand in a disk after truncating at `from`: those before
/// that index (all of them when it lies past the end).
pub open spec fn kept_before(log: Seq<EntryView>, from: u64) -> Seq<EntryView> {
    if from - log[0].index <= log.len() {
        log.take((from - log[0].index) as int)
    } else {
        log
    }
}

/// Writing `es` in turn stops at `es[k]`: the entries before it can be
/// written, and it cannot.
pub open spec fn rejected_at(log: Seq<EntryView>, es: Seq<EntryView>, k: int) -> bool {
    &&& 0 <= k < es.len()
    &&& forall|j: int| 0 <= j < k ==> disk_put_ok(disk_put_all(log, #[trigger] es.take(j)), es[j])
    &&& !disk_put_ok(disk_put_all(log, es.take(k)), es[k])
}

/// The fault reported when writing `es` to `log` stops at `es[k]`, on the disk of `node`.
pub open spec fn gap_fault(log: Seq<EntryView>, es: Seq<EntryView>, k: int, node: NodeId) -> DiskFault {
    DiskFault::NonContiguous {
        index: LogIndex(es[k].index),
        node,
        base: LogIndex(disk_put_all(log, es.take(k))[0].index),
        len: disk_put_all(log, es.take(k)).len() as usize,
    }
}

/// A write the disk cannot take.
#[derive(Debug, Clone, Copy, PartialEq, Eq, Structural)]
pub enum DiskFault {
    /// An entry would land past the slot right after the last stored entry.
    NonContiguous { index: LogIndex, node: NodeId, base: LogIndex, len: usize },
    /// A truncation would cut at or below the disk's base.
    BeforeBase { from: LogIndex, base: LogIndex },
}

/// The durable state of one simulated server.
#[derive(Debug)]
pub struct StableDisk {
    pub node_id: NodeId,
    pub current_term: Term,
    pub voted_for: Option<NodeId>,
    pub log_entries: Vec<LogEntry>,
    pub snapshot: Option<(SnapshotMeta, Vec<u8>)>,
}

impl Clone for StableDisk {
    fn clone(&self) -> (r: Self)
        ensures
            r.node_id == self.node_id,
            r.current_term == self.current_term,
            r.voted_for == self.voted_for,
            entries_view(r.log_entries@) == entries_view(self.log_entries@),
            r.snapshot is Some <==> self.snapshot is Some,
            r.snapshot matches Some((m, d)) ==> self.snapshot matches Some((m0, d0)) && m == m0 && d@
                == d0@,
    {
        StableDisk {
            node_id: self.node_id,
            current_term: self.current_term,
            voted_for: self.voted_for,
            log_entries: crate::message::clone_entries(self.log_entries.as_slice()),
            snapshot: match &self.snapshot {
                Some((m, d)) => Some((*m, d.clone())),
                None => None,
            },
        }
    }
}

impl StableDisk {
    /// The stored entries, sentinel first.
    pub open spec fn entries(&self) -> Seq<EntryView> {
        entries_view(self.log_entries@)
    }

    /// The disk holds nothing yet: term 0, no vote, only the sentinel, no snapshot.
    pub open spec fn is_blank(&self) -> bool {
        &&& self.current_term.0 == 0
        &&& self.voted_for is None
        &&& self.entries() == seq![sentinel_view(0, 0)]
        &&& self.snapshot is None
    }

    /// A blank disk: term 0, no vote, a log holding only the sentinel, no snapshot.
    pub fn new(node_id: NodeId) -> (r: StableDisk)
        ensures
            r.node_id == node_id,
            r.current_term.0 == 0,
            r.voted_for is None,
            r.entries() == seq![sentinel_view(0, 0)],
            r.snapshot is None,
    {
        let mut log_entries: Vec<LogEntry> = Vec::new();
        log_entries.push(LogEntry { index: LogIndex(0), term: Term(0), command: Vec::new() });
        let r = StableDisk {
            node_id,
            current_term: Term(0),
            voted_for: None,
            log_entries,
            snapshot: None,
        };
        assert(r.entries() =~= seq![sentinel_view(0, 0)]);
        r
    }

    /// Records the term and vote.
    pub fn write_hard_state(&mut self, term: Term, voted_for: Option<NodeId>)
        ensures
            final(self).current_term == term,
            final(self).voted_for == voted_for,
            final(self).node_id == old(self).node_id,
            final(self).entries() == old(self).entries(),
            final(self).snapshot == old(self).snapshot,
    {
        self.current_term = term;
        self.voted_for = voted_for;
    }

    /// Writes entries one after another (see `disk_put`).
    pub fn append_entries(&mut self, entries: &[LogEntry])
        requires
            old(self).entries().len() >= 1,
            disk_accepts(old(self).entries(), entries_view(entries@)),
        ensures
            final(self).entries() == disk_put_all(old(self).entries(), entries_view(entries@)),
            final(self).entries().len() >= 1,
            final(self).node_id == old(self).node_id,
            final(self).current_term == old(self).current_term,
            final(self).voted_for == old(self).voted_for,
            final(self).snapshot == old(self).snapshot,
    {
        let ghost es = entries_view(entries@);
        let ghost log0 = self.entries();
        let mut i: usize = 0;
        while i < entries.len()
            invariant
                i <= entries@.len(),
                es == entries_view(entries@),
                disk_accepts(log0, es),
                self.entries() == disk_put_all(log0, es.take(i as int)),
                self.entries().len() >= 1,
                self.node_id == old(self).node_id,
                self.current_term == old(self).current_term,
                self.voted_for == old(self).voted_for,
                self.snapshot == old(self).snapshot,
            decreases entries@.len() - i,
        {
            let entry = &entries[i];
            let ghost cur = self.entries();
            assert(es[i as int] == entry@);
            assert(es.take(i + 1).drop_last() =~= es.take(i as int));
            assert(es.take(i + 1).last() == es[i as int]);
            assert(disk_put_ok(cur, es[i as int]));
            assert(self.log_entries@[0]@ == cur[0]);
            let base = self.log_entries[0].index.0;
            if entry.index.0 >= base {
                let offset = entry.index.0 - base;
                if offset < self.log_entries.len() as u64 {
                    assert(self.log_entries@[offset as int]@ == cur[offset as int]);
                    if self.log_entries[offset as usize].term.0 != entry.term.0 {
                        self.log_entries.truncate(offset as usize);
                        self.log_entries.push(entry.clone());
                        assert(self.entries() =~= cur.take(offset as int).push(entry@));
                    }
                } else {
                    self.log_entries.push(entry.clone());
                    assert(self.entries() =~= cur.push(entry@));
                }
            }
            i = i + 1;
        }
        assert(es.take(es.len() as int) =~= es);
    }

    /// Drops the stored entries from index `from_index` on, then writes `entries`.
    pub fn truncate_and_append(&mut self, from_index: LogIndex, entries: &[LogEntry])
        requires
            old(self).entries().len() >= 1,
            from_index.0 > old(self).entries()[0].index,
            disk_accepts(
                kept_before(old(self).entries(), from_index.0),
                entries_view(entries@),
            ),
        ensures
            final(self).entries() == disk_put_all(
                kept_before(old(self).entries(), from_index.0),
                entries_view(entries@),
            ),
            final(self).node_id == old(self).node_id,
            final(self).current_term == old(self).current_term,
            final(self).voted_for == old(self).voted_for,
            final(self).snapshot == old(self).snapshot,
    {
        let base_idx = self.log_entries[0].index.0;
        let offset = from_index.0 - base_idx;
        let ghost cut: int = if offset <= self.log_entries@.len() {
            offset as int
        } else {
            self.log_entries@.len() as int
        };
        if offset <= self.log_entries.len() as u64 {
            self.log_entries.truncate(offset as usize);
        }
        assert(self.entries() =~= old(self).entries().take(cut));
        self.append_entries(entries);
    }

    /// Records a snapshot and compacts the stored entries up to its point.
    pub fn write_snapshot(&mut self, meta: SnapshotMeta, data: Vec<u8>)
        requires
            old(self).entries().len() >= 1,
        ensures
            final(self).snapshot matches Some((m, d)) && m == meta && d@ == data@,
            final(self).entries() == compacted(
                old(self).entries(),
                meta.last_included_index.0,
                meta.last_included_term.0,
            ),
            final(self).entries().len() >= 1,
            final(self).node_id == old(self).node_id,
            final(self).current_term == old(self).current_term,
            final(self).voted_for == old(self).voted_for,
    {
        let ghost dv = data@;
        self.snapshot = Some((meta, data));
        let ghost s0 = self.entries();
        let base_idx = self.log_entries[0].index.0;
        if meta.last_included_index.0 > base_idx {
            let offset = meta.last_included_index.0 - base_idx;
            let sentinel = LogEntry {
                index: meta.last_included_index,
                term: meta.last_included_term,
                command: Vec::new(),
            };
            if offset >= self.log_entries.len() as u64 {
                let mut v: Vec<LogEntry> = Vec::new();
                v.push(sentinel);
                self.log_entries = v;
            } else {
                let mut suffix = self.log_entries.split_off(offset as usize);
                suffix.set(0, sentinel);
                self.log_entries = suffix;
            }
        }
        assert(self.entries() =~= compacted(
            s0,
            meta.last_included_index.0,
            meta.last_included_term.0,
        ));
    }

    /// Writes entries one after another, as `append_entries` does, but stops
    /// with an error at the first entry that would leave a gap after the last
    /// stored one.
    pub fn try_append_entries(&mut self, entries: &[LogEntry]) -> (r: Result<(), DiskFault>)
        requires
            old(self).entries().len() >= 1,
        ensures
            final(self).entries().len() >= 1,
            r is Ok <==> disk_accepts(old(self).entries(), entries_view(entries@)),
            r is Ok ==> final(self).entries() == disk_put_all(old(self).entries(), entries_view(entries@)),
            r is Err ==> exists|k: int|
                rejected_at(old(self).entries(), entries_view(entries@), k) && r == Err::<(), DiskFault>(
                    gap_fault(old(self).entries(), entries_view(entries@), k, old(self).node_id),
                ) && final(self).entries() == disk_put_all(
                    old(self).entries(),
                    #[trigger] entries_view(entries@).take(k),
                ),
            final(self).node_id == old(self).node_id,
            final(self).current_term == old(self).current_term,
            final(self).voted_for == old(self).voted_for,
            final(self).snapshot == old(self).snapshot,
    {
        let ghost es = entries_view(entries@);
        let ghost log0 = self.entries();
        let mut i: usize = 0;
        while i < entries.len()
            invariant
                i <= entries@.len(),
                es == entries_view(entries@),
                log0 == old(self).entries(),
                forall|j: int| 0 <= j < i ==> disk_put_ok(disk_put_all(log0, #[trigger] es.take(j)), es[j]),
                self.entries() == disk_put_all(log0, es.take(i as int)),
                self.entries().len() >= 1,
                self.node_id == old(self).node_id,
                self.current_term == old(self).current_term,
                self.voted_for == old(self).voted_for,
                self.snapshot == old(self).snapshot,
            decreases entries@.len() - i,
        {
            let entry = &entries[i];
            let ghost cur = self.entries();
            assert(es[i as int] == entry@);
            assert(es.take(i + 1).drop_last() =~= es.take(i as int));
            assert(es.take(i + 1).last() == es[i as int]);
            assert(self.log_entries@[0]@ == cur[0]);
            let base = self.log_entries[0].index.0;
            if entry.index.0 >= base {
                let offset = entry.index.0 - base;
                if offset < self.log_entries.len() as u64 {
                    assert(self.log_entries@[offset as int]@ == cur[offset as int]);
                    if self.log_entries[offset as usize].term.0 != entry.term.0 {
                        self.log_entries.truncate(offset as usize);
                        self.log_entries.push(entry.clone());
                        assert(self.entries() =~= cur.take(offset as int).push(entry@));
                    }
                } else if offset == self.log_entries.len() as u64 {
                    self.log_entries.push(entry.clone());
                    assert(self.entries() =~= cur.push(entry@));
                } else {
                    proof {
                        assert(!disk_put_ok(disk_put_all(log0, es.take(i as int)), es[i as int]));
                        assert(!disk_accepts(log0, es));
                        assert(rejected_at(log0, es, i as int));
                    }
                    return Err(
                        DiskFault::NonContiguous {
                            index: entry.index,
                            node: self.node_id,
                            base: LogIndex(base),
                            len: self.log_entries.len(),
                        },
                    );
                }
            }
            i = i + 1;
        }
        assert(es.take(es.len() as int) =~= es);
        Ok(())
    }

    /// Truncates and writes as `truncate_and_append` does, but reports an
    /// error where that would cut at or below the base, or leave a gap.
    pub fn try_truncate_and_append(&mut self, from_index: LogIndex, entries: &[LogEntry]) -> (r: Result<(), DiskFault>)
        requires
            old(self).entries().len() >= 1,
        ensures
            final(self).entries().len() >= 1,
            from_index.0 <= old(self).entries()[0].index ==> r == Err::<(), DiskFault>(
                DiskFault::BeforeBase { from: from_index, base: LogIndex(old(self).entries()[0].index) },
            ) && final(self).entries() == old(self).entries(),
            from_index.0 > old(self).entries()[0].index ==> (r is Ok <==> disk_accepts(
                kept_before(old(self).entries(), from_index.0),
                entries_view(entries@),
            )),
            r is Ok ==> from_index.0 > old(self).entries()[0].index && final(self).entries()
                == disk_put_all(kept_before(old(self).entries(), from_index.0), entries_view(entries@)),
            r is Err && from_index.0 > old(self).entries()[0].index ==> exists|k: int|
                rejected_at(kept_before(old(self).entries(), from_index.0), entries_view(entries@), k) && r
                    == Err::<(), DiskFault>(
                    gap_fault(
                        kept_before(old(self).entries(), from_index.0),
                        entries_view(entries@),
                        k,
                        old(self).node_id,
                    ),
                ) && final(self).entries() == disk_put_all(
                    kept_before(old(self).entries(), from_index.0),
                    #[trigger] entries_view(entries@).take(k),
                ),
            final(self).node_id == old(self).node_id,
            final(self).current_term == old(self).current_term,
            final(self).voted_for == old(self).voted_for,
            final(self).snapshot == old(self).snapshot,
    {
        assert(self.log_entries@[0]@ == self.entries()[0]);
        let base_idx = self.log_entries[0].index.0;
        if from_index.0 <= base_idx {
            return Err(DiskFault::BeforeBase { from: from_index, base: LogIndex(base_idx) });
        }
        let offset = from_index.0 - base_idx;
        let ghost cut: int = if offset <= self.log_entries@.len() {
            offset as int
        } else {
            self.log_entries@.len() as int
        };
        if offset <= self.log_entries.len() as u64 {
            self.log_entries.truncate(offset as usize);
        }
        assert(self.entries() =~= old(self).entries().take(cut));
        self.try_append_entries(entries)
    }

    /// The snapshot point the disk restores from, as index and term.
    pub open spec fn snapshot_point_view(&self) -> (u64, u64) {
        match self.snapshot {
            Some((m, _)) => (m.last_included_index.0, m.last_included_term.0),
            None => (0, 0),
        }
    }

    /// The snapshot point the disk restores from, and the index that counts
    /// as committed and applied on restart.
    pub fn snapshot_point(&self) -> (r: (SnapshotMeta, LogIndex))
        ensures
            self.snapshot matches Some((m, _)) ==> r.0 == m && r.1 == m.last_included_index,
            self.snapshot is None ==> r.0.last_included_index.0 == 0 && r.0.last_included_term.0 == 0
                && r.1.0 == 0,
    {
        match &self.snapshot {
            Some((m, _)) => (*m, m.last_included_index),
            None => (
                SnapshotMeta { last_included_index: LogIndex(0), last_included_term: Term(0) },
                LogIndex(0),
            ),
        }
    }
}

} // verus!

verus! {

/// The report of a write past the end of a disk.
pub open spec fn non_contiguous_message(index: u64, node: u64, base: u64, len: u64) -> Seq<char> {
    "Non-contiguous disk write at index L"@ + decimal(index as nat) + " for node "@ + decimal(
        node as nat,
    ) + " (disk base L"@ + decimal(base as nat) + ", disk len "@ + decimal(len as nat) + ")"@
}

/// The report of a truncation at or below a disk's base.
pub open spec fn before_base_message(from: u64, base: u64) -> Seq<char> {
    "Cannot truncate before disk base (truncate at L"@ + decimal(from as nat) + ", disk base L"@
        + decimal(base as nat) + ")"@
}

fn non_contiguous_text(index: u64, node: u64, base: u64, len: u64) -> (r: String)
    ensures
        r@ == non_contiguous_message(index, node, base, len),
{
    let mut out = String::new();
    out.append("Non-contiguous disk write at index L");
    push_decimal(&mut out, index);
    out.append(" for node ");
    push_decimal(&mut out, node);
    out.append(" (disk base L");
    push_decimal(&mut out, base);
    out.append(", disk len ");
    push_decimal(&mut out, len);
    out.append(")");
    out
}

fn before_base_text(from: u64, base: u64) -> (r: String)
    ensures
        r@ == before_base_message(from, base),
{
    let mut out = String::new();
    out.append("Cannot truncate before disk base (truncate at L");
    push_decimal(&mut out, from);
    out.append(", disk base L");
    push_decimal(&mut out, base);
    out.append(")");
    out
}

impl DiskFault {
    /// The report printed for this fault.
    pub open spec fn message(&self) -> Seq<char> {
        match *self {
            DiskFault::NonContiguous { index, node, base, len } => non_contiguous_message(
                index.0,
                node.0,
                base.0,
                len as u64,
            ),
            DiskFault::BeforeBase { from, base } => before_base_message(from.0, base.0),
        }
    }

    /// The report printed for this fault.
    pub fn describe(&self) -> (r: String)
        ensures
            r@ == self.message(),
    {
        match self {
            DiskFault::NonContiguous { index, node, base, len } => non_contiguous_text(
                index.0,
                node.0,
                base.0,
                *len as u64,
            ),
            DiskFault::BeforeBase { from, base } => before_base_text(from.0, base.0),
        }
    }
}

} // verus!

verus! {

/// What a disk holds: term, vote, stored entries (sentinel first), and the
/// snapshot point and data, if any.
pub struct DiskView {
    pub current_term: u64,
    pub voted_for: Option<u64>,
    pub entries: Seq<EntryView>,
    pub snapshot: Option<(u64, u64, Seq<u8>)>,
}

impl StableDisk {
    /// What this disk holds.
    pub open spec fn disk_view(&self) -> DiskView {
        DiskView {
            current_term: self.current_term.0,
            voted_for: opt_node_view(self.voted_for),
            entries: self.entries(),
            snapshot: match self.snapshot {
                Some((m, d)) => Some((m.last_included_index.0, m.last_included_term.0, d@)),
                None => None,
            },
        }
    }
}

/// Whether the action is a write to the server's disk.
pub open spec fn writes_disk(a: ActionView) -> bool {
    !(a is Send) && !(a is Apply)
}

/// The disk after the write `a`, or `None` when the disk cannot take it.
pub open spec fn disk_apply(d: DiskView, a: ActionView) -> Option<DiskView> {
    match a {
        ActionView::AppendEntries { entries } => if disk_accepts(d.entries, entries) {
            Some(DiskView { entries: disk_put_all(d.entries, entries), ..d })
        } else {
            None
        },
        ActionView::TruncateAndAppend { from_index, entries } => if from_index > d.entries[0].index
            && disk_accepts(kept_before(d.entries, from_index), entries) {
            Some(DiskView { entries: disk_put_all(kept_before(d.entries, from_index), entries), ..d })
        } else {
            None
        },
        ActionView::PersistHardState { term, voted_for } => Some(
            DiskView { current_term: term, voted_for, ..d },
        ),
        ActionView::PersistSnapshot { last_included_index, last_included_term, data } => Some(
            DiskView {
                entries: compacted(d.entries, last_included_index, last_included_term),
                snapshot: Some((last_included_index, last_included_term, data)),
                ..d
            },
        ),
        _ => Some(d),
    }
}

/// The disk after the writes among `acts` in turn, or `None` once one cannot be made.
pub open spec fn disk_apply_all(d: DiskView, acts: Seq<ActionView>) -> Option<DiskView>
    decreases acts.len(),
{
    if acts.len() == 0 {
        Some(d)
    } else {
        match disk_apply_all(d, acts.drop_last()) {
            Some(d1) => disk_apply(d1, acts.last()),
            None => None,
        }
    }
}

/// The first entry of `es` that the disk holding `log` cannot take in turn.
pub open spec fn first_rejected(log: Seq<EntryView>, es: Seq<EntryView>) -> int {
    choose|k: int| rejected_at(log, es, k)
}

/// Only one entry is the first the disk cannot take.
pub proof fn lemma_rejected_unique(log: Seq<EntryView>, es: Seq<EntryView>, k: int)
    requires
        rejected_at(log, es, k),
    ensures
        first_rejected(log, es) == k,
{
    let j = first_rejected(log, es);
    assert(rejected_at(log, es, j));
    if j < k {
        assert(disk_put_ok(disk_put_all(log, es.take(j)), es[j]));
    } else if k < j {
        assert(disk_put_ok(disk_put_all(log, es.take(k)), es[k]));
    }
}

/// The fault reported when the disk of `node`, holding `d`, cannot take `a`.
pub open spec fn refusal(d: DiskView, a: ActionView, node: NodeId) -> DiskFault {
    match a {
        ActionView::TruncateAndAppend { from_index, entries } => if from_index <= d.entries[0].index {
            DiskFault::BeforeBase { from: LogIndex(from_index), base: LogIndex(d.entries[0].index) }
        } else {
            gap_fault(
                kept_before(d.entries, from_index),
                entries,
                first_rejected(kept_before(d.entries, from_index), entries),
                node,
            )
        },
        ActionView::AppendEntries { entries } => gap_fault(
            d.entries,
            entries,
            first_rejected(d.entries, entries),
            node,
        ),
        _ => DiskFault::BeforeBase { from: LogIndex(0), base: LogIndex(0) },
    }
}

/// The writes among `acts` stop at `acts[j]`: the disk takes those before it and not that one.
pub open spec fn refused_at(d: DiskView, acts: Seq<ActionView>, j: int) -> bool {
    &&& 0 <= j < acts.len()
    &&& disk_apply_all(d, acts.take(j)) is Some
    &&& disk_apply(disk_apply_all(d, acts.take(j))->0, acts[j]) is None
}

/// Once a write cannot be made, the writes as a whole cannot.
pub proof fn lemma_refused_stops(d: DiskView, acts: Seq<ActionView>, j: int)
    requires
        refused_at(d, acts, j),
    ensures
        disk_apply_all(d, acts) is None,
    decreases acts.len(),
{
    if j == acts.len() - 1 {
        assert(acts.take(j) =~= acts.drop_last());
    } else {
        assert(acts.drop_last().take(j) =~= acts.take(j));
        lemma_refused_stops(d, acts.drop_last(), j);
    }
}

} // verus!

verus! {

/// Every entry of `es` has a higher index than those before it.
pub open spec fn increasing_indices(es: Seq<EntryView>) -> bool {
    forall|i: int, j: int| 0 <= i < j < es.len() ==> (#[trigger] es[i]).index < (#[trigger] es[j]).index
}

/// Entry `e` is below the base of `log`, or `log` holds an entry of its term at its index.
pub open spec fn covers(log: Seq<EntryView>, e: EntryView) -> bool {
    e.index < log[0].index || (e.index - log[0].index < log.len() && log[e.index - log[0].index].term == e.term)
}

/// After writing a prefix of `es`, the base is unchanged and every entry
/// written so far is covered.
proof fn lemma_put_all_covers(log: Seq<EntryView>, es: Seq<EntryView>, i: int)
    requires
        log.len() >= 1,
        disk_accepts(log, es),
        increasing_indices(es),
        0 <= i <= es.len(),
    ensures
        disk_put_all(log, es.take(i)).len() >= 1,
        disk_put_all(log, es.take(i))[0].index == log[0].index,
        forall|j: int| 0 <= j < i ==> covers(disk_put_all(log, es.take(i)), #[trigger] es[j]),
    decreases i,
{
    if i == 0 {
        assert(es.take(0) =~= Seq::<EntryView>::empty());
    } else {
        lemma_put_all_covers(log, es, i - 1);
        let prev = disk_put_all(log, es.take(i - 1));
        assert(es.take(i).drop_last() =~= es.take(i - 1));
        assert(es.take(i).last() == es[i - 1]);
        assert(disk_put_ok(prev, es[i - 1]));
        let cur = disk_put_all(log, es.take(i));
        assert(cur == disk_put(prev, es[i - 1]));
        assert forall|j: int| 0 <= j < i implies covers(cur, #[trigger] es[j]) by {
            if j < i - 1 {
                assert(es[j].index < es[i - 1].index);
                assert(covers(prev, es[j]));
            }
        }
    }
}

/// Writing entries that are all covered changes nothing.
proof fn lemma_put_all_covered(log: Seq<EntryView>, es: Seq<EntryView>)
    requires
        log.len() >= 1,
        forall|j: int| 0 <= j < es.len() ==> covers(log, #[trigger] es[j]),
    ensures
        disk_put_all(log, es) == log,
    decreases es.len(),
{
    if es.len() > 0 {
        let d = es.drop_last();
        assert forall|j: int| 0 <= j < d.len() implies covers(log, #[trigger] d[j]) by {
            assert(d[j] == es[j]);
        }
        lemma_put_all_covered(log, d);
        assert(covers(log, es[es.len() - 1]));
    }
}

/// Appending the same entries to a disk twice (`StableDisk::append_entries`,
/// whose result is `disk_put_all`) leaves what appending them once leaves,
/// and the disk takes the second append: each entry is then either below
/// the disk's base, and skipped, or already stored with its term.
pub proof fn lemma_disk_write_idempotent(log: Seq<EntryView>, es: Seq<EntryView>)
    requires
        log.len() >= 1,
        disk_accepts(log, es),
        increasing_indices(es),
    ensures
        disk_accepts(disk_put_all(log, es), es),
        disk_put_all(disk_put_all(log, es), es) == disk_put_all(log, es),
{
    lemma_put_all_covers(log, es, es.len() as int);
    assert(es.take(es.len() as int) =~= es);
    let once = disk_put_all(log, es);
    lemma_put_all_covered(once, es);
    assert forall|i: int| 0 <= i < es.len() implies disk_put_ok(
        disk_put_all(once, #[trigger] es.take(i)),
        es[i],
    ) by {
        assert forall|j: int| 0 <= j < es.take(i).len() implies covers(once, #[trigger] es.take(i)[j]) by {
            assert(es.take(i)[j] == es[j]);
        }
        lemma_put_all_covered(once, es.take(i));
        assert(covers(once, es[i]));
    }
}

} // verus!
