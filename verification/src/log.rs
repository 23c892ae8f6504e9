use vstd::prelude::*;
use crate::message::{entries_view, EntryView, LogEntry, SnapshotMeta};
use crate::types::{LogIndex, Term};

verus! {

/// The entry that stands for everything up to a snapshot point: it carries the
/// position and term of the snapshot's last entry and no command.
pub open spec fn sentinel_view(index: u64, term: u64) -> EntryView {
    EntryView { index, term, command: Seq::empty() }
}

/// `s` holds, in order, the indices `start`, `start + 1`, ...
pub open spec fn runs_from(s: Seq<EntryView>, start: int) -> bool {
    forall|i: int| 0 <= i < s.len() ==> #[trigger] s[i].index == start + i
}

/// The stored entries (sentinel first) hold consecutive indices.
pub open spec fn contiguous(s: Seq<EntryView>) -> bool {
    s.len() >= 1 && runs_from(s, s[0].index as int)
}

/// Index of the sentinel, that is of the first retained position.
pub open spec fn first_index_of(s: Seq<EntryView>) -> u64 {
    s[0].index
}

pub open spec fn last_index_of(s: Seq<EntryView>) -> u64 {
    s.last().index
}

pub open spec fn last_term_of(s: Seq<EntryView>) -> u64 {
    s.last().term
}

/// Whether index `i` falls on a stored position (the sentinel included).
pub open spec fn holds_index(s: Seq<EntryView>, i: u64) -> bool {
    s[0].index <= i && i - s[0].index < s.len()
}

/// The entry stored at the position of index `i`, counted from the sentinel.
pub open spec fn entry_at_of(s: Seq<EntryView>, i: u64) -> Option<EntryView> {
    if holds_index(s, i) {
        Some(s[i - s[0].index])
    } else {
        None
    }
}

pub open spec fn term_at_of(s: Seq<EntryView>, i: u64) -> Option<u64> {
    if holds_index(s, i) {
        Some(s[i - s[0].index].term)
    } else {
        None
    }
}

/// The stored entries from index `start` on, never the sentinel.
pub open spec fn entries_from_of(s: Seq<EntryView>, start: u64) -> Seq<EntryView> {
    if start <= s[0].index {
        s.subrange(1, s.len() as int)
    } else if start - s[0].index >= s.len() {
        Seq::empty()
    } else {
        s.subrange(start - s[0].index, s.len() as int)
    }
}

/// The stored entries after truncating at index `from` and appending `new`.
pub open spec fn truncated_and_appended(s: Seq<EntryView>, from: u64, new: Seq<EntryView>) -> Seq<
    EntryView,
> {
    let off = from - s[0].index;
    if off <= s.len() {
        s.subrange(0, off) + new
    } else {
        s + new
    }
}

/// The stored entries after compacting up to index `idx` with term `term`.
pub open spec fn compacted(s: Seq<EntryView>, idx: u64, term: u64) -> Seq<EntryView> {
    if idx <= s[0].index {
        s
    } else if idx - s[0].index >= s.len() {
        seq![sentinel_view(idx, term)]
    } else {
        seq![sentinel_view(idx, term)] + s.subrange(idx - s[0].index + 1, s.len() as int)
    }
}

/// In a contiguous log, the stored positions are exactly the indices from the
/// sentinel's to the last one, and each holds its own index.
pub proof fn lemma_contiguous_positions(s: Seq<EntryView>)
    requires
        contiguous(s),
    ensures
        last_index_of(s) == first_index_of(s) + s.len() - 1,
        forall|i: u64|
            #![trigger holds_index(s, i)]
            holds_index(s, i) <==> first_index_of(s) <= i <= last_index_of(s),
        forall|i: u64|
            #![trigger entry_at_of(s, i)]
            holds_index(s, i) ==> (entry_at_of(s, i) matches Some(e) && e.index == i),
{
    assert(s.last() == s[s.len() - 1]);
}

/// Appending entries that continue the log keeps it contiguous; what was
/// stored reads as before, and each appended entry reads back at its index.
pub proof fn lemma_append(s: Seq<EntryView>, new: Seq<EntryView>)
    requires
        contiguous(s),
        runs_from(new, last_index_of(s) + 1),
    ensures
        contiguous(s + new),
        last_index_of(s + new) == last_index_of(s) + new.len(),
        forall|i: u64|
            #![trigger entry_at_of(s + new, i)]
            holds_index(s, i) ==> entry_at_of(s + new, i) == entry_at_of(s, i),
        forall|k: int|
            0 <= k < new.len() ==> entry_at_of(s + new, #[trigger] new[k].index) == Some(new[k]),
{
    lemma_contiguous_positions(s);
    let r = s + new;
    assert forall|i: int| 0 <= i < r.len() implies #[trigger] r[i].index == r[0].index + i by {
        if i >= s.len() {
            assert(r[i] == new[i - s.len()]);
        }
    }
    assert(r.last() == r[r.len() - 1]);
    assert forall|k: int| 0 <= k < new.len() implies entry_at_of(
        r,
        #[trigger] new[k].index,
    ) == Some(new[k]) by {
        assert(r[s.len() + k] == new[k]);
    }
}

/// Truncating a contiguous log at an index after its sentinel and at most one
/// past its end, then appending entries that start at that index, keeps it
/// contiguous: the entries below the cut read as before, and the appended ones
/// read back at their own indices.
pub proof fn lemma_truncate_and_append(s: Seq<EntryView>, from: u64, new: Seq<EntryView>)
    requires
        contiguous(s),
        first_index_of(s) < from <= last_index_of(s) + 1,
        runs_from(new, from as int),
    ensures
        contiguous(truncated_and_appended(s, from, new)),
        last_index_of(truncated_and_appended(s, from, new)) == from + new.len() - 1,
        forall|i: u64|
            #![trigger entry_at_of(truncated_and_appended(s, from, new), i)]
            first_index_of(s) <= i < from ==> entry_at_of(truncated_and_appended(s, from, new), i)
                == entry_at_of(s, i),
        forall|k: int|
            0 <= k < new.len() ==> entry_at_of(
                truncated_and_appended(s, from, new),
                #[trigger] new[k].index,
            ) == Some(new[k]),
{
    lemma_contiguous_positions(s);
    let off = from - s[0].index;
    let r = truncated_and_appended(s, from, new);
    assert(r == s.subrange(0, off) + new);
    assert forall|i: int| 0 <= i < r.len() implies #[trigger] r[i].index == r[0].index + i by {
        if i >= off {
            assert(r[i] == new[i - off]);
        } else {
            assert(r[i] == s[i]);
        }
    }
    assert(r.last() == r[r.len() - 1]);
    assert forall|i: u64| first_index_of(s) <= i < from implies #[trigger] entry_at_of(r, i)
        == entry_at_of(s, i) by {
        assert(r[i - s[0].index] == s[i - s[0].index]);
    }
    assert forall|k: int| 0 <= k < new.len() implies entry_at_of(r, #[trigger] new[k].index)
        == Some(new[k]) by {
        assert(r[off + k] == new[k]);
    }
}

/// Compacting a contiguous log keeps it contiguous; past the sentinel's
/// current index it moves the sentinel to the given index and term, and every
/// entry above the new sentinel reads as before.
pub proof fn lemma_compact(s: Seq<EntryView>, idx: u64, term: u64)
    requires
        contiguous(s),
    ensures
        contiguous(compacted(s, idx, term)),
        idx <= first_index_of(s) ==> compacted(s, idx, term) == s,
        idx > first_index_of(s) ==> first_index_of(compacted(s, idx, term)) == idx
            && term_at_of(compacted(s, idx, term), idx) == Some(term),
        idx > first_index_of(s) ==> last_index_of(compacted(s, idx, term)) == if idx
            > last_index_of(s) {
            idx
        } else {
            last_index_of(s)
        },
        forall|i: u64|
            #![trigger entry_at_of(compacted(s, idx, term), i)]
            idx < i && holds_index(s, i) ==> entry_at_of(compacted(s, idx, term), i)
                == entry_at_of(s, i),
{
    lemma_contiguous_positions(s);
    let c = compacted(s, idx, term);
    if idx <= s[0].index {
    } else if idx - s[0].index >= s.len() {
        assert(c.last() == c[0]);
    } else {
        let off = idx - s[0].index;
        assert forall|i: int| 0 <= i < c.len() implies #[trigger] c[i].index == c[0].index + i by {
            if i > 0 {
                assert(c[i] == s[off + i]);
            }
        }
        assert(c.last() == c[c.len() - 1]);
        if off + 1 < s.len() {
            assert(c[c.len() - 1] == s[s.len() - 1]);
        }
        assert forall|i: u64| idx < i && holds_index(s, i) implies #[trigger] entry_at_of(c, i)
            == entry_at_of(s, i) by {
            assert(c[i - idx] == s[i - s[0].index]);
        }
    }
}

/// Installing a snapshot, or starting afresh, leaves a contiguous log.
pub proof fn lemma_sentinel_only(index: u64, term: u64)
    ensures
        contiguous(seq![sentinel_view(index, term)]),
        last_index_of(seq![sentinel_view(index, term)]) == index,
        term_at_of(seq![sentinel_view(index, term)], index) == Some(term),
{
}

/// A log restored from a snapshot point and entries that continue it is contiguous.
pub proof fn lemma_restore(index: u64, term: u64, new: Seq<EntryView>)
    requires
        runs_from(new, index + 1),
    ensures
        contiguous(seq![sentinel_view(index, term)] + new),
{
    lemma_sentinel_only(index, term);
    lemma_append(seq![sentinel_view(index, term)], new);
}


/// The Raft log, using the sentinel entry convention.
///
/// The first stored entry is a sentinel (or snapshot base) whose index and term
/// are those of the snapshot point; real entries follow it.  When the log is
/// contiguous, the entry at position `i` holds index `base + i`.
pub struct RaftLog {
    entries: Vec<LogEntry>,
}

impl View for RaftLog {
    type V = Seq<EntryView>;

    closed spec fn view(&self) -> Seq<EntryView> {
        entries_view(self.entries@)
    }
}

impl RaftLog {
    /// A log always holds its sentinel.
    pub open spec fn wf(&self) -> bool {
        self@.len() >= 1
    }

    proof fn lemma_view(&self)
        ensures
            self@.len() == self.entries@.len(),
            forall|i: int| 0 <= i < self@.len() ==> #[trigger] self@[i] == self.entries@[i]@,
    {
    }

    /// An empty log whose sentinel stands at index 0, term 0.
    pub fn new() -> (r: RaftLog)
        ensures
            r.wf(),
            r@ == seq![sentinel_view(0, 0)],
    {
        let mut entries: Vec<LogEntry> = Vec::new();
        entries.push(LogEntry { index: LogIndex(0), term: Term(0), command: Vec::new() });
        let r = RaftLog { entries };
        assert(r@ =~= seq![sentinel_view(0, 0)]);
        r
    }

    /// A log rebuilt from a snapshot point and the entries stored after it.
    pub fn restore(meta: SnapshotMeta, entries: Vec<LogEntry>) -> (r: RaftLog)
        ensures
            r.wf(),
            r@ == seq![sentinel_view(meta.last_included_index.0, meta.last_included_term.0)]
                + entries_view(entries@),
    {
        let sentinel = LogEntry {
            index: meta.last_included_index,
            term: meta.last_included_term,
            command: Vec::new(),
        };
        let mut v: Vec<LogEntry> = Vec::new();
        v.push(sentinel);
        let mut rest = entries;
        let ghost rest0 = rest@;
        v.append(&mut rest);
        let r = RaftLog { entries: v };
        assert(r@ =~= seq![sentinel_view(meta.last_included_index.0, meta.last_included_term.0)]
            + entries_view(rest0));
        r
    }

    pub fn last_index(&self) -> (r: LogIndex)
        requires
            self.wf(),
        ensures
            r.0 == last_index_of(self@),
    {
        proof { self.lemma_view(); }
        self.entries[self.entries.len() - 1].index
    }

    pub fn last_term(&self) -> (r: Term)
        requires
            self.wf(),
        ensures
            r.0 == last_term_of(self@),
    {
        proof { self.lemma_view(); }
        self.entries[self.entries.len() - 1].term
    }

    /// The index of the first entry currently retained (the sentinel snapshot base).
    pub fn first_index(&self) -> (r: LogIndex)
        requires
            self.wf(),
        ensures
            r.0 == first_index_of(self@),
    {
        proof { self.lemma_view(); }
        self.entries[0].index
    }

    pub fn term_at(&self, index: LogIndex) -> (r: Option<Term>)
        requires
            self.wf(),
        ensures
            r matches Some(t) ==> term_at_of(self@, index.0) == Some(t.0),
            r is None ==> term_at_of(self@, index.0) is None,
    {
        proof { self.lemma_view(); }
        let base = self.entries[0].index.0;
        if index.0 < base {
            return None;
        }
        let offset = index.0 - base;
        if offset < self.entries.len() as u64 {
            Some(self.entries[offset as usize].term)
        } else {
            None
        }
    }

    pub fn entry_at(&self, index: LogIndex) -> (r: Option<&LogEntry>)
        requires
            self.wf(),
        ensures
            r matches Some(e) ==> entry_at_of(self@, index.0) == Some(e@),
            r is None ==> entry_at_of(self@, index.0) is None,
    {
        proof { self.lemma_view(); }
        let base = self.entries[0].index.0;
        if index.0 < base {
            return None;
        }
        let offset = index.0 - base;
        if offset < self.entries.len() as u64 {
            Some(&self.entries[offset as usize])
        } else {
            None
        }
    }

    /// Appends entries at the end; the first of them must carry the index after the last one.
    pub fn append(&mut self, entries: Vec<LogEntry>)
        requires
            old(self).wf(),
            entries@.len() > 0 ==> entries@[0].index.0 == last_index_of(old(self)@) + 1,
        ensures
            final(self).wf(),
            final(self)@ == old(self)@ + entries_view(entries@),
    {
        proof { self.lemma_view(); }
        if entries.len() == 0 {
            assert(old(self)@ + entries_view(entries@) =~= old(self)@);
            return;
        }
        let mut entries = entries;
        let ghost e0 = entries@;
        self.entries.append(&mut entries);
        proof {
            assert(self@ =~= old(self)@ + entries_view(e0));
        }
    }

    /// Drops every entry from index `from_index` on, then appends `entries`.
    pub fn truncate_and_append(&mut self, from_index: LogIndex, entries: Vec<LogEntry>)
        requires
            old(self).wf(),
            from_index.0 > first_index_of(old(self)@),
        ensures
            final(self).wf(),
            final(self)@ == truncated_and_appended(old(self)@, from_index.0, entries_view(
                entries@,
            )),
    {
        proof { self.lemma_view(); }
        let base = self.entries[0].index.0;
        let offset = from_index.0 - base;
        if offset <= self.entries.len() as u64 {
            self.entries.truncate(offset as usize);
        }
        let mut entries = entries;
        let ghost e0 = entries@;
        self.entries.append(&mut entries);
        proof {
            assert(self@ =~= truncated_and_appended(old(self)@, from_index.0, entries_view(e0)));
        }
    }

    /// The stored entries from `start_index` on (never the sentinel).
    pub fn entries_from(&self, start_index: LogIndex) -> (r: &[LogEntry])
        requires
            self.wf(),
        ensures
            entries_view(r@) == entries_from_of(self@, start_index.0),
    {
        proof { self.lemma_view(); }
        let base = self.entries[0].index.0;
        let len = self.entries.len();
        let r = if start_index.0 <= base {
            vstd::slice::slice_subrange(self.entries.as_slice(), 1, len)
        } else {
            let offset = start_index.0 - base;
            if offset >= len as u64 {
                vstd::slice::slice_subrange(self.entries.as_slice(), len, len)
            } else {
                vstd::slice::slice_subrange(self.entries.as_slice(), offset as usize, len)
            }
        };
        assert(entries_view(r@) =~= entries_from_of(self@, start_index.0));
        r
    }

    /// The snapshot point the sentinel stands for, if the log was ever compacted.
    pub fn snapshot_meta(&self) -> (r: Option<SnapshotMeta>)
        requires
            self.wf(),
        ensures
            self@[0].index == 0 ==> r is None,
            self@[0].index != 0 ==> (r matches Some(m) && m.last_included_index.0
                == self@[0].index && m.last_included_term.0 == self@[0].term),
    {
        proof { self.lemma_view(); }
        let sentinel = &self.entries[0];
        if sentinel.index.0 == 0 {
            None
        } else {
            Some(
                SnapshotMeta {
                    last_included_index: sentinel.index,
                    last_included_term: sentinel.term,
                },
            )
        }
    }

    /// Compacts the log by throwing away entries up to `last_included_index`.
    /// The position of `last_included_index` is retained as the new sentinel.
    pub fn compact(&mut self, last_included_index: LogIndex, last_included_term: Term)
        requires
            old(self).wf(),
        ensures
            final(self).wf(),
            final(self)@ == compacted(old(self)@, last_included_index.0, last_included_term.0),
    {
        proof { self.lemma_view(); }
        let base = self.entries[0].index.0;
        if last_included_index.0 <= base {
            return;
        }
        let offset = last_included_index.0 - base;
        let sentinel = LogEntry {
            index: last_included_index,
            term: last_included_term,
            command: Vec::new(),
        };
        if offset >= self.entries.len() as u64 {
            let mut v: Vec<LogEntry> = Vec::new();
            v.push(sentinel);
            self.entries = v;
            assert(self@ =~= compacted(old(self)@, last_included_index.0, last_included_term.0));
        } else {
            let mut suffix = self.entries.split_off(offset as usize);
            suffix.set(0, sentinel);
            self.entries = suffix;
            assert(self@ =~= compacted(old(self)@, last_included_index.0, last_included_term.0));
        }
    }

    /// Discards the whole log in favour of a snapshot.
    pub fn install_snapshot(&mut self, meta: SnapshotMeta)
        ensures
            final(self).wf(),
            final(self)@ == seq![
                sentinel_view(meta.last_included_index.0, meta.last_included_term.0),
            ],
    {
        self.entries.clear();
        self.entries.push(
            LogEntry {
                index: meta.last_included_index,
                term: meta.last_included_term,
                command: Vec::new(),
            },
        );
        assert(self@ =~= seq![
            sentinel_view(meta.last_included_index.0, meta.last_included_term.0),
        ]);
    }

    /// The number of real entries (the sentinel is not counted).
    pub fn len(&self) -> (r: usize)
        requires
            self.wf(),
        ensures
            r == self@.len() - 1,
    {
        proof { self.lemma_view(); }
        self.entries.len() - 1
    }

    pub fn is_empty(&self) -> (r: bool)
        requires
            self.wf(),
        ensures
            r == (self@.len() == 1),
    {
        self.len() == 0
    }
}

} // verus!
