use vstd::prelude::*;

verus! {

/// A Raft election term.
#[derive(Clone, Copy, PartialEq, Eq, Structural, PartialOrd, Ord, Hash, Debug)]
pub struct Term(pub u64);

impl Term {
    /// The term every server starts in.
    pub fn zero() -> (r: Term)
        ensures
            r.0 == 0,
    {
        Term(0)
    }

    /// The term that follows this one.
    pub fn next(self) -> (r: Term)
        requires
            self.0 < u64::MAX,
        ensures
            r.0 == self.0 + 1,
    {
        Term(self.0 + 1)
    }
}

impl Default for Term {
    fn default() -> (r: Term)
        ensures
            r.0 == 0,
    {
        Term(0)
    }
}

/// A position in the replicated log.
#[derive(Clone, Copy, PartialEq, Eq, Structural, PartialOrd, Ord, Hash, Debug)]
pub struct LogIndex(pub u64);

impl LogIndex {
    /// The index of the sentinel entry of an uncompacted log.
    pub fn sentinel() -> (r: LogIndex)
        ensures
            r.0 == 0,
    {
        LogIndex(0)
    }

    /// The index that follows this one.
    pub fn next(self) -> (r: LogIndex)
        requires
            self.0 < u64::MAX,
        ensures
            r.0 == self.0 + 1,
    {
        LogIndex(self.0 + 1)
    }

    /// The index before this one; the sentinel index is its own predecessor.
    pub fn prev(self) -> (r: LogIndex)
        ensures
            r.0 == if self.0 == 0 { 0 } else { self.0 - 1 },
    {
        LogIndex(self.0.saturating_sub(1))
    }
}

impl Default for LogIndex {
    fn default() -> (r: LogIndex)
        ensures
            r.0 == 0,
    {
        LogIndex(0)
    }
}

/// The identity of a server in the cluster.
#[derive(Clone, Copy, PartialEq, Eq, Structural, PartialOrd, Ord, Hash, Debug)]
pub struct NodeId(pub u64);

} // verus!
