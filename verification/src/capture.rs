//! Capture bookkeeping: what one capture entry records and how a finished
//! match's entries are read back.
//!
//! Entries are only ever appended to, or truncated from, the end of the
//! capture list, because backtracking must restore the exact list length
//! recorded at the enclosing choice point.

use vstd::prelude::*;

verus! {

/// The kinds of captures.
#[derive(Debug, PartialEq, Eq, Structural, Clone, Copy)]
pub enum CapKind {
    Cclose,
    Cposition,
    Cconst,
    Cbackref,
    Carg,
    Csimple,
    Ctable,
    Cfunction,
    Cquery,
    Cstring,
    Cnum,
    Csubst,
    Cfold,
    Cruntime,
    Cgroup,
}

/// One capture entry: a subject position, the capture's kind, the index that
/// recovers grouping and naming metadata, and the closed mark (`siz` is 0 for
/// an opening entry and 1 for a closing one).
#[derive(Debug, PartialEq, Eq, Structural, Clone, Copy)]
pub struct Capture {
    /// Subject position of the entry, in characters from the start.
    pub s: usize,
    /// Extra information about the capture: group number or argument index.
    pub idx: usize,
    /// Kind of capture.
    pub kind: CapKind,
    /// 0 for an opening entry, 1 for a closing one.
    pub siz: u8,
}

/// A cursor over a finished match's capture list, for reading the entries
/// back in order.
pub struct CapState {
    /// The capture list of the finished match.
    pub ocap: Vec<Capture>,
    /// Index of the entry the cursor stands on.
    pub cap: usize,
    /// Subject position where the match started.
    pub s: usize,
}

} // verus!
