//! The optional merge trace log.
//!
//! A caller may thread a `LogState` through a merge; the merge then appends
//! structural context markers, in order, and never alters or removes what was
//! already logged.

use vstd::prelude::*;

verus! {

/// One structural trace event, carrying the node kind it concerns.
#[derive(Debug, PartialEq, Eq)]
pub enum MergeChunk {
    UnorderedContextStart { node_kind: String },
    UnorderedContextEnd { node_kind: String },
}

/// Whether a chunk marks the start of an unordered context for `kind`.
pub open spec fn chunk_is_start(c: MergeChunk, kind: Seq<char>) -> bool {
    c matches MergeChunk::UnorderedContextStart { node_kind } && node_kind@ == kind
}

/// Whether a chunk marks the end of an unordered context for `kind`.
pub open spec fn chunk_is_end(c: MergeChunk, kind: Seq<char>) -> bool {
    c matches MergeChunk::UnorderedContextEnd { node_kind } && node_kind@ == kind
}

/// The append-only ordered sequence of trace events.
#[derive(Debug)]
pub struct LogState {
    pub log: Vec<MergeChunk>,
}

impl LogState {
    /// An empty trace.
    pub fn new() -> (r: LogState)
        ensures
            r.log@.len() == 0,
    {
        LogState { log: Vec::new() }
    }
}

/// The events of an optional trace; an absent trace has none.
pub open spec fn log_events(l: Option<LogState>) -> Seq<MergeChunk> {
    match l {
        Some(s) => s.log@,
        None => Seq::empty(),
    }
}

/// The old trace, if any, survives as a prefix of the new one, and a merge
/// never conjures a trace out of nothing nor discards one.
pub open spec fn log_preserved(old_log: Option<LogState>, new_log: Option<LogState>) -> bool {
    match (old_log, new_log) {
        (None, None) => true,
        (Some(o), Some(n)) => n.log@.len() >= o.log@.len() && (forall|i: int|
            0 <= i < o.log@.len() ==> n.log@[i] == o.log@[i]),
        _ => false,
    }
}

/// Preservation of the trace composes.
pub proof fn lemma_log_preserved_trans(
    a: Option<LogState>,
    b: Option<LogState>,
    c: Option<LogState>,
)
    requires
        log_preserved(a, b),
        log_preserved(b, c),
    ensures
        log_preserved(a, c),
{
}

} // verus!
