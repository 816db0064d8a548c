//! The structural failures a merge can report.

use vstd::prelude::*;

verus! {

/// A structural, non-retryable failure: the three trees are not comparable at
/// some node, and the caller must decide how to proceed.
#[derive(Debug, PartialEq, Eq)]
pub enum MergeError {
    /// Left and right independently changed a node's kind; the two kind tags
    /// are carried along.
    NodesWithDifferentKinds(String, String),
    /// The three sides disagree on whether a position is a leaf or an
    /// interior node.
    MergingTerminalWithNonTerminal,
}

} // verus!
