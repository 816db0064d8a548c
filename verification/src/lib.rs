//! Structural three-way merging of concrete syntax trees.
//!
//! Two edited versions of a parsed source file are reconciled against their
//! common ancestor.  A matching engine first computes, for a pair of subtrees,
//! a best-scoring correspondence between their descendants together with a
//! similarity score; a merge engine then walks base, left and right
//! simultaneously, guided by three such correspondence sets, and produces a
//! single merged tree with conflict markers where the two sides disagree.

pub mod cst_node;
pub mod log_structures;
pub mod matching;
pub mod matchings;
pub mod merge;
pub mod merge_error;
pub mod merge_terminals;
pub mod merged_cst_node;
pub mod ordered_merge;
pub mod unordered_merge;

pub use cst_node::CSTNode;
pub use cst_node::NonTerminal;
pub use cst_node::Point;
pub use cst_node::Terminal;
pub use log_structures::LogState;
pub use log_structures::MergeChunk;
pub use matching::calculate_matchings;
pub use matchings::MatchingEntry;
pub use matchings::MatchingRecord;
pub use matchings::Matchings;
pub use merge::merge;
pub use merge_error::MergeError;
pub use merged_cst_node::MergedCSTNode;
