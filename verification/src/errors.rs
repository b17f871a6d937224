//! Error taxonomy of the pipeline.
//!
//! Every fatal condition aborts the affected stage with one of these
//! values; no partial result is ever returned alongside an error.

use vstd::prelude::*;

verus! {

/// A fatal condition raised while loading, assembling or evaluating a
/// dataset.
#[derive(Clone, Copy, Debug, PartialEq, Eq, Structural)]
pub enum DataError {
    /// A field of an input file is empty, non-numeric, too large for a
    /// 64-bit unsigned integer, or a row lacks a required column.
    Parse,
    /// The label list does not have one entry per distinct graph id.
    LabelCountMismatch,
    /// The membership list does not keep the nodes of each graph
    /// together in one contiguous run.
    MembershipNotContiguous,
    /// An edge endpoint is zero or exceeds the number of nodes.
    EdgeEndpointOutOfRange,
    /// The two endpoints of an edge belong to different graphs.
    EdgeCrossesGraphs,
    /// Cross-validation needs at least two folds.
    FoldCountTooSmall,
    /// The fold count exceeds the number of dataset rows.
    FoldCountExceedsRows,
    /// The configured feature count is zero.
    FeatureCountZero,
}

impl DataError {
    /// A short diagnostic text for the condition.
    pub fn describe(&self) -> String {
        match self {
            DataError::Parse => "empty, non-numeric or malformed field".to_string(),
            DataError::LabelCountMismatch => {
                "label count does not match the number of graphs".to_string()
            },
            DataError::MembershipNotContiguous => {
                "membership list does not keep each graph's nodes contiguous".to_string()
            },
            DataError::EdgeEndpointOutOfRange => {
                "edge endpoint is not a valid 1-indexed node id".to_string()
            },
            DataError::EdgeCrossesGraphs => {
                "edge endpoints belong to different graphs".to_string()
            },
            DataError::FoldCountTooSmall => "fold count must be at least 2".to_string(),
            DataError::FoldCountExceedsRows => {
                "fold count exceeds the number of rows".to_string()
            },
            DataError::FeatureCountZero => "feature count must be positive".to_string(),
        }
    }
}

} // verus!
