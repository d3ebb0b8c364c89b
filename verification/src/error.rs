//! The ways in which an analysis can be refused.

use vstd::prelude::*;

verus! {

/// Why an operation of this library did not produce a result. None of these
/// is transient: the same input gives the same error again.
#[derive(Clone, Copy, Debug, PartialEq, Eq, Structural)]
pub enum GraphError {
    /// Line `line` (counted from 0) of an edge list is neither a comment nor
    /// two node identifiers. No graph is built from such a list.
    MalformedInput { line: usize },
    /// A search was asked to start at an index that is not a node.
    IndexOutOfRange,
    /// More nodes were asked for in a sample than the graph has.
    SampleSizeExceedsPopulation,
    /// Path statistics were asked for with nothing to measure.
    EmptySample,
}

impl GraphError {
    /// A short description of the error for display.
    pub fn description(&self) -> (text: &'static str)
        ensures
            text@ == match *self {
                GraphError::MalformedInput { .. } => "malformed edge list line"@,
                GraphError::IndexOutOfRange => "node index out of range"@,
                GraphError::SampleSizeExceedsPopulation => "sample size exceeds node count"@,
                GraphError::EmptySample => "empty sample"@,
            },
    {
        match self {
            GraphError::MalformedInput { .. } => "malformed edge list line",
            GraphError::IndexOutOfRange => "node index out of range",
            GraphError::SampleSizeExceedsPopulation => "sample size exceeds node count",
            GraphError::EmptySample => "empty sample",
        }
    }
}

} // verus!
