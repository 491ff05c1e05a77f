//! How an edge takes part in the result when it overlaps another edge.
use vstd::prelude::*;

verus! {

/// The kind of an edge: an ordinary one, or one of a pair of overlapping
/// edges, of which one is kept (when both sides make the same transition
/// or different ones) and the other does not contribute.
#[derive(PartialEq, Eq, Structural, Debug, Clone, Copy)]
pub enum EdgeType {
    Normal,
    NonContributing,
    SameTransition,
    DifferentTransition,
}

impl Default for EdgeType {
    /// An ordinary edge.
    fn default() -> (e: Self)
        ensures
            e == EdgeType::Normal,
    {
        EdgeType::Normal
    }
}

} // verus!
