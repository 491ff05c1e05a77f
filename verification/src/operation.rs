//! The boolean operations on polygons.
use vstd::prelude::*;

verus! {

/// Which boolean operation is computed.
#[derive(Debug, Clone, Copy, PartialEq, Eq, Structural)]
pub enum Operation {
    Intersection,
    Union,
    Difference,
    Xor,
}

} // verus!
