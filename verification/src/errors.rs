use vstd::prelude::*;

verus! {

/// Ways in which a candidate tour can fail validation against an instance.
#[derive(Debug, Clone, Copy, PartialEq, Eq, Structural)]
pub enum MyError {
    /// Some element of the tour lies outside `[0, dimension)`.
    OutOfRange,
    /// The tour's recorded dimension differs from the instance's.
    DimensionMismatch,
    /// The tour repeats a node, so it is not a true permutation.
    LengthMismatch,
}

} // verus!
