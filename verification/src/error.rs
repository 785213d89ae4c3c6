use vstd::prelude::*;

verus! {

/// Everything that can go wrong when building geometry or filling a tree.
#[derive(Debug, Clone, Copy, PartialEq, Eq, Structural)]
pub enum QuadTreeError {
    /// The bounds of an interval were equal or reversed.
    InvalidRange,
    /// A variable-length input did not have as many entries as the fixed dimension.
    DimensionMismatch { expected: usize, actual: usize },
    /// The point of an inserted item lies outside the region of the tree.
    OutOfBounds,
    /// No child region claimed a point that its parent region contains.
    InternalInvariant,
}

} // verus!
