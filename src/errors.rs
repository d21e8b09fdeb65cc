use vstd::prelude::*;

verus! {

/// The failure kinds shared by the binary and the dense algebra.
#[derive(Debug, Clone, Copy, PartialEq, Eq, Structural)]
pub enum OVSAError {
    /// Operands do not share one dimension, or an index lies outside the dimension.
    VectorSizeMismatch,
    /// A bundling or superposition received no vectors.
    EmptyVectorList,
    /// Kept for an index constructor that refuses an empty index list; the
    /// constructor of this crate accepts one and builds the all-zero vector.
    EmptyIndices,
    /// A random vector was requested with no active positions.
    ZeroActiveElements,
    /// A dimension of zero was given where a positive one is required.
    ZeroDimension,
    /// More active positions were requested than the dimension holds.
    TooManyActiveElements,
}

} // verus!
