use vstd::prelude::*;

verus! {

/// Errors reported by the sampler and the geometry routines.
#[derive(Debug, Clone, Copy, PartialEq, Eq, Structural)]
pub enum VolestiError {
    /// The polytope has no interior point to start from.
    InfeasiblePolytope,
    /// A point's dimension does not match the polytope's dimension.
    DimensionMismatch { expected: usize, got: usize },
    /// The sampler was asked for zero samples.
    ZeroSamples,
}

} // verus!
