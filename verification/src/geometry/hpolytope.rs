use vstd::prelude::*;

use crate::error::VolestiError;

verus! {

/// The check a membership test makes before it looks at any constraint: the
/// point must have as many coordinates as the polytope has dimensions.
pub fn check_point_dimension(polytope_dim: usize, point_dim: usize) -> (r: Result<(), VolestiError>)
    ensures
        r == if polytope_dim == point_dim {
            Ok::<(), VolestiError>(())
        } else {
            Err(VolestiError::DimensionMismatch { expected: polytope_dim, got: point_dim })
        },
{
    if polytope_dim == point_dim {
        Ok(())
    } else {
        Err(VolestiError::DimensionMismatch { expected: polytope_dim, got: point_dim })
    }
}

} // verus!
