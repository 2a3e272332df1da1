//! The distance measures a search can rank by. Each is a marker type; the
//! distances themselves are computed on floating-point vectors outside this
//! library.
use vstd::prelude::*;

verus! {

/// Euclidean distance: the square root of the summed squared differences.
pub struct EuclideanDistance;

/// Negated dot product, so that a larger dot product ranks as closer.
pub struct DotProductDistance;

/// Cosine distance: one minus the cosine of the angle between the vectors.
pub struct CosineDistance;

} // verus!
