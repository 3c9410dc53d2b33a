//! The distance strategies of the vector index.

use vstd::prelude::*;

verus! {

/// Cosine distance: one minus the dot product of L2-normalized vectors.
#[derive(Debug, Clone, Copy)]
pub struct CosineComputer;

/// Euclidean distance: the root of the summed squared differences.
#[derive(Debug, Clone, Copy)]
pub struct EuclideanComputer;

} // verus!
