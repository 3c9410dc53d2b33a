//! Identifier and timestamp types shared across the library.

use vstd::prelude::*;

verus! {

/// A typed identifier for a single vector entry.
#[derive(Debug, Clone, Copy, PartialEq, Eq, Hash, Structural)]
pub struct VectorId(pub u64);

/// A Unix timestamp in milliseconds.
#[derive(Debug, Clone, Copy, PartialEq, Eq, Hash, Structural)]
pub struct Timestamp(pub i64);

/// Supported distance metrics of the vector index.
#[derive(Debug, Clone, Copy, PartialEq, Eq, Structural)]
pub enum DistanceMetric {
    /// Cosine distance: one minus the dot product of normalized vectors.
    Cosine,
    /// Euclidean distance: the root of the summed squared differences.
    Euclidean,
}

} // verus!
