//! Errors reported to callers; none is retried inside the library.
use vstd::prelude::*;

verus! {

#[derive(Debug, Clone, Copy, PartialEq, Eq, Structural)]
pub enum Aqua3dError {
    /// Input dimensions do not match each other.
    ShapeMismatch,
    /// No cell lies near the minimum depth (the depth map is empty).
    EmptyNearZeroSet,
    /// The depth map is empty or flat, so it cannot be split into bins.
    DegenerateDepthRange,
}

} // verus!
