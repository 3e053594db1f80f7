//! Depth-neighbourhood segmentation, density clustering and backscatter
//! sample selection for underwater colour restoration.
//!
//! Depths, coordinates and fractions are fixed-point integers, so every
//! comparison the algorithms make is exact.
use vstd::prelude::*;

pub mod errors;
pub mod grid;
pub mod image_proc;
pub mod segment;
pub mod background;
pub mod backscatter;
pub mod clustering;
pub mod seathru;

verus! {

/// Sum of two counters.
pub fn add(left: u64, right: u64) -> (r: u64)
    requires
        left + right <= u64::MAX,
    ensures
        r == left + right,
{
    left + right
}

} // verus!
