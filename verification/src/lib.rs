//! Verified core of a sequence-clustering pipeline: consensus-relative and
//! one-hot sequence encoding, a minimum-spanning-tree builder over a distance
//! matrix, threshold detection with graph-cut cluster extraction, and
//! fixed-point text export.
//!
//! All real-valued quantities (distances, coordinates, thresholds) are carried
//! as fixed-point integers in millionths of a unit, which matches the
//! six-decimal text format of the export module exactly.

pub mod encoder;
pub mod error;
pub mod export;
pub mod pca;
pub mod stats;
pub mod tree;

use vstd::prelude::*;

verus! {

/// One unit in the fixed-point representation: all lengths, coordinates and
/// thresholds are integers counting millionths of a unit.
pub const FIXED_ONE: i64 = 1_000_000;

/// The largest length the threshold arithmetic accepts: one million units in
/// millionths. Keeps medians, deviations and scaled comparisons inside `i64`.
pub const LEN_LIMIT: i64 = 1_000_000_000_000;

/// The largest numerator accepted for the caller-tunable deviation factor.
pub const K_LIMIT: i64 = 1_000_000;

} // verus!
