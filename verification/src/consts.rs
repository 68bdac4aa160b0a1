//! Shared fixed-point constants.
//!
//! Similarity scores and probabilities live in `[0, SCALE]`; feature
//! coordinates are integers in units of `1/SCALE`.

use vstd::prelude::*;

verus! {

/// Fixed-point unit: one whole is `SCALE` thousandths.
pub const SCALE: u32 = 1000;

/// Default threshold constant of the density-form similarity metric (1.25).
pub const DEFAULT_THRESHOLD: u32 = 1250;

/// Default normalization constant of the feature-form similarity metric (4.5).
pub const DEFAULT_ALPHA: u32 = 4500;

/// Default steepness constant of the linear probability model (2.0).
pub const DEFAULT_STEEPNESS: u32 = 2000;

/// Largest magnitude accepted for a feature coordinate (one million wholes).
/// Keeps squared distances inside `i64`.
pub const FEATURE_LIMIT: i64 = 1_000_000_000;

} // verus!
