//! Pickup/drop probability model over a similarity score.
//!
//! Probabilities are fixed-point values in `[0, SCALE]`. The default shape is
//! the linear clamp pair `P_pickup(S) = clamp(1 - S * k, 0, 1)` and
//! `P_drop(S) = clamp(S * k, 0, 1)` with steepness constant `k`. Other shapes
//! plug in behind the same two-function interface (`ProbabilityModel`);
//! exactly one pair is active at a time.

use vstd::prelude::*;

use crate::consts::SCALE;

verus! {

/// `clamp(1 - s * k, 0, 1)` in fixed point: dense neighborhoods suppress
/// pickup.
pub open spec fn spec_pickup_probability(s: int, k: int) -> int {
    let x = s * k / (SCALE as int);
    if x >= SCALE {
        0
    } else {
        SCALE - x
    }
}

/// `clamp(s * k, 0, 1)` in fixed point: dense neighborhoods encourage
/// dropping.
pub open spec fn spec_drop_probability(s: int, k: int) -> int {
    let x = s * k / (SCALE as int);
    if x >= SCALE {
        SCALE as int
    } else {
        x
    }
}

/// Computes the linear-clamp pickup probability for similarity `s` and
/// steepness `k`.
pub fn pickup_probability(s: u32, k: u32) -> (p: u32)
    requires
        s <= SCALE,
    ensures
        p == spec_pickup_probability(s as int, k as int),
        p <= SCALE,
{
    proof {
        assert((s as int) * (k as int) <= 1000i64 * 0xFFFF_FFFFi64) by (nonlinear_arith)
            requires
                0 <= s <= 1000,
                0 <= k <= 0xFFFF_FFFFu32,
        ;
    }
    let x = (s as u64) * (k as u64) / (SCALE as u64);
    if x >= SCALE as u64 {
        0
    } else {
        SCALE - (x as u32)
    }
}

/// Computes the linear-clamp drop probability for similarity `s` and
/// steepness `k`.
pub fn drop_probability(s: u32, k: u32) -> (p: u32)
    requires
        s <= SCALE,
    ensures
        p == spec_drop_probability(s as int, k as int),
        p <= SCALE,
{
    proof {
        assert((s as int) * (k as int) <= 1000i64 * 0xFFFF_FFFFi64) by (nonlinear_arith)
            requires
                0 <= s <= 1000,
                0 <= k <= 0xFFFF_FFFFu32,
        ;
    }
    let x = (s as u64) * (k as u64) / (SCALE as u64);
    if x >= SCALE as u64 {
        SCALE
    } else {
        x as u32
    }
}

/// An injectable pickup/drop probability pair. Both functions map a
/// similarity score in `[0, SCALE]` to a probability in `[0, SCALE]`.
pub trait ProbabilityModel: Sized {
    /// What the pickup probability is, as a mathematical function.
    spec fn spec_pickup(&self, s: u32) -> int;

    /// What the drop probability is, as a mathematical function.
    spec fn spec_drop(&self, s: u32) -> int;

    /// Probability of picking an item up at similarity `s`.
    fn pickup(&self, s: u32) -> (p: u32)
        requires
            s <= SCALE,
        ensures
            p == self.spec_pickup(s),
            p <= SCALE,
    ;

    /// Probability of dropping the carried item at similarity `s`.
    fn drop_carried(&self, s: u32) -> (p: u32)
        requires
            s <= SCALE,
        ensures
            p == self.spec_drop(s),
            p <= SCALE,
    ;
}

/// The default probability pair: linear in the similarity score, clamped to
/// `[0, 1]`, with configurable steepness.
#[derive(Debug, Clone, Copy, PartialEq, Eq, Structural)]
pub struct LinearProbability {
    pub steepness: u32,
}

impl ProbabilityModel for LinearProbability {
    open spec fn spec_pickup(&self, s: u32) -> int {
        spec_pickup_probability(s as int, self.steepness as int)
    }

    open spec fn spec_drop(&self, s: u32) -> int {
        spec_drop_probability(s as int, self.steepness as int)
    }

    fn pickup(&self, s: u32) -> (p: u32) {
        pickup_probability(s, self.steepness)
    }

    fn drop_carried(&self, s: u32) -> (p: u32) {
        drop_probability(s, self.steepness)
    }
}

} // verus!
