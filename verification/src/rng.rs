//! Randomness source for the stochastic parts of the simulation.

use vstd::prelude::*;
use rand::Rng;

verus! {

/// Relies on `rand::Rng::gen_range` over `0..n`: returns a uniformly sampled
/// value of the range. `gen_range` panics on an empty range, which the
/// precondition rules out. Nothing beyond the range can be promised of a
/// random value.
#[verifier::external_body]
pub(crate) fn random_below(n: usize) -> (r: usize)
    requires
        n >= 1,
    ensures
        r < n,
{
    rand::thread_rng().gen_range(0..n)
}

} // verus!
