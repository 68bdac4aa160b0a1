//! Local-homogeneity similarity scores in `[0, SCALE]`.
//!
//! Two selectable forms:
//! - *density form*: the fraction of occupied cells in a neighborhood,
//!   amplified by a threshold constant and capped at one;
//! - *feature form*: the mean, over occupied neighbor items, of
//!   `1 - distance / ALPHA`, floored at zero, where `distance` is the
//!   Euclidean distance between fixed-point feature vectors.
//!
//! All arithmetic is exact fixed-point integer arithmetic; the Euclidean
//! distance uses the integer square root (rounded down).

use vstd::prelude::*;

use crate::consts::FEATURE_LIMIT;
use crate::consts::SCALE;

verus! {

/// A two-component feature vector in fixed-point thousandths.
#[derive(Debug, Clone, Copy, PartialEq, Eq, Structural)]
pub struct FeatureVec {
    pub x: i64,
    pub y: i64,
}

/// Feature coordinates the metric accepts: bounded so that squared distances
/// stay inside 64 bits.
pub open spec fn feature_bounded(f: FeatureVec) -> bool {
    &&& -FEATURE_LIMIT <= f.x <= FEATURE_LIMIT
    &&& -FEATURE_LIMIT <= f.y <= FEATURE_LIMIT
}

/// The integer square root: the largest `r` with `r * r <= n`.
pub open spec fn spec_isqrt(n: nat) -> nat
    decreases n,
{
    if n == 0 {
        0
    } else {
        let r = spec_isqrt((n - 1) as nat);
        if (r + 1) * (r + 1) <= n {
            r + 1
        } else {
            r
        }
    }
}

/// `spec_isqrt(n)` really is the rounded-down square root of `n`.
pub proof fn lemma_isqrt_bounds(n: nat)
    ensures
        spec_isqrt(n) * spec_isqrt(n) <= n,
        n < (spec_isqrt(n) + 1) * (spec_isqrt(n) + 1),
    decreases n,
{
    if n == 0 {
        assert(spec_isqrt(n) == 0);
        assert(spec_isqrt(n) * spec_isqrt(n) <= n);
        assert(n < (spec_isqrt(n) + 1) * (spec_isqrt(n) + 1)) by (nonlinear_arith)
            requires
                n == 0,
                spec_isqrt(n) == 0,
        ;
    } else {
        let r = spec_isqrt((n - 1) as nat);
        lemma_isqrt_bounds((n - 1) as nat);
        assert(r * r <= n - 1);
        assert(n - 1 < (r + 1) * (r + 1));
        if (r + 1) * (r + 1) <= n {
            assert(spec_isqrt(n) == r + 1);
            assert(n <= (r + 1) * (r + 1));
            assert(n == (r + 1) * (r + 1));
            assert(n < (r + 2) * (r + 2)) by (nonlinear_arith)
                requires
                    n == (r + 1) * (r + 1),
                    r >= 0,
            ;
            assert(spec_isqrt(n) * spec_isqrt(n) <= n);
            assert(n < (spec_isqrt(n) + 1) * (spec_isqrt(n) + 1));
        } else {
            assert(spec_isqrt(n) == r);
            assert(r * r <= n);
            assert(n < (r + 1) * (r + 1));
            assert(spec_isqrt(n) * spec_isqrt(n) <= n);
            assert(n < (spec_isqrt(n) + 1) * (spec_isqrt(n) + 1));
        }
    }
}

/// Any `r` with `r * r <= n < (r + 1) * (r + 1)` equals `spec_isqrt(n)`.
pub proof fn lemma_isqrt_unique(n: nat, r: nat)
    requires
        r * r <= n,
        n < (r + 1) * (r + 1),
    ensures
        r == spec_isqrt(n),
{
    let s = spec_isqrt(n);
    lemma_isqrt_bounds(n);
    if r < s {
        assert((r + 1) * (r + 1) <= s * s) by (nonlinear_arith)
            requires
                0 <= r,
                r + 1 <= s,
        ;
    } else if s < r {
        assert((s + 1) * (s + 1) <= r * r) by (nonlinear_arith)
            requires
                0 <= s,
                s + 1 <= r,
        ;
    }
}

/// Integer square root by binary search.
pub fn isqrt(n: u64) -> (r: u64)
    ensures
        r == spec_isqrt(n as nat),
        r * r <= n,
        n < (r + 1) * (r + 1),
{
    let mut lo: u64 = 0;
    let mut hi: u64 = 0xFFFF_FFFF;
    proof {
        assert((hi + 1) * (hi + 1) > u64::MAX);
    }
    while lo < hi
        invariant
            lo <= hi,
            hi <= 0xFFFF_FFFF,
            lo * lo <= n,
            n < (hi + 1) * (hi + 1),
        decreases hi - lo,
    {
        let mid = lo + (hi - lo + 1) / 2;
        proof {
            assert(lo < mid <= hi);
            assert((mid as int) * (mid as int) <= 0xFFFF_FFFFi128 * 0xFFFF_FFFFi128)
                by (nonlinear_arith)
                requires
                    0 <= mid <= 0xFFFF_FFFFu64,
            ;
        }
        let mm = (mid as u128) * (mid as u128);
        if mm <= n as u128 {
            lo = mid;
        } else {
            hi = mid - 1;
        }
    }
    proof {
        lemma_isqrt_unique(n as nat, lo as nat);
    }
    lo
}

/// Squared Euclidean distance between feature vectors.
pub open spec fn spec_sq_dist(a: FeatureVec, b: FeatureVec) -> int {
    (a.x - b.x) * (a.x - b.x) + (a.y - b.y) * (a.y - b.y)
}

/// Fixed-point Euclidean distance (rounded down) between feature vectors.
pub open spec fn spec_distance(a: FeatureVec, b: FeatureVec) -> int {
    spec_isqrt(spec_sq_dist(a, b) as nat) as int
}

/// Computes the fixed-point Euclidean distance between two bounded feature
/// vectors.
pub fn feature_distance(a: &FeatureVec, b: &FeatureVec) -> (r: u64)
    requires
        feature_bounded(*a),
        feature_bounded(*b),
    ensures
        r == spec_distance(*a, *b),
        r <= 3_000_000_000,
{
    let dx = a.x - b.x;
    let dy = a.y - b.y;
    proof {
        assert(dx * dx <= 4 * FEATURE_LIMIT * FEATURE_LIMIT) by (nonlinear_arith)
            requires
                -2 * FEATURE_LIMIT <= dx <= 2 * FEATURE_LIMIT,
        ;
        assert(dy * dy <= 4 * FEATURE_LIMIT * FEATURE_LIMIT) by (nonlinear_arith)
            requires
                -2 * FEATURE_LIMIT <= dy <= 2 * FEATURE_LIMIT,
        ;
        assert(dx * dx >= 0) by (nonlinear_arith);
        assert(dy * dy >= 0) by (nonlinear_arith);
    }
    let sq = (dx * dx) as u64 + (dy * dy) as u64;
    let r = isqrt(sq);
    proof {
        if r > 3_000_000_000 {
            assert(r * r > 3_000_000_000u64 * 3_000_000_000u64) by (nonlinear_arith)
                requires
                    r > 3_000_000_000u64,
            ;
        }
    }
    r
}

/// One feature-form contribution: `1 - distance / ALPHA` in fixed point,
/// possibly negative.
pub open spec fn spec_term(d: int, alpha: int) -> int {
    SCALE - d * SCALE / alpha
}

/// Sum of feature-form contributions of `v` against each vector in `ws`.
pub open spec fn spec_term_sum(v: FeatureVec, ws: Seq<FeatureVec>, alpha: int) -> int
    decreases ws.len(),
{
    if ws.len() == 0 {
        0
    } else {
        spec_term_sum(v, ws.drop_last(), alpha) + spec_term(spec_distance(v, ws.last()), alpha)
    }
}

/// Feature-form similarity: the mean contribution, floored at zero and capped
/// at one; zero when there are no occupied neighbors.
pub open spec fn spec_feature_similarity(v: FeatureVec, ws: Seq<FeatureVec>, alpha: int) -> int {
    if ws.len() == 0 {
        0
    } else {
        let sum = spec_term_sum(v, ws, alpha);
        if sum <= 0 {
            0
        } else {
            let m = sum / ws.len() as int;
            if m >= SCALE {
                SCALE as int
            } else {
                m
            }
        }
    }
}

/// Computes the feature-form similarity of item features `v` against the
/// features `ws` of the items occupying the neighborhood.
pub fn feature_similarity(v: &FeatureVec, ws: &Vec<FeatureVec>, alpha: u32) -> (s: u32)
    requires
        alpha >= 1,
        feature_bounded(*v),
        forall|k: int| 0 <= k < ws@.len() ==> feature_bounded(#[trigger] ws@[k]),
    ensures
        s == spec_feature_similarity(*v, ws@, alpha as int),
        s <= SCALE,
{
    let len = ws.len();
    if len == 0 {
        return 0;
    }
    let mut sum: i128 = 0;
    let mut k: usize = 0;
    while k < len
        invariant
            len == ws@.len(),
            k <= len,
            alpha >= 1,
            feature_bounded(*v),
            forall|kk: int| 0 <= kk < ws@.len() ==> feature_bounded(#[trigger] ws@[kk]),
            sum == spec_term_sum(*v, ws@.take(k as int), alpha as int),
            -(k as i128) * 4_000_000_000_000 <= sum <= (k as i128) * 1000,
        decreases len - k,
    {
        let d = feature_distance(v, &ws[k]);
        let q = d * (SCALE as u64) / (alpha as u64);
        let term: i128 = (SCALE as i128) - (q as i128);
        proof {
            assert(q <= d * (SCALE as u64)) by {
                vstd::arithmetic::div_mod::lemma_div_nonincreasing(
                    (d * SCALE) as int,
                    alpha as int,
                );
            }
            assert(term == spec_term(spec_distance(*v, ws@[k as int]), alpha as int));
            assert(term >= -4_000_000_000_000);
            assert(ws@.take(k as int + 1).drop_last() =~= ws@.take(k as int));
            assert(ws@.take(k as int + 1).last() == ws@[k as int]);
            assert((k as i128) * 4_000_000_000_000 <= 0x1_0000_0000_0000_0000i128
                * 4_000_000_000_000) by (nonlinear_arith)
                requires
                    0 <= (k as i128) <= 0x1_0000_0000_0000_0000i128,
            ;
            assert((k as i128) * 1000 <= 0x1_0000_0000_0000_0000i128 * 1000) by (nonlinear_arith)
                requires
                    0 <= (k as i128) <= 0x1_0000_0000_0000_0000i128,
            ;
            assert(-((k + 1) as i128) * 4_000_000_000_000 == -(k as i128) * 4_000_000_000_000
                - 4_000_000_000_000) by (nonlinear_arith);
            assert(((k + 1) as i128) * 1000 == (k as i128) * 1000 + 1000) by (nonlinear_arith);
        }
        sum = sum + term;
        k = k + 1;
    }
    proof {
        assert(ws@.take(len as int) =~= ws@);
    }
    if sum <= 0 {
        return 0;
    }
    let m = (sum as u128) / (len as u128);
    if m >= SCALE as u128 {
        SCALE
    } else {
        m as u32
    }
}

/// Density-form similarity: `min(ratio * threshold, 1)` in fixed point, with
/// `ratio` the occupied fraction of the neighborhood; zero for an empty
/// neighborhood.
pub open spec fn spec_density_similarity(occupied: int, empty: int, threshold: int) -> int {
    if occupied + empty == 0 {
        0
    } else {
        let ratio = occupied * SCALE / (occupied + empty);
        let x = ratio * threshold / (SCALE as int);
        if x >= SCALE {
            SCALE as int
        } else {
            x
        }
    }
}

/// Computes the density-form similarity from neighborhood occupancy counts.
pub fn density_similarity(occupied: usize, empty: usize, threshold: u32) -> (s: u32)
    requires
        occupied + empty <= usize::MAX,
    ensures
        s == spec_density_similarity(occupied as int, empty as int, threshold as int),
        s <= SCALE,
{
    if occupied == 0 && empty == 0 {
        return 0;
    }
    let total = occupied + empty;
    let ratio = (occupied as u128) * (SCALE as u128) / (total as u128);
    proof {
        assert(ratio <= SCALE) by {
            assert(occupied * (SCALE as int) <= total * (SCALE as int)) by (nonlinear_arith)
                requires
                    0 <= occupied <= total,
                    SCALE >= 0,
            ;
            vstd::arithmetic::div_mod::lemma_div_by_multiple(SCALE as int, total as int);
            vstd::arithmetic::div_mod::lemma_div_is_ordered(
                (occupied * SCALE) as int,
                (total * SCALE) as int,
                total as int,
            );
        }
    }
    proof {
        assert(ratio * (threshold as int) <= 1000i128 * 0xFFFF_FFFFi128) by (nonlinear_arith)
            requires
                0 <= ratio <= 1000,
                0 <= threshold <= 0xFFFF_FFFFu32,
        ;
    }
    let x = ratio * (threshold as u128) / (SCALE as u128);
    if x >= SCALE as u128 {
        SCALE
    } else {
        x as u32
    }
}

} // verus!
