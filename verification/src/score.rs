//! Scoring of grid cells.
//!
//! A discovered cell carries a path cost `g` (a count of unit-cost steps)
//! and a heuristic `h`, the Euclidean distance from the cell to the goal.
//! The ranking value is `f = g + h`.  The heuristic is kept as the squared
//! distance `hsq`, an integer, so `f = g + sqrt(hsq)`; two ranking values
//! are compared exactly over the reals by [`score_lt`], which never builds
//! a floating-point approximation.

use vstd::prelude::*;

verus! {

/// Squared Euclidean distance between the coordinates `(ar, ac)` and
/// `(br, bc)`.  The heuristic itself is the square root of this value.
pub open spec fn spec_hsq(ar: int, ac: int, br: int, bc: int) -> int {
    (ar - br) * (ar - br) + (ac - bc) * (ac - bc)
}

/// Holds exactly when `g1 + sqrt(s1) < g2 + sqrt(s2)` over the reals.
///
/// Derivation, writing `d = g2 - g1`: the claim is `sqrt(s1) < d + sqrt(s2)`.
///   - If `d > 0`, both sides are nonnegative, so squaring gives
///     `s1 - s2 - d*d < 2*d*sqrt(s2)`.  With `l` for the left-hand side:
///     when `l < 0` the claim holds; otherwise square once more to get
///     `l*l < 4*(d*d)*s2`.
///   - If `d <= 0`, write `e = -d`; the claim is `sqrt(s1) + e < sqrt(s2)`,
///     and squaring gives `2*e*sqrt(s1) < s2 - s1 - e*e`.  With `r` for the
///     right-hand side: when `r <= 0` the claim fails; otherwise square once
///     more to get `4*e*e*s1 < r*r`.
pub open spec fn spec_score_lt(g1: int, s1: int, g2: int, s2: int) -> bool {
    let d = g2 - g1;
    if d > 0 {
        let l = s1 - s2 - d * d;
        l < 0 || l * l < 4 * (d * d) * s2
    } else {
        let e = -d;
        let r = s2 - s1 - e * e;
        0 < r && 4 * (e * e) * s1 < r * r
    }
}

/// Squared Euclidean distance between two grid coordinates.
pub fn heuristic_sq(a: (usize, usize), b: (usize, usize)) -> (res: u64)
    requires
        a.0 < crate::MAX_DIM,
        a.1 < crate::MAX_DIM,
        b.0 < crate::MAX_DIM,
        b.1 < crate::MAX_DIM,
    ensures
        res == spec_hsq(a.0 as int, a.1 as int, b.0 as int, b.1 as int),
        res <= crate::MAX_HSQ,
{
    let dr: u64 = if a.0 >= b.0 { (a.0 - b.0) as u64 } else { (b.0 - a.0) as u64 };
    let dc: u64 = if a.1 >= b.1 { (a.1 - b.1) as u64 } else { (b.1 - a.1) as u64 };
    proof {
        assert((a.0 - b.0) * (a.0 - b.0) == dr * dr && dr * dr < 0x10_0000) by (nonlinear_arith)
            requires
                (dr == a.0 - b.0 || dr == b.0 - a.0) && dr < 1024,
        ;
        assert((a.1 - b.1) * (a.1 - b.1) == dc * dc && dc * dc < 0x10_0000) by (nonlinear_arith)
            requires
                (dc == a.1 - b.1 || dc == b.1 - a.1) && dc < 1024,
        ;
    }
    dr * dr + dc * dc
}

/// Decides `g1 + sqrt(s1) < g2 + sqrt(s2)` exactly, with integer
/// arithmetic only.
pub fn score_lt(g1: u64, s1: u64, g2: u64, s2: u64) -> (res: bool)
    requires
        g1 <= crate::MAX_ITERS,
        g2 <= crate::MAX_ITERS,
        s1 <= crate::MAX_HSQ,
        s2 <= crate::MAX_HSQ,
    ensures
        res == spec_score_lt(g1 as int, s1 as int, g2 as int, s2 as int),
{
    let d: i128 = g2 as i128 - g1 as i128;
    proof {
        assert(d * d <= 0x1000_0000_0000_0000 && d * d >= 0) by (nonlinear_arith)
            requires
                -0x4000_0000 <= d <= 0x4000_0000,
        ;
    }
    if d > 0 {
        let l: i128 = s1 as i128 - s2 as i128 - d * d;
        if l < 0 {
            true
        } else {
            proof {
                assert(l * l <= 0x10_0000_0000_0000) by (nonlinear_arith)
                    requires
                        0 <= l <= 0x20_0000,
                ;
                assert(0 <= 4 * (d * d) * (s2 as i128) <= 0x8_0000_0000_0000_0000_0000)
                    by (nonlinear_arith)
                    requires
                        0 <= d * d <= 0x1000_0000_0000_0000 && 0 <= s2 as i128 <= 0x20_0000,
                ;
            }
            l * l < 4 * (d * d) * (s2 as i128)
        }
    } else {
        let e: i128 = -d;
        proof {
            assert(0 <= e * e <= 0x1000_0000_0000_0000) by (nonlinear_arith)
                requires
                    e == -d && -0x4000_0000 <= d <= 0,
            ;
        }
        let r: i128 = s2 as i128 - s1 as i128 - e * e;
        if r <= 0 {
            false
        } else {
            proof {
                assert(r * r <= 0x10_0000_0000_0000) by (nonlinear_arith)
                    requires
                        0 < r <= 0x20_0000,
                ;
                assert(0 <= 4 * (e * e) * (s1 as i128) <= 0x8_0000_0000_0000_0000_0000)
                    by (nonlinear_arith)
                    requires
                        0 <= e * e <= 0x1000_0000_0000_0000 && 0 <= s1 as i128 <= 0x20_0000,
                ;
            }
            4 * (e * e) * (s1 as i128) < r * r
        }
    }
}

/// The heuristic is symmetric and zero on equal coordinates.  Since the
/// heuristic is the square root of `spec_hsq`, the same two facts hold of
/// the heuristic itself.
pub proof fn lemma_heuristic_symmetry(ar: int, ac: int, br: int, bc: int)
    ensures
        spec_hsq(ar, ac, br, bc) == spec_hsq(br, bc, ar, ac),
        spec_hsq(ar, ac, ar, ac) == 0,
{
    assert((ar - br) * (ar - br) == (br - ar) * (br - ar)) by (nonlinear_arith);
    assert((ac - bc) * (ac - bc) == (bc - ac) * (bc - ac)) by (nonlinear_arith);
}

} // verus!
