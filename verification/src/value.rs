//! Fixed-point value estimates and the TD(0) update rule.
//!
//! A value estimate is the agent's belief, in `[0, 1]`, that a board state
//! leads to a win for that agent. Estimates are held in fixed point as
//! millionths: the integer `v` stands for the real value `v / SCALE`.

use vstd::arithmetic::div_mod::{lemma_div_is_ordered, lemma_div_multiples_vanish};
use vstd::arithmetic::mul::lemma_mul_inequality;
use vstd::prelude::*;

verus! {

/// One whole unit of value: estimates live in `[0, SCALE]`, standing for the
/// interval `[0, 1]` in steps of one millionth.
pub const SCALE: u64 = 1000000;

/// The estimate given to a fresh non-terminal state: one half.
pub const HALF: u64 = 500000;

/// The step size of a freshly constructed agent: one tenth.
pub const DEFAULT_ALPHA: u64 = 100000;

/// The TD(0) update `v1 + alpha * (v2 - v1)` in fixed point, with the
/// correction term rounded toward zero.
pub open spec fn spec_td(v1: int, v2: int, alpha: int) -> int {
    if v2 >= v1 {
        v1 + alpha * (v2 - v1) / (SCALE as int)
    } else {
        v1 - alpha * (v1 - v2) / (SCALE as int)
    }
}

/// The update never leaves the interval between the two estimates it mixes:
/// a value only moves from `v1` toward `v2`, never past it. In particular it
/// never exceeds one whole unit when both inputs are in range.
pub proof fn lemma_td_bounds(v1: int, v2: int, alpha: int)
    requires
        0 <= v1,
        0 <= v2,
        0 <= alpha <= SCALE,
    ensures
        v2 >= v1 ==> v1 <= spec_td(v1, v2, alpha) <= v2,
        v2 < v1 ==> v2 <= spec_td(v1, v2, alpha) <= v1,
{
    let s = SCALE as int;
    if v2 >= v1 {
        let d = alpha * (v2 - v1);
        lemma_mul_inequality(alpha, s, v2 - v1);
        assert(0 <= d) by (nonlinear_arith)
            requires
                0 <= alpha,
                0 <= v2 - v1,
                d == alpha * (v2 - v1),
        ;
        lemma_div_is_ordered(d, s * (v2 - v1), s);
        lemma_div_multiples_vanish(v2 - v1, s);
        assert(0 <= d / s <= v2 - v1);
    } else {
        let d = alpha * (v1 - v2);
        lemma_mul_inequality(alpha, s, v1 - v2);
        assert(0 <= d) by (nonlinear_arith)
            requires
                0 <= alpha,
                0 <= v1 - v2,
                d == alpha * (v1 - v2),
        ;
        lemma_div_is_ordered(d, s * (v1 - v2), s);
        lemma_div_multiples_vanish(v1 - v2, s);
        assert(0 <= d / s <= v1 - v2);
    }
}

/// When the two estimates agree, the update leaves the value unchanged: the
/// correction term is zero.
pub proof fn lemma_td_fixed_point(v: int, alpha: int)
    ensures
        spec_td(v, v, alpha) == v,
{
    assert(alpha * (v - v) == 0) by (nonlinear_arith);
}

/// When the successor is strictly better and the step is large enough for
/// one fixed-point unit of correction, the update strictly increases the
/// value, and still never passes the successor's value.
pub proof fn lemma_td_strict_increase(v1: int, v2: int, alpha: int)
    requires
        0 <= v1 < v2,
        0 <= alpha <= SCALE,
        alpha * (v2 - v1) >= SCALE,
    ensures
        v1 < spec_td(v1, v2, alpha) <= v2,
{
    let s = SCALE as int;
    lemma_td_bounds(v1, v2, alpha);
    lemma_div_is_ordered(s, alpha * (v2 - v1), s);
    lemma_div_multiples_vanish(1, s);
}

/// The TD(0) update, executed in fixed point.
pub fn td_update(v1: u64, v2: u64, alpha: u64) -> (r: u64)
    requires
        v1 <= SCALE,
        v2 <= SCALE,
        alpha <= SCALE,
    ensures
        r == spec_td(v1 as int, v2 as int, alpha as int),
        r <= SCALE,
{
    proof {
        lemma_td_bounds(v1 as int, v2 as int, alpha as int);
        assert(alpha * (v2 - v1) <= 1000000 * 1000000) by (nonlinear_arith)
            requires
                alpha <= 1000000,
                v2 <= 1000000,
        ;
        assert(alpha * (v1 - v2) <= 1000000 * 1000000) by (nonlinear_arith)
            requires
                alpha <= 1000000,
                v1 <= 1000000,
        ;
    }
    if v2 >= v1 {
        let d = alpha * (v2 - v1);
        v1 + d / SCALE
    } else {
        let d = alpha * (v1 - v2);
        v1 - d / SCALE
    }
}

} // verus!
