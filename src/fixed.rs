//! Fixed-point helpers: integer division rounded half away from zero.
use vstd::prelude::*;

verus! {

/// Magnitude bound under which the rounding helpers operate on `i128`.
pub const ARITH_LIMIT: i128 = 10_000_000_000_000_000_000_000_000_000_000_000_000;

/// Quotient of a non-negative `a` by a positive `b`, halves rounded up.
pub open spec fn half_up_div(a: int, b: int) -> int {
    a / b + if 2 * (a % b) >= b { 1int } else { 0int }
}

/// `a / b` rounded to the nearest integer, halves away from zero (`b > 0`).
pub open spec fn round_div(a: int, b: int) -> int {
    if a >= 0 {
        half_up_div(a, b)
    } else {
        -half_up_div(-a, b)
    }
}

pub open spec fn min_int(a: int, b: int) -> int {
    if a <= b { a } else { b }
}

pub open spec fn max_int(a: int, b: int) -> int {
    if a >= b { a } else { b }
}

/// The rounded quotient never strays more than one unit past the exact bounds.
pub proof fn lemma_round_div_bounds(a: int, b: int, lo: int, hi: int)
    requires
        b > 0,
        lo * b <= a <= hi * b,
    ensures
        lo <= round_div(a, b) <= hi,
{
    if a >= 0 {
        assert(a == b * (a / b) + a % b) by (nonlinear_arith)
            requires b > 0, a >= 0;
        assert(0 <= a % b < b);
        // a / b lies in [lo - 1, hi]; the half-up step stays within [lo, hi]
        if a / b >= hi {
            assert(b * (a / b) >= b * hi) by (nonlinear_arith)
                requires a / b >= hi, b > 0;
            assert(a % b == 0 && a / b == hi) by (nonlinear_arith)
                requires a == b * (a / b) + a % b, 0 <= a % b < b, a <= hi * b, b * (a / b) >= b * hi;
        }
        if a / b < lo {
            assert(b * (a / b) <= b * (lo - 1)) by (nonlinear_arith)
                requires a / b <= lo - 1, b > 0;
            assert(a / b == lo - 1 && 2 * (a % b) >= b) by (nonlinear_arith)
                requires a == b * (a / b) + a % b, 0 <= a % b < b, lo * b <= a, b * (a / b) <= b * (lo - 1);
        }
    } else {
        let na = -a;
        assert(na <= -lo * b && -hi * b <= na) by (nonlinear_arith)
            requires na == -a, lo * b <= a <= hi * b;
        assert(na == b * (na / b) + na % b) by (nonlinear_arith)
            requires b > 0, na >= 0;
        assert(0 <= na % b < b);
        if na / b >= -lo {
            assert(b * (na / b) >= b * (-lo)) by (nonlinear_arith)
                requires na / b >= -lo, b > 0;
            assert(na % b == 0 && na / b == -lo) by (nonlinear_arith)
                requires na == b * (na / b) + na % b, 0 <= na % b < b, na <= -lo * b, b * (na / b) >= b * (-lo);
        }
        if na / b < -hi {
            assert(b * (na / b) <= b * (-hi - 1)) by (nonlinear_arith)
                requires na / b <= -hi - 1, b > 0;
            assert(na / b == -hi - 1 && 2 * (na % b) >= b) by (nonlinear_arith)
                requires na == b * (na / b) + na % b, 0 <= na % b < b, -hi * b <= na, b * (na / b) <= b * (-hi - 1);
        }
    }
}

/// Rounding is monotone in the numerator.
pub proof fn lemma_round_div_monotone(a1: int, a2: int, b: int)
    requires
        b > 0,
        a1 <= a2,
    ensures
        round_div(a1, b) <= round_div(a2, b),
{
    // round_div(a, b) == floor((2a + b) / 2b) for a >= 0, and the mirror image below zero
    assert forall|a: int| a >= 0 implies half_up_div(a, b) == (2 * a + b) / (2 * b) by {
        lemma_half_up_closed(a, b);
    }
    if a1 >= 0 {
        lemma_div_monotone(2 * a1 + b, 2 * a2 + b, 2 * b);
    } else if a2 < 0 {
        lemma_div_monotone(2 * (-a2) + b, 2 * (-a1) + b, 2 * b);
    } else {
        assert(round_div(a1, b) <= 0) by {
            assert((-a1) / b >= 0) by (nonlinear_arith) requires -a1 > 0, b > 0;
        }
        assert(round_div(a2, b) >= 0) by {
            assert(a2 / b >= 0) by (nonlinear_arith) requires a2 >= 0, b > 0;
        }
    }
}

proof fn lemma_half_up_closed(a: int, b: int)
    requires
        a >= 0,
        b > 0,
    ensures
        half_up_div(a, b) == (2 * a + b) / (2 * b),
{
    let q = a / b;
    let r = a % b;
    assert(a == b * q + r && 0 <= r < b) by (nonlinear_arith)
        requires b > 0, a >= 0, q == a / b, r == a % b;
    if 2 * r >= b {
        assert((2 * a + b) / (2 * b) == q + 1) by (nonlinear_arith)
            requires a == b * q + r, 0 <= r < b, 2 * r >= b, b > 0;
    } else {
        assert((2 * a + b) / (2 * b) == q) by (nonlinear_arith)
            requires a == b * q + r, 0 <= r < b, 2 * r < b, b > 0;
    }
}

proof fn lemma_div_monotone(x: int, y: int, d: int)
    requires
        d > 0,
        x <= y,
    ensures
        x / d <= y / d,
{
    assert(x / d <= y / d) by (nonlinear_arith)
        requires d > 0, x <= y;
}

/// `a / b` rounded half away from zero.
pub fn round_div_i128(a: i128, b: i128) -> (r: i128)
    requires
        0 < b <= ARITH_LIMIT,
        -ARITH_LIMIT <= a <= ARITH_LIMIT,
    ensures
        r == round_div(a as int, b as int),
{
    if a >= 0 {
        let q: i128 = a / b;
        let m: i128 = a % b;
        if 2 * m >= b {
            q + 1
        } else {
            q
        }
    } else {
        let na: i128 = -a;
        let q: i128 = na / b;
        let m: i128 = na % b;
        if 2 * m >= b {
            -(q + 1)
        } else {
            -q
        }
    }
}

} // verus!
