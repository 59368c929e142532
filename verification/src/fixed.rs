//! Saturating fixed-point arithmetic over `i128`.
//!
//! Scores are plain integers scaled by [`SCALE`]; every operation clamps its
//! result to the symmetric range `[-i128::MAX, i128::MAX]`, so negation of a
//! clamped value never overflows, and division is total: a zero divisor
//! yields zero instead of a panic.

use vstd::prelude::*;

verus! {

/// One unit (a score of 1.0) in fixed-point representation.
pub const SCALE: i128 = 1_000_000;

/// Denominator of the damping factor: a damping value `d` stands for the
/// fraction `d / DAMPING_DEN`.
pub const DAMPING_DEN: u32 = 1000;

/// Default damping numerator, standing for 850 / 1000.
pub const DEFAULT_DAMPING: u32 = 850;

/// Clamp an unbounded integer to the symmetric fixed-point range.
pub open spec fn sat(x: int) -> int {
    if x > i128::MAX as int {
        i128::MAX as int
    } else if x < -(i128::MAX as int) {
        -(i128::MAX as int)
    } else {
        x
    }
}

/// Truncating division, total: a zero divisor yields zero.
pub open spec fn tdiv(a: int, b: int) -> int {
    if b == 0 {
        0
    } else if (a >= 0) == (b >= 0) {
        vstd::math::abs(a) as int / vstd::math::abs(b) as int
    } else {
        -(vstd::math::abs(a) as int / vstd::math::abs(b) as int)
    }
}

/// Saturating addition.
pub fn sat_add(a: i128, b: i128) -> (r: i128)
    ensures
        r as int == sat(a + b),
{
    match a.checked_add(b) {
        Some(v) => {
            if v == i128::MIN {
                -i128::MAX
            } else {
                v
            }
        },
        None => {
            if a >= 0 {
                i128::MAX
            } else {
                -i128::MAX
            }
        },
    }
}

/// Saturating subtraction.
pub fn sat_sub(a: i128, b: i128) -> (r: i128)
    ensures
        r as int == sat(a - b),
{
    match a.checked_sub(b) {
        Some(v) => {
            if v == i128::MIN {
                -i128::MAX
            } else {
                v
            }
        },
        None => {
            if a >= 0 {
                i128::MAX
            } else {
                -i128::MAX
            }
        },
    }
}

/// Saturating multiplication.
pub fn sat_mul(a: i128, b: i128) -> (r: i128)
    ensures
        r as int == sat(a * b),
{
    match a.checked_mul(b) {
        Some(v) => {
            if v == i128::MIN {
                -i128::MAX
            } else {
                v
            }
        },
        None => {
            proof {
                if (a < 0) == (b < 0) {
                    assert(a * b >= 0) by (nonlinear_arith)
                        requires
                            (a < 0) == (b < 0),
                    ;
                } else {
                    assert(a * b <= 0) by (nonlinear_arith)
                        requires
                            (a < 0) != (b < 0),
                    ;
                }
            }
            if (a < 0) == (b < 0) {
                i128::MAX
            } else {
                -i128::MAX
            }
        },
    }
}

/// Truncating division on machine integers; a zero divisor yields zero.
pub fn tdiv_i128(a: i128, b: i128) -> (r: i128)
    requires
        a != i128::MIN,
        b != i128::MIN,
    ensures
        r as int == tdiv(a as int, b as int),
{
    if b == 0 {
        0
    } else {
        let am: u128 = if a >= 0 {
            a as u128
        } else {
            (-a) as u128
        };
        let bm: u128 = if b >= 0 {
            b as u128
        } else {
            (-b) as u128
        };
        assert(am == vstd::math::abs(a as int));
        assert(bm == vstd::math::abs(b as int));
        let q: u128 = am / bm;
        proof {
            vstd::arithmetic::div_mod::lemma_div_nonincreasing(am as int, bm as int);
        }
        if (a >= 0) == (b >= 0) {
            q as i128
        } else {
            -(q as i128)
        }
    }
}

} // verus!
