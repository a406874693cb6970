//! The trapping `Int64` arithmetic of `Austral.Pervasive`: each operation is
//! defined exactly when its mathematical result fits in an `i64`; otherwise the
//! runtime aborts.

use vstd::prelude::*;

verus! {

/// Whether `v` is representable as an `i64`.
pub open spec fn fits_i64(v: int) -> bool {
    i64::MIN <= v <= i64::MAX
}

/// Integer division rounded toward zero (Rust's `/` on integers).
pub open spec fn quotient_toward_zero(x: int, d: int) -> int {
    if x == 0 {
        0
    } else if x > 0 && d > 0 {
        x / d
    } else if x < 0 && d < 0 {
        (-x) / (-d)
    } else if x < 0 {
        -((-x) / d)
    } else {
        -(x / (-d))
    }
}

/// `lhs + rhs`, or `None` when it overflows.
pub fn trapping_add_checked(lhs: i64, rhs: i64) -> (r: Option<i64>)
    ensures
        fits_i64(lhs + rhs) ==> r == Some((lhs + rhs) as i64),
        !fits_i64(lhs + rhs) ==> r is None,
{
    lhs.checked_add(rhs)
}

/// `lhs - rhs`, or `None` when it overflows.
pub fn trapping_subtract_checked(lhs: i64, rhs: i64) -> (r: Option<i64>)
    ensures
        fits_i64(lhs - rhs) ==> r == Some((lhs - rhs) as i64),
        !fits_i64(lhs - rhs) ==> r is None,
{
    lhs.checked_sub(rhs)
}

/// `lhs * rhs`, or `None` when it overflows.
pub fn trapping_multiply_checked(lhs: i64, rhs: i64) -> (r: Option<i64>)
    ensures
        fits_i64(lhs * rhs) ==> r == Some((lhs * rhs) as i64),
        !fits_i64(lhs * rhs) ==> r is None,
{
    lhs.checked_mul(rhs)
}

/// `lhs / rhs` rounded toward zero, or `None` for a division by zero and for
/// the one quotient that overflows (`i64::MIN / -1`).
pub fn trapping_divide_checked(lhs: i64, rhs: i64) -> (r: Option<i64>)
    ensures
        rhs == 0 ==> r is None,
        rhs != 0 && fits_i64(quotient_toward_zero(lhs as int, rhs as int))
            ==> r == Some(quotient_toward_zero(lhs as int, rhs as int) as i64),
        rhs != 0 && !fits_i64(quotient_toward_zero(lhs as int, rhs as int)) ==> r is None,
{
    lhs.checked_div(rhs)
}

/// Division fails exactly on a zero divisor and on `i64::MIN / -1`.
pub proof fn law_divide_fails_only_on_zero_or_min_by_minus_one(lhs: i64, rhs: i64)
    ensures
        (rhs == 0 || (lhs == i64::MIN && rhs == -1)) <==> (rhs == 0 || !fits_i64(quotient_toward_zero(lhs as int, rhs as int))),
{
    if rhs != 0 {
        let x = lhs as int;
        let d = rhs as int;
        let q = quotient_toward_zero(x, d);
        if x > 0 && d > 0 {
            assert(0 <= x / d <= x) by (nonlinear_arith) requires x > 0, d > 0;
        } else if x < 0 && d < 0 {
            assert(0 <= (-x) / (-d) <= -x) by (nonlinear_arith) requires x < 0, d < 0;
            if lhs == i64::MIN && rhs == -1 {
                assert((-x) / (-d) == -x);
            } else if lhs == i64::MIN {
                assert((-x) / (-d) <= (-x) / 2) by (nonlinear_arith) requires x < 0, d <= -2;
            }
        } else if x < 0 {
            assert(0 <= (-x) / d <= -x) by (nonlinear_arith) requires x < 0, d > 0;
        } else if x > 0 {
            assert(0 <= x / (-d) <= x) by (nonlinear_arith) requires x > 0, d < 0;
        }
    }
}

} // verus!
