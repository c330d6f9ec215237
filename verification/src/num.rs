//! Small arithmetic the rest of the engine shares.
use vstd::prelude::*;

verus! {

/// `x` brought into the range of an `i64`.
pub open spec fn clamped(x: int) -> i64 {
    if x > i64::MAX {
        i64::MAX
    } else if x < i64::MIN {
        i64::MIN
    } else {
        x as i64
    }
}

/// The larger of two integers.
pub open spec fn larger(a: int, b: int) -> int {
    if a >= b {
        a
    } else {
        b
    }
}

/// The smaller of two integers.
pub open spec fn smaller(a: int, b: int) -> int {
    if a <= b {
        a
    } else {
        b
    }
}

/// `a + b`, stopping at the ends of the range.
pub fn saturating_add(a: i64, b: i64) -> (sum: i64)
    ensures
        sum == clamped(a + b),
{
    match a.checked_add(b) {
        Some(sum) => sum,
        None => if b > 0 {
            i64::MAX
        } else {
            i64::MIN
        },
    }
}

/// `a - b`, stopping at the ends of the range.
pub fn saturating_sub(a: i64, b: i64) -> (difference: i64)
    ensures
        difference == clamped(a - b),
{
    match a.checked_sub(b) {
        Some(difference) => difference,
        None => if b < 0 {
            i64::MAX
        } else {
            i64::MIN
        },
    }
}

/// `a * b`, stopping at the ends of the range.
pub fn saturating_mul(a: i64, b: i64) -> (product: i64)
    ensures
        product == clamped(a * b),
{
    match a.checked_mul(b) {
        Some(product) => product,
        None => {
            if (a > 0) == (b > 0) {
                assert(a * b >= 0) by (nonlinear_arith)
                    requires
                        (a > 0) == (b > 0),
                ;
                i64::MAX
            } else {
                assert(a * b <= 0) by (nonlinear_arith)
                    requires
                        (a > 0) != (b > 0),
                ;
                i64::MIN
            }
        },
    }
}

/// The larger of two numbers.
pub fn max(a: i64, b: i64) -> (r: i64)
    ensures
        r == larger(a as int, b as int),
{
    if a >= b {
        a
    } else {
        b
    }
}

/// The smaller of two numbers.
pub fn min(a: i64, b: i64) -> (r: i64)
    ensures
        r == smaller(a as int, b as int),
{
    if a <= b {
        a
    } else {
        b
    }
}

} // verus!
