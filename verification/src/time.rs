//! Exact conversion between time bases.
//!
//! A position is a whole number of ticks of a time base. Converting it to
//! another base rounds in the direction the caller names, so that a frame can
//! be placed on the timeline rounded up and found again rounded down.
use crate::probe::Rational;
use vstd::prelude::*;

verus! {

/// One millionth of a second: the time base of the playback timeline.
pub open spec fn micros() -> Rational {
    Rational { num: 1, den: 1_000_000 }
}

/// One millionth of a second: the time base of the playback timeline.
pub fn microseconds() -> (base: Rational)
    ensures
        base == micros(),
{
    Rational { num: 1, den: 1_000_000 }
}

/// Which way a conversion rounds.
#[derive(Debug, Clone, Copy, PartialEq, Eq, Structural)]
pub enum Rounding {
    Down,
    Up,
    /// To the nearest tick, a half upwards.
    Nearest,
}

/// `n / d` rounded, for a positive `d`.
pub open spec fn rounded(n: int, d: int, rounding: Rounding) -> int {
    match rounding {
        Rounding::Down => n / d,
        Rounding::Up => if n % d == 0 {
            n / d
        } else {
            n / d + 1
        },
        Rounding::Nearest => if 2 * (n % d) < d {
            n / d
        } else {
            n / d + 1
        },
    }
}

/// The numerator of `value` ticks of `from` in ticks of `to`.
pub open spec fn rescale_numerator(value: int, from: Rational, to: Rational) -> int {
    value * (from.num * to.den)
}

/// The denominator of a conversion from `from` to `to`.
pub open spec fn rescale_denominator(from: Rational, to: Rational) -> int {
    from.den * to.num
}

/// `value` ticks of `from`, in ticks of `to`: nothing where a base is not
/// positive or a number leaves the machine's range.
pub open spec fn rescaled(value: i64, from: Rational, to: Rational, rounding: Rounding) -> Option<
    i64,
> {
    let n = rescale_numerator(value as int, from, to);
    let q = rounded(n, rescale_denominator(from, to), rounding);
    if from.positive() && to.positive() && i128::MIN <= n <= i128::MAX && i64::MIN <= q
        <= i64::MAX {
        Some(q as i64)
    } else {
        None
    }
}

/// `value` ticks of `from`, in ticks of `to`, rounded as asked.
pub fn rescale(value: i64, from: Rational, to: Rational, rounding: Rounding) -> (ticks: Option<i64>)
    ensures
        ticks == rescaled(value, from, to, rounding),
{
    if !from.is_positive() || !to.is_positive() {
        return None;
    }
    let (a, b, c, d) = (from.num as i128, to.den as i128, from.den as i128, to.num as i128);
    assert(0 < a * b <= 0x7fff_ffff_ffff_ffff * 0x7fff_ffff_ffff_ffff && 0 < c * d
        <= 0x7fff_ffff_ffff_ffff * 0x7fff_ffff_ffff_ffff) by (nonlinear_arith)
        requires
            0 < a <= 0x7fff_ffff_ffff_ffff,
            0 < b <= 0x7fff_ffff_ffff_ffff,
            0 < c <= 0x7fff_ffff_ffff_ffff,
            0 < d <= 0x7fff_ffff_ffff_ffff,
    ;
    let scale: i128 = a * b;
    let denominator: i128 = c * d;
    let numerator: i128 = match (value as i128).checked_mul(scale) {
        Some(n) => n,
        None => return None,
    };
    proof {
        vstd::arithmetic::div_mod::lemma_fundamental_div_mod(numerator as int, denominator as int);
        vstd::arithmetic::div_mod::lemma_mod_bound(numerator as int, denominator as int);
        lemma_quotient_bound(numerator as int, denominator as int);
    }
    let floor: i128 = match numerator.checked_div_euclid(denominator) {
        Some(q) => q,
        None => return None,
    };
    let rest: i128 = match numerator.checked_rem_euclid(denominator) {
        Some(r) => r,
        None => return None,
    };
    let up = match rounding {
        Rounding::Down => false,
        Rounding::Up => rest != 0,
        Rounding::Nearest => rest >= denominator - rest,
    };
    if floor > i64::MAX as i128 || floor < i64::MIN as i128 - 1 {
        return None;
    }
    let ticks: i128 = if up {
        floor + 1
    } else {
        floor
    };
    if ticks > i64::MAX as i128 || ticks < i64::MIN as i128 {
        None
    } else {
        Some(ticks as i64)
    }
}

/// A quotient lies between its dividend and zero.
pub proof fn lemma_quotient_bound(n: int, d: int)
    requires
        d > 0,
    ensures
        n >= 0 ==> 0 <= n / d <= n,
        n < 0 ==> n <= n / d < 0,
{
    assert(n >= 0 ==> 0 <= n / d <= n) by (nonlinear_arith)
        requires
            d > 0,
    ;
    assert(n < 0 ==> n <= n / d < 0) by (nonlinear_arith)
        requires
            d > 0,
    ;
}

/// Rounding up and coming back down finds the tick again, where a tick of the
/// coarser base is at least as long as one of the finer: `d` fine ticks make
/// `n` coarse ones, and `n <= d`.
pub proof fn up_then_down_is_the_same(value: int, n: int, d: int)
    requires
        0 < n <= d,
    ensures
        rounded(rounded(value * d, n, Rounding::Up) * n, d, Rounding::Down) == value,
{
    let up = rounded(value * d, n, Rounding::Up);
    vstd::arithmetic::div_mod::lemma_fundamental_div_mod(value * d, n);
    vstd::arithmetic::div_mod::lemma_mod_bound(value * d, n);
    // value * d <= up * n < value * d + n <= (value + 1) * d
    assert(value * d <= up * n < value * d + n) by (nonlinear_arith)
        requires
            value * d == n * ((value * d) / n) + (value * d) % n,
            0 <= (value * d) % n < n,
            up == (if (value * d) % n == 0 {
                (value * d) / n
            } else {
                (value * d) / n + 1
            }),
    ;
    assert((up * n) / d == value) by (nonlinear_arith)
        requires
            value * d <= up * n < value * d + n,
            0 < n <= d,
    ;
}

/// A conversion keeps the time: what comes out is as long as what went in, as
/// far as whole ticks can say, from below, from above or to the nearest as
/// asked, a half upwards. `n / d` ticks are exact.
pub proof fn a_conversion_keeps_the_time(value: i64, from: Rational, to: Rational, rounding: Rounding)
    ensures
        rescaled(value, from, to, rounding) matches Some(q) ==> {
            let n = value * from.num * to.den;
            let d = from.den * to.num;
            &&& d > 0
            &&& rounding == Rounding::Down ==> q * d <= n < q * d + d
            &&& rounding == Rounding::Up ==> q * d - d < n <= q * d
            &&& rounding == Rounding::Nearest ==> -d <= 2 * (n - q * d) < d
        },
        from.num > 0 && from.den > 0 && to.num > 0 && to.den > 0 && -0x4000_0000_0000_0000 <= value
            * from.num * to.den < 0x4000_0000_0000_0000 ==> rescaled(value, from, to, rounding) is Some,
        from.num <= 0 || from.den <= 0 || to.num <= 0 || to.den <= 0 ==> rescaled(
            value,
            from,
            to,
            rounding,
        ) is None,
{
    let n = rescale_numerator(value as int, from, to);
    let d = rescale_denominator(from, to);
    assert(n == value * from.num * to.den) by (nonlinear_arith)
        requires
            n == value * (from.num * to.den),
    ;
    if from.positive() && to.positive() {
        let (a, b) = (from.den as int, to.num as int);
        assert(d > 0) by (nonlinear_arith)
            requires
                d == a * b,
                a > 0,
                b > 0,
        ;
        vstd::arithmetic::div_mod::lemma_fundamental_div_mod(n, d);
        vstd::arithmetic::div_mod::lemma_mod_bound(n, d);
        lemma_quotient_bound(n, d);
        let f = n / d;
        assert(d * f == f * d && (f + 1) * d == f * d + d) by (nonlinear_arith);
    }
}

/// A base that is so many times finer counts so many times the ticks, however
/// it is rounded.
pub proof fn a_finer_base_loses_nothing(value: i64, from: Rational, times: i64, there: Rounding)
    requires
        from.positive(),
        times > 0,
        from.den * times <= i64::MAX,
        rescaled(value, from, Rational { num: from.num, den: (from.den * times) as i64 }, there) is Some,
    ensures
        rescaled(
            value,
            from,
            Rational { num: from.num, den: (from.den * times) as i64 },
            there,
        ) == Some((value * times) as i64),
{
    let fine = Rational { num: from.num, den: (from.den * times) as i64 };
    let q = rescaled(value, from, fine, there)->0 as int;
    assert(fine.positive()) by (nonlinear_arith)
        requires
            fine.num == from.num,
            fine.den == from.den * times,
            from.num > 0,
            from.den > 0,
            times > 0,
    ;
    a_conversion_keeps_the_time(value, from, fine, there);
    let d = from.den * fine.num;
    let n = value * from.num * fine.den;
    assert(n == (value * times) * d) by (nonlinear_arith)
        requires
            n == value * from.num * (from.den * times),
            d == from.den * from.num,
    ;
    let w = value * times;
    assert(q == w) by (nonlinear_arith)
        requires
            d > 0,
            n == w * d,
            -d < n - q * d < d,
    ;
}

} // verus!
