//! Timecode: a timeline position as hours, minutes, seconds and frames, in
//! the timeline's frame rate.
//!
//! Non-drop-frame, counted at the nominal rate: 30 for 30000/1001. The frame
//! number itself is exact: the timeline position times the real rate, rounded
//! down, while a frame's position is its start rounded up to the microsecond,
//! so a frame's start is never counted as the frame before it.
use crate::probe::Rational;
use crate::text::{push_two_digits, two_digits};
use crate::time::{rounded, up_then_down_is_the_same, Rounding};
use vstd::prelude::*;

verus! {

/// The frame of the timeline, at `frame_rate`, that `position` falls in.
pub open spec fn frame_of(position: int, frame_rate: Rational) -> int {
    rounded(position * frame_rate.num, frame_rate.den * 1_000_000, Rounding::Down)
}

/// Where frame `frame` starts, in microseconds, rounded up.
pub open spec fn start_of(frame: int, frame_rate: Rational) -> int {
    rounded(frame * (frame_rate.den * 1_000_000), frame_rate.num as int, Rounding::Up)
}

/// The frame of the timeline, at `frame_rate`, that `position` falls in: zero
/// for a rate without a positive denominator, and the largest number where
/// the frame does not fit.
pub fn frame_number(position: i64, frame_rate: Rational) -> (frame: i64)
    ensures
        frame == (if frame_rate.den <= 0 {
            0
        } else if i64::MIN <= frame_of(position as int, frame_rate) <= i64::MAX {
            frame_of(position as int, frame_rate)
        } else {
            i64::MAX as int
        }),
{
    if frame_rate.den <= 0 {
        return 0;
    }
    let (p, n) = (position as i128, frame_rate.num as i128);
    assert(-0x4000_0000_0000_0000_0000_0000_0000_0000 <= p * n
        <= 0x4000_0000_0000_0000_0000_0000_0000_0000) by (nonlinear_arith)
        requires
            -0x8000_0000_0000_0000 <= p <= 0x7fff_ffff_ffff_ffff,
            -0x8000_0000_0000_0000 <= n <= 0x7fff_ffff_ffff_ffff,
    ;
    let numerator: i128 = p * n;
    let denominator: i128 = frame_rate.den as i128 * 1_000_000;
    assert(i128::MIN <= numerator as int / denominator as int <= i128::MAX) by (nonlinear_arith)
        requires
            denominator >= 1,
            -0x4000_0000_0000_0000_0000_0000_0000_0000 <= numerator
                <= 0x4000_0000_0000_0000_0000_0000_0000_0000,
    ;
    match numerator.checked_div_euclid(denominator) {
        Some(frame) => if frame < i64::MIN as i128 || frame > i64::MAX as i128 {
            i64::MAX
        } else {
            frame as i64
        },
        None => 0,
    }
}

/// The whole number nearest the frame rate, at least one; thirty where the
/// rate has no denominator.
pub open spec fn nominal(frame_rate: Rational) -> int {
    let (n, d) = (frame_rate.num as int, frame_rate.den as int);
    if d == 0 {
        30
    } else {
        let (n, d) = if d < 0 {
            (-n, -d)
        } else {
            (n, d)
        };
        let nearest = (2 * n + d) / (2 * d);
        if nearest < 1 {
            1
        } else if nearest > i64::MAX {
            i64::MAX as int
        } else {
            nearest
        }
    }
}

/// The nominal whole-number rate timecode counts frames in.
pub fn nominal_rate(frame_rate: Rational) -> (rate: i64)
    ensures
        rate == nominal(frame_rate),
        rate >= 1,
{
    if frame_rate.den == 0 {
        return 30;
    }
    let (n, d) = if frame_rate.den < 0 {
        (-(frame_rate.num as i128), -(frame_rate.den as i128))
    } else {
        (frame_rate.num as i128, frame_rate.den as i128)
    };
    let sum: i128 = 2 * n + d;
    let whole: i128 = 2 * d;
    if sum < whole {
        assert(sum as int / whole as int <= 0) by (nonlinear_arith)
            requires
                whole > 0,
                sum < whole,
        ;
        return 1;
    }
    assert(1 <= sum as int / whole as int <= sum) by (nonlinear_arith)
        requires
            whole > 0,
            sum >= whole,
    ;
    let nearest: i128 = sum / whole;
    if nearest > i64::MAX as i128 {
        i64::MAX
    } else {
        nearest as i64
    }
}

/// `HH:MM:SS:FF` for frame `frame`, counting `rate` frames a second.
pub open spec fn shown(frame: int, rate: int) -> Seq<char> {
    let seconds = frame / rate;
    two_digits((seconds / 3600) as nat) + ":"@ + two_digits(((seconds / 60) % 60) as nat) + ":"@
        + two_digits((seconds % 60) as nat) + ":"@ + two_digits((frame % rate) as nat)
}

/// `HH:MM:SS:FF` for frame `frame` at `frame_rate`. A frame before the start
/// reads as the first.
pub fn format(frame: i64, frame_rate: Rational) -> (timecode: String)
    ensures
        timecode@ == shown(
            if frame < 0 {
                0
            } else {
                frame as int
            },
            nominal(frame_rate),
        ),
{
    let rate: u64 = nominal_rate(frame_rate) as u64;
    let frame: u64 = if frame < 0 {
        0
    } else {
        frame as u64
    };
    let seconds: u64 = frame / rate;
    let mut timecode: String = String::new();
    push_two_digits(&mut timecode, seconds / 3600);
    timecode.append(":");
    push_two_digits(&mut timecode, (seconds / 60) % 60);
    timecode.append(":");
    push_two_digits(&mut timecode, seconds % 60);
    timecode.append(":");
    push_two_digits(&mut timecode, frame % rate);
    assert(timecode@ =~= shown(frame as int, rate as int));
    timecode
}

/// A frame's start counts as that frame, at any rate of at most a frame a
/// microsecond.
pub proof fn a_frame_start_counts_as_that_frame(frame: int, frame_rate: Rational)
    requires
        frame_rate.positive(),
        frame_rate.num <= frame_rate.den * 1_000_000,
    ensures
        frame_of(start_of(frame, frame_rate), frame_rate) == frame,
{
    up_then_down_is_the_same(frame, frame_rate.num as int, frame_rate.den * 1_000_000);
}

/// The fields of a timecode count up to its frame, each below its limit.
pub proof fn timecode_fields_count_to_the_frame(frame: int, rate: int)
    requires
        frame >= 0,
        rate >= 1,
    ensures
        ({
            let seconds = frame / rate;
            let (h, m, s, f) = (seconds / 3600, (seconds / 60) % 60, seconds % 60, frame % rate);
            &&& 0 <= m < 60 && 0 <= s < 60 && 0 <= f < rate && 0 <= h
            &&& ((h * 60 + m) * 60 + s) * rate + f == frame
        }),
{
    let seconds = frame / rate;
    vstd::arithmetic::div_mod::lemma_fundamental_div_mod(frame, rate);
    vstd::arithmetic::div_mod::lemma_mod_bound(frame, rate);
    assert(seconds >= 0) by (nonlinear_arith)
        requires
            seconds == frame / rate,
            frame >= 0,
            rate >= 1,
    ;
    assert(((seconds / 3600) * 60 + (seconds / 60) % 60) * 60 + seconds % 60 == seconds);
    assert(seconds * rate == rate * seconds) by (nonlinear_arith);
}

} // verus!
