//! Where a segment's packets go on the output's timeline.
use crate::export::execute::{ErrorModel, ExportError, READER_OFFSET_SECONDS};
use crate::num::{clamped, saturating_mul};
use crate::probe::Rational;
use crate::project::SourceId;
use crate::text::{push_signed, signed_decimal};
use crate::time::{rescale, rescaled, Rounding};
use vstd::prelude::*;

verus! {

/// What is said of a timestamp that is out of range.
pub open spec fn out_of_range(ticks: i64) -> ErrorModel {
    ErrorModel::Mismatch("a timestamp ("@ + signed_decimal(ticks as int) + ") is out of range"@)
}

/// What is said of a timestamp that is out of range.
pub fn range_error(ticks: i64) -> (error: ExportError)
    ensures
        error@ == out_of_range(ticks),
{
    let mut text = "a timestamp (".to_owned();
    push_signed(&mut text, ticks);
    text.append(") is out of range");
    ExportError::Mismatch(text)
}

/// Ticks of one base in another, to the nearest; the ticks themselves where
/// that is out of range.
pub open spec fn converted(ticks: i64, from: Rational, to: Rational) -> Result<i64, i64> {
    match rescaled(ticks, from, to, Rounding::Nearest) {
        Some(there) => Ok(there),
        None => Err(ticks),
    }
}

/// `ticks` of `from` in `to`, to the nearest tick; `ticks` where that is out of
/// range.
pub fn convert(ticks: i64, from: Rational, to: Rational) -> (result: Result<i64, i64>)
    ensures
        result == converted(ticks, from, to),
{
    match rescale(ticks, from, to, Rounding::Nearest) {
        Some(there) => Ok(there),
        None => Err(ticks),
    }
}

/// Two timestamps together; the first where the sum is out of range.
pub open spec fn plus(a: i64, b: i64) -> Result<i64, i64> {
    if i64::MIN <= a + b <= i64::MAX {
        Ok((a + b) as i64)
    } else {
        Err(a)
    }
}

/// Two timestamps together; the first where the sum is out of range.
pub fn sum(a: i64, b: i64) -> (result: Result<i64, i64>)
    ensures
        result == plus(a, b),
{
    match a.checked_add(b) {
        Some(both) => Ok(both),
        None => Err(a),
    }
}

/// How far one timestamp lies behind another; the first where that is out of
/// range.
pub open spec fn minus(a: i64, b: i64) -> Result<i64, i64> {
    if i64::MIN <= a - b <= i64::MAX {
        Ok((a - b) as i64)
    } else {
        Err(a)
    }
}

/// How far one timestamp lies behind another; the first where that is out of
/// range.
pub fn difference(a: i64, b: i64) -> (result: Result<i64, i64>)
    ensures
        result == minus(a, b),
{
    match a.checked_sub(b) {
        Some(apart) => Ok(apart),
        None => Err(a),
    }
}

/// One second.
pub open spec fn second() -> Rational {
    Rational { num: 1, den: 1 }
}

/// A time base as it plays at a speed.
pub open spec fn played(base: Rational, speed: Rational) -> Rational {
    Rational { num: clamped(base.num * speed.den), den: clamped(base.den * speed.num) }
}

/// A packet's distance from its segment's in-point, played at a speed, in
/// ticks of another base.
pub open spec fn retimed(ticks: i64, from: Rational, to: Rational, speed: Rational) -> Result<
    i64,
    i64,
> {
    converted(ticks, played(from, speed), to)
}

/// A copied packet's distance from its segment's in-point, played at `speed`,
/// in ticks of `to`. Every packet is rescaled on its own timestamp, so a
/// variable-frame-rate source keeps its own rhythm, only faster or slower.
pub fn retime(ticks: i64, from: Rational, to: Rational, speed: Rational) -> (result: Result<
    i64,
    i64,
>)
    ensures
        result == retimed(ticks, from, to, speed),
{
    let base = Rational {
        num: saturating_mul(from.num, speed.den),
        den: saturating_mul(from.den, speed.num),
    };
    convert(ticks, base, to)
}

/// Where a segment's packets go: its source's in-point, the time base the
/// producer writes in, and the output's.
#[derive(Debug, Clone, Copy, PartialEq, Eq, Structural)]
pub struct Place {
    pub source: SourceId,
    /// The source stream's time base: the unit of the plan's ticks.
    pub source_base: Rational,
    /// The producer's NUT time base.
    pub nut_base: Rational,
    /// The reader offset, in `nut_base` ticks.
    pub offset: i64,
    /// The segment's in-point, in source ticks.
    pub origin: i64,
    pub speed: Rational,
    /// The segment's start on the output timeline, in `out_base` ticks.
    pub start: i64,
    pub out_base: Rational,
}

impl Place {
    /// Where the packets of a segment go that starts at `start` of `sequence`.
    pub open spec fn made(
        source: SourceId,
        source_base: Rational,
        nut_base: Rational,
        origin: i64,
        speed: Rational,
        start: i64,
        sequence: Rational,
        out_base: Rational,
    ) -> Result<Place, i64> {
        match converted(READER_OFFSET_SECONDS, second(), nut_base) {
            Err(ticks) => Err(ticks),
            Ok(offset) => match converted(start, sequence, out_base) {
                Err(ticks) => Err(ticks),
                Ok(start) => Ok(
                    Place {
                        source,
                        source_base,
                        nut_base,
                        offset,
                        origin,
                        speed,
                        start,
                        out_base,
                    },
                ),
            },
        }
    }

    /// Where the packets of a segment go that starts at `start` of `sequence`.
    #[allow(clippy::too_many_arguments)]
    pub fn of(
        source: SourceId,
        source_base: Rational,
        nut_base: Rational,
        origin: i64,
        speed: Rational,
        start: i64,
        sequence: Rational,
        out_base: Rational,
    ) -> (place: Result<Place, i64>)
        ensures
            place == Place::made(
                source,
                source_base,
                nut_base,
                origin,
                speed,
                start,
                sequence,
                out_base,
            ),
    {
        let offset = convert(READER_OFFSET_SECONDS, Rational { num: 1, den: 1 }, nut_base)?;
        let start = convert(start, sequence, out_base)?;
        Ok(Place { source, source_base, nut_base, offset, origin, speed, start, out_base })
    }

    /// Source ticks as the producer writes them: behind the offset.
    pub open spec fn written(self, ticks: i64) -> Result<i64, i64> {
        match converted(READER_OFFSET_SECONDS, second(), self.nut_base) {
            Err(ticks) => Err(ticks),
            Ok(offset) => match converted(ticks, self.source_base, self.nut_base) {
                Err(ticks) => Err(ticks),
                Ok(there) => plus(there, offset),
            },
        }
    }

    /// Source ticks as the producer writes them.
    pub fn nut(&self, ticks: i64) -> (result: Result<i64, i64>)
        ensures
            result == self.written(ticks),
    {
        let offset = convert(READER_OFFSET_SECONDS, Rational { num: 1, den: 1 }, self.nut_base)?;
        let there = convert(ticks, self.source_base, self.nut_base)?;
        sum(there, offset)
    }

    /// A producer's timestamp in source ticks.
    pub open spec fn read(self, pts: i64) -> Result<i64, i64> {
        match minus(pts, self.offset) {
            Err(ticks) => Err(ticks),
            Ok(there) => converted(there, self.nut_base, self.source_base),
        }
    }

    /// A producer's timestamp back in source ticks.
    pub fn source_ticks(&self, pts: i64) -> (result: Result<i64, i64>)
        ensures
            result == self.read(pts),
    {
        let there = difference(pts, self.offset)?;
        convert(there, self.nut_base, self.source_base)
    }

    /// Where a producer's packet goes on the output: as far behind the
    /// segment's start as it is shown behind its in-point, at its speed.
    pub open spec fn placed(self, pts: i64, base: Rational) -> Result<i64, i64> {
        match self.written(self.origin) {
            Err(ticks) => Err(ticks),
            Ok(origin) => match minus(pts, origin) {
                Err(ticks) => Err(ticks),
                Ok(behind) => match retimed(behind, base, self.out_base, self.speed) {
                    Err(ticks) => Err(ticks),
                    Ok(there) => plus(self.start, there),
                },
            },
        }
    }

    /// Where a producer's packet at `pts` (in `base`) goes on the output.
    pub fn output(&self, pts: i64, base: Rational) -> (result: Result<i64, i64>)
        ensures
            result == self.placed(pts, base),
    {
        let origin = self.nut(self.origin)?;
        let behind = difference(pts, origin)?;
        let there = retime(behind, base, self.out_base, self.speed)?;
        sum(self.start, there)
    }

    /// The place of a seam's packets, whose encoder writes in `nut_base`.
    pub fn seam(&self, nut_base: Rational) -> (place: Place)
        ensures
            place == (Place { nut_base, ..*self }),
    {
        Place {
            source: self.source,
            source_base: self.source_base,
            nut_base,
            offset: self.offset,
            origin: self.origin,
            speed: self.speed,
            start: self.start,
            out_base: self.out_base,
        }
    }
}

/// The picture at a segment's in-point lands exactly on the segment's start.
pub proof fn the_in_point_lands_on_the_start(place: Place, pts: i64)
    requires
        place.written(place.origin) == Ok::<i64, i64>(pts),
        played(place.nut_base, place.speed).positive(),
        place.out_base.positive(),
    ensures
        place.placed(pts, place.nut_base) == Ok::<i64, i64>(place.start),
{
    let base = played(place.nut_base, place.speed);
    let d = crate::time::rescale_denominator(base, place.out_base);
    let (a, b) = (base.den as int, place.out_base.num as int);
    assert(d > 0) by (nonlinear_arith)
        requires
            d == a * b,
            a > 0,
            b > 0,
    ;
    assert(crate::time::rescale_numerator(0, base, place.out_base) == 0) by {
        assert(0 * (base.num * place.out_base.den) == 0) by (nonlinear_arith);
    }
    assert(0int / d == 0 && 0int % d == 0) by (nonlinear_arith)
        requires
            d > 0,
    ;
}

/// Where a producer writes in the source's own base, its timestamps read back
/// as the source's ticks.
pub proof fn timestamps_survive_the_pipe(place: Place, ticks: i64, pts: i64)
    requires
        place.nut_base == place.source_base,
        converted(READER_OFFSET_SECONDS, second(), place.nut_base) == Ok::<i64, i64>(place.offset),
        place.written(ticks) == Ok::<i64, i64>(pts),
    ensures
        place.read(pts) == Ok::<i64, i64>(ticks),
{
    let base = place.nut_base;
    let (num, den) = (base.num as int, base.den as int);
    let d = crate::time::rescale_denominator(base, base);
    let n = crate::time::rescale_numerator(ticks as int, base, base);
    assert(base.positive());
    assert(d > 0 && n == ticks * d) by (nonlinear_arith)
        requires
            d == den * num,
            n == ticks * (num * den),
            num > 0,
            den > 0,
    ;
    vstd::arithmetic::div_mod::lemma_div_multiples_vanish(ticks as int, d);
    vstd::arithmetic::div_mod::lemma_mod_multiples_basic(ticks as int, d);
    assert(n / d == ticks && n % d == 0) by {
        vstd::arithmetic::mul::lemma_mul_is_commutative(ticks as int, d);
    }
}

/// A number of ticks is the nearest to a time: `n` over `d` of them exactly, a
/// half upwards.
pub open spec fn nearest(n: int, d: int, ticks: int) -> bool {
    d > 0 && -d <= 2 * (n - ticks * d) < d
}

/// A packet keeps its distance: as far as it is shown behind its segment's
/// in-point, divided by the speed, so far it comes out behind the segment's
/// start, to the nearest tick of the output.
pub proof fn a_packet_keeps_its_distance(place: Place, pts: i64, base: Rational, origin: i64)
    requires
        place.written(place.origin) == Ok::<i64, i64>(origin),
        base.num * place.speed.den <= i64::MAX,
        base.den * place.speed.num <= i64::MAX,
        base.positive() && place.speed.positive(),
    ensures
        place.placed(pts, base) matches Ok(there) ==> nearest(
            (pts - origin) * (base.num * place.speed.den) * place.out_base.den,
            base.den * place.speed.num * place.out_base.num,
            there - place.start,
        ),
{
    if let Ok(there) = place.placed(pts, base) {
        let behind = minus(pts, origin)->Ok_0;
        let (a, b) = (base.num as int, place.speed.den as int);
        let (c, d) = (base.den as int, place.speed.num as int);
        assert(a * b > 0 && c * d > 0) by (nonlinear_arith)
            requires
                a > 0,
                b > 0,
                c > 0,
                d > 0,
        ;
        let faster = played(base, place.speed);
        assert(faster == (Rational { num: (a * b) as i64, den: (c * d) as i64 }));
        crate::time::a_conversion_keeps_the_time(
            behind,
            faster,
            place.out_base,
            Rounding::Nearest,
        );
    }
}

/// Every packet of a producer comes a hundred seconds late, and its segment
/// stands where the sequence has it: to the nearest tick of the producer, and of
/// the output.
pub proof fn a_place_is_where_its_segment_is(
    source: SourceId,
    source_base: Rational,
    nut_base: Rational,
    origin: i64,
    speed: Rational,
    start: i64,
    sequence: Rational,
    out_base: Rational,
)
    ensures
        Place::made(source, source_base, nut_base, origin, speed, start, sequence, out_base)
            matches Ok(place) ==> {
            &&& place.source == source && place.origin == origin && place.speed == speed
            &&& place.source_base == source_base && place.nut_base == nut_base
            &&& place.out_base == out_base
            &&& nearest(100 * nut_base.den, nut_base.num as int, place.offset as int)
            &&& nearest(
                start * sequence.num * out_base.den,
                sequence.den * out_base.num,
                place.start as int,
            )
        },
{
    crate::time::a_conversion_keeps_the_time(
        READER_OFFSET_SECONDS,
        second(),
        nut_base,
        Rounding::Nearest,
    );
    crate::time::a_conversion_keeps_the_time(start, sequence, out_base, Rounding::Nearest);
}

/// A tick of a source is written a hundred seconds late, each of the two to the
/// nearest tick of the producer; and it is read back without them.
pub proof fn a_tick_is_written_late(place: Place, ticks: i64)
    ensures
        place.written(ticks) matches Ok(there) ==> exists|late: int|
            #![trigger there - late]
            nearest(100 * place.nut_base.den, place.nut_base.num as int, late) && nearest(
                ticks * place.source_base.num * place.nut_base.den,
                place.source_base.den * place.nut_base.num,
                there - late,
            ),
        place.read(ticks) matches Ok(there) ==> nearest(
            (ticks - place.offset) * place.nut_base.num * place.source_base.den,
            place.nut_base.den * place.source_base.num,
            there as int,
        ),
{
    let base = place.nut_base;
    crate::time::a_conversion_keeps_the_time(
        READER_OFFSET_SECONDS,
        second(),
        base,
        Rounding::Nearest,
    );
    crate::time::a_conversion_keeps_the_time(ticks, place.source_base, base, Rounding::Nearest);
    if let Ok(there) = place.written(ticks) {
        let late = converted(READER_OFFSET_SECONDS, second(), base)->Ok_0 as int;
        assert(nearest(
            ticks * place.source_base.num * base.den,
            place.source_base.den * base.num,
            there - late,
        ));
    }
    if let Ok(there) = place.read(ticks) {
        let early = minus(ticks, place.offset)->Ok_0;
        crate::time::a_conversion_keeps_the_time(
            early,
            base,
            place.source_base,
            Rounding::Nearest,
        );
    }
}

} // verus!
