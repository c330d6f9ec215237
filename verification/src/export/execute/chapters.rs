//! The sources' chapters, moved onto the output timeline.
use crate::export::nut::{tags, Chapter, ChapterModel, Tag};
use crate::export::plan::{Media, Segment, SegmentSource};
use crate::num::{larger, smaller};
use crate::probe::Rational;
use crate::project::SourceId;
use crate::time::{rounded, Rounding};
use std::collections::BTreeMap;
use vstd::prelude::*;

verus! {

/// A chapter of a source, in microseconds of the source's own timeline.
#[derive(Debug)]
pub struct SourceChapter {
    pub start: i64,
    pub end: i64,
    pub title: Option<String>,
}

/// A millisecond.
pub open spec fn millis() -> Rational {
    Rational { num: 1, den: 1000 }
}

/// A number that can be counted in.
pub open spec fn counted(n: int) -> bool {
    i128::MIN <= n <= i128::MAX
}

/// A source's times are compared in parts of a second of which both its ticks
/// and microseconds are whole numbers: so many make a second.
pub open spec fn parts(base: Rational) -> int {
    base.den * 1_000_000
}

/// Some ticks of a source in such parts.
pub open spec fn ticks_in_parts(ticks: i64, base: Rational) -> int {
    ticks * base.num * 1_000_000
}

/// Some microseconds in such parts.
pub open spec fn micros_in_parts(time: i64, base: Rational) -> int {
    time * base.den
}

/// A chapter's title as metadata.
pub open spec fn titled(title: Option<String>) -> Seq<Tag> {
    match title {
        Some(title) => seq![("title"@, title@)],
        None => Seq::empty(),
    }
}

/// What of a chapter plays in a clip: from where to where in the source.
pub open spec fn heard(chapter: SourceChapter, source: SegmentSource) -> (int, int) {
    let base = source.time_base;
    (
        larger(micros_in_parts(chapter.start, base), ticks_in_parts(source.source_in, base)),
        smaller(micros_in_parts(chapter.end, base), ticks_in_parts(source.source_out, base)),
    )
}

/// Where a segment starts on the output timeline, as many times a millisecond
/// as [`start_unit`] says.
pub open spec fn segment_part(source: SegmentSource, start: i64, sequence: Rational) -> int {
    start * sequence.num * source.time_base.den * 1_000_000 * source.speed.num * 1000
}

/// How far behind its segment's start a part of a source comes out, counted
/// likewise.
pub open spec fn source_part(span: int, source: SegmentSource, sequence: Rational) -> int {
    span * source.speed.den * sequence.den * 1000
}

/// What a place on the output timeline is counted in.
pub open spec fn start_unit(source: SegmentSource, sequence: Rational) -> int {
    source.time_base.den * 1_000_000 * source.speed.num * sequence.den
}

/// How long a part of a source comes out, as many times a millisecond as
/// [`length_unit`] says.
pub open spec fn length_part(span: int, source: SegmentSource) -> int {
    span * source.speed.den * 1000
}

/// What a length on the output timeline is counted in.
pub open spec fn length_unit(source: SegmentSource) -> int {
    source.time_base.den * 1_000_000 * source.speed.num
}

/// A whole number of milliseconds, the nearest to `n` parts of which `unit`
/// make one, where it is not before zero.
pub open spec fn whole_millis(n: int, unit: int) -> Option<u64> {
    let millis = rounded(n, unit, Rounding::Nearest);
    if 0 <= millis <= i64::MAX {
        Some(millis as u64)
    } else {
        None
    }
}

/// The times of a clip's source and of the output can be counted.
pub open spec fn countable(
    chapter: SourceChapter,
    source: SegmentSource,
    start: i64,
    sequence: Rational,
) -> bool {
    let source_in = ticks_in_parts(source.source_in, source.time_base);
    let (from, to) = heard(chapter, source);
    let behind = source_part(from - source_in, source, sequence);
    let ahead = segment_part(source, start, sequence);
    &&& source.time_base.positive() && source.speed.positive() && sequence.positive()
    &&& counted(source_in) && counted(ticks_in_parts(source.source_out, source.time_base))
    &&& counted(from - source_in) && counted(to - from)
    &&& counted(behind) && counted(ahead) && counted(ahead + behind)
    &&& counted(start_unit(source, sequence)) && counted(length_part(to - from, source))
}

/// A chapter of a clip's source on the output timeline: it starts at the same
/// point of the segment's output, and ends with the chapter or the segment,
/// whichever is first, both at the segment's speed and to the nearest
/// millisecond. Nothing of a chapter that does not play in the segment, or
/// whose times cannot be counted.
pub open spec fn moved(
    chapter: SourceChapter,
    source: SegmentSource,
    start: i64,
    sequence: Rational,
) -> Option<ChapterModel> {
    let (from, to) = heard(chapter, source);
    let behind = from - ticks_in_parts(source.source_in, source.time_base);
    let at = segment_part(source, start, sequence) + source_part(behind, source, sequence);
    if from < to && countable(chapter, source, start, sequence) {
        match (
            whole_millis(at, start_unit(source, sequence)),
            whole_millis(length_part(to - from, source), length_unit(source)),
        ) {
            (Some(start), Some(length)) => Some(
                ChapterModel {
                    time_base: millis(),
                    start,
                    length,
                    metadata: titled(chapter.title),
                },
            ),
            _ => None,
        }
    } else {
        None
    }
}

/// The first `count` chapters of a clip's source on the output timeline.
pub open spec fn moved_of(
    chapters: Seq<SourceChapter>,
    source: SegmentSource,
    start: i64,
    sequence: Rational,
    count: int,
) -> Seq<ChapterModel>
    decreases count,
{
    if count <= 0 {
        Seq::empty()
    } else {
        let before = moved_of(chapters, source, start, sequence, count - 1);
        match moved(chapters[count - 1], source, start, sequence) {
            Some(chapter) => before.push(chapter),
            None => before,
        }
    }
}

/// A segment's chapters on the output timeline: those of its one source.
pub open spec fn segment_chapters(
    segment: Segment,
    chapters: Map<SourceId, Vec<SourceChapter>>,
    primary: Media,
    sequence: Rational,
) -> Seq<ChapterModel> {
    if segment.media == primary && segment.sources@.len() == 1 && chapters.dom().contains(
        segment.sources@[0].source,
    ) {
        let list = chapters[segment.sources@[0].source]@;
        moved_of(list, segment.sources@[0], segment.start, sequence, list.len() as int)
    } else {
        Seq::empty()
    }
}

/// The chapters of the first `count` segments on the output timeline.
pub open spec fn all_moved(
    segments: Seq<Segment>,
    chapters: Map<SourceId, Vec<SourceChapter>>,
    primary: Media,
    sequence: Rational,
    count: int,
) -> Seq<ChapterModel>
    decreases count,
{
    if count <= 0 {
        Seq::empty()
    } else {
        all_moved(segments, chapters, primary, sequence, count - 1) + segment_chapters(
            segments[count - 1],
            chapters,
            primary,
            sequence,
        )
    }
}

/// What a list of chapters says.
pub open spec fn chapters_in(list: Seq<Chapter>) -> Seq<ChapterModel> {
    Seq::new(list.len(), |i: int| list[i]@)
}

/// `value` times `by`, where it can be counted.
fn scale(value: i128, by: i64) -> (product: Option<i128>)
    requires
        by > 0,
    ensures
        match product {
            Some(product) => product == value * by,
            None => !counted(value * by),
        },
{
    value.checked_mul(by as i128)
}

/// What can be counted times something can be counted.
proof fn lemma_counted(value: int, by: int)
    requires
        by > 0,
        counted(value * by),
    ensures
        counted(value),
{
    assert(value >= 0 ==> value <= value * by) by (nonlinear_arith)
        requires
            by > 0,
    ;
    assert(value < 0 ==> value >= value * by) by (nonlinear_arith)
        requires
            by > 0,
    ;
}

/// `value` times `a`, `b` and `c`, where it can be counted.
fn scale_thrice(value: i128, a: i64, b: i64, c: i64) -> (product: Option<i128>)
    requires
        a > 0,
        b > 0,
        c > 0,
    ensures
        match product {
            Some(product) => product == value * a * b * c,
            None => !counted(value * a * b * c),
        },
{
    proof {
        if counted(value * a * b * c) {
            lemma_counted(value * a * b, c as int);
            lemma_counted(value * a, b as int);
        }
    }
    scale(scale(scale(value, a)?, b)?, c)
}

/// A whole number of milliseconds, the nearest to `n` parts of which `unit`
/// make one, where it is not before zero.
fn in_millis(n: i128, unit: i128) -> (count: Option<u64>)
    requires
        unit > 0,
    ensures
        count == whole_millis(n as int, unit as int),
{
    proof {
        vstd::arithmetic::div_mod::lemma_mod_bound(n as int, unit as int);
        crate::time::lemma_quotient_bound(n as int, unit as int);
    }
    let floor: i128 = n.checked_div_euclid(unit)?;
    let rest: i128 = n.checked_rem_euclid(unit)?;
    if floor > i64::MAX as i128 || floor < -1 {
        return None;
    }
    let millis: i128 = if rest >= unit - rest {
        floor + 1
    } else {
        floor
    };
    if millis < 0 || millis > i64::MAX as i128 {
        None
    } else {
        Some(millis as u64)
    }
}

/// A chapter of a clip's source on the output timeline.
fn move_chapter(
    chapter: &SourceChapter,
    source: &SegmentSource,
    start: i64,
    sequence: Rational,
) -> (there: Option<Chapter>)
    ensures
        match moved(*chapter, *source, start, sequence) {
            Some(model) => there is Some && there->0@ == model,
            None => there is None,
        },
{
    let (base, speed) = (source.time_base, source.speed);
    if !base.is_positive() || !speed.is_positive() || !sequence.is_positive() {
        return None;
    }
    let ghost (n, d) = (base.num as int, base.den as int);
    proof {
        let (a, b) = (source.source_in as int, source.source_out as int);
        if counted(a * n * 1_000_000) {
            lemma_counted(a * n, 1_000_000);
        }
        if counted(b * n * 1_000_000) {
            lemma_counted(b * n, 1_000_000);
        }
        let (p, q) = (chapter.start as int, chapter.end as int);
        assert(counted(p * d) && counted(q * d)) by (nonlinear_arith)
            requires
                -0x8000_0000_0000_0000 <= p <= 0x7fff_ffff_ffff_ffff,
                -0x8000_0000_0000_0000 <= q <= 0x7fff_ffff_ffff_ffff,
                0 < d <= 0x7fff_ffff_ffff_ffff,
        ;
    }
    let source_in: i128 = scale(scale(source.source_in as i128, base.num)?, 1_000_000)?;
    let source_out: i128 = scale(scale(source.source_out as i128, base.num)?, 1_000_000)?;
    let begins: i128 = scale(chapter.start as i128, base.den)?;
    let ends: i128 = scale(chapter.end as i128, base.den)?;
    let from: i128 = if begins > source_in {
        begins
    } else {
        source_in
    };
    let to: i128 = if ends < source_out {
        ends
    } else {
        source_out
    };
    assert((from as int, to as int) == heard(*chapter, *source));
    if from >= to {
        return None;
    }
    let behind: i128 = from.checked_sub(source_in)?;
    let span: i128 = to.checked_sub(from)?;
    let ghost ahead = segment_part(*source, start, sequence);
    proof {
        if counted(ahead) {
            let part = start * sequence.num * d * 1_000_000;
            lemma_counted(part * speed.num, 1000);
            lemma_counted(part, speed.num as int);
        }
        let unit = d * 1_000_000 * speed.num;
        assert(unit > 0 && unit * sequence.den > 0) by (nonlinear_arith)
            requires
                unit == d * 1_000_000 * speed.num,
                d > 0,
                speed.num > 0,
                sequence.den > 0,
        ;
        if counted(unit * sequence.den) {
            lemma_counted(unit, sequence.den as int);
        }
        if counted(length_part(span as int, *source)) {
            lemma_counted(span * speed.den, 1000);
        }
    }
    let at: i128 = scale_thrice(start as i128, sequence.num, base.den, 1_000_000)?;
    let at: i128 = scale(scale(at, speed.num)?, 1000)?;
    let offset: i128 = scale_thrice(behind, speed.den, sequence.den, 1000)?;
    let place: i128 = at.checked_add(offset)?;
    let unit: i128 = scale(base.den as i128 * 1_000_000, speed.num)?;
    let length: i128 = scale(scale(span, speed.den)?, 1000)?;
    let start_unit: i128 = scale(unit, sequence.den)?;
    let start: u64 = in_millis(place, start_unit)?;
    let length: u64 = in_millis(length, unit)?;
    let mut metadata: Vec<(String, String)> = Vec::new();
    if let Some(title) = &chapter.title {
        metadata.push(("title".to_owned(), title.clone()));
    }
    proof {
        assert(tags(metadata@) =~= titled(chapter.title));
    }
    Some(Chapter { time_base: Rational { num: 1, den: 1000 }, start, length, metadata })
}

/// A chapter starts when another does.
pub open spec fn starts_at(chapters: Seq<ChapterModel>, start: u64) -> bool {
    exists|i: int| 0 <= i < chapters.len() && (#[trigger] chapters[i]).start == start
}

/// The first `count` chapters that are kept: none empty, none that starts when
/// an earlier one does.
pub open spec fn kept(chapters: Seq<ChapterModel>, count: int) -> Seq<ChapterModel>
    decreases count,
{
    if count <= 0 {
        Seq::empty()
    } else {
        let before = kept(chapters, count - 1);
        let chapter = chapters[count - 1];
        if chapter.length == 0 || starts_at(before, chapter.start) {
            before
        } else {
            before.push(chapter)
        }
    }
}

/// Where a chapter belongs among the first `count` sorted ones.
pub open spec fn chapter_place(sorted: Seq<ChapterModel>, start: u64, count: int) -> int
    decreases count,
{
    if count <= 0 || sorted[count - 1].start <= start {
        count
    } else {
        chapter_place(sorted, start, count - 1)
    }
}

/// The first `count` chapters by their start.
pub open spec fn in_order(chapters: Seq<ChapterModel>, count: int) -> Seq<ChapterModel>
    decreases count,
{
    if count <= 0 {
        Seq::empty()
    } else {
        let sorted = in_order(chapters, count - 1);
        sorted.insert(
            chapter_place(sorted, chapters[count - 1].start, sorted.len() as int),
            chapters[count - 1],
        )
    }
}

/// The chapters of the output, from those found in its segments: by their
/// start, none empty, and of two that start at once the first found.
pub open spec fn placed(found: Seq<ChapterModel>) -> Seq<ChapterModel> {
    let list = kept(found, found.len() as int);
    in_order(list, list.len() as int)
}

/// Place the chapters found in the segments of an output.
fn place_chapters(found: Vec<Chapter>) -> (chapters: Vec<Chapter>)
    ensures
        chapters_in(chapters@) == placed(chapters_in(found@)),
{
    let ghost whole = found@;
    let ghost all = chapters_in(found@);
    let mut rest = found;
    let mut sorted: Vec<Chapter> = Vec::new();
    let ghost mut list: Seq<ChapterModel> = Seq::empty();
    let ghost mut n: int = 0;
    proof {
        assert(whole.skip(0) =~= whole);
        assert(chapters_in(sorted@) =~= Seq::empty());
    }
    while rest.len() > 0
        invariant
            0 <= n,
            all == chapters_in(whole),
            n + rest@.len() == whole.len(),
            rest@ == whole.skip(n),
            list == kept(all, n),
            chapters_in(sorted@) == in_order(list, list.len() as int),
            forall|start: u64| #[trigger]
                starts_at(chapters_in(sorted@), start) <==> starts_at(list, start),
        decreases rest@.len(),
    {
        let chapter = rest.remove(0);
        proof {
            assert(chapter == whole[n]);
            assert(chapter@ == all[n]);
            assert(rest@ =~= whole.skip(n + 1));
            n = n + 1;
        }
        let ghost before = chapters_in(sorted@);
        let mut known = false;
        let mut i: usize = 0;
        while i < sorted.len()
            invariant
                i <= sorted@.len(),
                before == chapters_in(sorted@),
                known == exists|k: int|
                    0 <= k < i && (#[trigger] before[k]).start == chapter.start,
            decreases sorted@.len() - i,
        {
            assert(before[i as int] == sorted@[i as int]@);
            if sorted[i].start == chapter.start {
                known = true;
            }
            i += 1;
        }
        assert(known == starts_at(before, chapter.start));
        if chapter.length > 0 && !known {
            let start = chapter.start;
            let mut at: usize = sorted.len();
            while at > 0 && sorted[at - 1].start > start
                invariant
                    at <= sorted@.len(),
                    before == chapters_in(sorted@),
                    chapter_place(before, start, before.len() as int) == chapter_place(
                        before,
                        start,
                        at as int,
                    ),
                decreases at,
            {
                assert(before[at - 1] == sorted@[at - 1]@);
                at -= 1;
            }
            assert(at > 0 ==> before[at - 1] == sorted@[at - 1]@);
            let ghost model = chapter@;
            sorted.insert(at, chapter);
            proof {
                let said = chapters_in(sorted@);
                let longer = list.push(model);
                lemma_order_of_prefix(longer, list, list.len() as int);
                assert(said =~= before.insert(at as int, model));
                assert(said =~= in_order(longer, longer.len() as int));
                assert forall|s: u64| #[trigger] starts_at(said, s) <==> starts_at(longer, s) by {
                    assert(starts_at(before, s) <==> starts_at(list, s));
                    if starts_at(said, s) {
                        let k = choose|k: int|
                            0 <= k < said.len() && (#[trigger] said[k]).start == s;
                        if k == at {
                            assert(longer[list.len() as int].start == s);
                        } else {
                            let j = if k < at {
                                k
                            } else {
                                k - 1
                            };
                            assert(before[j].start == s);
                            assert(starts_at(before, s));
                            let m = choose|m: int|
                                0 <= m < list.len() && (#[trigger] list[m]).start == s;
                            assert(longer[m].start == s);
                        }
                    }
                    if starts_at(longer, s) {
                        let m = choose|m: int|
                            0 <= m < longer.len() && (#[trigger] longer[m]).start == s;
                        if m == list.len() {
                            assert(said[at as int].start == s);
                        } else {
                            assert(list[m].start == s);
                            assert(starts_at(list, s));
                            assert(starts_at(before, s));
                            let j = choose|j: int|
                                0 <= j < before.len() && (#[trigger] before[j]).start == s;
                            assert(said[if j < at {
                                j
                            } else {
                                j + 1
                            }].start == s);
                        }
                    }
                }
                list = longer;
            }
        }
    }
    proof {
        assert(n == whole.len());
    }
    sorted
}

/// The order of the first chapters does not depend on those behind.
proof fn lemma_order_of_prefix(a: Seq<ChapterModel>, b: Seq<ChapterModel>, count: int)
    requires
        0 <= count <= a.len(),
        count <= b.len(),
        forall|i: int| 0 <= i < count ==> #[trigger] a[i] == b[i],
    ensures
        in_order(a, count) == in_order(b, count),
    decreases count,
{
    if count > 0 {
        lemma_order_of_prefix(a, b, count - 1);
        assert(a[count - 1] == b[count - 1]);
    }
}

/// The chapters found in the segments of the output's primary stream, in the
/// order of the segments, each where it comes out.
fn find_chapters(
    segments: &Vec<Segment>,
    chapters: &BTreeMap<SourceId, Vec<SourceChapter>>,
    primary: Media,
    sequence: Rational,
) -> (found: Vec<Chapter>)
    ensures
        chapters_in(found@) == all_moved(
            segments@,
            chapters@,
            primary,
            sequence,
            segments@.len() as int,
        ),
{
    broadcast use vstd::std_specs::btree::group_btree_axioms;

    let mut found: Vec<Chapter> = Vec::new();
    let mut i: usize = 0;
    proof {
        assert(chapters_in(found@) =~= Seq::empty());
    }
    while i < segments.len()
        invariant
            i <= segments@.len(),
            chapters_in(found@) == all_moved(segments@, chapters@, primary, sequence, i as int),
        decreases segments@.len() - i,
    {
        let segment = &segments[i];
        let ghost before = chapters_in(found@);
        let mut listed = false;
        if segment.media == primary && segment.sources.len() == 1 {
            let source = &segment.sources[0];
            if let Some(list) = chapters.get(&source.source) {
                listed = true;
                let mut k: usize = 0;
                proof {
                    assert(before =~= before + moved_of(
                        list@,
                        *source,
                        segment.start,
                        sequence,
                        0,
                    ));
                }
                while k < list.len()
                    invariant
                        k <= list@.len(),
                        chapters_in(found@) == before + moved_of(
                            list@,
                            *source,
                            segment.start,
                            sequence,
                            k as int,
                        ),
                    decreases list@.len() - k,
                {
                    let ghost held = found@;
                    let ghost so_far = moved_of(
                        list@,
                        *source,
                        segment.start,
                        sequence,
                        k as int,
                    );
                    if let Some(chapter) = move_chapter(&list[k], source, segment.start, sequence) {
                        let ghost model = chapter@;
                        found.push(chapter);
                        proof {
                            assert(chapters_in(found@) =~= chapters_in(held).push(model));
                            assert((before + so_far).push(model) =~= before + so_far.push(model));
                        }
                    }
                    k += 1;
                }
            }
        }
        proof {
            let here = segment_chapters(*segment, chapters@, primary, sequence);
            if !listed {
                assert(here =~= Seq::empty());
                assert(before + here =~= before);
            }
        }
        i += 1;
    }
    found
}

/// The sources' chapters, moved onto the output timeline: a chapter that starts
/// inside a segment of the primary stream starts at the same point of that
/// segment's output, and ends with the chapter or the segment, whichever is
/// first.
pub fn chapters(
    segments: &Vec<Segment>,
    of_sources: &BTreeMap<SourceId, Vec<SourceChapter>>,
    primary: Media,
    sequence: Rational,
) -> (list: Vec<Chapter>)
    ensures
        chapters_in(list@) == placed(
            all_moved(segments@, of_sources@, primary, sequence, segments@.len() as int),
        ),
{
    place_chapters(find_chapters(segments, of_sources, primary, sequence))
}

/// A chapter comes out where it plays: of a clip at its own speed it starts, to
/// the nearest millisecond, as far behind the segment's start as what is heard
/// of it stands behind the clip's, it lasts as long, and it begins and ends
/// within the clip.
pub proof fn a_chapter_keeps_its_place(
    chapter: SourceChapter,
    source: SegmentSource,
    start: i64,
    sequence: Rational,
)
    requires
        source.speed == (Rational { num: 1, den: 1 }),
        moved(chapter, source, start, sequence) is Some,
    ensures
        ({
            let base = source.time_base;
            let source_in = ticks_in_parts(source.source_in, base);
            let there = moved(chapter, source, start, sequence)->0;
            let (from, to) = heard(chapter, source);
            // Seconds are a numerator over `parts(base) * sequence.den`.
            let at = start * sequence.num * parts(base) + (from - source_in) * sequence.den;
            &&& there.start == rounded(at * 1000, parts(base) * sequence.den, Rounding::Nearest)
            &&& there.length == rounded((to - from) * 1000, parts(base), Rounding::Nearest)
            &&& source_in <= from < to <= ticks_in_parts(source.source_out, base)
            &&& micros_in_parts(chapter.start, base) >= source_in ==> from == micros_in_parts(
                chapter.start,
                base,
            )
        }),
{
    let base = source.time_base;
    let (n, d) = (start * sequence.num, base.den as int);
    let (from, to) = heard(chapter, source);
    let behind = from - ticks_in_parts(source.source_in, base);
    let e = sequence.den as int;
    assert(n * d * 1_000_000 * 1 * 1000 + behind * 1 * e * 1000 == (n * (d * 1_000_000) + behind
        * e) * 1000) by (nonlinear_arith);
}

} // verus!
