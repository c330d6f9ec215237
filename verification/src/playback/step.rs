//! Moving by real frames of the sources, and choosing what is on screen.
//!
//! A step moves to the next or previous real frame from the frame tables,
//! never by a frame duration, and crosses clip boundaries onto the neighbouring
//! clip's first or last frame.
use super::plan::{playing_at, started, PlaybackPlan, ProgramTime, Segment};
use super::transport::LoopRange;
use crate::keyframes::table::{first_frame, increasing, newest_frame, FrameTable};
use crate::num::{clamped, larger, max, min, saturating_add, saturating_sub, smaller};
use vstd::prelude::*;

verus! {

/// How far ahead of a boundary the next segment's video is started.
pub const PREFETCH: ProgramTime = 1_500_000;

/// The greatest of sorted `ticks` up to `pts`.
pub open spec fn newest_in(ticks: Seq<i64>, pts: i64) -> Option<i64>
    decreases ticks.len(),
{
    if ticks.len() == 0 {
        None
    } else if ticks.last() <= pts {
        Some(ticks.last())
    } else {
        newest_in(ticks.drop_last(), pts)
    }
}

/// The least of sorted `ticks` from `pts` on.
pub open spec fn first_in(ticks: Seq<i64>, pts: i64) -> Option<i64>
    decreases ticks.len(),
{
    if ticks.len() == 0 {
        None
    } else if ticks[0] >= pts {
        Some(ticks[0])
    } else {
        first_in(ticks.skip(1), pts)
    }
}

/// In a sorted table the newest frame is the one found from the end.
pub proof fn lemma_newest(ticks: Seq<i64>, pts: i64, answer: Option<i64>)
    requires
        increasing(ticks),
        newest_frame(ticks.to_set(), pts, answer),
    ensures
        answer == newest_in(ticks, pts),
    decreases ticks.len(),
{
    let all = ticks.to_set();
    if ticks.len() == 0 {
        if answer is Some {
            assert(all.contains(answer->0));
        }
    } else {
        let last = ticks.last();
        assert(all.contains(last)) by {
            assert(ticks[ticks.len() - 1] == last);
        }
        if last <= pts {
            assert(answer is Some);
            let k = choose|k: int| 0 <= k < ticks.len() && ticks[k] == answer->0;
            if k < ticks.len() - 1 {
                assert(ticks[k] < ticks[ticks.len() - 1]);
            }
        } else {
            let rest = ticks.drop_last();
            assert forall|k: i64| #[trigger] rest.to_set().contains(k) == (all.contains(k) && k
                != last) by {
                if rest.contains(k) {
                    let j = choose|j: int| 0 <= j < rest.len() && rest[j] == k;
                    assert(ticks[j] == k);
                    assert(ticks[j] < ticks[ticks.len() - 1]);
                }
                if all.contains(k) && k != last {
                    let j = choose|j: int| 0 <= j < ticks.len() && ticks[j] == k;
                    assert(rest[j] == k);
                }
            }
            lemma_newest(rest, pts, answer);
        }
    }
}

/// In a sorted table the first frame is the one found from the start.
pub proof fn lemma_first(ticks: Seq<i64>, pts: i64, answer: Option<i64>)
    requires
        increasing(ticks),
        first_frame(ticks.to_set(), pts, answer),
    ensures
        answer == first_in(ticks, pts),
    decreases ticks.len(),
{
    let all = ticks.to_set();
    if ticks.len() == 0 {
        if answer is Some {
            assert(all.contains(answer->0));
        }
    } else {
        let first = ticks[0];
        assert(all.contains(first));
        if first >= pts {
            assert(answer is Some);
            let k = choose|k: int| 0 <= k < ticks.len() && ticks[k] == answer->0;
            if k > 0 {
                assert(ticks[0] < ticks[k]);
            }
        } else {
            let rest = ticks.skip(1);
            assert forall|k: i64| #[trigger] rest.to_set().contains(k) == (all.contains(k) && k
                != first) by {
                if rest.contains(k) {
                    let j = choose|j: int| 0 <= j < rest.len() && rest[j] == k;
                    assert(ticks[j + 1] == k);
                    assert(ticks[0] < ticks[j + 1]);
                }
                if all.contains(k) && k != first {
                    let j = choose|j: int| 0 <= j < ticks.len() && ticks[j] == k;
                    assert(rest[j - 1] == k);
                }
            }
            lemma_first(rest, pts, answer);
        }
    }
}

/// One frame table per segment.
pub open spec fn tabled(segments: Seq<Segment>, tables: Seq<FrameTable>) -> bool {
    &&& tables.len() == segments.len()
    &&& forall|i: int| 0 <= i < tables.len() ==> (#[trigger] tables[i]).wf()
}

/// The newest frame of `table` at or before `pts`.
pub fn newest(table: &FrameTable, pts: i64) -> (frame: Option<i64>)
    requires
        table.wf(),
    ensures
        frame == newest_in(table.ticks@, pts),
{
    let frame: Option<i64> = table.at_or_before(pts);
    proof {
        lemma_newest(table.ticks@, pts, frame);
    }
    frame
}

/// The first frame of `table` at or after `pts`.
fn next(table: &FrameTable, pts: i64) -> (frame: Option<i64>)
    requires
        table.wf(),
    ensures
        frame == first_in(table.ticks@, pts),
{
    let frame: Option<i64> = table.at_or_after(pts);
    proof {
        lemma_first(table.ticks@, pts, frame);
    }
    frame
}

/// The first frame of a segment: the one on screen at its in point, or else
/// the first after it.
pub open spec fn opening_frame(segment: Segment, ticks: Seq<i64>) -> Option<i64> {
    if segment.source.video is None {
        None
    } else {
        match newest_in(ticks, segment.source_in) {
            Some(frame) => Some(frame),
            None => first_in(ticks, clamped(segment.source_in + 1)),
        }
    }
}

/// The last frame of a segment: the newest before its out point.
pub open spec fn closing_frame(segment: Segment, ticks: Seq<i64>) -> Option<i64> {
    if segment.source.video is None {
        None
    } else {
        newest_in(ticks, clamped(segment.source_out - 1))
    }
}

/// The first frame of segment `i`.
pub fn first_frame_of(segment: &Segment, table: &FrameTable) -> (frame: Option<i64>)
    requires
        table.wf(),
    ensures
        frame == opening_frame(*segment, table.ticks@),
{
    if segment.source.video.is_none() {
        return None;
    }
    match newest(table, segment.source_in) {
        Some(frame) => Some(frame),
        None => next(table, saturating_add(segment.source_in, 1)),
    }
}

/// The first frame of the first segment from `k` on that has pictures.
pub open spec fn next_opening(
    segments: Seq<Segment>,
    tables: Seq<FrameTable>,
    k: int,
) -> Option<(usize, i64)>
    decreases segments.len() - k,
{
    if k < 0 || k >= segments.len() {
        None
    } else {
        match opening_frame(segments[k], tables[k].ticks@) {
            Some(pts) => Some((k as usize, pts)),
            None => next_opening(segments, tables, k + 1),
        }
    }
}

/// The last frame of the last segment before `k` that has pictures.
pub open spec fn previous_closing(
    segments: Seq<Segment>,
    tables: Seq<FrameTable>,
    k: int,
) -> Option<(usize, i64)>
    decreases k,
{
    if k <= 0 || k > segments.len() {
        None
    } else {
        match closing_frame(segments[k - 1], tables[k - 1].ticks@) {
            Some(pts) => Some(((k - 1) as usize, pts)),
            None => previous_closing(segments, tables, k - 1),
        }
    }
}

/// The frame after `at`: the segment's next before its out point, or the
/// first frame of the next segment that has pictures.
pub open spec fn following_frame(
    segments: Seq<Segment>,
    tables: Seq<FrameTable>,
    at: (usize, i64),
) -> Option<(usize, i64)> {
    let i = at.0 as int;
    if i >= segments.len() || segments[i].source.video is None {
        None
    } else {
        match first_in(tables[i].ticks@, clamped(at.1 + 1)) {
            Some(pts) => if pts < segments[i].source_out {
                Some((at.0, pts))
            } else {
                next_opening(segments, tables, i + 1)
            },
            None => next_opening(segments, tables, i + 1),
        }
    }
}

/// The frame before `at`: the segment's previous one, not before its first,
/// or the last frame of the previous segment that has pictures.
pub open spec fn preceding_frame(
    segments: Seq<Segment>,
    tables: Seq<FrameTable>,
    at: (usize, i64),
) -> Option<(usize, i64)> {
    let i = at.0 as int;
    if i >= segments.len() || segments[i].source.video is None {
        None
    } else {
        match opening_frame(segments[i], tables[i].ticks@) {
            Some(first) => match newest_in(tables[i].ticks@, clamped(at.1 - 1)) {
                Some(previous) => if at.1 > first {
                    Some((at.0, larger(previous as int, first as int) as i64))
                } else {
                    previous_closing(segments, tables, i)
                },
                None => previous_closing(segments, tables, i),
            },
            None => None,
        }
    }
}

/// The frame after `at`.
pub fn frame_after(plan: &PlaybackPlan, tables: &Vec<FrameTable>, at: (usize, i64)) -> (frame:
    Option<(usize, i64)>)
    requires
        tabled(plan.segments@, tables@),
    ensures
        frame == following_frame(plan.segments@, tables@, at),
{
    let (i, pts) = at;
    if i >= plan.segments.len() || plan.segments[i].source.video.is_none() {
        return None;
    }
    if let Some(after) = next(&tables[i], saturating_add(pts, 1)) {
        if after < plan.segments[i].source_out {
            return Some((i, after));
        }
    }
    let mut k: usize = i + 1;
    while k < plan.segments.len()
        invariant
            i < k <= plan.segments.len(),
            tabled(plan.segments@, tables@),
            next_opening(plan.segments@, tables@, i + 1) == next_opening(
                plan.segments@,
                tables@,
                k as int,
            ),
            following_frame(plan.segments@, tables@, at) == next_opening(
                plan.segments@,
                tables@,
                i + 1,
            ),
        decreases plan.segments.len() - k,
    {
        if let Some(pts) = first_frame_of(&plan.segments[k], &tables[k]) {
            return Some((k, pts));
        }
        k = k + 1;
    }
    None
}

/// The frame before `at`.
pub fn frame_before(plan: &PlaybackPlan, tables: &Vec<FrameTable>, at: (usize, i64)) -> (frame:
    Option<(usize, i64)>)
    requires
        tabled(plan.segments@, tables@),
    ensures
        frame == preceding_frame(plan.segments@, tables@, at),
{
    let (i, pts) = at;
    if i >= plan.segments.len() || plan.segments[i].source.video.is_none() {
        return None;
    }
    let first: i64 = match first_frame_of(&plan.segments[i], &tables[i]) {
        Some(first) => first,
        None => {
            return None;
        },
    };
    if pts > first {
        if let Some(previous) = newest(&tables[i], saturating_sub(pts, 1)) {
            return Some((i, max(previous, first)));
        }
    }
    let mut k: usize = i;
    while k > 0
        invariant
            k <= i < plan.segments.len(),
            tabled(plan.segments@, tables@),
            previous_closing(plan.segments@, tables@, i as int) == previous_closing(
                plan.segments@,
                tables@,
                k as int,
            ),
            preceding_frame(plan.segments@, tables@, at) == previous_closing(
                plan.segments@,
                tables@,
                i as int,
            ),
        decreases k,
    {
        let segment: Segment = plan.segments[k - 1];
        if segment.source.video.is_some() {
            if let Some(last) = newest(&tables[k - 1], saturating_sub(segment.source_out, 1)) {
                return Some((k - 1, last));
            }
        }
        k = k - 1;
    }
    None
}

/// The segment and source timestamp of the frame due at `t`: in a gap, that
/// of the next segment's start.
pub open spec fn due_frame(segments: Seq<Segment>, tables: Seq<FrameTable>, t: ProgramTime) -> Option<
    (usize, i64),
> {
    let i = match playing_at(segments, t) {
        Some(i) => Some(i as int),
        None => if started(segments, t) < segments.len() {
            Some(started(segments, t))
        } else {
            None
        },
    };
    match i {
        Some(i) => if segments[i].source.video is None {
            None
        } else {
            let at = larger(t as int, segments[i].timeline_start as int) as i64;
            match newest_in(tables[i].ticks@, segments[i].tick_at(at)) {
                Some(pts) => Some((i as usize, pts)),
                None => None,
            }
        },
        None => None,
    }
}

/// The segment and source timestamp of the frame due at `t`.
pub fn frame_at(plan: &PlaybackPlan, tables: &Vec<FrameTable>, t: ProgramTime) -> (frame: Option<
    (usize, i64),
>)
    requires
        tabled(plan.segments@, tables@),
    ensures
        frame == due_frame(plan.segments@, tables@, t),
        frame matches Some(at) ==> at.0 < plan.segments.len(),
{
    proof {
        super::plan::lemma_started_bounds(plan.segments@, t);
    }
    let i: usize = match plan.segment_at(t) {
        Some(i) => i,
        None => match plan.next_segment_after(t) {
            Some(i) => i,
            None => {
                return None;
            },
        },
    };
    let segment: Segment = plan.segments[i];
    if segment.source.video.is_none() {
        return None;
    }
    match newest(&tables[i], segment.source_at(max(t, segment.timeline_start))) {
        Some(pts) => Some((i, pts)),
        None => None,
    }
}

/// `count` frames on from `at`, forwards or backwards, stopping at the last
/// one there is.
pub open spec fn stepped(
    segments: Seq<Segment>,
    tables: Seq<FrameTable>,
    at: (usize, i64),
    forwards: bool,
    count: nat,
) -> (usize, i64)
    decreases count,
{
    if count == 0 {
        at
    } else {
        let before = stepped(segments, tables, at, forwards, (count - 1) as nat);
        let after = if forwards {
            following_frame(segments, tables, before)
        } else {
            preceding_frame(segments, tables, before)
        };
        match after {
            Some(after) => after,
            None => before,
        }
    }
}

/// Where no frame follows, none follows after any number of steps.
proof fn lemma_stuck(
    segments: Seq<Segment>,
    tables: Seq<FrameTable>,
    at: (usize, i64),
    forwards: bool,
    stuck: nat,
    count: nat,
)
    requires
        stuck <= count,
        ({
            let here = stepped(segments, tables, at, forwards, stuck);
            (if forwards {
                following_frame(segments, tables, here)
            } else {
                preceding_frame(segments, tables, here)
            }) is None
        }),
    ensures
        stepped(segments, tables, at, forwards, count) == stepped(
            segments,
            tables,
            at,
            forwards,
            stuck,
        ),
    decreases count,
{
    if count > stuck {
        lemma_stuck(segments, tables, at, forwards, stuck, (count - 1) as nat);
    }
}

/// The frame `frames` real frames away from the one due at `t`: positive
/// forwards.
pub fn step(plan: &PlaybackPlan, tables: &Vec<FrameTable>, t: ProgramTime, frames: i32) -> (target:
    Option<(usize, i64)>)
    requires
        tabled(plan.segments@, tables@),
    ensures
        target == (match due_frame(plan.segments@, tables@, t) {
            Some(at) => Some(
                stepped(
                    plan.segments@,
                    tables@,
                    at,
                    frames > 0,
                    (if frames > 0 {
                        frames as int
                    } else {
                        -frames
                    }) as nat,
                ),
            ),
            None => None,
        }),
{
    let start: (usize, i64) = match frame_at(plan, tables, t) {
        Some(at) => at,
        None => {
            return None;
        },
    };
    let forwards = frames > 0;
    let count: i64 = if frames > 0 {
        frames as i64
    } else {
        -(frames as i64)
    };
    let mut at: (usize, i64) = start;
    let mut done: i64 = 0;
    while done < count
        invariant
            0 <= done <= count,
            count == (if frames > 0 {
                frames as int
            } else {
                -frames
            }),
            forwards == (frames > 0),
            due_frame(plan.segments@, tables@, t) == Some(start),
            tabled(plan.segments@, tables@),
            at == stepped(plan.segments@, tables@, start, forwards, done as nat),
        decreases count - done,
    {
        let after: Option<(usize, i64)> = if forwards {
            frame_after(plan, tables, at)
        } else {
            frame_before(plan, tables, at)
        };
        match after {
            Some(after) => {
                at = after;
            },
            None => {
                proof {
                    lemma_stuck(
                        plan.segments@,
                        tables@,
                        start,
                        forwards,
                        done as nat,
                        count as nat,
                    );
                }
                return Some(at);
            },
        }
        done = done + 1;
    }
    Some(at)
}

/// Where the last frame of the timeline starts.
pub fn last_frame_position(plan: &PlaybackPlan, tables: &Vec<FrameTable>) -> (at: ProgramTime)
    requires
        tabled(plan.segments@, tables@),
    ensures
        ({
            let end = plan.length();
            let before_end = clamped(end - 1);
            at == (match playing_at(plan.segments@, before_end) {
                Some(i) => if plan.segments@[i as int].source.video is None {
                    larger(before_end as int, 0)
                } else {
                    match closing_frame(plan.segments@[i as int], tables@[i as int].ticks@) {
                        Some(pts) => plan.segments@[i as int].place_of(pts) as int,
                        None => before_end as int,
                    }
                },
                None => larger(before_end as int, 0),
            })
        }),
{
    let before_end: i64 = saturating_sub(plan.duration(), 1);
    match plan.segment_at(before_end) {
        Some(i) => {
            let segment: Segment = plan.segments[i];
            if segment.source.video.is_none() {
                max(before_end, 0)
            } else {
                match newest(&tables[i], saturating_sub(segment.source_out, 1)) {
                    Some(pts) => segment.program_at(pts),
                    None => before_end,
                }
            }
        },
        None => max(before_end, 0),
    }
}

/// What is put on screen, and what is started ahead of time.
#[derive(Debug, Clone, Copy, PartialEq, Eq)]
pub enum Presentation {
    /// Leave what is up: the scrub worker owns the screen, or the timeline has
    /// ended and its last frame stays.
    Keep,
    Black,
    /// The frame due at source tick `pts` of segment `segment`.
    Frame {
        segment: usize,
        pts: i64,
        /// The following segment, and the tick its decoder starts at.
        next: Option<(usize, i64)>,
        /// The segment at the loop's start, and the tick its decoder starts at.
        looped: Option<(usize, i64)>,
    },
}

/// What is put on screen at `t`. Never a frame from past the out point; the
/// following segment and the loop's far side are started when they are near.
pub open spec fn presented(
    segments: Seq<Segment>,
    end: ProgramTime,
    t: ProgramTime,
    scrubbing: bool,
    loop_range: Option<LoopRange>,
) -> Presentation {
    if scrubbing || t >= end {
        Presentation::Keep
    } else {
        match playing_at(segments, t) {
            Some(i) => {
                let segment = segments[i as int];
                if segment.source.video is None {
                    Presentation::Black
                } else {
                    Presentation::Frame {
                        segment: i,
                        pts: smaller(
                            segment.tick_at(t) as int,
                            clamped(segment.source_out - 1) as int,
                        ) as i64,
                        next: if segment.end() - t < PREFETCH {
                            match playing_at(segments, segment.end()) {
                                Some(k) => Some((k, segments[k as int].source_in)),
                                None => None,
                            }
                        } else {
                            None
                        },
                        looped: match loop_range {
                            Some(range) => if range.end - t < PREFETCH && t < range.end {
                                match playing_at(segments, range.start) {
                                    Some(k) => Some((k, segments[k as int].tick_at(range.start))),
                                    None => None,
                                }
                            } else {
                                None
                            },
                            None => None,
                        },
                    }
                }
            },
            None => Presentation::Black,
        }
    }
}

/// What to put on screen at `t`, and what to start ahead of time.
pub fn present(
    plan: &PlaybackPlan,
    t: ProgramTime,
    scrubbing: bool,
    loop_range: Option<LoopRange>,
) -> (presentation: Presentation)
    ensures
        presentation == presented(plan.segments@, plan.length(), t, scrubbing, loop_range),
{
    if scrubbing || t >= plan.duration() {
        return Presentation::Keep;
    }
    let i: usize = match plan.segment_at(t) {
        Some(i) => i,
        None => {
            return Presentation::Black;
        },
    };
    let segment: Segment = plan.segments[i];
    if segment.source.video.is_none() {
        return Presentation::Black;
    }
    let pts: i64 = min(segment.source_at(t), saturating_sub(segment.source_out, 1));
    let segment_end: i64 = segment.timeline_end();
    let next: Option<(usize, i64)> = if (segment_end as i128) - (t as i128) < PREFETCH as i128 {
        match plan.segment_at(segment_end) {
            Some(k) => Some((k, plan.segments[k].source_in)),
            None => None,
        }
    } else {
        None
    };
    let looped: Option<(usize, i64)> = match loop_range {
        Some(range) => if (range.end as i128) - (t as i128) < PREFETCH as i128 && t < range.end {
            match plan.segment_at(range.start) {
                Some(k) => Some((k, plan.segments[k].source_at(range.start))),
                None => None,
            }
        } else {
            None
        },
        None => None,
    };
    Presentation::Frame { segment: i, pts, next, looped }
}

/// A frame from past a segment's out point is never presented.
pub proof fn never_past_the_out_point(
    segments: Seq<Segment>,
    end: ProgramTime,
    t: ProgramTime,
    scrubbing: bool,
    loop_range: Option<LoopRange>,
)
    ensures
        presented(segments, end, t, scrubbing, loop_range) matches Presentation::Frame {
            segment,
            pts,
            next,
            looped,
        } ==> pts < segments[segment as int].source_out || segments[segment as int].source_out
            == i64::MIN,
{
}

/// Greatest of a smaller set of frames.
proof fn lemma_newest_bounds(ticks: Seq<i64>, pts: i64)
    ensures
        newest_in(ticks, pts) matches Some(frame) ==> frame <= pts,
    decreases ticks.len(),
{
    if ticks.len() > 0 && ticks.last() > pts {
        lemma_newest_bounds(ticks.drop_last(), pts);
    }
}

/// Least of a smaller set of frames.
proof fn lemma_first_bounds(ticks: Seq<i64>, pts: i64)
    ensures
        first_in(ticks, pts) matches Some(frame) ==> frame >= pts,
    decreases ticks.len(),
{
    if ticks.len() > 0 && ticks[0] < pts {
        lemma_first_bounds(ticks.skip(1), pts);
    }
}

/// A step forwards within a segment goes to a later frame, and a step
/// backwards to an earlier one; a step that leaves the segment goes to a
/// segment in that direction.
pub proof fn a_step_moves_in_its_direction(
    segments: Seq<Segment>,
    tables: Seq<FrameTable>,
    at: (usize, i64),
)
    requires
        tables.len() == segments.len(),
        segments.len() <= usize::MAX,
        at.1 < i64::MAX,
    ensures
        following_frame(segments, tables, at) matches Some(next) ==> next.0 > at.0 || (next.0
            == at.0 && next.1 > at.1),
        preceding_frame(segments, tables, at) matches Some(previous) ==> previous.0 < at.0 || (
        previous.0 == at.0 && previous.1 < at.1),
{
    let i = at.0 as int;
    if i < segments.len() {
        lemma_first_bounds(tables[i].ticks@, clamped(at.1 + 1));
        lemma_newest_bounds(tables[i].ticks@, clamped(at.1 - 1));
        lemma_next_opening(segments, tables, i + 1);
        lemma_previous_closing(segments, tables, i);
    }
}

proof fn lemma_next_opening(segments: Seq<Segment>, tables: Seq<FrameTable>, k: int)
    requires
        0 <= k,
        segments.len() <= usize::MAX,
    ensures
        next_opening(segments, tables, k) matches Some(at) ==> at.0 >= k,
    decreases segments.len() - k,
{
    if k < segments.len() {
        lemma_next_opening(segments, tables, k + 1);
    }
}

proof fn lemma_previous_closing(segments: Seq<Segment>, tables: Seq<FrameTable>, k: int)
    requires
        segments.len() <= usize::MAX,
    ensures
        previous_closing(segments, tables, k) matches Some(at) ==> at.0 < k,
    decreases k,
{
    if 0 < k <= segments.len() {
        lemma_previous_closing(segments, tables, k - 1);
    }
}

} // verus!
