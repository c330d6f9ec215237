//! What is shown at a position is what stands there.
use crate::keyframes::table::FrameTable;
use crate::num::clamped;
use crate::playback::plan::{
    boundary_after, chosen, earliest_boundary, fault, last_end, plan_rate, playing_at,
    started, usable_base, AudioTrack, PlanError, PlaybackPlan, ProgramTime, Segment,
    StreamInfo,
};
use crate::playback::status::{frame_at, from_proxy, within};
use crate::playback::step::{
    closing_frame, due_frame, first_in, following_frame, newest_in, next_opening, opening_frame,
    preceding_frame, presented, previous_closing, stepped, Presentation,
};
use crate::playback::timecode::nominal;
use crate::playback::timeline::{
    all_placed, first_video, main_segments, placed, previewed, sound_tracks, SoundTrack,
};
use crate::probe::Rational;
use crate::project::{Placement, SourceId, Timeline, TrackKind};
use crate::time::{a_conversion_keeps_the_time, micros};
use vstd::prelude::*;

verus! {

/// A segment plays at its speed: where its source's ticks are `num / den`
/// seconds and it plays `a / b` times as fast, it lasts until the first whole
/// microsecond by which all of its ticks have played, and at any moment the
/// last tick that has begun is on.
pub proof fn a_segment_plays_at_its_speed(segment: Segment, t: i64)
    requires
        ({
            let (base, speed) = (segment.source.base(), segment.speed);
            &&& 0 < base.num && 0 < base.den && 0 < speed.num && 0 < speed.den
            &&& base.num * speed.den <= i64::MAX && base.den * speed.num <= i64::MAX
            &&& 0 <= segment.source_out - segment.source_in <= i64::MAX
            &&& i64::MIN <= t - segment.timeline_start <= i64::MAX
        }),
    ensures
        ({
            let (base, speed) = (segment.source.base(), segment.speed);
            let tick = base.num * speed.den * 1_000_000;
            let micro = base.den * speed.num;
            let ticks = segment.source_out - segment.source_in;
            let length = segment.length();
            let shown = segment.tick_at(t) - segment.source_in;
            let since = t - segment.timeline_start;
            &&& length != 0 ==> (length - 1) * micro < ticks * tick <= length * micro
            &&& i64::MIN < segment.tick_at(t) < i64::MAX && shown != 0 ==> shown * tick <= since
                * micro < shown * tick + tick
        }),
{
    let (base, speed) = (segment.source.base(), segment.speed);
    let played = segment.played();
    let ticks = (segment.source_out - segment.source_in) as i64;
    let since = (t - segment.timeline_start) as i64;
    let (p, q) = (base.num as int, speed.den as int);
    let (u, v) = (base.den as int, speed.num as int);
    assert(p * q > 0 && u * v > 0) by (nonlinear_arith)
        requires
            p > 0,
            q > 0,
            u > 0,
            v > 0,
    ;
    assert(played.num == p * q && played.den == u * v);
    a_conversion_keeps_the_time(ticks, played, micros(), crate::time::Rounding::Up);
    a_conversion_keeps_the_time(since, micros(), played, crate::time::Rounding::Down);
    let tick = played.num * 1_000_000;
    let length = segment.length() as int;
    assert(ticks * played.num * 1_000_000 == ticks * tick && (length - 1) * played.den == length
        * played.den - played.den) by (nonlinear_arith)
        requires
            tick == played.num * 1_000_000,
    ;
    let shown = segment.tick_at(t) - segment.source_in;
    assert(since * 1 * played.den == since * played.den && shown * (1_000_000 * played.num) == shown
        * tick) by (nonlinear_arith)
        requires
            tick == played.num * 1_000_000,
    ;
}

/// A place on the timeline is the first microsecond by which a tick has begun.
pub proof fn a_tick_has_its_place(segment: Segment, pts: i64)
    requires
        segment.source_in <= pts,
        pts - segment.source_in <= i64::MAX,
    ensures
        ({
            let played = segment.played();
            let offset = segment.place_of(pts) - segment.timeline_start;
            &&& i64::MIN < segment.place_of(pts) < i64::MAX && offset != 0 ==> offset * played.den
                - played.den < (pts - segment.source_in) * played.num * 1_000_000 <= offset
                * played.den
        }),
{
    a_conversion_keeps_the_time(
        (pts - segment.source_in) as i64,
        segment.played(),
        micros(),
        crate::time::Rounding::Up,
    );
}

/// The segment that plays at a position starts at or before it, has not ended,
/// and every one before it started too; where segments follow one another it is
/// the only one that covers the position, and nothing else plays nothing.
pub proof fn what_plays_is_what_covers_the_position(segments: Seq<Segment>, t: i64, i: int)
    requires
        segments.len() <= usize::MAX,
        0 <= i < segments.len(),
        forall|a: int, b: int|
            0 <= a < b < segments.len() ==> (#[trigger] segments[a]).timeline_start
                < segments[a].end() <= (#[trigger] segments[b]).timeline_start,
    ensures
        playing_at(segments, t) == Some(i as usize) <==> segments[i].timeline_start <= t
            < segments[i].end(),
        playing_at(segments, t) matches Some(k) ==> k < segments.len(),
        segments[i].timeline_start <= t <==> i < started(segments, t),
        0 <= started(segments, t) <= segments.len(),
{
    lemma_started(segments, t);
    let n = started(segments, t);
    if i < n - 1 {
        assert(segments[i].end() <= segments[n - 1].timeline_start);
    }
    if n <= i && n < i {
        assert(segments[n].timeline_start < segments[n].end() <= segments[i].timeline_start);
    }
}

proof fn lemma_started(segments: Seq<Segment>, t: i64)
    ensures
        0 <= started(segments, t) <= segments.len(),
        forall|j: int|
            0 <= j < started(segments, t) ==> (#[trigger] segments[j]).timeline_start <= t,
        started(segments, t) < segments.len() ==> segments[started(segments, t)].timeline_start > t,
    decreases segments.len(),
{
    if segments.len() > 0 && segments[0].timeline_start <= t {
        let rest = segments.skip(1);
        lemma_started(rest, t);
        let n = started(rest, t);
        assert forall|j: int| 0 <= j < 1 + n implies (#[trigger] segments[j]).timeline_start
            <= t by {
            if j > 0 {
                assert(rest[j - 1] == segments[j]);
            }
        }
        if 1 + n < segments.len() {
            assert(rest[n] == segments[1 + n]);
        }
    }
}

/// Between a position and the next boundary nothing starts and nothing ends.
pub proof fn nothing_changes_before_the_boundary(
    segments: Seq<Segment>,
    t: i64,
    end: i64,
    i: int,
    u: i64,
)
    requires
        segments.len() <= usize::MAX,
        0 <= i < segments.len(),
        forall|a: int, b: int|
            0 <= a < b < segments.len() ==> (#[trigger] segments[a]).timeline_start
                < segments[a].end() <= (#[trigger] segments[b]).timeline_start,
        t <= u < boundary_after(segments, t, end),
    ensures
        segments[i].timeline_start <= t < segments[i].end() <==> segments[i].timeline_start <= u
            < segments[i].end(),
        boundary_after(segments, t, end) == end || exists|k: int|
            0 <= k < segments.len() && (boundary_after(segments, t, end) == (
            #[trigger] segments[k]).timeline_start || boundary_after(segments, t, end)
                == segments[k].end()),
{
    lemma_started(segments, t);
    let n = started(segments, t);
    if n > 0 {
        assert(segments[n - 1].timeline_start <= t);
        if i < n - 1 {
            assert(segments[i].end() <= segments[n - 1].timeline_start);
        }
    }
    if n < segments.len() {
        if i > n {
            assert(segments[n].timeline_start < segments[n].end() <= segments[i].timeline_start);
        }
        if n > 0 {
            assert(segments[n - 1].end() <= segments[n].timeline_start);
        }
    }
}

/// The plan's next boundary is the nearest of all its tracks'.
pub proof fn a_boundary_is_the_nearest(
    tracks: Seq<AudioTrack>,
    t: i64,
    end: i64,
    first: i64,
    i: int,
)
    requires
        0 <= i < tracks.len(),
    ensures
        earliest_boundary(tracks, t, end, first) <= first,
        earliest_boundary(tracks, t, end, first) <= boundary_after(tracks[i].segments@, t, end),
        earliest_boundary(tracks, t, end, first) == first || exists|k: int|
            0 <= k < tracks.len() && earliest_boundary(tracks, t, end, first) == boundary_after(
                (#[trigger] tracks[k]).segments@,
                t,
                end,
            ),
    decreases tracks.len(),
{
    let shorter = tracks.drop_last();
    if shorter.len() > 0 {
        let j = if i < shorter.len() {
            i
        } else {
            0
        };
        a_boundary_is_the_nearest(shorter, t, end, first, j);
        if earliest_boundary(shorter, t, end, first) != first {
            let k = choose|k: int|
                0 <= k < shorter.len() && earliest_boundary(shorter, t, end, first)
                    == boundary_after((#[trigger] shorter[k]).segments@, t, end);
            assert(tracks[k] == shorter[k]);
        }
    } else {
        assert(earliest_boundary(shorter, t, end, first) == first);
    }
    assert(tracks[tracks.len() - 1] == tracks.last());
    if i < shorter.len() {
        assert(shorter[i] == tracks[i]);
    }
}

/// A plan lasts until its last segment has ended, on whichever track.
pub proof fn a_plan_lasts_until_everything_ended(plan: PlaybackPlan, i: int)
    requires
        0 <= i < plan.audio_tracks@.len(),
    ensures
        plan.segments@.len() > 0 ==> plan.length() >= plan.segments@.last().end(),
        plan.audio_tracks@[i].segments@.len() > 0 ==> plan.length()
            >= plan.audio_tracks@[i].segments@.last().end(),
        plan.length() == 0 || plan.segments@.len() > 0 && plan.length()
            == plan.segments@.last().end() || exists|k: int|
            0 <= k < plan.audio_tracks@.len() && (
            #[trigger] plan.audio_tracks@[k]).segments@.len() > 0 && plan.length()
                == plan.audio_tracks@[k].segments@.last().end(),
{
    lemma_last_end(plan.audio_tracks@, i);
}

proof fn lemma_last_end(tracks: Seq<AudioTrack>, i: int)
    requires
        0 <= i < tracks.len(),
    ensures
        tracks[i].segments@.len() > 0 ==> (last_end(tracks) matches Some(end) && end
            >= tracks[i].segments@.last().end()),
        last_end(tracks) matches Some(end) ==> exists|k: int|
            0 <= k < tracks.len() && (#[trigger] tracks[k]).segments@.len() > 0 && end
                == tracks[k].segments@.last().end(),
    decreases tracks.len(),
{
    let shorter = tracks.drop_last();
    assert(tracks[tracks.len() - 1] == tracks.last());
    if shorter.len() > 0 {
        let j = if i < shorter.len() {
            i
        } else {
            0
        };
        lemma_last_end(shorter, j);
        if let Some(end) = last_end(shorter) {
            let k = choose|k: int|
                0 <= k < shorter.len() && (#[trigger] shorter[k]).segments@.len() > 0 && end
                    == shorter[k].segments@.last().end();
            assert(tracks[k] == shorter[k]);
        }
        if i < shorter.len() {
            assert(shorter[i] == tracks[i]);
        }
    } else {
        assert(last_end(shorter) is None);
    }
}

/// The stream that is played is the first default one, else the first; a cover
/// image never is, and there is one choice.
pub proof fn the_default_stream_is_played(
    streams: Seq<StreamInfo>,
    index: Option<usize>,
    other: Option<usize>,
    i: int,
)
    requires
        chosen(streams, index),
        chosen(streams, other),
        0 <= i < streams.len(),
        !streams[i].is_attached_picture,
    ensures
        index == other,
        index matches Some(at) && at < streams.len() && !streams[at as int].is_attached_picture && (
        streams[at as int].is_default || !streams[i].is_default) && (streams[at as int].is_default
            == streams[i].is_default ==> at <= i),
{
    if let (Some(a), Some(b)) = (index, other) {
        assert(!streams[a as int].is_attached_picture && !streams[b as int].is_attached_picture);
    }
}

/// Ticks without a usable length are microseconds.
pub proof fn a_usable_base_is_used(base: Option<Rational>)
    ensures
        (base matches Some(b) && b.num > 0 && b.den > 0) ==> usable_base(base) == base->0,
        (base matches Some(b) && (b.num <= 0 || b.den <= 0)) ==> usable_base(base) == (Rational {
            num: 1,
            den: 1_000_000,
        }),
        base is None ==> usable_base(base) == (Rational { num: 1, den: 1_000_000 }),
{
}

/// A plan counts in the rate of its first pictures, the average one where it is
/// known; segments of sound only say nothing of it.
pub proof fn the_first_pictures_set_the_rate(segments: Seq<Segment>, i: int)
    requires
        0 <= i <= segments.len(),
        forall|j: int| 0 <= j < i ==> (#[trigger] segments[j]).source.video is None,
        i < segments.len() ==> segments[i].source.video is Some,
    ensures
        i == segments.len() ==> plan_rate(segments) == (Rational { num: 30, den: 1 }),
        i < segments.len() ==> ({
            let video = segments[i].source.video->0;
            &&& (video.average_frame_rate matches Some(rate) && rate.num > 0 && rate.den > 0)
                ==> plan_rate(segments) == video.average_frame_rate->0
            &&& video.average_frame_rate is None && (video.base_frame_rate matches Some(rate)
                && rate.num > 0 && rate.den > 0) ==> plan_rate(segments)
                == video.base_frame_rate->0
            &&& video.average_frame_rate is None && video.base_frame_rate is None ==> plan_rate(
                segments,
            ) == (Rational { num: 30, den: 1 })
        }),
    decreases segments.len(),
{
    if i > 0 {
        assert(segments[0].source.video is None);
        let rest = segments.skip(1);
        assert forall|j: int| 0 <= j < i - 1 implies (#[trigger] rest[j]).source.video is None by {
            assert(rest[j] == segments[j + 1]);
        }
        if i < segments.len() {
            assert(rest[i - 1] == segments[i]);
        }
        the_first_pictures_set_the_rate(rest, i - 1);
    }
}

/// What is refused of a plan's segments: one that ends where it starts or
/// before, and one that starts more than two microseconds before the one ahead
/// of it ends.
pub proof fn only_overlaps_and_empty_ranges_are_refused(segments: Seq<Segment>, i: int)
    requires
        0 <= i < segments.len() <= usize::MAX,
    ensures
        segments[i].source_out <= segments[i].source_in ==> fault(segments, i) == Some(
            PlanError::Inverted(i as usize),
        ),
        segments[i].source_out > segments[i].source_in && i > 0 && segments[i].timeline_start + 2
            < segments[i - 1].end() ==> fault(segments, i) == Some(PlanError::Overlap(i as usize)),
        segments[i].source_out > segments[i].source_in && (i == 0 || segments[i].timeline_start + 2
            >= segments[i - 1].end()) ==> fault(segments, i) is None,
{
}

/// The newest frame at or before a tick, and the first at or after one: of
/// frames in order none lies nearer.
pub proof fn the_nearest_frame_is_found(ticks: Seq<i64>, pts: i64)
    requires
        forall|i: int, j: int| 0 <= i < j < ticks.len() ==> #[trigger] ticks[i] < #[trigger] ticks[j],
    ensures
        match newest_in(ticks, pts) {
            Some(frame) => ticks.contains(frame) && frame <= pts && forall|i: int|
                0 <= i < ticks.len() ==> #[trigger] ticks[i] <= frame || ticks[i] > pts,
            None => forall|i: int| 0 <= i < ticks.len() ==> #[trigger] ticks[i] > pts,
        },
        match first_in(ticks, pts) {
            Some(frame) => ticks.contains(frame) && frame >= pts && forall|i: int|
                0 <= i < ticks.len() ==> #[trigger] ticks[i] >= frame || ticks[i] < pts,
            None => forall|i: int| 0 <= i < ticks.len() ==> #[trigger] ticks[i] < pts,
        },
{
    lemma_newest(ticks, pts);
    lemma_first(ticks, pts);
}

proof fn lemma_newest(ticks: Seq<i64>, pts: i64)
    requires
        forall|i: int, j: int| 0 <= i < j < ticks.len() ==> #[trigger] ticks[i] < #[trigger] ticks[j],
    ensures
        match newest_in(ticks, pts) {
            Some(frame) => ticks.contains(frame) && frame <= pts && forall|i: int|
                0 <= i < ticks.len() ==> #[trigger] ticks[i] <= frame || ticks[i] > pts,
            None => forall|i: int| 0 <= i < ticks.len() ==> #[trigger] ticks[i] > pts,
        },
    decreases ticks.len(),
{
    if ticks.len() > 0 {
        let n = ticks.len() - 1;
        if ticks[n] > pts {
            let shorter = ticks.drop_last();
            lemma_newest(shorter, pts);
            assert forall|i: int| 0 <= i < ticks.len() implies (match newest_in(ticks, pts) {
                Some(frame) => #[trigger] ticks[i] <= frame || ticks[i] > pts,
                None => ticks[i] > pts,
            }) by {
                if i < n {
                    assert(shorter[i] == ticks[i]);
                }
            }
            if let Some(frame) = newest_in(ticks, pts) {
                let k = choose|k: int| 0 <= k < shorter.len() && shorter[k] == frame;
                assert(ticks[k] == frame);
            }
        } else {
            assert(ticks[n] == ticks.last());
        }
    }
}

proof fn lemma_first(ticks: Seq<i64>, pts: i64)
    requires
        forall|i: int, j: int| 0 <= i < j < ticks.len() ==> #[trigger] ticks[i] < #[trigger] ticks[j],
    ensures
        match first_in(ticks, pts) {
            Some(frame) => ticks.contains(frame) && frame >= pts && forall|i: int|
                0 <= i < ticks.len() ==> #[trigger] ticks[i] >= frame || ticks[i] < pts,
            None => forall|i: int| 0 <= i < ticks.len() ==> #[trigger] ticks[i] < pts,
        },
    decreases ticks.len(),
{
    if ticks.len() > 0 {
        if ticks[0] < pts {
            let rest = ticks.skip(1);
            lemma_first(rest, pts);
            assert forall|i: int| 0 <= i < ticks.len() implies (match first_in(ticks, pts) {
                Some(frame) => #[trigger] ticks[i] >= frame || ticks[i] < pts,
                None => ticks[i] < pts,
            }) by {
                if i > 0 {
                    assert(rest[i - 1] == ticks[i]);
                }
            }
            if let Some(frame) = first_in(ticks, pts) {
                let k = choose|k: int| 0 <= k < rest.len() && rest[k] == frame;
                assert(ticks[k + 1] == frame);
            }
        } else {
            assert(ticks[0] == ticks.first());
        }
    }
}

/// No frame is skipped: stepping goes to the next frame of the segment that
/// lies before its out point, or the one before this one that is still shown.
pub proof fn no_frame_is_skipped(
    segments: Seq<Segment>,
    tables: Seq<FrameTable>,
    at: (usize, i64),
    tick: i64,
)
    requires
        tables.len() == segments.len(),
        at.0 < segments.len(),
        segments[at.0 as int].source.video is Some,
        forall|i: int, j: int|
            0 <= i < j < tables[at.0 as int].ticks@.len()
                ==> #[trigger] tables[at.0 as int].ticks@[i] < #[trigger] tables[at.0 as int].ticks@[j],
        tables[at.0 as int].ticks@.contains(tick),
        i64::MIN < at.1 < i64::MAX,
    ensures
        ({
            let segment = segments[at.0 as int];
            &&& at.1 < tick < segment.source_out ==> (following_frame(
                segments,
                tables,
                at,
            ) matches Some(next) && next.0 == at.0 && at.1 < next.1 <= tick
                && tables[at.0 as int].ticks@.contains(next.1))
            &&& segment.source_in < tick < at.1 ==> (preceding_frame(
                segments,
                tables,
                at,
            ) matches Some(previous) && previous.0 == at.0 && tick <= previous.1 < at.1
                && tables[at.0 as int].ticks@.contains(previous.1))
        }),
{
    let segment = segments[at.0 as int];
    let ticks = tables[at.0 as int].ticks@;
    let k = choose|k: int| 0 <= k < ticks.len() && ticks[k] == tick;
    assert(ticks[k] == tick);
    the_nearest_frame_is_found(ticks, (at.1 + 1) as i64);
    the_nearest_frame_is_found(ticks, (at.1 - 1) as i64);
    the_nearest_frame_is_found(ticks, segment.source_in);
    the_nearest_frame_is_found(ticks, clamped(segment.source_in + 1));
}

/// A segment opens with the frame that its in point falls on, or the first one
/// behind it, and closes with the last that begins before its out point.
pub proof fn a_segment_opens_and_closes_with_its_frames(segment: Segment, ticks: Seq<i64>, tick: i64)
    requires
        segment.source.video is Some,
        i64::MIN < segment.source_out,
        segment.source_in < i64::MAX,
        ticks.contains(tick),
        forall|i: int, j: int| 0 <= i < j < ticks.len() ==> #[trigger] ticks[i] < #[trigger] ticks[j],
    ensures
        opening_frame(segment, ticks) matches Some(frame) && ticks.contains(frame) && (tick
            <= segment.source_in ==> tick <= frame <= segment.source_in) && (segment.source_in
            < tick ==> frame <= tick),
        tick < segment.source_out ==> (closing_frame(segment, ticks) matches Some(frame)
            && ticks.contains(frame) && tick <= frame < segment.source_out),
        tick >= segment.source_out ==> (closing_frame(segment, ticks) matches Some(frame) ==> frame
            < segment.source_out),
{
    let k = choose|k: int| 0 <= k < ticks.len() && ticks[k] == tick;
    assert(ticks[k] == tick);
    the_nearest_frame_is_found(ticks, segment.source_in);
    the_nearest_frame_is_found(ticks, (segment.source_in + 1) as i64);
    the_nearest_frame_is_found(ticks, (segment.source_out - 1) as i64);
}

/// Past the last frame of a segment comes the first of the next that has one,
/// and before the first the last of the one before.
pub proof fn a_step_crosses_to_the_neighbour(
    segments: Seq<Segment>,
    tables: Seq<FrameTable>,
    k: int,
    m: int,
)
    requires
        tables.len() == segments.len() <= usize::MAX,
        0 <= k <= m < segments.len(),
    ensures
        opening_frame(segments[m], tables[m].ticks@) is Some && (forall|j: int|
            k <= j < m ==> opening_frame(
                #[trigger] segments[j],
                #[trigger] tables[j].ticks@,
            ) is None) ==> next_opening(segments, tables, k) == Some(
            (m as usize, opening_frame(segments[m], tables[m].ticks@)->0),
        ),
        closing_frame(segments[k], tables[k].ticks@) is Some && (forall|j: int|
            k < j <= m ==> closing_frame(
                #[trigger] segments[j],
                #[trigger] tables[j].ticks@,
            ) is None) ==> previous_closing(segments, tables, m + 1) == Some(
            (k as usize, closing_frame(segments[k], tables[k].ticks@)->0),
        ),
    decreases m - k,
{
    if k < m {
        a_step_crosses_to_the_neighbour(segments, tables, k + 1, m);
        a_step_crosses_to_the_neighbour(segments, tables, k, m - 1);
    }
}

/// Steps add up: so many and then so many more are all of them at once.
pub proof fn steps_add_up(
    segments: Seq<Segment>,
    tables: Seq<FrameTable>,
    at: (usize, i64),
    forwards: bool,
    first: nat,
    then: nat,
)
    ensures
        stepped(segments, tables, at, forwards, first + then) == stepped(
            segments,
            tables,
            stepped(segments, tables, at, forwards, first),
            forwards,
            then,
        ),
        stepped(segments, tables, at, forwards, 0) == at,
        stepped(segments, tables, at, true, 1) == (match following_frame(segments, tables, at) {
            Some(next) => next,
            None => at,
        }),
        stepped(segments, tables, at, false, 1) == (match preceding_frame(segments, tables, at) {
            Some(previous) => previous,
            None => at,
        }),
    decreases then,
{
    reveal_with_fuel(stepped, 2);
    if then > 0 {
        steps_add_up(segments, tables, at, forwards, first, (then - 1) as nat);
        assert((first + then - 1) as nat == first + (then - 1) as nat);
    }
}

/// The frame that is due at a position is the newest of the segment there that
/// has begun; in a gap it is the one that the next segment opens with.
pub proof fn the_frame_due_has_begun(
    segments: Seq<Segment>,
    tables: Seq<FrameTable>,
    t: ProgramTime,
    i: int,
)
    requires
        tables.len() == segments.len() <= usize::MAX,
        0 <= i < segments.len(),
        segments[i].source.video is Some,
        segments.last().timeline_start < segments.last().end(),
        forall|a: int, b: int|
            0 <= a < b < segments.len() ==> (#[trigger] segments[a]).timeline_start
                < segments[a].end() <= (#[trigger] segments[b]).timeline_start,
    ensures
        segments[i].timeline_start <= t < segments[i].end() ==> due_frame(segments, tables, t) == (
        match newest_in(tables[i].ticks@, segments[i].tick_at(t)) {
            Some(pts) => Some((i as usize, pts)),
            None => None,
        }),
        t < segments[i].timeline_start && (i == 0 || segments[i - 1].end() <= t) ==> due_frame(
            segments,
            tables,
            t,
        ) == (match newest_in(
            tables[i].ticks@,
            segments[i].tick_at(segments[i].timeline_start),
        ) {
            Some(pts) => Some((i as usize, pts)),
            None => None,
        }),
        segments.last().end() <= t ==> due_frame(segments, tables, t) is None,
{
    lemma_started(segments, t);
    let n = started(segments, t);
    what_plays_is_what_covers_the_position(segments, t, i);
    if n > 0 {
        what_plays_is_what_covers_the_position(segments, t, n - 1);
        if i < n - 1 {
            assert(segments[i].end() <= segments[n - 1].timeline_start);
        }
    }
    if t < segments[i].timeline_start && (i == 0 || segments[i - 1].end() <= t) {
        if i > 0 {
            assert(segments[i - 1].timeline_start < segments[i - 1].end());
            what_plays_is_what_covers_the_position(segments, t, i - 1);
        }
        assert(n == i);
    }
    if segments.last().end() <= t {
        let m = segments.len() - 1;
        assert(segments[m] == segments.last());
        if i < m {
            assert(segments[i].timeline_start < segments[m].timeline_start);
        }
        if m > 0 {
            assert(segments[0].end() <= segments[m].timeline_start);
        }
        what_plays_is_what_covers_the_position(segments, t, m);
        assert(n == segments.len());
    }
}

/// What is up at a position: what is up stays while a playhead is dragged and
/// behind the end; in a gap and under sound only it is black; else the newest
/// frame that has begun, never the one that the out point cuts off. The next
/// decoder starts within a second and a half of the segment's end, at its in
/// point; the loop's within as much of the loop's.
pub proof fn what_is_presented_is_due(
    segments: Seq<Segment>,
    end: ProgramTime,
    t: ProgramTime,
    scrubbing: bool,
    range: Option<crate::playback::transport::LoopRange>,
    i: int,
)
    requires
        segments.len() <= usize::MAX,
        0 <= i < segments.len(),
        segments[i].timeline_start <= t < segments[i].end(),
        segments[i].source_out > i64::MIN,
        forall|a: int, b: int|
            0 <= a < b < segments.len() ==> (#[trigger] segments[a]).timeline_start
                < segments[a].end() <= (#[trigger] segments[b]).timeline_start,
    ensures
        scrubbing || t >= end ==> presented(segments, end, t, scrubbing, range)
            == Presentation::Keep,
        !scrubbing && t < end && segments[i].source.video is None ==> presented(
            segments,
            end,
            t,
            scrubbing,
            range,
        ) == Presentation::Black,
        !scrubbing && t < end && segments[i].source.video is Some ==> (presented(
            segments,
            end,
            t,
            scrubbing,
            range,
        ) matches Presentation::Frame { segment, pts, next, looped } && {
            &&& segment == i
            &&& pts <= segments[i].tick_at(t) && pts < segments[i].source_out
            &&& pts == segments[i].tick_at(t) || pts == segments[i].source_out - 1
            &&& segments[i].end() - t >= 1_500_000 ==> next is None
            &&& segments[i].end() - t < 1_500_000 && i + 1 < segments.len() && segments[i
                + 1].timeline_start == segments[i].end() && segments[i].end() < segments[i
                + 1].end() ==> next == Some(((i + 1) as usize, segments[i + 1].source_in))
            &&& i + 1 == segments.len() ==> next is None
            &&& range is None || range->0.end - t >= 1_500_000 || range->0.end <= t ==> looped
                is None
            &&& range is Some && 0 < range->0.end - t < 1_500_000 ==> (match playing_at(
                segments,
                range->0.start,
            ) {
                Some(k) => looped == Some((k, segments[k as int].tick_at(range->0.start))),
                None => looped is None,
            })
        }),
{
    what_plays_is_what_covers_the_position(segments, t, i);
    let e = segments[i].end();
    what_plays_is_what_covers_the_position(segments, e, i);
    lemma_started(segments, e);
    if i + 1 < segments.len() {
        what_plays_is_what_covers_the_position(segments, e, i + 1);
    } else {
        assert(started(segments, e) == segments.len());
    }
}

/// In a gap it is black.
pub proof fn a_gap_is_presented_black(
    segments: Seq<Segment>,
    end: ProgramTime,
    t: ProgramTime,
    range: Option<crate::playback::transport::LoopRange>,
)
    requires
        segments.len() <= usize::MAX,
        t < end,
        forall|a: int|
            0 <= a < segments.len() ==> !((#[trigger] segments[a]).timeline_start <= t
                < segments[a].end()),
    ensures
        presented(segments, end, t, false, range) == Presentation::Black,
{
    lemma_started(segments, t);
    let n = started(segments, t);
    if n > 0 {
        assert(segments[n - 1].timeline_start <= t);
    }
}

/// A clip that is placed starts on the last whole microsecond at or before its
/// place, and keeps its speed, its sound and its number.
pub proof fn a_clip_is_placed_where_it_starts(
    placement: Placement,
    source: crate::playback::plan::SourceMedia,
    sequence: Rational,
)
    ensures
        placed(placement, source, sequence) matches Some(segment) ==> {
            let (n, d) = (placement.start * sequence.num * 1_000_000, sequence.den * 1);
            &&& segment.timeline_start * d <= n < segment.timeline_start * d + d
            &&& segment.source == source && segment.speed == placement.speed
            &&& segment.chain == placement.chain && segment.clip == Some(placement.clip)
        },
{
    a_conversion_keeps_the_time(
        placement.start,
        sequence,
        micros(),
        crate::time::Rounding::Down,
    );
}

/// Every clip that plays forwards from a known source is placed, in order, and
/// nothing else is; the first that cannot be placed is named.
pub proof fn every_clip_is_placed(
    placements: Seq<Placement>,
    sources: Map<SourceId, crate::playback::plan::SourceMedia>,
    sequence: Rational,
    count: int,
    i: int,
)
    requires
        0 <= i < count <= placements.len(),
    ensures
        ({
            let plays = |k: int|
                placements[k].motion is None && sources.contains_key(placements[k].source);
            let there = |k: int|
                placed(placements[k], sources[placements[k].source], sequence);
            match all_placed(placements, sources, sequence, count) {
                Ok(segments) => {
                    &&& segments.len() <= count
                    &&& plays(i) ==> there(i) is Some && segments.contains(there(i)->0)
                    &&& forall|s: int|
                        0 <= s < segments.len() ==> exists|k: int|
                            0 <= k < count && placements[k].motion is None && sources.contains_key(
                                placements[k].source,
                            ) && placed(
                                #[trigger] placements[k],
                                sources[placements[k].source],
                                sequence,
                            ) == Some(#[trigger] segments[s])
                },
                Err(error) => exists|k: int|
                    0 <= k < count && error == PlanError::Unplaceable(
                        (#[trigger] placements[k]).clip,
                    ) && plays(k) && there(k) is None,
            }
        }),
    decreases count,
{
    lemma_all_placed(placements, sources, sequence, count);
    if i < count - 1 {
        every_clip_is_placed(placements, sources, sequence, count - 1, i);
        if let (Ok(before), Ok(all)) = (
            all_placed(placements, sources, sequence, count - 1),
            all_placed(placements, sources, sequence, count),
        ) {
            let placement = placements[i];
            if placement.motion is None && sources.contains_key(placement.source) {
                let segment = placed(placement, sources[placement.source], sequence)->0;
                let s = choose|s: int| 0 <= s < before.len() && before[s] == segment;
                assert(all[s] == segment);
            }
        }
    } else {
        if let Ok(all) = all_placed(placements, sources, sequence, count) {
            let placement = placements[i];
            if placement.motion is None && sources.contains_key(placement.source) {
                assert(all[all.len() - 1] == placed(
                    placement,
                    sources[placement.source],
                    sequence,
                )->0);
            }
        }
    }
}

proof fn lemma_all_placed(
    placements: Seq<Placement>,
    sources: Map<SourceId, crate::playback::plan::SourceMedia>,
    sequence: Rational,
    count: int,
)
    requires
        0 <= count <= placements.len(),
    ensures
        match all_placed(placements, sources, sequence, count) {
            Ok(segments) => {
                &&& segments.len() <= count
                &&& forall|s: int|
                    0 <= s < segments.len() ==> exists|k: int|
                        0 <= k < count && placements[k].motion is None && sources.contains_key(
                            placements[k].source,
                        ) && placed(
                            #[trigger] placements[k],
                            sources[placements[k].source],
                            sequence,
                        ) == Some(#[trigger] segments[s])
            },
            Err(error) => exists|k: int|
                0 <= k < count && error == PlanError::Unplaceable((#[trigger] placements[k]).clip)
                    && placements[k].motion is None && sources.contains_key(placements[k].source)
                    && placed(placements[k], sources[placements[k].source], sequence) is None,
        },
    decreases count,
{
    if count > 0 {
        lemma_all_placed(placements, sources, sequence, count - 1);
        match (
            all_placed(placements, sources, sequence, count - 1),
            all_placed(placements, sources, sequence, count),
        ) {
            (Ok(before), Ok(all)) => {
                assert forall|s: int| 0 <= s < all.len() implies exists|k: int|
                    0 <= k < count && placements[k].motion is None && sources.contains_key(
                        placements[k].source,
                    ) && placed(
                        #[trigger] placements[k],
                        sources[placements[k].source],
                        sequence,
                    ) == Some(#[trigger] all[s]) by {
                    if s < before.len() {
                        let k = choose|k: int|
                            0 <= k < count - 1 && placements[k].motion is None
                                && sources.contains_key(placements[k].source) && placed(
                                #[trigger] placements[k],
                                sources[placements[k].source],
                                sequence,
                            ) == Some(before[s]);
                        assert(before[s] == all[s]);
                        assert(placed(
                            placements[k],
                            sources[placements[k].source],
                            sequence,
                        ) == Some(all[s]));
                    } else {
                        let k = count - 1;
                        assert(placed(
                            placements[k],
                            sources[placements[k].source],
                            sequence,
                        ) == Some(all[s]));
                    }
                }
            },
            (Err(error), _) => {
                let k = choose|k: int|
                    0 <= k < count - 1 && error == PlanError::Unplaceable(
                        (#[trigger] placements[k]).clip,
                    ) && placements[k].motion is None && sources.contains_key(placements[k].source)
                        && placed(placements[k], sources[placements[k].source], sequence) is None;
                assert(error == PlanError::Unplaceable(placements[k].clip));
            },
            (Ok(_), Err(error)) => {
                assert(error == PlanError::Unplaceable(placements[count - 1].clip));
            },
        }
    }
}

/// The pictures that play are those of the first track of pictures.
pub proof fn the_first_track_of_pictures_plays(timeline: Timeline, at: int)
    requires
        0 <= at <= timeline.tracks@.len(),
        forall|t: int| 0 <= t < at ==> (#[trigger] timeline.tracks@[t]).kind != TrackKind::Video,
        at < timeline.tracks@.len() ==> timeline.tracks@[at].kind == TrackKind::Video,
    ensures
        first_video(timeline.tracks@, 0) == at,
{
    lemma_first_video(timeline.tracks@, 0, at);
}

proof fn lemma_first_video(tracks: Seq<crate::project::Track>, t: int, at: int)
    requires
        0 <= t <= at <= tracks.len(),
        forall|k: int| t <= k < at ==> (#[trigger] tracks[k]).kind != TrackKind::Video,
        at < tracks.len() ==> tracks[at].kind == TrackKind::Video,
    ensures
        first_video(tracks, t) == at,
    decreases at - t,
{
    if t < at {
        assert(tracks[t].kind != TrackKind::Video);
        lemma_first_video(tracks, t + 1, at);
    }
}

/// Every track of sound is played under its own number with all of its clips,
/// and no two under the same.
pub proof fn every_track_of_sound_is_played(
    timeline: Timeline,
    sources: Map<SourceId, crate::playback::plan::SourceMedia>,
    count: int,
    i: int,
)
    requires
        0 <= i < count <= timeline.tracks@.len(),
        timeline.tracks@[i].kind == TrackKind::Audio,
    ensures
        sound_tracks(timeline, sources, count) matches Ok(tracks) ==> {
            let track = timeline.tracks@[i];
            &&& track.id != 0
            &&& all_placed(
                track.placements@,
                sources,
                timeline.time_base,
                track.placements@.len() as int,
            ) is Ok
            &&& tracks.contains(
                SoundTrack {
                    id: track.id,
                    segments: all_placed(
                        track.placements@,
                        sources,
                        timeline.time_base,
                        track.placements@.len() as int,
                    )->Ok_0,
                },
            )
        },
    decreases count,
{
    if let Ok(all) = sound_tracks(timeline, sources, count) {
        if i < count - 1 {
            every_track_of_sound_is_played(timeline, sources, count - 1, i);
            let before = sound_tracks(timeline, sources, count - 1)->Ok_0;
            let track = timeline.tracks@[i];
            let sound = SoundTrack {
                id: track.id,
                segments: all_placed(
                    track.placements@,
                    sources,
                    timeline.time_base,
                    track.placements@.len() as int,
                )->Ok_0,
            };
            let k = choose|k: int| 0 <= k < before.len() && before[k] == sound;
            assert(all[k] == sound);
        } else {
            assert(all[all.len() - 1].id == timeline.tracks@[i].id);
        }
    }
}

/// A preview plays its pictures and its sound together, and is refused only
/// where a track is, or where nothing is on any.
pub proof fn a_preview_is_of_all_tracks(
    timeline: Timeline,
    sources: Map<SourceId, crate::playback::plan::SourceMedia>,
)
    ensures
        previewed(timeline, sources) matches Ok((main, tracks)) ==> main_segments(timeline, sources)
            == Ok::<Seq<Segment>, PlanError>(main) && sound_tracks(
            timeline,
            sources,
            timeline.tracks@.len() as int,
        ) == Ok::<Seq<SoundTrack>, PlanError>(tracks) && (main.len() > 0 || exists|i: int|
            0 <= i < tracks.len() && (#[trigger] tracks[i]).segments.len() > 0),
        ({
            let pictures = main_segments(timeline, sources);
            let sound = sound_tracks(timeline, sources, timeline.tracks@.len() as int);
            pictures is Ok && sound is Ok && previewed(timeline, sources) is Err ==> {
                &&& previewed(timeline, sources)->Err_0 == PlanError::Empty
                &&& pictures->Ok_0.len() == 0
                &&& forall|i: int|
                    0 <= i < sound->Ok_0.len() ==> (#[trigger] sound->Ok_0[i]).segments.len() == 0
            }
        }),
{
}

/// A position is told within the timeline: as it is where it lies on it.
pub proof fn a_position_is_told_within(t: ProgramTime, end: ProgramTime)
    requires
        end >= 0,
    ensures
        0 <= within(t, end) <= end,
        0 <= t <= end ==> within(t, end) == t,
        t < 0 ==> within(t, end) == 0,
        t > end ==> within(t, end) == end,
{
}

/// Pictures come from a proxy where the segment at the position does; at the
/// end that is the last one.
pub proof fn a_proxy_is_told_where_it_is_shown(
    plan: PlaybackPlan,
    position: ProgramTime,
    end: ProgramTime,
)
    requires
        end > i64::MIN,
    ensures
        position < end ==> from_proxy(plan, position, end) == (playing_at(
            plan.segments@,
            position,
        ) matches Some(i) && plan.segments@[i as int].source.proxy),
        position >= end ==> from_proxy(plan, position, end) == (playing_at(
            plan.segments@,
            (end - 1) as i64,
        ) matches Some(i) && plan.segments@[i as int].source.proxy),
{
}

/// The frame at a position is the last that has begun: frames of a rate of
/// `num / den` a second begin `den / num` seconds apart.
pub proof fn a_frame_number_counts_frames_begun(position: ProgramTime, rate: Rational)
    requires
        rate.num > 0,
        rate.den > 0,
        i64::MIN < frame_at(position, rate) < i64::MAX,
    ensures
        ({
            let frame = frame_at(position, rate);
            frame * (rate.den * 1_000_000) <= position * rate.num < (frame + 1) * (rate.den
                * 1_000_000)
        }),
{
    let n = position * rate.num;
    let d = rate.den * 1_000_000;
    vstd::arithmetic::div_mod::lemma_fundamental_div_mod(n, d);
    vstd::arithmetic::div_mod::lemma_mod_bound(n, d);
    let f = n / d;
    assert(d * f == f * d && (f + 1) * d == f * d + d) by (nonlinear_arith);
}

/// Timecode counts the whole number of frames nearest to the rate, a half
/// upwards, and one at least.
pub proof fn timecode_counts_the_nearest_rate(rate: Rational)
    requires
        rate.num > 0,
        rate.den > 0,
    ensures
        nominal(rate) >= 1,
        2 * rate.num >= rate.den ==> -rate.den <= 2 * (rate.num - nominal(rate) * rate.den)
            < rate.den,
        2 * rate.num < rate.den ==> nominal(rate) == 1,
{
    let (n, d) = (rate.num as int, rate.den as int);
    let m = 2 * n + d;
    let e = 2 * d;
    vstd::arithmetic::div_mod::lemma_fundamental_div_mod(m, e);
    vstd::arithmetic::div_mod::lemma_mod_bound(m, e);
    let f = m / e;
    assert(e * f == 2 * (f * d)) by (nonlinear_arith)
        requires
            e == 2 * d,
    ;
    assert(f <= n + 1) by (nonlinear_arith)
        requires
            2 * (f * d) <= 2 * n + d,
            d >= 1,
            n >= 1,
    ;
    if f < 1 {
        assert(f * d <= 0) by (nonlinear_arith)
            requires
                f < 1,
                d > 0,
        ;
    }
    if 2 * n < d && f >= 1 {
        assert(f < 2) by (nonlinear_arith)
            requires
                2 * (f * d) <= 2 * n + d,
                2 * n < d,
                d > 0,
        ;
    }
    if f > i64::MAX {
        assert(n == i64::MAX);
        assert(f * d >= f) by (nonlinear_arith)
            requires
                d >= 1,
                f >= 0,
        ;
        assert(d == 1) by (nonlinear_arith)
            requires
                2 * (f * d) <= 2 * n + d,
                f == n + 1,
                n >= 1,
                d >= 1,
        ;
        assert(f * d == f) by (nonlinear_arith)
            requires
                d == 1,
        ;
    }
}

/// A clip is placed wherever its range and its start can be told in ticks.
pub proof fn a_clip_that_can_be_told_is_placed(
    placement: Placement,
    source: crate::playback::plan::SourceMedia,
    sequence: Rational,
)
    ensures
        placed(placement, source, sequence) is Some <==> crate::time::rescaled(
            placement.source_in,
            placement.time_base,
            source.base(),
            crate::time::Rounding::Down,
        ) is Some && crate::time::rescaled(
            placement.source_out,
            placement.time_base,
            source.base(),
            crate::time::Rounding::Up,
        ) is Some && crate::time::rescaled(
            placement.start,
            sequence,
            micros(),
            crate::time::Rounding::Down,
        ) is Some,
{
}

/// A track of sound is refused only where a clip of it cannot be placed, its
/// clips overlap, or its number is taken.
pub proof fn a_track_of_sound_is_taken_up(
    timeline: Timeline,
    sources: Map<SourceId, crate::playback::plan::SourceMedia>,
    count: int,
)
    requires
        0 <= count < timeline.tracks@.len(),
        sound_tracks(timeline, sources, count) is Ok,
    ensures
        ({
            let before = sound_tracks(timeline, sources, count)->Ok_0;
            let after = sound_tracks(timeline, sources, count + 1);
            let track = timeline.tracks@[count];
            let clips = all_placed(
                track.placements@,
                sources,
                timeline.time_base,
                track.placements@.len() as int,
            );
            let free = track.id != 0 && forall|k: int|
                0 <= k < before.len() ==> (#[trigger] before[k]).id != track.id;
            let plays = forall|k: int|
                0 <= k < clips->Ok_0.len() ==> #[trigger] fault(clips->Ok_0, k) is None;
            &&& track.kind != TrackKind::Audio ==> after == Ok::<Seq<SoundTrack>, PlanError>(before)
            &&& track.kind == TrackKind::Audio ==> (after is Ok <==> clips is Ok && free && plays)
            &&& track.kind == TrackKind::Audio && clips is Ok && !free ==> after is Err
                && after->Err_0 == PlanError::DuplicateTrack(track.id)
            &&& track.kind == TrackKind::Audio && clips is Err ==> after is Err && after->Err_0
                == clips->Err_0
        }),
{
    let before = sound_tracks(timeline, sources, count)->Ok_0;
    let track = timeline.tracks@[count];
    let clips = all_placed(
        track.placements@,
        sources,
        timeline.time_base,
        track.placements@.len() as int,
    );
    if clips is Ok {
        lemma_first_fault(clips->Ok_0, 0);
    }
}

proof fn lemma_first_fault(segments: Seq<Segment>, from: int)
    requires
        0 <= from <= segments.len(),
    ensures
        crate::playback::timeline::first_fault(segments, from) is None <==> forall|k: int|
            from <= k < segments.len() ==> #[trigger] fault(segments, k) is None,
    decreases segments.len() - from,
{
    if from < segments.len() {
        lemma_first_fault(segments, from + 1);
        if crate::playback::timeline::first_fault(segments, from) is None {
            assert(fault(segments, from) is None);
            assert forall|k: int| from <= k < segments.len() implies #[trigger] fault(segments, k)
                is None by {
                if k > from {
                    assert(fault(segments, k) is None);
                }
            }
        }
    }
}

} // verus!
