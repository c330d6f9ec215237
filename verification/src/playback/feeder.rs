//! The audio feeder's decisions: how much to write, from which decoder, and
//! what to start ahead of time.
//!
//! - **A clip boundary is sample-exact.** Chunks are cut at the boundary, and
//!   the next decoder takes over on the very next sample.
//! - **The timeline position never drifts.** It is computed from the anchor and
//!   a count of frames written since, never accumulated.
//! - **A changed audio chain takes over without a gap**, on an exact sample.
use super::plan::{boundary_after, next_boundary, playing_at, segment_at, ProgramTime, Segment};
use super::transport::{LoopRange, PreviewSpeed};
use crate::num::{clamped, min, saturating_add, saturating_sub, smaller};
use crate::project::AudioOperation;
use crate::time::{rounded, Rounding};
use vstd::prelude::*;

verus! {

/// How far ahead of the speaker the buffer is kept, in microseconds.
pub const LEAD: u64 = 200_000;

/// The most written in one step, in microseconds.
pub const CHUNK: u64 = 10_000;

/// How far ahead of a boundary the next segment's decoder is started.
pub const PREFETCH: ProgramTime = 1_500_000;

/// How far ahead of what is being written a retuned decoder starts, in
/// microseconds.
pub const RETUNE_AHEAD: u64 = 300_000;

/// Samples per output frame.
pub const CHANNELS: usize = 2;

/// `x` brought into the range of a `u64`, for an `x` that is not negative.
pub open spec fn at_most_u64(x: int) -> int {
    if x > u64::MAX {
        u64::MAX as int
    } else {
        x
    }
}

/// Output frames in `micros` microseconds, to the nearest, at least one.
pub open spec fn length_of(micros: u64, rate: u32) -> int {
    let nearest = rounded(micros * rate, 1_000_000, Rounding::Nearest);
    if nearest < 1 {
        1
    } else {
        at_most_u64(nearest)
    }
}

/// Output frames in `micros` microseconds, to the nearest, at least one.
pub fn frames_for(micros: u64, rate: u32) -> (frames: u64)
    ensures
        frames == length_of(micros, rate),
{
    let (m, r) = (micros as u128, rate as u128);
    assert(m * r <= 0xffff_ffff_ffff_ffff * 0xffff_ffff && m * r >= 0) by (nonlinear_arith)
        requires
            0 <= m <= 0xffff_ffff_ffff_ffff,
            0 <= r <= 0xffff_ffff,
    ;
    let n: u128 = m * r;
    let nearest: u128 = if 2 * (n % 1_000_000) < 1_000_000 {
        n / 1_000_000
    } else {
        n / 1_000_000 + 1
    };
    if nearest < 1 {
        1
    } else if nearest > u64::MAX as u128 {
        u64::MAX
    } else {
        nearest as u64
    }
}

/// The rate a device counts at: never zero.
pub open spec fn real_rate(rate: u32) -> int {
    if rate == 0 {
        1
    } else {
        rate as int
    }
}

/// Timeline microseconds covered by `frames` output frames, to the nearest.
pub open spec fn span_of(frames: u64, rate: u32, speed: PreviewSpeed) -> i64 {
    clamped(
        rounded(
            frames * 1_000_000 * speed.quarters(),
            4 * real_rate(rate),
            Rounding::Nearest,
        ),
    )
}

/// Timeline microseconds covered by `frames` output frames.
pub fn micros(frames: u64, rate: u32, speed: PreviewSpeed) -> (span: ProgramTime)
    ensures
        span == span_of(frames, rate, speed),
{
    let base: u128 = frames as u128 * 1_000_000;
    let quarters: u128 = speed.in_quarters() as u128;
    assert(base * quarters <= 0xffff_ffff_ffff_ffff * 8_000_000) by (nonlinear_arith)
        requires
            base <= 0xffff_ffff_ffff_ffff * 1_000_000,
            quarters <= 8,
    ;
    let n: u128 = base * quarters;
    let d: u128 = 4 * (if rate == 0 {
        1
    } else {
        rate as u128
    });
    proof {
        assert(n as int / d as int <= n) by (nonlinear_arith)
            requires
                n >= 0,
                d >= 1,
        ;
        vstd::arithmetic::div_mod::lemma_mod_bound(n as int, d as int);
    }
    let nearest: u128 = if 2 * (n % d) < d {
        n / d
    } else {
        n / d + 1
    };
    if nearest > i64::MAX as u128 {
        i64::MAX
    } else {
        nearest as i64
    }
}

/// Output frames needed to cover `span` timeline microseconds, at least one.
pub open spec fn frames_of(span: ProgramTime, rate: u32, speed: PreviewSpeed) -> int {
    let exact = rounded(span * rate * 4, 1_000_000 * speed.quarters(), Rounding::Up);
    if span <= 0 || exact < 1 {
        1
    } else {
        at_most_u64(exact)
    }
}

/// Output frames needed to cover `span` timeline microseconds, at least one.
pub fn frames_covering(span: ProgramTime, rate: u32, speed: PreviewSpeed) -> (frames: u64)
    ensures
        frames == frames_of(span, rate, speed),
{
    if span <= 0 {
        return 1;
    }
    let (s, r) = (span as u128, rate as u128);
    assert(0 <= s * r <= 0x7fff_ffff_ffff_ffff * 0xffff_ffff) by (nonlinear_arith)
        requires
            0 <= s <= 0x7fff_ffff_ffff_ffff,
            0 <= r <= 0xffff_ffff,
    ;
    let n: u128 = s * r * 4;
    let d: u128 = 1_000_000 * speed.in_quarters() as u128;
    let frames: u128 = if n % d == 0 {
        n / d
    } else {
        n / d + 1
    };
    if frames < 1 {
        1
    } else if frames > u64::MAX as u128 {
        u64::MAX
    } else {
        frames as u64
    }
}

/// Enough frames are written to cover a span: a chunk cut at a boundary always
/// reaches it, and one frame fewer would not.
pub proof fn a_chunk_reaches_its_boundary(span: ProgramTime, rate: u32, speed: PreviewSpeed)
    requires
        span > 0,
        rate > 0,
        frames_of(span, rate, speed) < u64::MAX,
    ensures
        ({
            let frames = frames_of(span, rate, speed);
            &&& frames * (1_000_000 * speed.quarters()) >= span * rate * 4
            &&& frames > 1 ==> (frames - 1) * (1_000_000 * speed.quarters()) < span * rate * 4
        }),
{
    let n = span * rate * 4;
    let d = 1_000_000 * speed.quarters();
    assert(n > 0) by (nonlinear_arith)
        requires
            n == span * rate * 4,
            span > 0,
            rate > 0,
    ;
    vstd::arithmetic::div_mod::lemma_fundamental_div_mod(n, d);
    vstd::arithmetic::div_mod::lemma_mod_bound(n, d);
    let (q, r) = (n / d, n % d);
    assert(q >= 0) by (nonlinear_arith)
        requires
            q == n / d,
            n > 0,
            d > 0,
    ;
    assert(q == 0 ==> r > 0) by (nonlinear_arith)
        requires
            n == d * q + r,
            n > 0,
    ;
    let frames = frames_of(span, rate, speed);
    assert(frames == (if r == 0 {
        q
    } else {
        q + 1
    }));
    assert(frames * d >= n && (frames - 1) * d < n) by (nonlinear_arith)
        requires
            n == d * q + r,
            0 <= r < d,
            frames == (if r == 0 {
                q
            } else {
                q + 1
            }),
    ;
}

/// Where the feeder is on the timeline.
#[derive(Debug, Clone, Copy, PartialEq, Eq, Structural)]
pub struct Walk {
    pub generation: u64,
    /// The timeline position of the last anchor.
    pub anchor_at: ProgramTime,
    /// The frames written since it.
    pub written: u64,
}

impl Walk {
    /// The timeline position reached: never accumulated, so it never drifts.
    pub fn position(&self, rate: u32, speed: PreviewSpeed) -> (at: ProgramTime)
        ensures
            at == clamped(self.anchor_at + span_of(self.written, rate, speed)),
    {
        saturating_add(self.anchor_at, micros(self.written, rate, speed))
    }

    /// Jump back to the start of a loop, in a new generation.
    pub fn wrap(&mut self, generation: u64, start: ProgramTime)
        ensures
            *final(self) == (Walk { generation, anchor_at: start, written: 0 }),
    {
        self.generation = generation;
        self.anchor_at = start;
        self.written = 0;
    }
}

/// What the feeder does next.
#[derive(Debug, Clone, Copy, PartialEq, Eq, Structural)]
pub enum Feed {
    /// Everything is written: wait until it is heard, and end.
    Drain,
    /// The loop ended: jump back to its start.
    Wrap(ProgramTime),
    /// Enough is written ahead of the speaker: wait.
    WaitForRoom,
    /// Write a chunk.
    Write,
}

/// Where the feeder has to stop or jump back.
pub open spec fn feed_end(loop_range: Option<LoopRange>, duration: ProgramTime) -> ProgramTime {
    match loop_range {
        Some(range) => range.end,
        None => duration,
    }
}

/// What the feeder does next at `t`, with `queued` frames not heard yet.
pub fn turn(
    t: ProgramTime,
    loop_range: Option<LoopRange>,
    duration: ProgramTime,
    queued: u64,
    rate: u32,
) -> (next: Feed)
    ensures
        next == (if t >= feed_end(loop_range, duration) {
            match loop_range {
                Some(range) => Feed::Wrap(range.start),
                None => Feed::Drain,
            }
        } else if queued >= length_of(LEAD, rate) {
            Feed::WaitForRoom
        } else {
            Feed::Write
        }),
{
    let end = match loop_range {
        Some(range) => range.end,
        None => duration,
    };
    if t >= end {
        return match loop_range {
            Some(range) => Feed::Wrap(range.start),
            None => Feed::Drain,
        };
    }
    if queued >= frames_for(LEAD, rate) {
        Feed::WaitForRoom
    } else {
        Feed::Write
    }
}

/// The frames of the chunk written from `t`: a step, or what is left up to the
/// boundary; never none in front of it.
pub fn chunk_size(t: ProgramTime, boundary: ProgramTime, rate: u32, speed: PreviewSpeed) -> (frames:
    u64)
    ensures
        frames == smaller(
            length_of(CHUNK, rate),
            frames_of(clamped(boundary - t), rate, speed) as int,
        ),
        t < boundary ==> frames > 0,
{
    let step = frames_for(CHUNK, rate);
    let left = frames_covering(saturating_sub(boundary, t), rate, speed);
    if step < left {
        step
    } else {
        left
    }
}

/// The earliest of `first` and those of `starts` that lie after `t`.
pub open spec fn cut(starts: Seq<ProgramTime>, t: ProgramTime, first: ProgramTime) -> ProgramTime
    decreases starts.len(),
{
    if starts.len() == 0 {
        first
    } else {
        let before = cut(starts.drop_last(), t, first);
        if starts.last() > t && starts.last() < before {
            starts.last()
        } else {
            before
        }
    }
}

/// Where the chunk written from `t` ends at the latest: at the next boundary,
/// or where a retuned decoder takes over before that.
pub fn chunk_end(retuned: &Vec<ProgramTime>, t: ProgramTime, boundary: ProgramTime) -> (at:
    ProgramTime)
    ensures
        at == cut(retuned@, t, boundary),
        boundary > t ==> at > t,
{
    let mut at: i64 = boundary;
    let mut i: usize = 0;
    assert(retuned@.take(0).len() == 0);
    while i < retuned.len()
        invariant
            i <= retuned.len(),
            at == cut(retuned@.take(i as int), t, boundary),
            boundary > t ==> at > t,
        decreases retuned.len() - i,
    {
        assert(retuned@.take(i + 1).drop_last() =~= retuned@.take(i as int));
        if retuned[i] > t && retuned[i] < at {
            at = retuned[i];
        }
        i = i + 1;
    }
    assert(retuned@.take(i as int) =~= retuned@);
    at
}

/// Which decoder a track is heard from.
#[derive(Debug, Clone, Copy, PartialEq, Eq, Structural)]
pub enum LaneChoice {
    /// None: a gap, or a segment without sound.
    Silence,
    /// The one playing.
    Keep,
    /// The one prepared.
    TakeUpcoming,
    /// A new one, for this segment, from here.
    Start(usize),
}

/// Which decoder a track is heard from at `t`, given the segments the one
/// playing and the one prepared are for.
pub fn lane_for(
    segments: &Vec<Segment>,
    t: ProgramTime,
    current: Option<usize>,
    upcoming: Option<usize>,
) -> (choice: LaneChoice)
    ensures
        choice == (match playing_at(segments@, t) {
            Some(i) => if segments@[i as int].source.audio is None {
                LaneChoice::Silence
            } else if current == Some(i) {
                LaneChoice::Keep
            } else if upcoming == Some(i) {
                LaneChoice::TakeUpcoming
            } else {
                LaneChoice::Start(i)
            },
            None => LaneChoice::Silence,
        }),
{
    let i: usize = match segment_at(segments, t) {
        Some(i) => i,
        None => {
            return LaneChoice::Silence;
        },
    };
    if segments[i].source.audio.is_none() {
        return LaneChoice::Silence;
    }
    let kept = match current {
        Some(segment) => segment == i,
        None => false,
    };
    let prepared = match upcoming {
        Some(segment) => segment == i,
        None => false,
    };
    if kept {
        LaneChoice::Keep
    } else if prepared {
        LaneChoice::TakeUpcoming
    } else {
        LaneChoice::Start(i)
    }
}

/// What is started while a track plays: a segment's decoder, from a position.
pub open spec fn prefetched(
    segments: Seq<Segment>,
    now: ProgramTime,
    loop_range: Option<LoopRange>,
    end: ProgramTime,
) -> Option<(usize, ProgramTime)> {
    let boundary = smaller(boundary_after(segments, now, end) as int, end as int) as i64;
    let wraps = loop_range matches Some(range) && range.end - now < PREFETCH && boundary
        >= range.end;
    if wraps {
        let start = loop_range->0.start;
        match playing_at(segments, start) {
            Some(i) => Some((i, start)),
            None => None,
        }
    } else if boundary - now < PREFETCH && boundary < end {
        match playing_at(segments, boundary) {
            Some(i) => if segments[i as int].timeline_start == boundary {
                Some((i, boundary))
            } else {
                None
            },
            None => None,
        }
    } else {
        None
    }
}

/// What to start while a track plays: its following segment, or the loop's
/// start where that comes first.
pub fn prefetch(
    segments: &Vec<Segment>,
    now: ProgramTime,
    loop_range: Option<LoopRange>,
    end: ProgramTime,
) -> (lane: Option<(usize, ProgramTime)>)
    ensures
        lane == prefetched(segments@, now, loop_range, end),
{
    let boundary: i64 = min(next_boundary(segments, now, end), end);
    if let Some(range) = loop_range {
        if (range.end as i128) - (now as i128) < PREFETCH as i128 && boundary >= range.end {
            return match segment_at(segments, range.start) {
                Some(i) => Some((i, range.start)),
                None => None,
            };
        }
    }
    if (boundary as i128) - (now as i128) < PREFETCH as i128 && boundary < end {
        if let Some(i) = segment_at(segments, boundary) {
            if segments[i].timeline_start == boundary {
                return Some((i, boundary));
            }
        }
    }
    None
}

/// The segment of a track that is decoded anew when only audio chains change:
/// the one playing, if its chain changed and the new decoder, starting at
/// `at`, would still be heard.
pub fn restarts(
    before: &Vec<Segment>,
    after: &Vec<Segment>,
    current: Option<usize>,
    at: ProgramTime,
) -> (segment: Option<usize>)
    ensures
        segment == (match current {
            Some(i) => if i < before@.len() && i < after@.len() && before@[i as int].chain
                != after@[i as int].chain && at < after@[i as int].end() {
                Some(i)
            } else {
                None
            },
            None => None,
        }),
{
    match current {
        Some(i) => {
            if i < before.len() && i < after.len() && before[i].chain != after[i].chain && at
                < after[i].timeline_end() {
                Some(i)
            } else {
                None
            }
        },
        None => None,
    }
}

/// What becomes of a decoder with a changed chain.
#[derive(Debug, Clone, Copy, PartialEq, Eq, Structural)]
pub enum Retuned {
    /// Its segment is over.
    Drop,
    /// It is not due, or has not enough samples yet; the old one plays on.
    Wait,
    /// It takes over, once this many samples of a stretch already written are
    /// dropped.
    Switch(usize),
}

/// The samples a decoder made for the stretch from `starts_at` to `t`.
pub open spec fn samples_behind(
    starts_at: ProgramTime,
    t: ProgramTime,
    rate: u32,
    speed: PreviewSpeed,
) -> int {
    frames_of(clamped(t - starts_at), rate, speed) * CHANNELS
}

/// Whether a decoder with a changed chain takes over at `t`: once the walk has
/// reached the point it starts at and it has the samples for the stretch
/// already written and for the `count` about to be.
pub fn take_retuned(
    lane_segment: usize,
    starts_at: ProgramTime,
    buffered: usize,
    segment: usize,
    t: ProgramTime,
    count: usize,
    rate: u32,
    speed: PreviewSpeed,
) -> (next: Retuned)
    ensures
        next == (if lane_segment != segment {
            Retuned::Drop
        } else if t < starts_at {
            Retuned::Wait
        } else if samples_behind(starts_at, t, rate, speed) + count <= buffered {
            Retuned::Switch(samples_behind(starts_at, t, rate, speed) as usize)
        } else {
            Retuned::Wait
        }),
{
    if lane_segment != segment {
        return Retuned::Drop;
    }
    if t < starts_at {
        return Retuned::Wait;
    }
    let frames: u64 = frames_covering(crate::num::saturating_sub(t, starts_at), rate, speed);
    let behind: u128 = frames as u128 * 2;
    if behind + count as u128 <= buffered as u128 {
        Retuned::Switch(behind as usize)
    } else {
        Retuned::Wait
    }
}

/// Whether the preview renders `operation` itself: what the chain applies, and
/// so every step that is not bypassed.
pub fn chain_rendered(operation: &AudioOperation) -> (yes: bool)
    ensures
        yes == !operation.is_bypassed(),
{
    !operation.bypassed()
}

} // verus!
