//! Scrubbing: dragging the playhead.
//!
//! A drag asks for far more positions than can be decoded, so requests are
//! coalesced: there is one slot, a new position replaces the old, and the
//! worker always serves the latest. Each decode is a window around the target,
//! and every frame of it goes into a [`FrameCache`], bounded in bytes.
use super::frame::VideoFrame;
use super::plan::{ProgramTime, Segment};
use crate::keyframes::{Query, StreamIndex};
use crate::num::{clamped, min, saturating_sub, smaller};
use std::sync::Arc;
use vstd::prelude::*;

verus! {

/// The most frames one window decodes.
pub const WINDOW_MAX: usize = 48;

/// How far past the target a window may still be worth finishing for a newer
/// position.
pub const STILL_COMING: ProgramTime = 2_000_000;

/// A decoded frame of a segment.
#[derive(Debug)]
pub struct Cached {
    pub segment: usize,
    pub frame: Arc<VideoFrame>,
}

/// What is kept of a frame, in bytes.
pub open spec fn size_of_frame(cached: Cached) -> int {
    cached.frame.pixels@.len() as int
}

/// The bytes of all of `frames`.
pub open spec fn total_bytes(frames: Seq<Cached>) -> int
    decreases frames.len(),
{
    if frames.len() == 0 {
        0
    } else {
        total_bytes(frames.drop_last()) + size_of_frame(frames.last())
    }
}

/// The frame is that of `segment` at `pts`.
pub open spec fn is_frame(cached: Cached, segment: usize, pts: i64) -> bool {
    cached.segment == segment && cached.frame.pts == pts
}

/// No segment's frame is kept twice.
pub open spec fn distinct(frames: Seq<Cached>) -> bool {
    forall|i: int, j: int|
        0 <= i < j < frames.len() ==> !is_frame(
            #[trigger] frames[i],
            (#[trigger] frames[j]).segment,
            frames[j].frame.pts,
        )
}

/// `frames` without as many of the oldest as it takes to fit in `budget`.
pub open spec fn evicted(frames: Seq<Cached>, budget: int) -> Seq<Cached>
    decreases frames.len(),
{
    if frames.len() > 0 && total_bytes(frames) > budget {
        evicted(frames.skip(1), budget)
    } else {
        frames
    }
}

/// Decoded frames by segment and source timestamp, bounded in bytes. The
/// oldest insertions go first.
#[derive(Debug)]
pub struct FrameCache {
    pub budget: usize,
    pub bytes: usize,
    /// In order of insertion.
    pub frames: Vec<Cached>,
}

/// The first of `frames` adds its size to the rest's.
proof fn lemma_total_front(frames: Seq<Cached>)
    requires
        frames.len() > 0,
    ensures
        total_bytes(frames) == size_of_frame(frames[0]) + total_bytes(frames.skip(1)),
    decreases frames.len(),
{
    if frames.len() == 1 {
        assert(total_bytes(frames.drop_last()) == 0);
        assert(total_bytes(frames.skip(1)) == 0);
    } else {
        lemma_total_front(frames.drop_last());
        assert(frames.drop_last().skip(1) =~= frames.skip(1).drop_last());
        assert(frames.skip(1).last() == frames.last());
    }
}

/// Replacing a frame changes the total by the difference of the sizes.
proof fn lemma_total_update(frames: Seq<Cached>, i: int, cached: Cached)
    requires
        0 <= i < frames.len(),
    ensures
        total_bytes(frames.update(i, cached)) == total_bytes(frames) - size_of_frame(frames[i])
            + size_of_frame(cached),
    decreases frames.len(),
{
    let updated = frames.update(i, cached);
    if i == frames.len() - 1 {
        assert(updated.drop_last() =~= frames.drop_last());
    } else {
        lemma_total_update(frames.drop_last(), i, cached);
        assert(updated.drop_last() =~= frames.drop_last().update(i, cached));
        assert(updated.last() == frames.last());
    }
}

/// No total is negative, and no frame is larger than the total.
proof fn lemma_total_holds(frames: Seq<Cached>)
    ensures
        total_bytes(frames) >= 0,
        forall|i: int| 0 <= i < frames.len() ==> size_of_frame(#[trigger] frames[i]) <= total_bytes(frames),
    decreases frames.len(),
{
    if frames.len() > 0 {
        lemma_total_holds(frames.drop_last());
        assert forall|i: int| 0 <= i < frames.len() implies size_of_frame(#[trigger] frames[i]) <= total_bytes(frames) by {
            if i < frames.len() - 1 {
                assert(frames.drop_last()[i] == frames[i]);
            }
        }
    }
}

impl FrameCache {
    /// The bytes held are the frames', and within the budget.
    pub open spec fn wf(&self) -> bool {
        &&& self.bytes == total_bytes(self.frames@)
        &&& self.bytes <= self.budget
        &&& distinct(self.frames@)
    }

    /// The frames as they would be with `cached` in its place: where a frame
    /// of its segment and timestamp was, or as the newest.
    pub open spec fn placed(&self, cached: Cached) -> Seq<Cached> {
        if exists|i: int|
            0 <= i < self.frames@.len() && is_frame(
                #[trigger] self.frames@[i],
                cached.segment,
                cached.frame.pts,
            ) {
            let i = choose|i: int|
                0 <= i < self.frames@.len() && is_frame(
                    #[trigger] self.frames@[i],
                    cached.segment,
                    cached.frame.pts,
                );
            self.frames@.update(i, cached)
        } else {
            self.frames@.push(cached)
        }
    }

    /// An empty cache.
    pub fn new(budget: usize) -> (cache: FrameCache)
        ensures
            cache.wf(),
            cache.budget == budget,
            cache.frames@.len() == 0,
    {
        FrameCache { budget, bytes: 0, frames: Vec::new() }
    }

    /// Where the frame of `segment` at `pts` is.
    fn find(&self, segment: usize, pts: i64) -> (at: Option<usize>)
        ensures
            match at {
                Some(at) => at < self.frames@.len() && is_frame(
                    self.frames@[at as int],
                    segment,
                    pts,
                ),
                None => forall|i: int|
                    0 <= i < self.frames@.len() ==> !is_frame(
                        #[trigger] self.frames@[i],
                        segment,
                        pts,
                    ),
            },
    {
        let mut i: usize = 0;
        while i < self.frames.len()
            invariant
                i <= self.frames.len(),
                forall|j: int| 0 <= j < i ==> !is_frame(#[trigger] self.frames@[j], segment, pts),
            decreases self.frames.len() - i,
        {
            if self.frames[i].segment == segment && self.frames[i].frame.pts == pts {
                return Some(i);
            }
            i = i + 1;
        }
        None
    }

    /// The frame of `segment` at `pts`, if it is kept.
    pub fn get(&self, segment: usize, pts: i64) -> (frame: Option<&Arc<VideoFrame>>)
        ensures
            match frame {
                Some(frame) => exists|i: int|
                    0 <= i < self.frames@.len() && is_frame(
                        #[trigger] self.frames@[i],
                        segment,
                        pts,
                    ) && self.frames@[i].frame == *frame,
                None => forall|i: int|
                    0 <= i < self.frames@.len() ==> !is_frame(
                        #[trigger] self.frames@[i],
                        segment,
                        pts,
                    ),
            },
    {
        match self.find(segment, pts) {
            Some(at) => {
                assert(is_frame(self.frames@[at as int], segment, pts));
                Some(&self.frames[at].frame)
            },
            None => None,
        }
    }

    /// Keep a frame, dropping the oldest as far as the budget asks. One larger
    /// than the whole budget is not kept at all.
    pub fn insert(&mut self, segment: usize, frame: Arc<VideoFrame>)
        requires
            old(self).wf(),
        ensures
            final(self).wf(),
            final(self).budget == old(self).budget,
            frame.pixels@.len() > old(self).budget ==> *final(self) == *old(self),
            frame.pixels@.len() <= old(self).budget ==> final(self).frames@ == evicted(
                old(self).placed(Cached { segment, frame }),
                old(self).budget as int,
            ),
    {
        let size: usize = frame.pixels.len();
        if size > self.budget {
            return;
        }
        // Before the oldest go, there may be a frame more than can be held.
        let mut bytes: u128 = self.bytes as u128;
        let ghost before = self.frames@;
        let ghost cached = Cached { segment, frame };
        let pts: i64 = frame.pts;
        proof {
            lemma_total_holds(before);
        }
        match self.find(segment, pts) {
            Some(at) => {
                proof {
                    let i = choose|i: int|
                        0 <= i < before.len() && is_frame(#[trigger] before[i], segment, pts);
                    assert(is_frame(before[at as int], segment, pts));
                    if i < at {
                        assert(!is_frame(before[i], before[at as int].segment, before[at as int].frame.pts));
                    } else if at < i {
                        assert(!is_frame(before[at as int], before[i].segment, before[i].frame.pts));
                    }
                    lemma_total_update(before, at as int, cached);
                    assert(size_of_frame(before[at as int]) <= total_bytes(before));
                }
                let replaced: usize = self.frames[at].frame.pixels.len();
                bytes = bytes - replaced as u128;
                self.frames.set(at, Cached { segment, frame });
                assert(self.frames@ =~= before.update(at as int, cached));
            },
            None => {
                self.frames.push(Cached { segment, frame });
                assert(self.frames@ =~= before.push(cached));
                assert(self.frames@.drop_last() =~= before);
            },
        }
        bytes = bytes + size as u128;
        let ghost placed = self.frames@;
        let ghost budget = self.budget;
        proof {
            assert(placed == old(self).placed(cached));
            assert forall|i: int, j: int| 0 <= i < j < placed.len() implies !is_frame(
                #[trigger] placed[i],
                (#[trigger] placed[j]).segment,
                placed[j].frame.pts,
            ) by {
                if placed.len() == before.len() {
                    assert(!is_frame(before[i], before[j].segment, before[j].frame.pts));
                } else if j < before.len() {
                    assert(!is_frame(before[i], before[j].segment, before[j].frame.pts));
                } else {
                    assert(!is_frame(before[i], segment, pts));
                }
            }
        }
        while bytes > self.budget as u128
            invariant
                self.budget == budget,
                bytes == total_bytes(self.frames@),
                distinct(self.frames@),
                evicted(placed, budget as int) == evicted(self.frames@, budget as int),
            decreases self.frames.len(),
        {
            let ghost frames = self.frames@;
            proof {
                if frames.len() == 0 {
                    assert(total_bytes(frames) == 0);
                }
                lemma_total_front(frames);
                lemma_total_holds(frames.skip(1));
            }
            let oldest: Cached = self.frames.remove(0);
            assert(self.frames@ =~= frames.skip(1));
            bytes = bytes - oldest.frame.pixels.len() as u128;
        }
        self.bytes = bytes as usize;
    }
}

/// Whatever is dropped, the newest frame that fits stays: eviction never
/// empties a cache whose last frame is within the budget.
pub proof fn the_newest_frame_survives(frames: Seq<Cached>, budget: int)
    requires
        frames.len() > 0,
        size_of_frame(frames.last()) <= budget,
    ensures
        evicted(frames, budget).len() > 0,
        evicted(frames, budget).last() == frames.last(),
        total_bytes(evicted(frames, budget)) <= budget,
    decreases frames.len(),
{
    if total_bytes(frames) > budget {
        if frames.len() == 1 {
            assert(total_bytes(frames.drop_last()) == 0);
        } else {
            the_newest_frame_survives(frames.skip(1), budget);
        }
    }
}

/// What the scrub worker does next.
#[derive(Debug, Clone, Copy, PartialEq, Eq, Structural)]
pub enum Turn {
    Stopped,
    /// Serve this position; the direction is negative while dragging
    /// backwards.
    Serve(ProgramTime, i64),
    Wait,
}

/// The single slot between the transport and the scrub worker.
#[derive(Debug, Clone, Copy, PartialEq, Eq, Structural)]
pub struct ScrubSlot {
    /// The position asked for most recently.
    pub target: Option<ProgramTime>,
    /// The direction of travel: negative while dragging backwards.
    pub direction: i64,
    pub stopped: bool,
    /// Positions asked for.
    pub requests: u64,
    /// Windows decoded to serve them.
    pub decodes: u64,
}

impl Default for ScrubSlot {
    fn default() -> (slot: Self)
        ensures
            slot.target is None,
            slot.direction == 0,
            !slot.stopped,
            slot.requests == 0,
            slot.decodes == 0,
    {
        ScrubSlot { target: None, direction: 0, stopped: false, requests: 0, decodes: 0 }
    }
}

/// Which way a move from `previous` to `t` goes.
pub open spec fn direction_of(previous: ProgramTime, t: ProgramTime) -> i64 {
    if t > previous {
        1
    } else if t < previous {
        (-1) as i64
    } else {
        0
    }
}

impl ScrubSlot {
    /// What the worker does next: the position asked for last, if it is
    /// another than the one `served`, until the slot is stopped.
    pub open spec fn turn(self, served: Option<ProgramTime>) -> Turn {
        if self.stopped {
            Turn::Stopped
        } else {
            match self.target {
                Some(target) => if served == Some(target) {
                    Turn::Wait
                } else {
                    Turn::Serve(target, self.direction)
                },
                None => Turn::Wait,
            }
        }
    }

    /// Ask for `t`, replacing whatever was asked for before.
    pub fn request(&mut self, t: ProgramTime)
        requires
            old(self).requests < u64::MAX,
        ensures
            *final(self) == (ScrubSlot {
                target: Some(t),
                direction: match old(self).target {
                    Some(previous) => direction_of(previous, t),
                    None => old(self).direction,
                },
                requests: (old(self).requests + 1) as u64,
                ..*old(self)
            }),
    {
        if let Some(previous) = self.target {
            self.direction = if t > previous {
                1
            } else if t < previous {
                -1
            } else {
                0
            };
        }
        self.target = Some(t);
        self.requests = self.requests + 1;
    }

    pub fn stop(&mut self)
        ensures
            *final(self) == (ScrubSlot { stopped: true, ..*old(self) }),
    {
        self.stopped = true;
    }

    pub fn latest(&self) -> (target: Option<ProgramTime>)
        ensures
            target == self.target,
    {
        self.target
    }

    /// Positions asked for, and windows decoded to serve them.
    pub fn counts(&self) -> (counts: (u64, u64))
        ensures
            counts == (self.requests, self.decodes),
    {
        (self.requests, self.decodes)
    }

    /// The position to serve, if it is another than the one `served` last.
    pub fn next(&self, served: Option<ProgramTime>) -> (turn: Turn)
        ensures
            turn == self.turn(served),
    {
        if self.stopped {
            return Turn::Stopped;
        }
        match self.target {
            Some(target) => {
                let done = match served {
                    Some(served) => served == target,
                    None => false,
                };
                if done {
                    Turn::Wait
                } else {
                    Turn::Serve(target, self.direction)
                }
            },
            None => Turn::Wait,
        }
    }

    pub fn decoded_a_window(&mut self)
        requires
            old(self).decodes < u64::MAX,
        ensures
            *final(self) == (ScrubSlot { decodes: (old(self).decodes + 1) as u64, ..*old(self) }),
    {
        self.decodes = self.decodes + 1;
    }
}

/// Whatever was asked for before, and however often, the position asked for
/// last is the one served next.
pub proof fn the_latest_position_is_served(
    before: ScrubSlot,
    after: ScrubSlot,
    t: ProgramTime,
    served: Option<ProgramTime>,
)
    requires
        !before.stopped,
        after.stopped == before.stopped,
        after.target == Some(t),
        served != Some(t),
    ensures
        after.turn(served) matches Turn::Serve(at, _) && at == t,
{
}

/// How many frames a window decodes.
pub open spec fn window_size(budget: usize, frame_bytes: usize) -> int {
    let fit = budget as int / (if frame_bytes == 0 {
        1
    } else {
        frame_bytes as int
    });
    if fit < 2 {
        2
    } else if fit > WINDOW_MAX {
        WINDOW_MAX as int
    } else {
        fit
    }
}

/// How many frames a window decodes, and how many of them lie before the
/// target: most of the window lies the way the pointer is moving.
pub fn window(budget: usize, frame_bytes: usize, direction: i64) -> (size: (usize, usize))
    ensures
        size.0 == window_size(budget, frame_bytes),
        size.1 == (if direction < 0 {
            size.0 - size.0 / 4
        } else {
            (size.0 / 4) as int
        }),
{
    let bytes: usize = if frame_bytes == 0 {
        1
    } else {
        frame_bytes
    };
    let mut fit: usize = budget / bytes;
    if fit < 2 {
        fit = 2;
    } else if fit > WINDOW_MAX {
        fit = WINDOW_MAX;
    }
    let behind: usize = if direction < 0 {
        fit - fit / 4
    } else {
        fit / 4
    };
    (fit, behind)
}

/// The tick of a segment that a position shows: never past its last.
pub open spec fn scrub_tick(segment: Segment, t: ProgramTime) -> i64 {
    smaller(segment.tick_at(t) as int, clamped(segment.source_out - 1) as int) as i64
}

/// What `index` says of the frame that a position of a segment shows: the
/// newest at or before its tick, else the first after, else the tick itself;
/// where that cannot be told yet, the tick that must be read first.
pub open spec fn shows(
    index: StreamIndex,
    segment: Segment,
    t: ProgramTime,
    frame: Query<i64>,
) -> bool {
    let tick = scrub_tick(segment, t);
    match frame {
        Query::Known(pts) => {
            ||| index.answers_frame(tick, Query::Known(Some(pts)))
            ||| index.answers_frame(tick, Query::Known(None)) && index.answers_frame_after(
                tick,
                Query::Known(Some(pts)),
            )
            ||| index.answers_frame(tick, Query::Known(None)) && index.answers_frame_after(
                tick,
                Query::Known(None),
            ) && pts == tick
        },
        Query::Unread(from) => {
            ||| index.answers_frame(tick, Query::Unread(from))
            ||| index.answers_frame(tick, Query::Known(None)) && index.answers_frame_after(
                tick,
                Query::Unread(from),
            )
        },
    }
}

/// The frame that position `t` of `segment` shows.
pub fn scrub_frame(index: &StreamIndex, segment: &Segment, t: ProgramTime) -> (frame: Query<i64>)
    requires
        index.wf(),
    ensures
        shows(*index, *segment, t, frame),
{
    let tick: i64 = min(segment.source_at(t), saturating_sub(segment.source_out, 1));
    match index.frame_at_or_before(tick) {
        Query::Unread(from) => Query::Unread(from),
        Query::Known(Some(pts)) => Query::Known(pts),
        Query::Known(None) => match index.frame_after(tick) {
            Query::Unread(from) => Query::Unread(from),
            Query::Known(Some(pts)) => Query::Known(pts),
            Query::Known(None) => Query::Known(tick),
        },
    }
}

/// What `index` says of where a window starts: `behind` frames back from
/// `frame`, one by one, as long as there is one and it starts no sooner than
/// the segment, as one that began before the in point does; where a step
/// cannot be told yet, the tick that must be read first.
pub open spec fn walks_back(
    index: StreamIndex,
    segment: Segment,
    frame: i64,
    behind: nat,
    first: Query<i64>,
) -> bool
    decreases behind,
{
    if behind == 0 {
        first == Query::Known(frame)
    } else {
        exists|before: Query<Option<i64>>| #[trigger]
            index.answers_frame(clamped(frame - 1), before) && match before {
                Query::Unread(from) => first == Query::<i64>::Unread(from),
                Query::Known(Some(previous)) => if segment.place_of(previous)
                    >= segment.timeline_start {
                    walks_back(index, segment, previous, (behind - 1) as nat, first)
                } else {
                    first == Query::Known(frame)
                },
                Query::Known(None) => first == Query::Known(frame),
            }
    }
}

/// Where a window of `segment` starts whose target is `frame`, with `behind`
/// frames before it.
pub fn window_start(index: &StreamIndex, segment: &Segment, frame: i64, behind: usize) -> (first:
    Query<i64>)
    requires
        index.wf(),
    ensures
        walks_back(*index, *segment, frame, behind as nat, first),
{
    let mut first: i64 = frame;
    let mut left: usize = behind;
    while left > 0
        invariant
            index.wf(),
            forall|found: Query<i64>| #[trigger]
                walks_back(*index, *segment, first, left as nat, found) ==> walks_back(
                    *index,
                    *segment,
                    frame,
                    behind as nat,
                    found,
                ),
        decreases left,
    {
        let before = index.frame_before(first);
        assert(index.answers_frame(clamped(first - 1), before));
        match before {
            Query::Unread(from) => {
                assert(walks_back(*index, *segment, first, left as nat, Query::Unread(from)));
                return Query::Unread(from);
            },
            Query::Known(Some(previous)) => {
                if segment.program_at(previous) < segment.timeline_start {
                    assert(walks_back(*index, *segment, first, left as nat, Query::Known(first)));
                    return Query::Known(first);
                }
                let ghost (last, steps) = (first, left as nat);
                first = previous;
                left = left - 1;
                assert forall|found: Query<i64>| #[trigger]
                    walks_back(*index, *segment, first, left as nat, found) implies walks_back(
                    *index,
                    *segment,
                    frame,
                    behind as nat,
                    found,
                ) by {
                    assert(walks_back(*index, *segment, last, steps, found));
                }
            },
            Query::Known(None) => {
                assert(walks_back(*index, *segment, first, left as nat, Query::Known(first)));
                return Query::Known(first);
            },
        }
    }
    assert(walks_back(*index, *segment, first, 0, Query::Known(first)));
    Query::Known(first)
}

/// Whether a window decoded for `t` is given up for a newer position: never
/// before its own frame is up, and then for any other position that the rest
/// of the window will not reach soon.
pub fn gives_up(shown: bool, newer: Option<ProgramTime>, t: ProgramTime, direction: i64) -> (yes:
    bool)
    ensures
        yes == (shown && match newer {
            Some(newer) => newer != t && !(direction >= 0 && newer > t && newer - t
                < STILL_COMING),
            None => false,
        }),
{
    match newer {
        Some(newer) => shown && newer != t && !(direction >= 0 && newer > t && (newer as i128) - (
        t as i128) < STILL_COMING as i128),
        None => false,
    }
}

} // verus!
