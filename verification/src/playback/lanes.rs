//! Video lanes: one decoder per segment being shown or about to be.
//!
//! A lane serves one segment in one clock generation. The lane for the segment
//! playing is the one presented from; the lane for the next is started before
//! the boundary, so a clip boundary never waits for a process to start.
use super::plan::{same_segment, PlaybackPlan, Segment};
use crate::num::{clamped, saturating_add, saturating_sub};
use crate::probe::Rational;
use crate::time::{rounded, Rounding};
use vstd::prelude::*;

verus! {

/// Memory one lane's ring may hold. Two lanes are live at a boundary.
pub const LANE_BUDGET_BYTES: usize = 67_108_864;

/// Counter-clockwise rotation to draw a segment's frames with: the source's,
/// or none for a proxy, which was made upright.
pub fn rotation_of(segment: &Segment) -> (rotation: u32)
    ensures
        rotation == (match segment.source.video {
            Some(video) => if segment.source.proxy {
                0
            } else {
                video.rotation
            },
            None => 0,
        }),
{
    match segment.source.video {
        Some(video) => if segment.source.proxy {
            0
        } else {
            video.rotation
        },
        None => 0,
    }
}

/// Which segment a lane serves, and in which generation.
#[derive(Debug, Clone, Copy, PartialEq, Eq, Structural)]
pub struct LaneKey {
    pub segment: usize,
    pub generation: u64,
}

/// A lane is kept while `generation` plays from `segment` on: it serves a
/// later generation, or this one from that segment on.
pub open spec fn kept(lane: LaneKey, generation: u64, segment: Option<usize>) -> bool {
    lane.generation > generation || (lane.generation == generation && (segment matches Some(s)
        ==> lane.segment >= s))
}

/// Whether a lane is kept while `generation` plays from `segment` on.
pub fn serves(lane: LaneKey, generation: u64, segment: Option<usize>) -> (yes: bool)
    ensures
        yes == kept(lane, generation, segment),
{
    lane.generation > generation || (lane.generation == generation && match segment {
        Some(s) => lane.segment >= s,
        None => true,
    })
}

/// Two segments play the same thing at the same place.
pub open spec fn same_play(a: Segment, b: Segment) -> bool {
    a.source.id == b.source.id && a.source_in == b.source_in && a.source_out == b.source_out
        && a.timeline_start == b.timeline_start && a.speed == b.speed
}

/// Where a lane goes when the plan is replaced: under the first segment of the
/// new plan that plays what its own did, if it serves `generation`; it is
/// dropped where there is none.
pub fn remapped(lane: LaneKey, old: &PlaybackPlan, new: &PlaybackPlan, generation: u64) -> (moved:
    Option<usize>)
    ensures
        match moved {
            Some(k) => {
                &&& lane.generation == generation && lane.segment < old.segments@.len()
                &&& k < new.segments@.len()
                &&& same_play(old.segments@[lane.segment as int], new.segments@[k as int])
                &&& forall|j: int|
                    0 <= j < k ==> !same_play(
                        old.segments@[lane.segment as int],
                        #[trigger] new.segments@[j],
                    )
            },
            None => lane.generation != generation || lane.segment >= old.segments@.len()
                || forall|j: int|
                0 <= j < new.segments@.len() ==> !same_play(
                    old.segments@[lane.segment as int],
                    #[trigger] new.segments@[j],
                ),
        },
{
    if lane.generation != generation || lane.segment >= old.segments.len() {
        return None;
    }
    let before: Segment = old.segments[lane.segment];
    let mut k: usize = 0;
    while k < new.segments.len()
        invariant
            k <= new.segments.len(),
            lane.segment < old.segments@.len(),
            lane.generation == generation,
            before == old.segments@[lane.segment as int],
            forall|j: int| 0 <= j < k ==> !same_play(before, #[trigger] new.segments@[j]),
        decreases new.segments.len() - k,
    {
        if same_segment(&before, &new.segments[k]) {
            return Some(k);
        }
        k = k + 1;
    }
    None
}

/// What a decoder that may be falling behind calls for.
#[derive(Debug, Clone, Copy, PartialEq, Eq, Structural)]
pub enum KeepUp {
    Nothing,
    /// Restart at the first keyframe at or after this tick.
    RestartAfter(i64),
}

/// The clock has run a second or more past tick `head`.
pub open spec fn far_behind(now: i64, head: i64, time_base: Rational) -> bool {
    clamped(now - head) * time_base.num >= time_base.den
}

/// Three tenths of a second, in ticks.
pub open spec fn resync_lead(time_base: Rational) -> int {
    rounded(3 * time_base.den, 10 * time_base.num, Rounding::Nearest)
}

/// Whether a running decoder whose newest frame is `head` is restarted ahead
/// of a clock at tick `now`: when it is a second behind and was not restarted
/// recently. It then aims three tenths of a second ahead.
pub fn keep_up(now: i64, head: Option<i64>, ended: bool, recently: bool, time_base: Rational) -> (
decision: KeepUp)
    requires
        time_base.positive(),
    ensures
        decision == (match head {
            Some(head) => if !ended && !recently && far_behind(now, head, time_base) {
                KeepUp::RestartAfter(clamped(now + clamped(resync_lead(time_base))))
            } else {
                KeepUp::Nothing
            },
            None => KeepUp::Nothing,
        }),
{
    let head: i64 = match head {
        Some(head) => head,
        None => {
            return KeepUp::Nothing;
        },
    };
    if ended || recently {
        return KeepUp::Nothing;
    }
    let behind: i128 = saturating_sub(now, head) as i128;
    let num: i128 = time_base.num as i128;
    assert(-0x8000_0000_0000_0000 * 0x8000_0000_0000_0000 <= behind * num <= 0x8000_0000_0000_0000
        * 0x8000_0000_0000_0000) by (nonlinear_arith)
        requires
            -0x8000_0000_0000_0000 <= behind <= 0x7fff_ffff_ffff_ffff,
            0 <= num <= 0x7fff_ffff_ffff_ffff,
    ;
    if behind * num < time_base.den as i128 {
        return KeepUp::Nothing;
    }
    let n: i128 = 3 * time_base.den as i128;
    let d: i128 = 10 * time_base.num as i128;
    let floor: i128 = n / d;
    let rest: i128 = n % d;
    proof {
        vstd::arithmetic::div_mod::lemma_fundamental_div_mod(n as int, d as int);
        vstd::arithmetic::div_mod::lemma_mod_bound(n as int, d as int);
        assert(0 <= n as int / d as int <= n) by (nonlinear_arith)
            requires
                n >= 0,
                d >= 1,
        ;
    }
    let lead: i128 = if 2 * rest < d {
        floor
    } else {
        floor + 1
    };
    let lead: i64 = if lead > i64::MAX as i128 {
        i64::MAX
    } else {
        lead as i64
    };
    KeepUp::RestartAfter(saturating_add(now, lead))
}

} // verus!
