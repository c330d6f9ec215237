//! What the player tells of itself.
use crate::playback::plan::{playing_at, PlaybackPlan, ProgramTime};
use crate::playback::timecode::{frame_number, frame_of, nominal, shown};
use crate::playback::transport::{LoopRange, PlaybackState, PreviewSpeed};
use crate::probe::Rational;
use vstd::prelude::*;

verus! {

/// What the player is doing. `A` is what its sound comes out of.
#[derive(Debug)]
pub struct PlaybackStatus<A> {
    pub state: PlaybackState,
    /// The timeline position being heard, in microseconds. Paused, it is the
    /// start of the frame on screen.
    pub position: ProgramTime,
    pub duration: ProgramTime,
    /// The rate timecode counts frames in.
    pub frame_rate: Rational,
    /// The frame at `position`, `HH:MM:SS:FF`.
    pub timecode: String,
    pub duration_timecode: String,
    pub speed: PreviewSpeed,
    pub loop_range: Option<LoopRange>,
    pub audio: A,
    /// A seek or a scrub has not yet put its frame on screen.
    pub resolving: bool,
    /// The picture at `position` comes from a preview proxy, not the file.
    pub proxy: bool,
}

/// A position within the timeline.
pub open spec fn within(t: ProgramTime, end: ProgramTime) -> ProgramTime {
    if t < 0 {
        0
    } else if t > end {
        end
    } else {
        t
    }
}

/// The number of the frame at a position.
pub open spec fn frame_at(position: ProgramTime, rate: Rational) -> int {
    if rate.den <= 0 {
        0
    } else if i64::MIN <= frame_of(position as int, rate) <= i64::MAX {
        frame_of(position as int, rate)
    } else {
        i64::MAX as int
    }
}

/// The timecode of the frame at a position.
pub open spec fn timecode_at(position: ProgramTime, rate: Rational) -> Seq<char> {
    let frame = frame_at(position, rate);
    shown(
        if frame < 0 {
            0
        } else {
            frame
        },
        nominal(rate),
    )
}

/// The place whose picture is asked for: the last one before the end, at the
/// end.
pub open spec fn pictured(position: ProgramTime, end: ProgramTime) -> ProgramTime {
    if position < end {
        position
    } else if end > i64::MIN {
        (end - 1) as i64
    } else {
        end
    }
}

/// The picture at a position comes from a proxy.
pub open spec fn from_proxy(plan: PlaybackPlan, position: ProgramTime, end: ProgramTime) -> bool {
    playing_at(plan.segments@, pictured(position, end)) matches Some(i)
        && plan.segments@[i as int].source.proxy
}

/// What the player is doing, at timeline position `t`.
pub fn status<A>(
    plan: &PlaybackPlan,
    t: ProgramTime,
    state: PlaybackState,
    speed: PreviewSpeed,
    loop_range: Option<LoopRange>,
    resolving: bool,
    audio: A,
) -> (status: PlaybackStatus<A>)
    requires
        plan.length() >= 0,
    ensures
        status.state == state,
        status.speed == speed,
        status.loop_range == loop_range,
        status.resolving == resolving,
        status.audio == audio,
        status.frame_rate == plan.frame_rate,
        status.duration == plan.length(),
        status.position == within(t, plan.length()),
        status.timecode@ == timecode_at(status.position, plan.frame_rate),
        status.duration_timecode@ == timecode_at(plan.length(), plan.frame_rate),
        status.proxy == from_proxy(*plan, status.position, plan.length()),
{
    let duration = plan.duration();
    let position = if t < 0 {
        0
    } else if t > duration {
        duration
    } else {
        t
    };
    let picture = if position < duration {
        position
    } else {
        duration - 1
    };
    let proxy = match plan.segment_at(picture) {
        Some(i) => plan.segments[i].source.proxy,
        None => false,
    };
    PlaybackStatus {
        state,
        position,
        duration,
        frame_rate: plan.frame_rate,
        timecode: crate::playback::timecode::format(frame_number(position, plan.frame_rate), plan.frame_rate),
        duration_timecode: crate::playback::timecode::format(
            frame_number(duration, plan.frame_rate),
            plan.frame_rate,
        ),
        speed,
        loop_range,
        audio,
        resolving,
        proxy,
    }
}

} // verus!
