//! The playback clock: which timeline position is being heard now.
//!
//! The clock is derived from audio, never from a timer or from frame delivery.
//! Samples are written to the output buffer and an [`Anchor`] is recorded
//! wherever the mapping from samples to timeline jumps: the start, a seek, a
//! loop, a speed change. The position is the anchor's timeline position plus
//! the frames heard since it, at the anchor's speed. It never runs past the
//! audio that has been consumed.
//!
//! Every discontinuity starts a new *generation*, so that a decode prepared
//! for the far side of a loop is not mistaken for the one playing now.
use super::transport::PreviewSpeed;
use crate::num::{clamped, saturating_add};
use vstd::prelude::*;

verus! {

/// What one output frame is counted as: heard frames are given in millionths,
/// so that the position moves smoothly between device callbacks.
pub const FRAME_PARTS: u64 = 1_000_000;

/// Where the mapping from output frames to the timeline changes.
#[derive(Debug, Clone, Copy, PartialEq, Eq, Structural)]
pub struct Anchor {
    /// The output-buffer frame the mapping starts at.
    pub frame: u64,
    /// The timeline position of that frame.
    pub at: i64,
    pub speed: PreviewSpeed,
    pub generation: u64,
}

/// Whether the clock moves.
#[derive(Debug, Clone, Copy, PartialEq, Eq, Structural)]
pub enum Mode {
    Paused { at: i64, generation: u64 },
    Running,
}

/// The playback clock.
#[derive(Debug)]
pub struct PlaybackClock {
    pub mode: Mode,
    pub anchors: Vec<Anchor>,
    /// The last position reported, and its generation, so the clock never
    /// moves backwards within one.
    pub last: (u64, i64),
}

/// The anchors not yet spent: the newest one already reached and everything
/// after it.
pub open spec fn unspent(anchors: Seq<Anchor>, heard: u64) -> Seq<Anchor>
    decreases anchors.len(),
{
    if anchors.len() > 1 && anchors[1].frame * FRAME_PARTS <= heard {
        unspent(anchors.skip(1), heard)
    } else {
        anchors
    }
}

/// The timeline position `heard` millionths of output frames have reached,
/// from `anchor` on: the anchor's own before its first frame is heard.
pub open spec fn position_from(anchor: Anchor, heard: u64, sample_rate: u32) -> i64 {
    let since = heard - anchor.frame * FRAME_PARTS;
    let rate = if sample_rate == 0 {
        1int
    } else {
        sample_rate as int
    };
    let micros = if since <= 0 {
        0
    } else {
        (since * anchor.speed.quarters()) / (4 * rate)
    };
    clamped(anchor.at + clamped(micros))
}

/// What a running clock reports: the position reached from the anchor in
/// force, but never behind the last one of the same generation.
pub open spec fn reported(
    anchors: Seq<Anchor>,
    last: (u64, i64),
    heard: u64,
    sample_rate: u32,
) -> (u64, i64) {
    if anchors.len() == 0 {
        last
    } else {
        let anchor = unspent(anchors, heard)[0];
        let at = position_from(anchor, heard, sample_rate);
        if last.0 == anchor.generation && at < last.1 {
            last
        } else {
            (anchor.generation, at)
        }
    }
}

/// A frame's place in millionths of frames.
fn in_parts(frame: u64) -> (parts: u128)
    ensures
        parts == frame * FRAME_PARTS,
{
    frame as u128 * 1_000_000
}

impl PlaybackClock {
    /// A clock paused at `at`.
    pub fn new(at: i64, generation: u64) -> (clock: PlaybackClock)
        ensures
            clock.mode == (Mode::Paused { at, generation }),
            clock.anchors@.len() == 0,
            clock.last == (generation, at),
    {
        PlaybackClock {
            mode: Mode::Paused { at, generation },
            anchors: Vec::new(),
            last: (generation, at),
        }
    }

    /// Stop at `at`, in `generation`, dropping every anchor.
    pub fn pause(&mut self, at: i64, generation: u64)
        ensures
            final(self).mode == (Mode::Paused { at, generation }),
            final(self).anchors@.len() == 0,
            final(self).last == (generation, at),
    {
        self.mode = Mode::Paused { at, generation };
        self.anchors = Vec::new();
        self.last = (generation, at);
    }

    /// Run from `anchor` onwards.
    pub fn run(&mut self, anchor: Anchor)
        ensures
            final(self).mode == Mode::Running,
            final(self).anchors@ == seq![anchor],
            final(self).last == (anchor.generation, anchor.at),
    {
        self.mode = Mode::Running;
        let mut anchors: Vec<Anchor> = Vec::new();
        anchors.push(anchor);
        assert(anchors@ =~= seq![anchor]);
        self.anchors = anchors;
        self.last = (anchor.generation, anchor.at);
    }

    /// Add a discontinuity, at an output frame later than every earlier one.
    pub fn anchor(&mut self, anchor: Anchor)
        ensures
            final(self).mode == old(self).mode,
            final(self).anchors@ == old(self).anchors@.push(anchor),
            final(self).last == old(self).last,
    {
        self.anchors.push(anchor);
    }

    /// The generation and timeline position heard now, given how many
    /// millionths of output frames have been heard and the output rate.
    pub fn position(&mut self, heard: u64, sample_rate: u32) -> (now: (u64, i64))
        ensures
            final(self).mode == old(self).mode,
            match old(self).mode {
                Mode::Paused { at, generation } => {
                    &&& now == (generation, at)
                    &&& *final(self) == *old(self)
                },
                Mode::Running => {
                    &&& now == reported(old(self).anchors@, old(self).last, heard, sample_rate)
                    &&& final(self).last == now
                    &&& final(self).anchors@ == unspent(old(self).anchors@, heard)
                },
            },
    {
        if let Mode::Paused { at, generation } = self.mode {
            return (generation, at);
        }
        let ghost before = self.anchors@;
        let ghost last = self.last;
        let ghost mode = self.mode;
        // The newest anchor already reached; earlier ones are spent.
        while self.anchors.len() > 1 && in_parts(self.anchors[1].frame) <= heard as u128
            invariant
                unspent(before, heard) == unspent(self.anchors@, heard),
                self.last == last,
                self.mode == mode,
                before.len() > 0 ==> self.anchors@.len() > 0,
                before.len() == 0 ==> self.anchors@ == before,
            decreases self.anchors.len(),
        {
            let ghost earlier = self.anchors@;
            let _ = self.anchors.remove(0);
            assert(self.anchors@ =~= earlier.skip(1));
        }
        if self.anchors.len() == 0 {
            return self.last;
        }
        let anchor: Anchor = self.anchors[0];
        let reached: u128 = in_parts(anchor.frame);
        let rate: u128 = if sample_rate == 0 {
            1
        } else {
            sample_rate as u128
        };
        let micros: i64 = if heard as u128 <= reached {
            0
        } else {
            let since: u128 = heard as u128 - reached;
            let quarters: u128 = anchor.speed.in_quarters() as u128;
            assert(since * quarters <= u64::MAX * 8) by (nonlinear_arith)
                requires
                    since <= u64::MAX,
                    quarters <= 8,
            ;
            let micros: u128 = (since * quarters) / (4 * rate);
            if micros > i64::MAX as u128 {
                i64::MAX
            } else {
                micros as i64
            }
        };
        let at: i64 = saturating_add(anchor.at, micros);
        if !(self.last.0 == anchor.generation && at < self.last.1) {
            self.last = (anchor.generation, at);
        }
        self.last
    }
}

/// The clock never moves backwards within a generation.
pub proof fn the_clock_never_moves_backwards(
    anchors: Seq<Anchor>,
    last: (u64, i64),
    heard: u64,
    sample_rate: u32,
)
    ensures
        ({
            let now = reported(anchors, last, heard, sample_rate);
            now.0 == last.0 ==> now.1 >= last.1
        }),
{
}

/// An anchor whose frame has not been heard yet holds the clock at its own
/// position: video never runs ahead of sound.
pub proof fn before_its_frame_an_anchor_holds(anchor: Anchor, heard: u64, sample_rate: u32)
    requires
        heard <= anchor.frame * FRAME_PARTS,
    ensures
        position_from(anchor, heard, sample_rate) == anchor.at,
{
}

} // verus!
