//! An edited sequence as it plays: which clips stand where.
use crate::num::{clamped, saturating_add};
use crate::probe::Rational;
use crate::tier::ReEncodeReason;
use vstd::prelude::*;

verus! {

/// A file of the project.
pub type SourceId = u64;

/// A clip on a track.
pub type ClipId = u64;

/// A track of the sequence.
pub type TrackId = u32;

/// What a track holds.
#[derive(Debug, Clone, Copy, PartialEq, Eq, Structural)]
pub enum TrackKind {
    Video,
    Audio,
}

/// A clip that does not simply play forwards.
#[derive(Debug, Clone, Copy, PartialEq, Eq, Structural)]
pub enum Motion {
    /// One frame, held.
    Hold,
    Reverse,
}

/// One step of a clip's audio chain.
#[derive(Debug, PartialEq, Eq)]
pub enum AudioOperation {
    /// `db` is the decimal text of the gain in decibels.
    Gain { db: String },
    Denoise { bypassed: bool },
    /// The target and the ceiling are decimal texts, in LUFS and dBTP; the
    /// gain, once it is measured, in decibels.
    Normalise { target: String, ceiling: String, gain: Option<String>, bypassed: bool },
}

impl AudioOperation {
    /// The step is kept and applied to nothing.
    pub open spec fn is_bypassed(self) -> bool {
        match self {
            AudioOperation::Gain { .. } => false,
            AudioOperation::Denoise { bypassed } => bypassed,
            AudioOperation::Normalise { bypassed, .. } => bypassed,
        }
    }

    /// Whether the step is kept and applied to nothing.
    pub fn bypassed(&self) -> (yes: bool)
        ensures
            yes == self.is_bypassed(),
    {
        match self {
            AudioOperation::Gain { .. } => false,
            AudioOperation::Denoise { bypassed } => *bypassed,
            AudioOperation::Normalise { bypassed, .. } => *bypassed,
        }
    }

    /// The same step once more.
    pub fn copy(&self) -> (same: AudioOperation)
        ensures
            same == *self,
    {
        match self {
            AudioOperation::Gain { db } => AudioOperation::Gain { db: db.clone() },
            AudioOperation::Denoise { bypassed } => AudioOperation::Denoise { bypassed: *bypassed },
            AudioOperation::Normalise { target, ceiling, gain, bypassed } => {
                AudioOperation::Normalise {
                    target: target.clone(),
                    ceiling: ceiling.clone(),
                    gain: match gain {
                        Some(gain) => Some(gain.clone()),
                        None => None,
                    },
                    bypassed: *bypassed,
                }
            },
        }
    }
}

/// Some step of a chain is applied.
pub open spec fn some_applied(chain: Seq<AudioOperation>) -> bool {
    exists|i: int| 0 <= i < chain.len() && !(#[trigger] chain[i]).is_bypassed()
}

/// Whether some step of a chain is applied.
pub fn any_applied(chain: &Vec<AudioOperation>) -> (yes: bool)
    ensures
        yes == some_applied(chain@),
{
    let mut i: usize = 0;
    while i < chain.len()
        invariant
            i <= chain@.len(),
            forall|j: int| 0 <= j < i ==> (#[trigger] chain@[j]).is_bypassed(),
        decreases chain@.len() - i,
    {
        if !chain[i].bypassed() {
            return true;
        }
        i += 1;
    }
    false
}

/// A chain once more.
pub fn copy_chain(chain: &Vec<AudioOperation>) -> (same: Vec<AudioOperation>)
    ensures
        same@ == chain@,
{
    let mut same: Vec<AudioOperation> = Vec::new();
    let mut i: usize = 0;
    while i < chain.len()
        invariant
            i <= chain@.len(),
            same@ == chain@.take(i as int),
        decreases chain@.len() - i,
    {
        same.push(chain[i].copy());
        proof {
            assert(chain@.take(i + 1) =~= chain@.take(i as int).push(chain@[i as int]));
        }
        i += 1;
    }
    proof {
        assert(chain@.take(i as int) =~= chain@);
    }
    same
}

/// A clip where it plays.
#[derive(Debug, PartialEq, Eq)]
pub struct Placement {
    pub track: TrackId,
    pub clip: ClipId,
    pub source: SourceId,
    pub stream: u32,
    /// Sequence frames.
    pub start: i64,
    pub length: i64,
    /// Ticks of `time_base`.
    pub source_in: i64,
    pub source_out: i64,
    pub time_base: Rational,
    pub speed: Rational,
    pub motion: Option<Motion>,
    /// Why the clip cannot be copied whatever else holds.
    pub forced: Option<ReEncodeReason>,
    /// The clip's own sound does not play.
    pub silent: bool,
    pub audio: Vec<AudioOperation>,
    /// Which chain `audio` is: one number for the same steps.
    pub chain: u64,
}

impl Placement {
    /// The first frame behind the clip.
    pub open spec fn end_frame(&self) -> i64 {
        clamped(self.start + self.length)
    }

    /// The clip stands within the first `length` frames.
    pub open spec fn within(&self, length: int) -> bool {
        0 <= self.start && 0 < self.length && self.start + self.length <= length
    }

    /// The first frame behind the clip.
    pub fn end(&self) -> (frame: i64)
        ensures
            frame == self.end_frame(),
    {
        saturating_add(self.start, self.length)
    }
}

/// A way in which a source's pictures are not the sequence's.
#[derive(Debug, Clone, Copy, PartialEq, Eq, Structural)]
pub enum Mismatch {
    Resolution { sequence_width: u32, sequence_height: u32, source_width: u32, source_height: u32 },
    FrameRate { sequence: Rational, source: Rational },
    PixelAspect { sequence: Rational, source: Rational },
}

/// The shape of a sequence.
#[derive(Debug, Clone, Copy, PartialEq, Eq, Structural)]
pub struct SequenceSettings {
    pub width: u32,
    pub height: u32,
    pub frame_rate: Rational,
    pub pixel_aspect: Rational,
}

/// A stretch of the picture: the clip shown, and how it stands to the
/// sequence.
#[derive(Debug, PartialEq, Eq)]
pub struct Picture {
    pub placement: Placement,
    /// The frame rate the clip's speed makes, where no file can carry it.
    pub rate_outside_container: Option<Rational>,
    /// What keeps the clip from being copied into the sequence's shape.
    pub mismatches: Vec<Mismatch>,
}

/// A track's clips, in order.
#[derive(Debug, PartialEq, Eq)]
pub struct Track {
    pub id: TrackId,
    pub kind: TrackKind,
    pub audible: bool,
    pub placements: Vec<Placement>,
}

/// A sequence as it plays.
#[derive(Debug, PartialEq, Eq)]
pub struct Timeline {
    /// The length of a frame.
    pub time_base: Rational,
    pub frame_rate: Rational,
    /// How many frames play.
    pub length: i64,
    /// The clips that are seen, in order, none over another.
    pub picture: Vec<Picture>,
    pub tracks: Vec<Track>,
}

impl Timeline {
    /// The pictures seen follow one another and end no earlier than they
    /// start, and every clip stands within the sequence.
    pub open spec fn wf(&self) -> bool {
        &&& forall|i: int|
            0 <= i < self.picture@.len() ==> (#[trigger] self.picture@[i]).placement.within(
                self.length as int,
            )
        &&& forall|i: int, j: int|
            #![trigger self.picture@[i], self.picture@[j]]
            0 <= i < j < self.picture@.len() ==> self.picture@[i].placement.start
                + self.picture@[i].placement.length <= self.picture@[j].placement.start
        &&& forall|i: int|
            0 <= i < self.picture@.len() ==> (#[trigger] self.picture@[i]).placement.source_in
                <= self.picture@[i].placement.source_out
        &&& forall|t: int, i: int|
            #![trigger self.tracks@[t].placements@[i]]
            0 <= t < self.tracks@.len() && 0 <= i < self.tracks@[t].placements@.len()
                ==> self.tracks@[t].placements@[i].within(self.length as int)
    }
}

} // verus!
