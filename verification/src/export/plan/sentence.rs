//! The causes of a plan in sentences.
use crate::export::plan::{Cause, CauseModel, EncodingField};
use crate::probe::Rational;
use crate::project::Mismatch;
use crate::text::{decimal, push_decimal};
use crate::tier::ReEncodeReason;
use vstd::prelude::*;

verus! {

/// The names of the first `count` fields, with commas between them.
pub open spec fn listed(fields: Seq<EncodingField>, count: int) -> Seq<char>
    decreases count,
{
    if count <= 0 {
        Seq::empty()
    } else if count == 1 {
        fields[0].name()
    } else {
        listed(fields, count - 1) + ", "@ + fields[count - 1].name()
    }
}

/// The names of the fields, with commas between them.
fn list(fields: &Vec<EncodingField>) -> (text: String)
    ensures
        text@ == listed(fields@, fields@.len() as int),
{
    let mut text = String::new();
    let mut i: usize = 0;
    while i < fields.len()
        invariant
            i <= fields@.len(),
            text@ == listed(fields@, i as int),
        decreases fields@.len() - i,
    {
        if i > 0 {
            text.append(", ");
        }
        text.append(fields[i].text());
        proof {
            assert(text@ =~= listed(fields@, i + 1));
        }
        i += 1;
    }
    text
}

/// A mismatch in a sentence; `first` and `second` are the clip's frame rate
/// and the sequence's in decimals.
pub open spec fn mismatch_words(
    mismatch: Mismatch,
    first: Seq<char>,
    second: Seq<char>,
) -> Seq<char> {
    match mismatch {
        Mismatch::Resolution { sequence_width, sequence_height, source_width, source_height } => {
            "The clip is "@ + decimal(source_width as nat) + "×"@ + decimal(source_height as nat)
                + " and the sequence is "@ + decimal(sequence_width as nat) + "×"@ + decimal(
                sequence_height as nat,
            ) + ", so its pictures are re-encoded to fit."@
        },
        Mismatch::FrameRate { .. } => {
            "The clip runs at "@ + first + " frames a second and the sequence at "@ + second
                + ", so its pictures are re-encoded to fit."@
        },
        Mismatch::PixelAspect { .. } =>
            "The clip's pixel shape is not the sequence's, so its pictures are re-encoded to fit."@,
    }
}

impl CauseModel {
    /// The rates that the cause speaks of.
    pub open spec fn rates(self) -> (Option<Rational>, Option<Rational>) {
        match self {
            CauseModel::SpeedOutsideContainer { rate } => (Some(rate), None),
            CauseModel::SequenceMismatch {
                mismatch: Mismatch::FrameRate { sequence, source },
            } => (Some(source), Some(sequence)),
            CauseModel::AudioSpeed { speed } => (Some(speed), None),
            _ => (None, None),
        }
    }

    /// The cause in a sentence; `first` and `second` are the rates that it
    /// speaks of in decimals.
    pub open spec fn words(self, first: Seq<char>, second: Seq<char>) -> Seq<char> {
        match self {
            CauseModel::InPointNotKeyframe { .. } =>
                "The clip starts between keyframes, so the pictures up to the next keyframe are re-encoded and the rest is copied."@,
            CauseModel::OutPointNotKeyframe { .. } =>
                "The clip ends between keyframes, so the pictures after the last keyframe are re-encoded and the rest is copied."@,
            CauseModel::OpenGopAtOutPoint { .. } =>
                "The clip ends on a keyframe whose earlier pictures depend on it, so those pictures are re-encoded."@,
            CauseModel::KeyframesUnknown =>
                "The keyframes around this cut are not known yet, so a copy cannot be proved safe and the clip is re-encoded."@,
            CauseModel::Operation { reason } => if reason == ReEncodeReason::Reverse {
                "The clip plays backwards, so its pictures are re-encoded."@
            } else {
                "The clip holds a frame, so the held picture is encoded."@
            },
            CauseModel::SpeedOutsideContainer { .. } => {
                "At this speed the clip would play at "@ + first
                    + " frames a second, which no video file can carry, so it is re-encoded at the sequence's frame rate."@
            },
            CauseModel::SequenceMismatch { mismatch } => mismatch_words(mismatch, first, second),
            CauseModel::IncompatibleEncoding { fields, .. } => {
                "The clip was encoded differently from the rest of the export ("@ + listed(
                    fields,
                    fields.len() as int,
                )
                    + "), so its packets cannot join the same stream and it is re-encoded to match."@
            },
            CauseModel::Gap => "Nothing plays here, so black or silence is encoded."@,
            CauseModel::AudioChain =>
                "The sound is adjusted, so it is re-encoded; the pictures are not touched."@,
            CauseModel::AudioSpeed { .. } => {
                "The sound plays at "@ + first + "× speed, so it is resampled and re-encoded."@
            },
            CauseModel::AudioMix { count } => {
                decimal(count as nat) + " sounds play at once, so they are mixed and re-encoded."@
            },
        }
    }
}

/// A mismatch in a sentence.
fn mismatch_sentence(mismatch: &Mismatch, first: &str, second: &str) -> (text: String)
    ensures
        text@ == mismatch_words(*mismatch, first@, second@),
{
    match mismatch {
        Mismatch::Resolution { sequence_width, sequence_height, source_width, source_height } => {
            let mut text = "The clip is ".to_owned();
            push_decimal(&mut text, *source_width as u64);
            text.append("×");
            push_decimal(&mut text, *source_height as u64);
            text.append(" and the sequence is ");
            push_decimal(&mut text, *sequence_width as u64);
            text.append("×");
            push_decimal(&mut text, *sequence_height as u64);
            text.append(", so its pictures are re-encoded to fit.");
            text
        },
        Mismatch::FrameRate { .. } => {
            "The clip runs at ".to_owned().concat(first).concat(
                " frames a second and the sequence at ",
            ).concat(second).concat(", so its pictures are re-encoded to fit.")
        },
        Mismatch::PixelAspect { .. } => {
            "The clip's pixel shape is not the sequence's, so its pictures are re-encoded to fit.".to_owned()
        },
    }
}

impl Cause {
    /// The rates that the cause speaks of, in the order [`Cause::sentence`]
    /// takes their decimals.
    pub fn rates(&self) -> (rates: (Option<Rational>, Option<Rational>))
        ensures
            rates == self@.rates(),
    {
        match self {
            Cause::SpeedOutsideContainer { rate } => (Some(*rate), None),
            Cause::SequenceMismatch { mismatch } => match mismatch {
                Mismatch::FrameRate { sequence, source } => (Some(*source), Some(*sequence)),
                _ => (None, None),
            },
            Cause::AudioSpeed { speed } => (Some(*speed), None),
            _ => (None, None),
        }
    }

    /// The cause in a sentence, for the report and the log. `first` and
    /// `second` are the rates that it speaks of in decimals.
    pub fn sentence(&self, first: &str, second: &str) -> (text: String)
        ensures
            text@ == self@.words(first@, second@),
    {
        match self {
            Cause::InPointNotKeyframe { .. } => {
                "The clip starts between keyframes, so the pictures up to the next keyframe are re-encoded and the rest is copied.".to_owned()
            },
            Cause::OutPointNotKeyframe { .. } => {
                "The clip ends between keyframes, so the pictures after the last keyframe are re-encoded and the rest is copied.".to_owned()
            },
            Cause::OpenGopAtOutPoint { .. } => {
                "The clip ends on a keyframe whose earlier pictures depend on it, so those pictures are re-encoded.".to_owned()
            },
            Cause::KeyframesUnknown => {
                "The keyframes around this cut are not known yet, so a copy cannot be proved safe and the clip is re-encoded.".to_owned()
            },
            Cause::Operation { reason } => {
                if *reason == ReEncodeReason::Reverse {
                    "The clip plays backwards, so its pictures are re-encoded.".to_owned()
                } else {
                    "The clip holds a frame, so the held picture is encoded.".to_owned()
                }
            },
            Cause::SpeedOutsideContainer { .. } => {
                "At this speed the clip would play at ".to_owned().concat(first).concat(
                    " frames a second, which no video file can carry, so it is re-encoded at the sequence's frame rate.",
                )
            },
            Cause::SequenceMismatch { mismatch } => mismatch_sentence(mismatch, first, second),
            Cause::IncompatibleEncoding { fields, .. } => {
                let named = list(fields);
                "The clip was encoded differently from the rest of the export (".to_owned().concat(
                    named.as_str(),
                ).concat(
                    "), so its packets cannot join the same stream and it is re-encoded to match.",
                )
            },
            Cause::Gap => "Nothing plays here, so black or silence is encoded.".to_owned(),
            Cause::AudioChain => {
                "The sound is adjusted, so it is re-encoded; the pictures are not touched.".to_owned()
            },
            Cause::AudioSpeed { .. } => {
                "The sound plays at ".to_owned().concat(first).concat(
                    "× speed, so it is resampled and re-encoded.",
                )
            },
            Cause::AudioMix { count } => {
                let mut text = String::new();
                push_decimal(&mut text, *count as u64);
                text.append(" sounds play at once, so they are mixed and re-encoded.");
                proof {
                    assert(text@ =~= self@.words(first@, second@));
                }
                text
            },
        }
    }
}

} // verus!
