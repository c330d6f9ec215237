//! One segment of an export, as executed.
use crate::export::audio::{AudioEncoding, AudioModel};
use crate::export::overview::{
    decline_words, explain_decline, segment_reasons, word, worded, Wording,
};
use crate::export::plan::{Cause, CauseModel, Media, Segment};
use crate::export::profile::{ChoiceModel, EncoderChoice};
use crate::export::report::measure::{tier_text, tier_words, Execution, Measured};
use crate::text::{decimal, push_decimal, push_signed, signed_decimal};
use crate::tier::ExportTier;
use vstd::prelude::*;

verus! {

/// What the user could have done so a cause did not re-encode.
pub open spec fn suggestion(cause: CauseModel, lossless_audio_target: bool) -> Option<Seq<char>> {
    match cause {
        CauseModel::InPointNotKeyframe { .. }
        | CauseModel::OutPointNotKeyframe { .. }
        | CauseModel::OpenGopAtOutPoint { .. } => Some(
            "Snap the cut to the nearest keyframe (Export, then Snap to keyframes) and it is copied whole."@,
        ),
        CauseModel::KeyframesUnknown => Some(
            "Wait for the source's keyframes to finish indexing before exporting: the cut may then be proved a copy."@,
        ),
        CauseModel::SpeedOutsideContainer { .. } => Some(
            "Choose a speed at which the clip plays between 1 and 240 frames a second, and its packets are copied and retimed."@,
        ),
        CauseModel::SequenceMismatch { .. } => Some(
            "Set the sequence to the clip's resolution, frame rate and pixel shape in Sequence settings, and it is copied."@,
        ),
        CauseModel::IncompatibleEncoding { .. } => Some(
            "Export this clip on its own: clips recorded with different settings cannot share one copied stream."@,
        ),
        CauseModel::Gap => Some(
            "Close the gap (ripple delete it) so there is no black or silence to encode."@,
        ),
        CauseModel::AudioChain
        | CauseModel::AudioSpeed { .. }
        | CauseModel::AudioMix { .. } => if lossless_audio_target {
            None
        } else {
            Some(
                "Choose FLAC or PCM as the sound to re-encode to, and the adjusted sound is re-encoded without loss."@,
            )
        },
        CauseModel::Operation { .. } => None,
    }
}

/// What the user could have done so `cause` did not re-encode, where there is
/// anything. A held or reversed picture has no source packets to copy.
pub fn suggest(cause: &Cause, lossless_audio_target: bool) -> (text: Option<&'static str>)
    ensures
        match suggestion(cause@, lossless_audio_target) {
            Some(words) => text is Some && text->0@ == words,
            None => text is None,
        },
{
    match cause {
        Cause::InPointNotKeyframe { .. }
        | Cause::OutPointNotKeyframe { .. }
        | Cause::OpenGopAtOutPoint { .. } => Some(
            "Snap the cut to the nearest keyframe (Export, then Snap to keyframes) and it is copied whole.",
        ),
        Cause::KeyframesUnknown => Some(
            "Wait for the source's keyframes to finish indexing before exporting: the cut may then be proved a copy.",
        ),
        Cause::SpeedOutsideContainer { .. } => Some(
            "Choose a speed at which the clip plays between 1 and 240 frames a second, and its packets are copied and retimed.",
        ),
        Cause::SequenceMismatch { .. } => Some(
            "Set the sequence to the clip's resolution, frame rate and pixel shape in Sequence settings, and it is copied.",
        ),
        Cause::IncompatibleEncoding { .. } => Some(
            "Export this clip on its own: clips recorded with different settings cannot share one copied stream.",
        ),
        Cause::Gap => Some(
            "Close the gap (ripple delete it) so there is no black or silence to encode.",
        ),
        Cause::AudioChain | Cause::AudioSpeed { .. } | Cause::AudioMix { .. } => {
            if lossless_audio_target {
                None
            } else {
                Some(
                    "Choose FLAC or PCM as the sound to re-encode to, and the adjusted sound is re-encoded without loss.",
                )
            }
        },
        Cause::Operation { .. } => None,
    }
}

/// The texts of a list.
pub open spec fn texts_in(list: Seq<String>) -> Seq<Seq<char>> {
    list.map_values(|text: String| text@)
}

/// A text once more, unless it is there already.
pub open spec fn and_once(list: Seq<Seq<char>>, text: Option<Seq<char>>) -> Seq<Seq<char>> {
    match text {
        Some(text) => if list.contains(text) {
            list
        } else {
            list.push(text)
        },
        None => list,
    }
}

/// What is suggested for the first `count` causes, each once.
pub open spec fn suggestions_of(causes: Seq<Cause>, lossless_target: bool, count: int) -> Seq<
    Seq<char>,
>
    decreases count,
{
    if count <= 0 {
        Seq::empty()
    } else {
        and_once(
            suggestions_of(causes, lossless_target, count - 1),
            suggestion(causes[count - 1]@, lossless_target),
        )
    }
}

/// Add a text, unless it is there already.
pub fn push_once(list: &mut Vec<String>, text: &str)
    ensures
        texts_in(final(list)@) == and_once(texts_in(old(list)@), Some(text@)),
{
    let ghost before = texts_in(list@);
    let mut i: usize = 0;
    while i < list.len()
        invariant
            i <= list@.len(),
            list@ == old(list)@,
            before == texts_in(list@),
            forall|k: int| 0 <= k < i ==> before[k] != text@,
        decreases list@.len() - i,
    {
        assert(before[i as int] == list@[i as int]@);
        if crate::text::same_text(list[i].as_str(), text) {
            assert(before.contains(text@));
            return;
        }
        i += 1;
    }
    let ghost held = list@;
    list.push(text.to_owned());
    proof {
        assert(texts_in(list@) =~= before.push(text@));
    }
}

/// What is suggested for a segment's causes, each once.
fn suggestions(causes: &Vec<Cause>, lossless_target: bool) -> (list: Vec<String>)
    ensures
        texts_in(list@) == suggestions_of(causes@, lossless_target, causes@.len() as int),
{
    let mut list: Vec<String> = Vec::new();
    let mut i: usize = 0;
    proof {
        assert(texts_in(list@) =~= Seq::empty());
    }
    while i < causes.len()
        invariant
            i <= causes@.len(),
            texts_in(list@) == suggestions_of(causes@, lossless_target, i as int),
        decreases causes@.len() - i,
    {
        if let Some(text) = suggest(&causes[i], lossless_target) {
            push_once(&mut list, text);
        }
        i += 1;
    }
    list
}

/// Why a segment was not copied: its causes, why it was declined, and that it
/// was not executed as planned.
pub open spec fn reasons_for(segment: Segment, wordings: Seq<Wording>, measured: Measured) -> Seq<
    Seq<char>,
> {
    Seq::new(segment.causes@.len(), |i: int| worded(segment.causes@[i]@, wordings[i])) + (
    match segment.decline {
        Some(decline) => seq![decline_words(decline@, segment.alternative is Some)],
        None => Seq::empty(),
    }) + (if measured.as_planned {
        Seq::empty()
    } else {
        seq![
            "The plan decided "@ + tier_words(segment.tier) + ", but the output shows "@
                + measured.execution.words() + ": this is what was executed."@,
        ]
    })
}

/// The reasons reported are the ones told before: in the same words and order,
/// before anything else that is reported.
pub proof fn the_report_gives_the_reasons_told_before(
    segment: Segment,
    wordings: Seq<Wording>,
    measured: Measured,
)
    requires
        wordings.len() == segment.causes@.len(),
    ensures
        segment_reasons(segment, wordings).len() <= reasons_for(segment, wordings, measured).len(),
        forall|i: int|
            0 <= i < segment_reasons(segment, wordings).len() ==> #[trigger] reasons_for(
                segment,
                wordings,
                measured,
            )[i] == segment_reasons(segment, wordings)[i].sentence,
{
}

/// Why a segment was not copied.
fn reasons(segment: &Segment, wordings: &Vec<Wording>, measured: &Measured) -> (list: Vec<String>)
    requires
        wordings@.len() == segment.causes@.len(),
    ensures
        texts_in(list@) == reasons_for(*segment, wordings@, *measured),
{
    let mut list: Vec<String> = Vec::new();
    let ghost head = Seq::new(
        segment.causes@.len(),
        |i: int| worded(segment.causes@[i]@, wordings@[i]),
    );
    let mut i: usize = 0;
    proof {
        assert(texts_in(list@) =~= head.take(0));
    }
    while i < segment.causes.len()
        invariant
            i <= segment.causes@.len(),
            wordings@.len() == segment.causes@.len(),
            head == Seq::new(
                segment.causes@.len(),
                |i: int| worded(segment.causes@[i]@, wordings@[i]),
            ),
            texts_in(list@) == head.take(i as int),
        decreases segment.causes@.len() - i,
    {
        let ghost before = list@;
        list.push(word(&segment.causes[i], &wordings[i]));
        proof {
            assert(texts_in(list@) =~= texts_in(before).push(head[i as int]));
            assert(head.take(i + 1) =~= head.take(i as int).push(head[i as int]));
        }
        i += 1;
    }
    proof {
        assert(head.take(i as int) =~= head);
    }
    if let Some(decline) = &segment.decline {
        list.push(explain_decline(decline, segment.alternative.is_some()));
    }
    if !measured.as_planned {
        let text = "The plan decided ".to_owned().concat(tier_text(segment.tier)).concat(
            ", but the output shows ",
        ).concat(measured.execution.text()).concat(": this is what was executed.");
        list.push(text);
    }
    proof {
        assert(texts_in(list@) =~= reasons_for(*segment, wordings@, *measured));
    }
    list
}

/// An encoder of pictures, and how it was asked.
pub open spec fn picture_encoder(choice: ChoiceModel) -> Seq<char> {
    choice.encoder + " ("@ + choice.profile + " profile, "@ + choice.pixel_format + (
    match choice.level {
        Some(level) => ", level "@ + signed_decimal(level as int),
        None => Seq::empty(),
    }) + ")"@
}

/// An encoder of sound, and how it was asked.
pub open spec fn sound_encoder(encoding: AudioModel) -> Seq<char> {
    encoding.encoder + " ("@ + (match encoding.kilobits {
        Some(kilobits) => decimal(kilobits as nat) + " kb/s"@,
        None => "lossless"@,
    }) + ", "@ + decimal(encoding.sample_rate as nat) + " Hz, "@ + decimal(encoding.channels as nat)
        + " channels)"@
}

/// What made a segment's encoded packets: nothing where none was encoded.
pub open spec fn encoder_of(
    execution: Execution,
    media: Media,
    choice: Option<ChoiceModel>,
    encoding: Option<AudioModel>,
) -> Option<Seq<char>> {
    if execution == Execution::Copied || execution == Execution::Empty {
        None
    } else {
        match media {
            Media::Video => match choice {
                Some(choice) => Some(picture_encoder(choice)),
                None => None,
            },
            Media::Audio => match encoding {
                Some(encoding) => Some(sound_encoder(encoding)),
                None => None,
            },
        }
    }
}

/// An encoder of pictures, and how it was asked.
fn picture_text(choice: &EncoderChoice) -> (text: String)
    ensures
        text@ == picture_encoder(choice@),
{
    let mut text = choice.encoder.clone().concat(" (").concat(choice.profile.as_str()).concat(
        " profile, ",
    ).concat(choice.pixel_format.as_str());
    let ghost head = text@;
    if let Some(level) = choice.level {
        text.append(", level ");
        push_signed(&mut text, level as i64);
        proof {
            assert(text@ =~= head + (", level "@ + signed_decimal(level as int)));
        }
    } else {
        proof {
            assert(text@ =~= head + Seq::<char>::empty());
        }
    }
    text.append(")");
    text
}

/// An encoder of sound, and how it was asked.
fn sound_text(encoding: &AudioEncoding) -> (text: String)
    ensures
        text@ == sound_encoder(encoding@),
{
    let mut rate = String::new();
    match encoding.kilobits {
        Some(kilobits) => {
            push_decimal(&mut rate, kilobits as u64);
            rate.append(" kb/s");
            proof {
                assert(rate@ =~= decimal(kilobits as nat) + " kb/s"@);
            }
        },
        None => {
            rate.append("lossless");
            proof {
                assert(rate@ =~= "lossless"@);
            }
        },
    }
    let mut text = encoding.encoder.clone().concat(" (").concat(rate.as_str()).concat(", ");
    push_decimal(&mut text, encoding.sample_rate as u64);
    text.append(" Hz, ");
    push_decimal(&mut text, encoding.channels as u64);
    text.append(" channels)");
    text
}

/// One segment of the output, as executed. Times are milliseconds of the
/// sequence.
#[derive(Debug, PartialEq, Eq)]
pub struct ReportSegment {
    pub media: Media,
    pub start: u64,
    pub end: u64,
    /// What the plan decided.
    pub planned: ExportTier,
    pub measured: Measured,
    pub reasons: Vec<String>,
    /// What could have been done so it was copied, where anything could.
    pub suggestions: Vec<String>,
    /// For encoded packets: what made them, and how it was asked.
    pub encoder: Option<String>,
}

/// Report a segment whose packets were measured. `wordings` holds the decimals
/// of its causes.
pub fn report_segment(
    segment: &Segment,
    wordings: &Vec<Wording>,
    start: u64,
    end: u64,
    measured: Measured,
    encoding: &Option<AudioEncoding>,
    lossless_audio_target: bool,
) -> (reported: ReportSegment)
    requires
        wordings@.len() == segment.causes@.len(),
    ensures
        reported.media == segment.media,
        reported.start == start,
        reported.end == end,
        reported.planned == segment.tier,
        reported.measured == measured,
        texts_in(reported.reasons@) == reasons_for(*segment, wordings@, measured),
        texts_in(reported.suggestions@) == suggestions_of(
            segment.causes@,
            lossless_audio_target,
            segment.causes@.len() as int,
        ),
        crate::text::optional(reported.encoder) == encoder_of(
            measured.execution,
            segment.media,
            match segment.encoder {
                Some(choice) => Some(choice@),
                None => None,
            },
            match *encoding {
                Some(encoding) => Some(encoding@),
                None => None,
            },
        ),
{
    let encoder = match measured.execution {
        Execution::Copied | Execution::Empty => None,
        _ => match segment.media {
            Media::Video => match &segment.encoder {
                Some(choice) => Some(picture_text(choice)),
                None => None,
            },
            Media::Audio => match encoding {
                Some(encoding) => Some(sound_text(encoding)),
                None => None,
            },
        },
    };
    ReportSegment {
        media: segment.media,
        start,
        end,
        planned: segment.tier,
        measured,
        reasons: reasons(segment, wordings, &measured),
        suggestions: suggestions(&segment.causes, lossless_audio_target),
        encoder,
    }
}

} // verus!
