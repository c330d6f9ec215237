//! The export planner: an edited sequence, compiled into segments, each one
//! decided — copied, smart-cut or re-encoded — with every reason as data.
//!
//! - **Every precondition is its own [`Cause`].** Keyframe alignment, the
//!   sequence's shape, the speed, the operations, and whether the copied
//!   sources share their encoding parameters are reported separately, and a
//!   segment carries all of them, not only the first.
//! - **Video and audio are planned apart.** A gain change re-encodes the
//!   sound and leaves the pictures a copy.
//! - **When it cannot prove a copy safe, it does not copy.** An unindexed cut
//!   point re-encodes and says why.
//! - **It is pure**: facts in, plan out, no file, no process, no clock.
pub mod answering;
pub mod audio;
pub mod cut;
pub mod faithful;
pub mod seams;
pub mod sentence;
pub mod shape;
pub mod share;
pub mod sound;
pub mod stretch;
pub mod summary;
pub mod video;

pub use crate::export::plan::summary::plan;
use crate::export::profile::{ChoiceModel, EncoderChoice, Refusal, Unmatched};
use crate::num::{clamped, saturating_add};
use crate::probe::{Rational, StreamGeometry};
use crate::project::{AudioOperation, ClipId, Mismatch, Motion, SequenceSettings, SourceId, TrackId};
use crate::text::{decimal, four, optional, push_decimal, same_four, same_optional};
use crate::tier::{ExportTier, ReEncodeReason, SeamReason};
use std::collections::BTreeMap;
use vstd::prelude::*;

verus! {

/// A keyframe, as far as the planner needs one.
#[derive(Debug, Clone, Copy, PartialEq, Eq, Structural)]
pub struct KeyframePoint {
    /// Presentation timestamp, in the stream's time base.
    pub pts: i64,
    /// Pictures shown before it are decoded after it. A copy may start here,
    /// since those pictures are before the cut and are dropped, but a copy
    /// may not end here: the pictures just before the cut would need the
    /// packets after it.
    pub open: bool,
    /// A decoder can start here and decode everything after it cleanly. A
    /// copy starts only on a random-access keyframe.
    pub random_access: bool,
}

/// The parameters a decoder carries across a join. Two sources whose copied
/// packets meet in one output stream must agree on every one.
#[derive(Debug, PartialEq, Eq)]
pub struct EncodingSignature {
    pub codec: Option<String>,
    pub profile: Option<String>,
    pub level: Option<i32>,
    pub pixel_format: Option<String>,
    /// Coded size, for video.
    pub width: u32,
    pub height: u32,
    /// Primaries, transfer, matrix and range.
    pub colour: [Option<String>; 4],
    pub sample_rate: Option<u32>,
    pub channels: Option<u32>,
    /// The hash of the codec configuration record.
    pub configuration: Option<String>,
}

/// What an [`EncodingSignature`] says.
pub struct EncodingModel {
    pub codec: Option<Seq<char>>,
    pub profile: Option<Seq<char>>,
    pub level: Option<i32>,
    pub pixel_format: Option<Seq<char>>,
    pub width: u32,
    pub height: u32,
    pub colour: Seq<Option<Seq<char>>>,
    pub sample_rate: Option<u32>,
    pub channels: Option<u32>,
    pub configuration: Option<Seq<char>>,
}

impl View for EncodingSignature {
    type V = EncodingModel;

    open spec fn view(&self) -> EncodingModel {
        EncodingModel {
            codec: optional(self.codec),
            profile: optional(self.profile),
            level: self.level,
            pixel_format: optional(self.pixel_format),
            width: self.width,
            height: self.height,
            colour: four(self.colour),
            sample_rate: self.sample_rate,
            channels: self.channels,
            configuration: optional(self.configuration),
        }
    }
}

/// One parameter two signatures disagree on.
#[derive(Debug, Clone, Copy, PartialEq, Eq, Structural)]
pub enum EncodingField {
    Codec,
    Profile,
    Level,
    PixelFormat,
    Resolution,
    Colour,
    SampleRate,
    Channels,
    /// The codec configuration differs even though everything above agrees.
    Configuration,
}

impl EncodingField {
    /// The field's name in a sentence.
    pub open spec fn name(self) -> Seq<char> {
        match self {
            EncodingField::Codec => "codec"@,
            EncodingField::Profile => "profile"@,
            EncodingField::Level => "level"@,
            EncodingField::PixelFormat => "pixel format"@,
            EncodingField::Resolution => "resolution"@,
            EncodingField::Colour => "colour"@,
            EncodingField::SampleRate => "sample rate"@,
            EncodingField::Channels => "channels"@,
            EncodingField::Configuration => "codec configuration"@,
        }
    }

    /// The field's name in a sentence.
    pub fn text(self) -> (text: &'static str)
        ensures
            text@ == self.name(),
    {
        match self {
            EncodingField::Codec => "codec",
            EncodingField::Profile => "profile",
            EncodingField::Level => "level",
            EncodingField::PixelFormat => "pixel format",
            EncodingField::Resolution => "resolution",
            EncodingField::Colour => "colour",
            EncodingField::SampleRate => "sample rate",
            EncodingField::Channels => "channels",
            EncodingField::Configuration => "codec configuration",
        }
    }
}

/// A field, where it differs.
pub open spec fn if_differs(differs: bool, field: EncodingField) -> Seq<EncodingField> {
    if differs {
        seq![field]
    } else {
        Seq::empty()
    }
}

impl EncodingModel {
    /// The fields that differ, the configuration left aside, in a fixed order.
    pub open spec fn stated_differences(self, other: EncodingModel) -> Seq<EncodingField> {
        if_differs(self.codec != other.codec, EncodingField::Codec) + if_differs(
            self.profile != other.profile,
            EncodingField::Profile,
        ) + if_differs(self.level != other.level, EncodingField::Level) + if_differs(
            self.pixel_format != other.pixel_format,
            EncodingField::PixelFormat,
        ) + if_differs(
            self.width != other.width || self.height != other.height,
            EncodingField::Resolution,
        ) + if_differs(self.colour != other.colour, EncodingField::Colour) + if_differs(
            self.sample_rate != other.sample_rate,
            EncodingField::SampleRate,
        ) + if_differs(self.channels != other.channels, EncodingField::Channels)
    }

    /// The fields that differ, in a fixed order; the configuration only where
    /// nothing else does.
    pub open spec fn differences(self, other: EncodingModel) -> Seq<EncodingField> {
        let stated = self.stated_differences(other);
        if stated.len() == 0 {
            if_differs(self.configuration != other.configuration, EncodingField::Configuration)
        } else {
            stated
        }
    }
}

/// Append a field, where it differs.
fn push_if(fields: &mut Vec<EncodingField>, differs: bool, field: EncodingField)
    ensures
        final(fields)@ == old(fields)@ + if_differs(differs, field),
{
    let ghost before = fields@;
    if differs {
        fields.push(field);
    }
    proof {
        assert(fields@ =~= before + if_differs(differs, field));
    }
}

impl EncodingSignature {
    /// Every field on which `self` and `other` disagree, in a fixed order.
    pub fn differences(&self, other: &Self) -> (fields: Vec<EncodingField>)
        ensures
            fields@ == self@.differences(other@),
    {
        let mut fields: Vec<EncodingField> = Vec::new();
        push_if(&mut fields, !same_optional(&self.codec, &other.codec), EncodingField::Codec);
        push_if(&mut fields, !same_optional(&self.profile, &other.profile), EncodingField::Profile);
        push_if(&mut fields, self.level != other.level, EncodingField::Level);
        push_if(
            &mut fields,
            !same_optional(&self.pixel_format, &other.pixel_format),
            EncodingField::PixelFormat,
        );
        push_if(
            &mut fields,
            self.width != other.width || self.height != other.height,
            EncodingField::Resolution,
        );
        push_if(&mut fields, !same_four(&self.colour, &other.colour), EncodingField::Colour);
        push_if(&mut fields, self.sample_rate != other.sample_rate, EncodingField::SampleRate);
        push_if(&mut fields, self.channels != other.channels, EncodingField::Channels);
        proof {
            assert(fields@ =~= self@.stated_differences(other@));
        }
        if fields.len() == 0 {
            push_if(
                &mut fields,
                !same_optional(&self.configuration, &other.configuration),
                EncodingField::Configuration,
            );
        }
        proof {
            assert(fields@ =~= self@.differences(other@));
        }
        fields
    }
}

/// Two signatures differ in no field exactly when they are the same.
pub proof fn signatures_differ_unless_they_are_the_same(a: EncodingModel, b: EncodingModel)
    ensures
        a.differences(b).len() == 0 <==> a == b,
        a.differences(b) == b.differences(a),
{
    let stated = a.stated_differences(b);
    if stated.len() == 0 {
        assert(if_differs(a.codec != b.codec, EncodingField::Codec).len() == 0);
        assert(if_differs(a.profile != b.profile, EncodingField::Profile).len() == 0);
    }
    assert(stated =~= b.stated_differences(a));
}

/// Where a field stands in the declared order.
pub open spec fn field_place(field: EncodingField) -> int {
    match field {
        EncodingField::Codec => 0,
        EncodingField::Profile => 1,
        EncodingField::Level => 2,
        EncodingField::PixelFormat => 3,
        EncodingField::Resolution => 4,
        EncodingField::Colour => 5,
        EncodingField::SampleRate => 6,
        EncodingField::Channels => 7,
        EncodingField::Configuration => 8,
    }
}

/// Two signatures disagree on a field.
pub open spec fn disagree(a: EncodingModel, b: EncodingModel, field: EncodingField) -> bool {
    match field {
        EncodingField::Codec => a.codec != b.codec,
        EncodingField::Profile => a.profile != b.profile,
        EncodingField::Level => a.level != b.level,
        EncodingField::PixelFormat => a.pixel_format != b.pixel_format,
        EncodingField::Resolution => a.width != b.width || a.height != b.height,
        EncodingField::Colour => a.colour != b.colour,
        EncodingField::SampleRate => a.sample_rate != b.sample_rate,
        EncodingField::Channels => a.channels != b.channels,
        EncodingField::Configuration => a.configuration != b.configuration,
    }
}

/// Fields in the declared order, once each, all of them before the place
/// `below`, and those on which two signatures disagree.
#[verifier::opaque]
pub open spec fn told(
    fields: Seq<EncodingField>,
    a: EncodingModel,
    b: EncodingModel,
    below: int,
) -> bool {
    &&& forall|i: int, j: int|
        0 <= i < j < fields.len() ==> field_place(#[trigger] fields[i]) < field_place(
            #[trigger] fields[j],
        )
    &&& forall|field: EncodingField| #[trigger]
        fields.contains(field) <==> disagree(a, b, field) && field_place(field) < below
}

/// One field more, where it differs.
proof fn lemma_told(
    fields: Seq<EncodingField>,
    a: EncodingModel,
    b: EncodingModel,
    field: EncodingField,
)
    requires
        told(fields, a, b, field_place(field)),
    ensures
        told(
            fields + if_differs(disagree(a, b, field), field),
            a,
            b,
            field_place(field) + 1,
        ),
{
    reveal(told);
    let more = fields + if_differs(disagree(a, b, field), field);
    assert forall|i: int| 0 <= i < fields.len() implies field_place(#[trigger] fields[i])
        < field_place(field) by {
        assert(fields.contains(fields[i]));
    }
    assert forall|other: EncodingField| #[trigger] more.contains(other) <==> disagree(a, b, other)
        && field_place(other) < field_place(field) + 1 by {
        if fields.contains(other) {
            let i = choose|i: int| 0 <= i < fields.len() && fields[i] == other;
            assert(more[i] == other);
        }
        if other == field && disagree(a, b, field) {
            assert(more[fields.len() as int] == field);
        }
        if more.contains(other) {
            let i = choose|i: int| 0 <= i < more.len() && more[i] == other;
            if i < fields.len() {
                assert(fields[i] == other);
            }
        }
        if field_place(other) == field_place(field) {
            assert(other == field);
        }
    }
}

/// The stated differences of two signatures, told field by field.
proof fn lemma_stated(a: EncodingModel, b: EncodingModel)
    ensures
        told(a.stated_differences(b), a, b, 8),
{
    let none = Seq::<EncodingField>::empty();
    assert(told(none, a, b, 0)) by {
        reveal(told);
    }
    lemma_told(none, a, b, EncodingField::Codec);
    let one = if_differs(a.codec != b.codec, EncodingField::Codec);
    assert(none + one =~= one);
    lemma_told(one, a, b, EncodingField::Profile);
    let two = one + if_differs(a.profile != b.profile, EncodingField::Profile);
    lemma_told(two, a, b, EncodingField::Level);
    let three = two + if_differs(a.level != b.level, EncodingField::Level);
    lemma_told(three, a, b, EncodingField::PixelFormat);
    let four = three + if_differs(a.pixel_format != b.pixel_format, EncodingField::PixelFormat);
    lemma_told(four, a, b, EncodingField::Resolution);
    let five = four + if_differs(
        a.width != b.width || a.height != b.height,
        EncodingField::Resolution,
    );
    lemma_told(five, a, b, EncodingField::Colour);
    let six = five + if_differs(a.colour != b.colour, EncodingField::Colour);
    lemma_told(six, a, b, EncodingField::SampleRate);
    let seven = six + if_differs(a.sample_rate != b.sample_rate, EncodingField::SampleRate);
    lemma_told(seven, a, b, EncodingField::Channels);
    let stated = a.stated_differences(b);
    assert(stated == seven + if_differs(a.channels != b.channels, EncodingField::Channels));
}

/// Differences come in the declared order, once each, and every stated field
/// that differs is among them; the configuration only alone, where nothing else
/// differs.
pub proof fn differences_come_in_order(a: EncodingModel, b: EncodingModel)
    ensures
        ({
            let fields = a.differences(b);
            &&& forall|i: int, j: int|
                0 <= i < j < fields.len() ==> field_place(#[trigger] fields[i]) < field_place(
                    #[trigger] fields[j],
                )
            &&& forall|field: EncodingField|
                field != EncodingField::Configuration ==> (#[trigger] fields.contains(field)
                    <==> disagree(a, b, field))
            &&& fields.contains(EncodingField::Configuration) <==> fields
                == seq![EncodingField::Configuration]
            &&& fields.contains(EncodingField::Configuration) <==> a.configuration
                != b.configuration && forall|field: EncodingField|
                field != EncodingField::Configuration ==> !#[trigger] disagree(a, b, field)
        }),
{
    let stated = a.stated_differences(b);
    lemma_stated(a, b);
    reveal(told);
    let fields = a.differences(b);
    assert(!stated.contains(EncodingField::Configuration));
    if stated.len() > 0 {
        assert(stated.contains(stated[0]));
        assert(disagree(a, b, stated[0]));
    } else {
        assert(forall|field: EncodingField|
            field != EncodingField::Configuration ==> !disagree(a, b, field)) by {
            assert forall|field: EncodingField|
                field != EncodingField::Configuration implies !disagree(a, b, field) by {
                assert(!stated.contains(field));
            }
        }
        if a.configuration != b.configuration {
            assert(fields[0] == EncodingField::Configuration);
        }
    }
}

/// What the planner knows about a source's video stream.
#[derive(Debug, PartialEq, Eq)]
pub struct VideoFacts {
    pub stream: u32,
    /// The unit of every timestamp below.
    pub time_base: Rational,
    pub geometry: StreamGeometry,
    pub encoding: EncodingSignature,
    /// In presentation order.
    pub keyframes: Vec<KeyframePoint>,
    /// `keyframes` lists every keyframe of the stream. While the index is
    /// still being built it does not, and a cut point that is not in the
    /// list cannot be proved to be off a keyframe or on one.
    pub keyframes_complete: bool,
    /// The first tick after the last frame, where known.
    pub end: Option<i64>,
    /// Decode order differs from presentation order. Without reordering every
    /// frame boundary is a clean place to end a copy.
    pub reorders: bool,
    /// The encoder on this machine that makes this stream's kind of stream,
    /// or why none does.
    pub encoder: Result<EncoderChoice, Unmatched>,
}

/// The keyframes stand in presentation order.
pub open spec fn in_order(keyframes: Seq<KeyframePoint>) -> bool {
    forall|i: int, j: int|
        #![trigger keyframes[i], keyframes[j]]
        0 <= i < j < keyframes.len() ==> keyframes[i].pts <= keyframes[j].pts
}

impl VideoFacts {
    /// The keyframes stand in presentation order.
    pub open spec fn wf(&self) -> bool {
        in_order(self.keyframes@)
    }
}

/// What the planner knows about a source's audio stream.
#[derive(Debug, PartialEq, Eq)]
pub struct AudioFacts {
    pub stream: u32,
    pub time_base: Rational,
    pub encoding: EncodingSignature,
}

/// What the planner knows about one source file.
#[derive(Debug, PartialEq, Eq)]
pub struct SourceFacts {
    pub video: Option<VideoFacts>,
    /// The default audio stream, and every audio stream an audio clip plays,
    /// by stream index.
    pub audio: BTreeMap<u32, AudioFacts>,
    /// The stream a video clip's own sound comes from.
    pub default_audio: Option<u32>,
}

impl SourceFacts {
    /// The facts about its pictures hold together.
    pub open spec fn wf(&self) -> bool {
        self.video is Some ==> self.video->0.wf()
    }
}

/// The facts about every source hold together.
pub open spec fn sources_wf(sources: Map<SourceId, SourceFacts>) -> bool {
    forall|id: SourceId| #[trigger] sources.dom().contains(id) ==> sources[id].wf()
}

/// Which of the output's streams a segment belongs to.
#[derive(Debug, Clone, Copy, PartialEq, Eq, Structural)]
pub enum Media {
    Video,
    Audio,
}

/// One precondition of a copy that does not hold.
#[derive(Debug, PartialEq, Eq)]
#[allow(inconsistent_fields)]
pub enum Cause {
    /// The in-point is not on a keyframe.
    InPointNotKeyframe { keyframe_before: Option<i64>, keyframe_after: Option<i64> },
    /// The out-point falls inside a group of a stream whose pictures are
    /// decoded out of order, so the pictures before it depend on one after.
    OutPointNotKeyframe { keyframe_before: Option<i64>, keyframe_after: Option<i64> },
    /// The out-point is an open group's keyframe: the pictures just before it
    /// are decoded after it.
    OpenGopAtOutPoint { keyframe: i64 },
    /// The keyframes around a cut are not indexed yet.
    KeyframesUnknown,
    /// A hold or a reverse.
    Operation { reason: ReEncodeReason },
    /// The speed makes a frame rate no file can carry.
    SpeedOutsideContainer { rate: Rational },
    /// The sequence is not the source's shape.
    SequenceMismatch { mismatch: Mismatch },
    /// The source's encoding parameters are not those of the rest of the
    /// copied output, so its packets cannot join the same stream.
    /// `reference` is the source whose parameters the output takes.
    IncompatibleEncoding { reference: SourceId, fields: Vec<EncodingField> },
    /// Nothing plays here.
    Gap,
    /// Gain, denoise or normalise.
    AudioChain,
    /// The sound plays at a speed other than normal.
    AudioSpeed { speed: Rational },
    /// Several sounds play at once.
    AudioMix { count: u32 },
}

/// What a [`Cause`] says.
#[allow(inconsistent_fields)]
pub enum CauseModel {
    InPointNotKeyframe { keyframe_before: Option<i64>, keyframe_after: Option<i64> },
    OutPointNotKeyframe { keyframe_before: Option<i64>, keyframe_after: Option<i64> },
    OpenGopAtOutPoint { keyframe: i64 },
    KeyframesUnknown,
    Operation { reason: ReEncodeReason },
    SpeedOutsideContainer { rate: Rational },
    SequenceMismatch { mismatch: Mismatch },
    IncompatibleEncoding { reference: SourceId, fields: Seq<EncodingField> },
    Gap,
    AudioChain,
    AudioSpeed { speed: Rational },
    AudioMix { count: u32 },
}

impl View for Cause {
    type V = CauseModel;

    open spec fn view(&self) -> CauseModel {
        match *self {
            Cause::InPointNotKeyframe { keyframe_before, keyframe_after } => {
                CauseModel::InPointNotKeyframe { keyframe_before, keyframe_after }
            },
            Cause::OutPointNotKeyframe { keyframe_before, keyframe_after } => {
                CauseModel::OutPointNotKeyframe { keyframe_before, keyframe_after }
            },
            Cause::OpenGopAtOutPoint { keyframe } => CauseModel::OpenGopAtOutPoint { keyframe },
            Cause::KeyframesUnknown => CauseModel::KeyframesUnknown,
            Cause::Operation { reason } => CauseModel::Operation { reason },
            Cause::SpeedOutsideContainer { rate } => CauseModel::SpeedOutsideContainer { rate },
            Cause::SequenceMismatch { mismatch } => CauseModel::SequenceMismatch { mismatch },
            Cause::IncompatibleEncoding { reference, fields } => {
                CauseModel::IncompatibleEncoding { reference, fields: fields@ }
            },
            Cause::Gap => CauseModel::Gap,
            Cause::AudioChain => CauseModel::AudioChain,
            Cause::AudioSpeed { speed } => CauseModel::AudioSpeed { speed },
            Cause::AudioMix { count } => CauseModel::AudioMix { count },
        }
    }
}

/// What a list of causes says.
pub open spec fn causes_in(causes: Seq<Cause>) -> Seq<CauseModel> {
    causes.map_values(|cause: Cause| cause@)
}

/// What a cause does to its segment.
#[derive(Debug, Clone, Copy, PartialEq, Eq, Structural)]
pub enum Effect {
    /// A seam at a boundary: smart-cut.
    Seam(SeamReason),
    /// The whole segment is re-encoded.
    Whole(ReEncodeReason),
}

impl CauseModel {
    /// What the cause does to its segment.
    pub open spec fn effect(self) -> Effect {
        match self {
            CauseModel::InPointNotKeyframe { .. } => Effect::Seam(
                SeamReason::InPointNotKeyframeAligned,
            ),
            CauseModel::OutPointNotKeyframe { .. } => Effect::Seam(
                SeamReason::OutPointNotKeyframeAligned,
            ),
            CauseModel::OpenGopAtOutPoint { .. } => Effect::Seam(SeamReason::OpenGopBoundary),
            CauseModel::KeyframesUnknown => Effect::Whole(ReEncodeReason::CopyNotProvable),
            CauseModel::Operation { reason } => Effect::Whole(reason),
            CauseModel::SpeedOutsideContainer { .. } => Effect::Whole(
                ReEncodeReason::SpeedFrameRateOutsideContainer,
            ),
            CauseModel::SequenceMismatch { .. } => Effect::Whole(
                ReEncodeReason::SequenceSettingsDiffer,
            ),
            CauseModel::IncompatibleEncoding { .. } => Effect::Whole(
                ReEncodeReason::IncompatibleSourceParameters,
            ),
            CauseModel::Gap => Effect::Whole(ReEncodeReason::Gap),
            CauseModel::AudioChain => Effect::Whole(ReEncodeReason::AudioFilter),
            CauseModel::AudioSpeed { .. } => Effect::Whole(ReEncodeReason::AudioSpeed),
            CauseModel::AudioMix { .. } => Effect::Whole(ReEncodeReason::AudioMix),
        }
    }
}

impl Cause {
    /// What the cause does to its segment.
    pub fn effect(&self) -> (effect: Effect)
        ensures
            effect == self@.effect(),
    {
        match self {
            Cause::InPointNotKeyframe { .. } => Effect::Seam(
                SeamReason::InPointNotKeyframeAligned,
            ),
            Cause::OutPointNotKeyframe { .. } => Effect::Seam(
                SeamReason::OutPointNotKeyframeAligned,
            ),
            Cause::OpenGopAtOutPoint { .. } => Effect::Seam(SeamReason::OpenGopBoundary),
            Cause::KeyframesUnknown => Effect::Whole(ReEncodeReason::CopyNotProvable),
            Cause::Operation { reason } => Effect::Whole(*reason),
            Cause::SpeedOutsideContainer { .. } => Effect::Whole(
                ReEncodeReason::SpeedFrameRateOutsideContainer,
            ),
            Cause::SequenceMismatch { .. } => Effect::Whole(ReEncodeReason::SequenceSettingsDiffer),
            Cause::IncompatibleEncoding { .. } => Effect::Whole(
                ReEncodeReason::IncompatibleSourceParameters,
            ),
            Cause::Gap => Effect::Whole(ReEncodeReason::Gap),
            Cause::AudioChain => Effect::Whole(ReEncodeReason::AudioFilter),
            Cause::AudioSpeed { .. } => Effect::Whole(ReEncodeReason::AudioSpeed),
            Cause::AudioMix { .. } => Effect::Whole(ReEncodeReason::AudioMix),
        }
    }
}

/// The pictures or sound a segment takes from one clip.
#[derive(Debug, PartialEq, Eq)]
pub struct SegmentSource {
    pub track: TrackId,
    pub clip: ClipId,
    pub source: SourceId,
    pub stream: u32,
    /// The unit of `source_in` and `source_out`.
    pub time_base: Rational,
    pub source_in: i64,
    pub source_out: i64,
    pub speed: Rational,
    pub motion: Option<Motion>,
    /// The clip's audio chain. Empty for pictures.
    pub audio: Vec<AudioOperation>,
}

/// What a [`SegmentSource`] says.
pub struct SourceModel {
    pub track: TrackId,
    pub clip: ClipId,
    pub source: SourceId,
    pub stream: u32,
    pub time_base: Rational,
    pub source_in: i64,
    pub source_out: i64,
    pub speed: Rational,
    pub motion: Option<Motion>,
    pub audio: Seq<AudioOperation>,
}

impl View for SegmentSource {
    type V = SourceModel;

    open spec fn view(&self) -> SourceModel {
        SourceModel {
            track: self.track,
            clip: self.clip,
            source: self.source,
            stream: self.stream,
            time_base: self.time_base,
            source_in: self.source_in,
            source_out: self.source_out,
            speed: self.speed,
            motion: self.motion,
            audio: self.audio@,
        }
    }
}

/// What a list of sources says.
pub open spec fn sources_in(sources: Seq<SegmentSource>) -> Seq<SourceModel> {
    sources.map_values(|source: SegmentSource| source@)
}

/// A range of source ticks a smart-cut re-encodes; everything else in the
/// segment is copied.
#[derive(Debug, Clone, Copy, PartialEq, Eq, Structural)]
pub struct SeamWindow {
    pub from: i64,
    pub to: i64,
}

/// Why a segment cannot be exported at all as it stands.
#[derive(Debug, PartialEq, Eq)]
pub enum Decline {
    /// Part of an HDR source would have to be rendered.
    HdrWouldBeRendered,
    /// No encoder on this machine makes the source's kind of stream.
    NoEncoder { unmatched: Unmatched },
}

/// What a [`Decline`] says.
pub enum DeclineModel {
    HdrWouldBeRendered,
    NoEncoder { refusal: Refusal },
}

impl View for Decline {
    type V = DeclineModel;

    open spec fn view(&self) -> DeclineModel {
        match *self {
            Decline::HdrWouldBeRendered => DeclineModel::HdrWouldBeRendered,
            Decline::NoEncoder { unmatched } => DeclineModel::NoEncoder { refusal: unmatched@ },
        }
    }
}

/// The lossless alternative to a smart-cut: the cut points moved to the
/// nearest place a copy can start and end.
#[derive(Debug, Clone, Copy, PartialEq, Eq, Structural)]
pub struct KeyframeAlternative {
    pub source_in: i64,
    pub source_out: i64,
}

/// One stretch of one output stream, and what happens to it.
#[derive(Debug, PartialEq, Eq)]
pub struct Segment {
    pub media: Media,
    /// Sequence frames.
    pub start: i64,
    pub length: i64,
    /// Empty for a gap; more than one where sounds are mixed.
    pub sources: Vec<SegmentSource>,
    pub tier: ExportTier,
    /// Every precondition that failed. Empty exactly when the tier is a copy.
    pub causes: Vec<Cause>,
    /// For a smart-cut, the source ranges re-encoded.
    pub windows: Vec<SeamWindow>,
    pub decline: Option<Decline>,
    pub alternative: Option<KeyframeAlternative>,
    /// For pictures that are encoded, the encoder that makes them.
    pub encoder: Option<EncoderChoice>,
}

/// What a [`Segment`] says.
pub struct SegmentModel {
    pub media: Media,
    pub start: i64,
    pub length: i64,
    pub sources: Seq<SourceModel>,
    pub tier: ExportTier,
    pub causes: Seq<CauseModel>,
    pub windows: Seq<SeamWindow>,
    pub decline: Option<DeclineModel>,
    pub alternative: Option<KeyframeAlternative>,
    pub encoder: Option<ChoiceModel>,
}

impl View for Segment {
    type V = SegmentModel;

    open spec fn view(&self) -> SegmentModel {
        SegmentModel {
            media: self.media,
            start: self.start,
            length: self.length,
            sources: sources_in(self.sources@),
            tier: self.tier,
            causes: causes_in(self.causes@),
            windows: self.windows@,
            decline: match self.decline {
                Some(decline) => Some(decline@),
                None => None,
            },
            alternative: self.alternative,
            encoder: match self.encoder {
                Some(choice) => Some(choice@),
                None => None,
            },
        }
    }
}

/// What a list of segments says.
pub open spec fn segments_in(segments: Seq<Segment>) -> Seq<SegmentModel> {
    segments.map_values(|segment: Segment| segment@)
}

impl Segment {
    /// The first frame behind the segment.
    pub fn end(&self) -> (frame: i64)
        ensures
            frame == clamped(self.start + self.length),
    {
        saturating_add(self.start, self.length)
    }
}

/// How much of one stream each tier takes, in sequence frames.
#[derive(Debug, Clone, Copy, PartialEq, Eq, Structural)]
pub struct Totals {
    /// Copied packet for packet, including the copied part of a smart-cut.
    pub copied: i64,
    /// Re-encoded: whole segments and the windows of smart-cuts.
    pub re_encoded: i64,
}

/// The plan in three numbers and two answers.
#[derive(Debug, Clone, Copy, PartialEq, Eq, Structural)]
pub struct PlanSummary {
    pub video: Totals,
    pub audio: Totals,
    /// Nothing is re-encoded.
    pub lossless: bool,
    /// No segment is declined.
    pub exportable: bool,
}

/// What an export will do, segment by segment.
#[derive(Debug, PartialEq, Eq)]
pub struct ExportPlan {
    /// The unit of every segment's `start` and `length`.
    pub time_base: Rational,
    /// The sequence's shape: what a re-encoded segment is rendered at.
    pub sequence: SequenceSettings,
    /// The source whose encoding parameters the output's pictures take: the
    /// copied material's, or the first source's where nothing is copied.
    pub reference: Option<SourceId>,
    pub length: i64,
    /// In output order: every video segment, then every audio segment. Each
    /// stream's segments tile `0..length` exactly, where the stream exists.
    pub segments: Vec<Segment>,
    pub summary: PlanSummary,
}

/// Why no plan could be made.
#[derive(Debug, Clone, Copy, PartialEq, Eq, Structural)]
pub enum PlanError {
    Empty,
    UnknownSource(SourceId),
    NoVideo(SourceId),
    NoAudio { file: SourceId, stream: u32 },
    Overflow(ClipId),
}

impl PlanError {
    /// The error in words.
    pub open spec fn words(self) -> Seq<char> {
        match self {
            PlanError::Empty => "the timeline is empty"@,
            PlanError::UnknownSource(id) => "source "@ + decimal(id as nat)
                + " has not been read yet, or is missing"@,
            PlanError::NoVideo(id) => "source "@ + decimal(id as nat)
                + " has no video stream, but it is on a video track"@,
            PlanError::NoAudio { file, stream } => "source "@ + decimal(file as nat)
                + " has no audio stream "@ + decimal(stream as nat),
            PlanError::Overflow(clip) => "clip "@ + decimal(clip as nat)
                + "'s timing does not fit in 64 bits"@,
        }
    }

    /// The error in words.
    pub fn message(self) -> (text: String)
        ensures
            text@ == self.words(),
    {
        match self {
            PlanError::Empty => "the timeline is empty".to_owned(),
            PlanError::UnknownSource(id) => {
                let mut text = "source ".to_owned();
                push_decimal(&mut text, id);
                text.concat(" has not been read yet, or is missing")
            },
            PlanError::NoVideo(id) => {
                let mut text = "source ".to_owned();
                push_decimal(&mut text, id);
                text.concat(" has no video stream, but it is on a video track")
            },
            PlanError::NoAudio { file, stream } => {
                let mut text = "source ".to_owned();
                push_decimal(&mut text, file);
                text.append(" has no audio stream ");
                push_decimal(&mut text, stream as u64);
                text
            },
            PlanError::Overflow(clip) => {
                let mut text = "clip ".to_owned();
                push_decimal(&mut text, clip);
                text.concat("'s timing does not fit in 64 bits")
            },
        }
    }
}

} // verus!
