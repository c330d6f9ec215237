//! The audio export path: sound that the plan re-encodes — adjusted, mixed,
//! resampled for a speed, or silence in a gap — encoded by a process of its
//! own, while the pictures beside it are copied untouched.
//!
//! - **The codec is chosen, never defaulted.** Where some of the output's
//!   sound is copied, the encoded stretches are encoded to the copied sound's
//!   codec, sample rate and channels. Where none is copied, the caller's
//!   [`AudioTarget`] decides.
//! - **Exact length.** The encoded stretch is padded and trimmed to the
//!   segment's duration in samples.
//! - **Clean joins.** A lossy encoder is given real sound on both sides of a
//!   stretch, whole codec frames of it.
use crate::export::execute::{
    find_stream, stream_numbered, Container, ErrorModel, ExportError, ExportInput,
};
use crate::export::plan::{ExportPlan, Media, Segment};
use crate::export::profile::{or_empty, text_or_empty};
use crate::probe::{StreamInfo, StreamKind};
use crate::project::{AudioOperation, SourceId};
use crate::text::{optional, same_text};
use crate::tier::ExportTier;
use std::collections::BTreeMap;
use vstd::prelude::*;

verus! {

/// What the output's sound is encoded to where none of it is copied.
#[derive(Debug, Clone, Copy, PartialEq, Eq, Structural)]
pub enum AudioTarget {
    /// AAC-LC at a high bitrate: plays everywhere.
    Aac { kilobits: u32 },
    /// Opus: what a `WebM` file carries.
    Opus { kilobits: u32 },
    /// FLAC at 24 bits.
    Flac,
    /// 24-bit PCM: the same samples uncompressed, where the container allows.
    Pcm,
}

impl Default for AudioTarget {
    fn default() -> (target: AudioTarget)
        ensures
            target == (AudioTarget::Aac { kilobits: 256 }),
    {
        AudioTarget::Aac { kilobits: 256 }
    }
}

/// How the output's encoded sound is made: stated in the export report.
#[derive(Debug, PartialEq, Eq)]
pub struct AudioEncoding {
    /// The codec, as FFmpeg names it: `aac`, `flac`, `pcm_s16le`.
    pub codec: String,
    /// The FFmpeg encoder that makes it.
    pub encoder: String,
    /// For a lossy codec.
    pub kilobits: Option<u32>,
    pub sample_rate: u32,
    pub channels: u32,
    /// Encoded to match copied sound in the same stream, rather than to the
    /// caller's target.
    pub matches_copied: bool,
    pub lossless: bool,
}

/// What an [`AudioEncoding`] says.
pub struct AudioModel {
    pub codec: Seq<char>,
    pub encoder: Seq<char>,
    pub kilobits: Option<u32>,
    pub sample_rate: u32,
    pub channels: u32,
    pub matches_copied: bool,
    pub lossless: bool,
}

impl View for AudioEncoding {
    type V = AudioModel;

    open spec fn view(&self) -> AudioModel {
        AudioModel {
            codec: self.codec@,
            encoder: self.encoder@,
            kilobits: self.kilobits,
            sample_rate: self.sample_rate,
            channels: self.channels,
            matches_copied: self.matches_copied,
            lossless: self.lossless,
        }
    }
}

impl AudioModel {
    /// Samples per codec frame, for a codec that primes.
    pub open spec fn frame(self) -> i64 {
        if self.codec == "aac"@ {
            1024
        } else if self.codec == "opus"@ {
            960
        } else if self.codec == "mp3"@ {
            1152
        } else {
            0
        }
    }

    /// The name of the channel layout.
    pub open spec fn layout(self) -> Seq<char> {
        if self.channels == 1 {
            "mono"@
        } else if self.channels == 6 {
            "5.1"@
        } else if self.channels == 8 {
            "7.1"@
        } else {
            "stereo"@
        }
    }
}

impl AudioEncoding {
    /// Samples per codec frame, for a codec that primes: whole frames of real
    /// sound are given on either side of a stretch.
    pub fn frame(&self) -> (samples: i64)
        ensures
            samples == self@.frame(),
    {
        if same_text(self.codec.as_str(), "aac") {
            1024
        } else if same_text(self.codec.as_str(), "opus") {
            960
        } else if same_text(self.codec.as_str(), "mp3") {
            1152
        } else {
            0
        }
    }

    /// The name of the channel layout.
    pub fn layout(&self) -> (name: &'static str)
        ensures
            name@ == self@.layout(),
    {
        match self.channels {
            1 => "mono",
            6 => "5.1",
            8 => "7.1",
            _ => "stereo",
        }
    }

    /// The same encoding once more.
    pub fn copy(&self) -> (same: AudioEncoding)
        ensures
            same@ == self@,
    {
        AudioEncoding {
            codec: self.codec.clone(),
            encoder: self.encoder.clone(),
            kilobits: self.kilobits,
            sample_rate: self.sample_rate,
            channels: self.channels,
            matches_copied: self.matches_copied,
            lossless: self.lossless,
        }
    }
}

/// The stream a segment takes its sound or pictures from, where it is known.
pub open spec fn stream_for(
    inputs: Map<SourceId, ExportInput>,
    source: SourceId,
    number: u32,
) -> Option<StreamInfo> {
    if inputs.dom().contains(source) {
        let info = inputs[source].info;
        let at = stream_numbered(info, number, 0);
        if 0 <= at < info.streams@.len() {
            Some(info.streams@[at])
        } else {
            None
        }
    } else {
        None
    }
}

/// The stream `source` takes its sound or pictures from, where it is known.
pub fn stream_of(
    inputs: &BTreeMap<SourceId, ExportInput>,
    source: SourceId,
    number: u32,
) -> (stream: Option<&StreamInfo>)
    ensures
        match stream_for(inputs@, source, number) {
            Some(found) => stream is Some && *stream->0 == found,
            None => stream is None,
        },
{
    broadcast use vstd::std_specs::btree::group_btree_axioms;

    match inputs.get(&source) {
        Some(input) => match find_stream(&input.info, number) {
            Some(at) => Some(&input.info.streams[at]),
            None => None,
        },
        None => None,
    }
}

/// A stream's sample rate and channels, where it is sound and states both.
pub open spec fn shape_of(stream: StreamInfo) -> Option<(u32, u32)> {
    match stream.kind {
        StreamKind::Audio(audio) => match (audio.sample_rate, audio.channels) {
            (Some(rate), Some(channels)) => Some((rate, channels)),
            _ => None,
        },
        _ => None,
    }
}

/// A stream's sample rate and channels.
pub fn audio_shape(stream: &StreamInfo) -> (shape: Option<(u32, u32)>)
    ensures
        shape == shape_of(*stream),
{
    match &stream.kind {
        StreamKind::Audio(audio) => match (audio.sample_rate, audio.channels) {
            (Some(rate), Some(channels)) => Some((rate, channels)),
            _ => None,
        },
        _ => None,
    }
}

/// The encoder that reproduces a codec, where one ships, and whether it is
/// lossless.
pub open spec fn encoder_of(codec: Seq<char>) -> Option<(Seq<char>, bool)> {
    if codec == "aac"@ {
        Some(("aac"@, false))
    } else if codec == "opus"@ {
        Some(("libopus"@, false))
    } else if codec == "mp3"@ {
        Some(("libmp3lame"@, false))
    } else if codec == "vorbis"@ {
        Some(("libvorbis"@, false))
    } else if codec == "flac"@ {
        Some(("flac"@, true))
    } else if codec == "pcm_s16le"@ {
        Some(("pcm_s16le"@, true))
    } else if codec == "pcm_s24le"@ {
        Some(("pcm_s24le"@, true))
    } else {
        None
    }
}

/// The encoder for `codec` that reproduces it, where one ships.
pub fn matching_encoder(codec: &str) -> (encoder: Option<(&'static str, bool)>)
    ensures
        match encoder_of(codec@) {
            Some((name, lossless)) => encoder matches Some((n, l)) && n@ == name && l == lossless,
            None => encoder is None,
        },
{
    if same_text(codec, "aac") {
        Some(("aac", false))
    } else if same_text(codec, "opus") {
        Some(("libopus", false))
    } else if same_text(codec, "mp3") {
        Some(("libmp3lame", false))
    } else if same_text(codec, "vorbis") {
        Some(("libvorbis", false))
    } else if same_text(codec, "flac") {
        Some(("flac", true))
    } else if same_text(codec, "pcm_s16le") {
        Some(("pcm_s16le", true))
    } else if same_text(codec, "pcm_s24le") {
        Some(("pcm_s24le", true))
    } else {
        None
    }
}

/// Some segment of sound is not copied.
pub open spec fn encodes_sound(segments: Seq<Segment>) -> bool {
    exists|i: int|
        0 <= i < segments.len() && (#[trigger] segments[i]).media == Media::Audio
            && !segments[i].tier.lossless()
}

/// The first copied segment of sound at `at` or behind that has a source.
pub open spec fn first_copied(segments: Seq<Segment>, at: int) -> int
    decreases segments.len() - at,
{
    if at >= segments.len() || (segments[at].media == Media::Audio && segments[at].tier.lossless()
        && segments[at].sources@.len() > 0) {
        at
    } else {
        first_copied(segments, at + 1)
    }
}

/// The shape of the first source of a segment, from its `k`th on, whose stream
/// states one.
pub open spec fn source_shape(
    segment: Segment,
    inputs: Map<SourceId, ExportInput>,
    k: int,
) -> Option<(u32, u32)>
    decreases segment.sources@.len() - k,
{
    if k >= segment.sources@.len() {
        None
    } else {
        let source = segment.sources@[k];
        match stream_for(inputs, source.source, source.stream) {
            Some(stream) => match shape_of(stream) {
                Some(shape) => Some(shape),
                None => source_shape(segment, inputs, k + 1),
            },
            None => source_shape(segment, inputs, k + 1),
        }
    }
}

/// The shape of the first source of the sound, from the `i`th segment on,
/// whose stream states one.
pub open spec fn sound_shape(
    segments: Seq<Segment>,
    inputs: Map<SourceId, ExportInput>,
    i: int,
) -> Option<(u32, u32)>
    decreases segments.len() - i,
{
    if i >= segments.len() {
        None
    } else if segments[i].media != Media::Audio {
        sound_shape(segments, inputs, i + 1)
    } else {
        match source_shape(segments[i], inputs, 0) {
            Some(shape) => Some(shape),
            None => sound_shape(segments, inputs, i + 1),
        }
    }
}

/// The least a lossy encode to match copied sound is given.
pub open spec fn least_kilobits(target: AudioTarget) -> u32 {
    match target {
        AudioTarget::Aac { kilobits } => kilobits,
        AudioTarget::Opus { kilobits } => kilobits,
        AudioTarget::Flac | AudioTarget::Pcm => 256,
    }
}

/// How sound that joins a copied stream is encoded: as the stream is, at no
/// less than its own rate. No encoder may match it, or it may state no shape.
pub open spec fn matched(stream: StreamInfo, target: AudioTarget) -> Result<
    AudioModel,
    ErrorModel,
> {
    let codec = or_empty(optional(stream.codec));
    match encoder_of(codec) {
        None => Err(
            ErrorModel::Unsupported(
                "no encoder can match the copied "@ + codec
                    + " sound around a re-encoded stretch"@,
            ),
        ),
        Some((encoder, lossless)) => match shape_of(stream) {
            None => Err(ErrorModel::Mismatch("the copied sound has no sample rate"@)),
            Some((sample_rate, channels)) => {
                let own: u32 = match stream.kilobits {
                    Some(kilobits) => kilobits,
                    None => 0,
                };
                let least = least_kilobits(target);
                Ok(
                    AudioModel {
                        codec,
                        encoder,
                        kilobits: if lossless {
                            None
                        } else if own > least {
                            Some(own)
                        } else {
                            Some(least)
                        },
                        sample_rate,
                        channels,
                        matches_copied: true,
                        lossless,
                    },
                )
            },
        },
    }
}

/// How sound is encoded where none is copied: to the caller's target. Opus
/// runs at 48 kHz whatever it is given.
pub open spec fn targeted(target: AudioTarget, shape: (u32, u32)) -> AudioModel {
    let (sample_rate, channels) = shape;
    match target {
        AudioTarget::Aac { kilobits } => AudioModel {
            codec: "aac"@,
            encoder: "aac"@,
            kilobits: Some(kilobits),
            sample_rate,
            channels,
            matches_copied: false,
            lossless: false,
        },
        AudioTarget::Opus { kilobits } => AudioModel {
            codec: "opus"@,
            encoder: "libopus"@,
            kilobits: Some(kilobits),
            sample_rate: 48_000,
            channels,
            matches_copied: false,
            lossless: false,
        },
        AudioTarget::Flac => AudioModel {
            codec: "flac"@,
            encoder: "flac"@,
            kilobits: None,
            sample_rate,
            channels,
            matches_copied: false,
            lossless: true,
        },
        AudioTarget::Pcm => AudioModel {
            codec: "pcm_s24le"@,
            encoder: "pcm_s24le"@,
            kilobits: None,
            sample_rate,
            channels,
            matches_copied: false,
            lossless: true,
        },
    }
}

/// The stream that copied sound comes from, where there is any and it is known.
pub open spec fn copied_stream(
    segments: Seq<Segment>,
    inputs: Map<SourceId, ExportInput>,
) -> Option<StreamInfo> {
    let at = first_copied(segments, 0);
    if at < segments.len() {
        let source = segments[at].sources@[0];
        stream_for(inputs, source.source, source.stream)
    } else {
        None
    }
}

/// How sound is encoded, before the container is asked.
pub open spec fn encoding_wanted(
    segments: Seq<Segment>,
    inputs: Map<SourceId, ExportInput>,
    target: AudioTarget,
) -> Result<AudioModel, ErrorModel> {
    match copied_stream(segments, inputs) {
        Some(stream) => matched(stream, target),
        None => Ok(
            targeted(
                target,
                match sound_shape(segments, inputs, 0) {
                    Some(shape) => shape,
                    None => (48_000u32, 2u32),
                },
            ),
        ),
    }
}

/// How a plan's encoded sound is made: nothing when all of it is copied; an
/// error when no encoder can match the copied sound, or the container cannot
/// hold the codec.
pub open spec fn encoding_of(
    segments: Seq<Segment>,
    inputs: Map<SourceId, ExportInput>,
    target: AudioTarget,
    container: Container,
) -> Result<Option<AudioModel>, ErrorModel> {
    if !encodes_sound(segments) {
        Ok(None)
    } else {
        match encoding_wanted(segments, inputs, target) {
            Err(error) => Err(error),
            Ok(encoding) => if container.holds(encoding.codec) {
                Ok(Some(encoding))
            } else {
                Err(
                    ErrorModel::CodecNotInContainer {
                        codec: encoding.codec,
                        container: container.name(),
                    },
                )
            },
        }
    }
}

/// Whether some segment of sound is not copied.
fn has_encoded_sound(segments: &Vec<Segment>) -> (yes: bool)
    ensures
        yes == encodes_sound(segments@),
{
    let mut i: usize = 0;
    while i < segments.len()
        invariant
            i <= segments@.len(),
            forall|k: int|
                0 <= k < i ==> !((#[trigger] segments@[k]).media == Media::Audio
                    && !segments@[k].tier.lossless()),
        decreases segments@.len() - i,
    {
        if segments[i].media == Media::Audio && !segments[i].tier.is_lossless() {
            return true;
        }
        i += 1;
    }
    false
}

/// The stream that copied sound comes from.
fn find_copied<'a>(segments: &Vec<Segment>, inputs: &'a BTreeMap<SourceId, ExportInput>) -> (stream:
    Option<&'a StreamInfo>)
    ensures
        match copied_stream(segments@, inputs@) {
            Some(found) => stream is Some && *stream->0 == found,
            None => stream is None,
        },
{
    let mut i: usize = 0;
    while i < segments.len()
        invariant
            i <= segments@.len(),
            first_copied(segments@, 0) == first_copied(segments@, i as int),
        decreases segments@.len() - i,
    {
        let segment = &segments[i];
        if segment.media == Media::Audio && segment.tier.is_lossless() && segment.sources.len()
            > 0 {
            let source = &segment.sources[0];
            return stream_of(inputs, source.source, source.stream);
        }
        i += 1;
    }
    None
}

/// The shape of the first source of the sound whose stream states one.
fn find_shape(segments: &Vec<Segment>, inputs: &BTreeMap<SourceId, ExportInput>) -> (shape: Option<
    (u32, u32),
>)
    ensures
        shape == sound_shape(segments@, inputs@, 0),
{
    let mut i: usize = 0;
    while i < segments.len()
        invariant
            i <= segments@.len(),
            sound_shape(segments@, inputs@, 0) == sound_shape(segments@, inputs@, i as int),
        decreases segments@.len() - i,
    {
        let segment = &segments[i];
        if segment.media == Media::Audio {
            let mut k: usize = 0;
            while k < segment.sources.len()
                invariant
                    k <= segment.sources@.len(),
                    i < segments@.len(),
                    *segment == segments@[i as int],
                    segment.media == Media::Audio,
                    sound_shape(segments@, inputs@, 0) == sound_shape(
                        segments@,
                        inputs@,
                        i as int,
                    ),
                    source_shape(*segment, inputs@, 0) == source_shape(
                        *segment,
                        inputs@,
                        k as int,
                    ),
                decreases segment.sources@.len() - k,
            {
                let source = &segment.sources[k];
                if let Some(stream) = stream_of(inputs, source.source, source.stream) {
                    if let Some(shape) = audio_shape(stream) {
                        return Some(shape);
                    }
                }
                k += 1;
            }
        }
        i += 1;
    }
    None
}

/// How sound that joins a copied stream is encoded.
fn match_stream(stream: &StreamInfo, target: AudioTarget) -> (encoding: Result<
    AudioEncoding,
    ExportError,
>)
    ensures
        match matched(*stream, target) {
            Ok(model) => encoding is Ok && encoding->Ok_0@ == model,
            Err(error) => encoding is Err && encoding->Err_0@ == error,
        },
{
    let codec = text_or_empty(&stream.codec);
    let (encoder, lossless) = match matching_encoder(codec.as_str()) {
        Some(both) => both,
        None => {
            let text = "no encoder can match the copied ".to_owned().concat(
                codec.as_str(),
            ).concat(" sound around a re-encoded stretch");
            return Err(ExportError::Unsupported(text));
        },
    };
    let (sample_rate, channels) = match audio_shape(stream) {
        Some(shape) => shape,
        None => {
            return Err(ExportError::Mismatch("the copied sound has no sample rate".to_owned()));
        },
    };
    let own: u32 = match stream.kilobits {
        Some(kilobits) => kilobits,
        None => 0,
    };
    let least: u32 = match target {
        AudioTarget::Aac { kilobits } => kilobits,
        AudioTarget::Opus { kilobits } => kilobits,
        AudioTarget::Flac | AudioTarget::Pcm => 256,
    };
    let kilobits = if lossless {
        None
    } else if own > least {
        Some(own)
    } else {
        Some(least)
    };
    Ok(
        AudioEncoding {
            codec,
            encoder: encoder.to_owned(),
            kilobits,
            sample_rate,
            channels,
            matches_copied: true,
            lossless,
        },
    )
}

/// How sound is encoded where none is copied.
fn meet_target(target: AudioTarget, shape: (u32, u32)) -> (encoding: AudioEncoding)
    ensures
        encoding@ == targeted(target, shape),
{
    let (sample_rate, channels) = shape;
    let (codec, encoder, kilobits, lossless, sample_rate) = match target {
        AudioTarget::Aac { kilobits } => ("aac", "aac", Some(kilobits), false, sample_rate),
        AudioTarget::Opus { kilobits } => ("opus", "libopus", Some(kilobits), false, 48_000),
        AudioTarget::Flac => ("flac", "flac", None, true, sample_rate),
        AudioTarget::Pcm => ("pcm_s24le", "pcm_s24le", None, true, sample_rate),
    };
    AudioEncoding {
        codec: codec.to_owned(),
        encoder: encoder.to_owned(),
        kilobits,
        sample_rate,
        channels,
        matches_copied: false,
        lossless,
    }
}

/// How the plan's encoded sound is to be made, or `None` when all of it is
/// copied. An error where no encoder can match the copied sound, or the
/// container cannot hold the codec: both before anything runs.
pub fn encoding_for(
    plan: &ExportPlan,
    inputs: &BTreeMap<SourceId, ExportInput>,
    target: AudioTarget,
    container: Container,
) -> (encoding: Result<Option<AudioEncoding>, ExportError>)
    ensures
        match encoding_of(plan.segments@, inputs@, target, container) {
            Ok(None) => encoding == Ok::<Option<AudioEncoding>, ExportError>(None),
            Ok(Some(model)) => encoding matches Ok(Some(made)) && made@ == model,
            Err(error) => encoding is Err && encoding->Err_0@ == error,
        },
{
    let segments = &plan.segments;
    if !has_encoded_sound(segments) {
        return Ok(None);
    }
    let encoding = match find_copied(segments, inputs) {
        Some(stream) => match match_stream(stream, target) {
            Ok(encoding) => encoding,
            Err(error) => {
                return Err(error);
            },
        },
        None => {
            let shape = match find_shape(segments, inputs) {
                Some(shape) => shape,
                None => (48_000, 2),
            };
            meet_target(target, shape)
        },
    };
    if !container.accepts(encoding.codec.as_str()) {
        return Err(
            ExportError::CodecNotInContainer {
                codec: encoding.codec.clone(),
                container: container.text().to_owned(),
            },
        );
    }
    Ok(Some(encoding))
}

/// Encoded sound fits the container, and the copied sound beside it: where
/// some sound is copied, the encoded is of its codec, rate and channels, and at
/// no lower rate.
pub proof fn encoded_sound_joins_the_copied(
    segments: Seq<Segment>,
    inputs: Map<SourceId, ExportInput>,
    target: AudioTarget,
    container: Container,
)
    ensures
        encoding_of(segments, inputs, target, container) matches Ok(Some(encoding)) ==> {
            &&& container.holds(encoding.codec)
            &&& copied_stream(segments, inputs) matches Some(stream) ==> {
                &&& encoding.codec == or_empty(optional(stream.codec))
                &&& shape_of(stream) == Some((encoding.sample_rate, encoding.channels))
                &&& encoding.matches_copied
                &&& !encoding.lossless && stream.kilobits is Some ==> encoding.kilobits is Some
                    && encoding.kilobits->0 >= stream.kilobits->0
            }
        },
{
}

/// What keeps sound from being made: a smart-cut, a hold or a reverse, or a
/// step of a chain other than gain, in this order.
pub open spec fn unsupported_sound(segment: Segment) -> Option<Seq<char>> {
    if segment.tier is SmartCut {
        Some("a smart-cut of sound"@)
    } else if moves_from(segment, 0) {
        Some("the sound of a held or reversed clip"@)
    } else {
        unmade_step(segment, 0)
    }
}

/// A source at `k` or behind is held or reversed.
pub open spec fn moves_from(segment: Segment, k: int) -> bool
    decreases segment.sources@.len() - k,
{
    k < segment.sources@.len() && (segment.sources@[k].motion is Some || moves_from(segment, k + 1))
}

/// The first step other than gain of a chain, from its `j`th step on.
pub open spec fn unmade_in(chain: Seq<AudioOperation>, j: int) -> Option<Seq<char>>
    decreases chain.len() - j,
{
    if j >= chain.len() {
        None
    } else {
        match chain[j] {
            AudioOperation::Gain { .. } => unmade_in(chain, j + 1),
            AudioOperation::Denoise { .. } => Some("noise reduction, which arrives with Epic #7"@),
            AudioOperation::Normalise { .. } => Some(
                "loudness normalisation, which arrives with Epic #7"@,
            ),
        }
    }
}

/// The first step other than gain of a segment's chains, from its `k`th source
/// on.
pub open spec fn unmade_step(segment: Segment, k: int) -> Option<Seq<char>>
    decreases segment.sources@.len() - k,
{
    if k >= segment.sources@.len() {
        None
    } else {
        match unmade_in(segment.sources@[k].audio@, 0) {
            Some(text) => Some(text),
            None => unmade_step(segment, k + 1),
        }
    }
}

/// The first step other than gain of a chain.
fn find_unmade(chain: &Vec<AudioOperation>) -> (text: Option<&'static str>)
    ensures
        match unmade_in(chain@, 0) {
            Some(words) => text is Some && text->0@ == words,
            None => text is None,
        },
{
    let mut j: usize = 0;
    while j < chain.len()
        invariant
            j <= chain@.len(),
            unmade_in(chain@, 0) == unmade_in(chain@, j as int),
        decreases chain@.len() - j,
    {
        match &chain[j] {
            AudioOperation::Gain { .. } => {},
            AudioOperation::Denoise { .. } => {
                return Some("noise reduction, which arrives with Epic #7");
            },
            AudioOperation::Normalise { .. } => {
                return Some("loudness normalisation, which arrives with Epic #7");
            },
        }
        j += 1;
    }
    None
}

/// Whether the audio path can make `segment`: every step of its chain one the
/// preview also plays, and no hold or reverse. Otherwise what cannot be made.
pub fn check(segment: &Segment) -> (result: Result<(), ExportError>)
    ensures
        match unsupported_sound(*segment) {
            None => result is Ok,
            Some(text) => result is Err && result->Err_0@ == ErrorModel::Unsupported(text),
        },
{
    if let ExportTier::SmartCut { .. } = segment.tier {
        return Err(ExportError::Unsupported("a smart-cut of sound".to_owned()));
    }
    let mut k: usize = 0;
    while k < segment.sources.len()
        invariant
            k <= segment.sources@.len(),
            !(segment.tier is SmartCut),
            moves_from(*segment, 0) == moves_from(*segment, k as int),
        decreases segment.sources@.len() - k,
    {
        if segment.sources[k].motion.is_some() {
            return Err(
                ExportError::Unsupported("the sound of a held or reversed clip".to_owned()),
            );
        }
        k += 1;
    }
    let mut k: usize = 0;
    while k < segment.sources.len()
        invariant
            k <= segment.sources@.len(),
            !(segment.tier is SmartCut),
            !moves_from(*segment, 0),
            unmade_step(*segment, 0) == unmade_step(*segment, k as int),
        decreases segment.sources@.len() - k,
    {
        if let Some(text) = find_unmade(&segment.sources[k].audio) {
            return Err(ExportError::Unsupported(text.to_owned()));
        }
        k += 1;
    }
    Ok(())
}

} // verus!
