//! Matching a re-encode to its source: a re-encoded stretch that joins copied
//! packets in one stream must be the same kind of stream — same codec,
//! profile, level ceiling, pixel format, bit depth, chroma and colour — or
//! the file plays for a second and then breaks up.
//!
//! Decided here, before anything is encoded:
//!
//! - **What the source is** ([`SourceProfile`]).
//! - **Which encoder can make it** ([`select`]): the first encoder of the
//!   machine, hardware first, that produced this profile at this bit depth
//!   and at least this level. Where none can, the answer is a refusal naming
//!   the parameter that could not be matched ([`Unmatched`]), never a
//!   substitute.
//! - **How to ask it** ([`EncoderChoice::arguments`]).
//! - **Whether what it made can join** ([`validate_join`]).
use crate::capability::{EncoderCapabilities, EncoderCapability, EncoderSource, ProfileCapability, VideoCodec};
use crate::export::sps::{av1_of, av1_sequence, h264_sequence, hevc_sequence, sequence_of, Sequence};
use crate::keyframes::nal::Codec;
use crate::probe::{ChromaSubsampling, Rational, StreamInfo, StreamKind, VideoInfo};
use crate::text::{
    characters, contains, copy, copy_four, copy_optional, decimal, find, four, holds_text, hyphenate,
    lowercase, optional, parse_i32, parsed_i32, position, push_decimal, push_signed, replaced,
    same_text, signed_decimal, strip, stripped, to_lowercase,
};
use vstd::prelude::*;

verus! {

/// What a source's video stream is, as far as an encoder must match it.
#[derive(Debug, PartialEq, Eq)]
pub struct SourceProfile {
    pub codec: VideoCodec,
    /// In the terms of the encoders' capabilities: `high`, `main10`, `0`.
    pub profile: String,
    /// As the codec numbers it: H.264 `level_idc` (41), HEVC
    /// `general_level_idc` (153). `None` where levels are not matched.
    pub level: Option<i32>,
    pub pixel_format: String,
    pub bit_depth: u8,
    pub width: u32,
    pub height: u32,
    /// `[primaries, transfer, matrix, range]`, where the stream states them.
    pub colour: [Option<String>; 4],
    pub time_base: Rational,
}

/// What a [`SourceProfile`] says.
pub struct ProfileModel {
    pub codec: VideoCodec,
    pub profile: Seq<char>,
    pub level: Option<i32>,
    pub pixel_format: Seq<char>,
    pub bit_depth: u8,
    pub width: u32,
    pub height: u32,
    pub colour: Seq<Option<Seq<char>>>,
    pub time_base: Rational,
}

impl View for SourceProfile {
    type V = ProfileModel;

    open spec fn view(&self) -> ProfileModel {
        ProfileModel {
            codec: self.codec,
            profile: self.profile@,
            level: self.level,
            pixel_format: self.pixel_format@,
            bit_depth: self.bit_depth,
            width: self.width,
            height: self.height,
            colour: four(self.colour),
            time_base: self.time_base,
        }
    }
}

/// Which parameter no encoder on this machine could match.
#[derive(Debug, PartialEq, Eq)]
#[allow(inconsistent_fields)]
pub enum Unmatched {
    Codec { codec: String },
    NoEncoder { codec: VideoCodec },
    Profile { codec: VideoCodec, profile: String },
    BitDepth { codec: VideoCodec, bit_depth: u8 },
    Level { codec: VideoCodec, level: i32 },
    Chroma,
    Hdr,
    Interlaced,
    EncodersUnknown,
}

/// What an [`Unmatched`] says.
#[allow(inconsistent_fields)]
pub enum Refusal {
    Codec { codec: Seq<char> },
    NoEncoder { codec: VideoCodec },
    Profile { codec: VideoCodec, profile: Seq<char> },
    BitDepth { codec: VideoCodec, bit_depth: u8 },
    Level { codec: VideoCodec, level: i32 },
    Chroma,
    Hdr,
    Interlaced,
    EncodersUnknown,
}

impl View for Unmatched {
    type V = Refusal;

    open spec fn view(&self) -> Refusal {
        match *self {
            Unmatched::Codec { codec } => Refusal::Codec { codec: codec@ },
            Unmatched::NoEncoder { codec } => Refusal::NoEncoder { codec },
            Unmatched::Profile { codec, profile } => Refusal::Profile { codec, profile: profile@ },
            Unmatched::BitDepth { codec, bit_depth } => Refusal::BitDepth { codec, bit_depth },
            Unmatched::Level { codec, level } => Refusal::Level { codec, level },
            Unmatched::Chroma => Refusal::Chroma,
            Unmatched::Hdr => Refusal::Hdr,
            Unmatched::Interlaced => Refusal::Interlaced,
            Unmatched::EncodersUnknown => Refusal::EncodersUnknown,
        }
    }
}

impl Refusal {
    /// The refusal in words.
    pub open spec fn words(self) -> Seq<char> {
        match self {
            Refusal::Codec { codec } => codec + " is not a codec Blinkify can encode"@,
            Refusal::NoEncoder { codec } => "this computer has no encoder for "@ + codec.name(),
            Refusal::Profile { codec, profile } => "no encoder on this computer makes the "@
                + profile + " profile of "@ + codec.name(),
            Refusal::BitDepth { codec, bit_depth } => "no encoder on this computer makes "@
                + decimal(bit_depth as nat) + "-bit "@ + codec.name(),
            Refusal::Level { codec, level } => "no encoder on this computer reaches level "@
                + signed_decimal(level as int) + " of "@ + codec.name(),
            Refusal::Chroma => "only 4:2:0 pictures can be re-encoded to match"@,
            Refusal::Hdr =>
                "HDR pictures are not re-encoded: they are copied as recorded or declined"@,
            Refusal::Interlaced => "interlaced pictures are not re-encoded to match"@,
            Refusal::EncodersUnknown => "this computer's encoders are still being checked"@,
        }
    }
}

impl Unmatched {
    /// The refusal in words.
    pub fn message(&self) -> (text: String)
        ensures
            text@ == self@.words(),
    {
        match self {
            Unmatched::Codec { codec } => {
                codec.clone().concat(" is not a codec Blinkify can encode")
            },
            Unmatched::NoEncoder { codec } => {
                "this computer has no encoder for ".to_owned().concat(codec.text())
            },
            Unmatched::Profile { codec, profile } => {
                "no encoder on this computer makes the ".to_owned().concat(profile.as_str()).concat(
                    " profile of ",
                ).concat(codec.text())
            },
            Unmatched::BitDepth { codec, bit_depth } => {
                let mut text = "no encoder on this computer makes ".to_owned();
                push_decimal(&mut text, *bit_depth as u64);
                text.concat("-bit ").concat(codec.text())
            },
            Unmatched::Level { codec, level } => {
                let mut text = "no encoder on this computer reaches level ".to_owned();
                push_signed(&mut text, *level as i64);
                text.concat(" of ").concat(codec.text())
            },
            Unmatched::Chroma => "only 4:2:0 pictures can be re-encoded to match".to_owned(),
            Unmatched::Hdr => {
                "HDR pictures are not re-encoded: they are copied as recorded or declined".to_owned()
            },
            Unmatched::Interlaced => "interlaced pictures are not re-encoded to match".to_owned(),
            Unmatched::EncodersUnknown => {
                "this computer's encoders are still being checked".to_owned()
            },
        }
    }

    /// The same refusal once more.
    pub fn copy(&self) -> (same: Unmatched)
        ensures
            same@ == self@,
    {
        match self {
            Unmatched::Codec { codec } => Unmatched::Codec { codec: codec.clone() },
            Unmatched::NoEncoder { codec } => Unmatched::NoEncoder { codec: *codec },
            Unmatched::Profile { codec, profile } => Unmatched::Profile {
                codec: *codec,
                profile: profile.clone(),
            },
            Unmatched::BitDepth { codec, bit_depth } => Unmatched::BitDepth {
                codec: *codec,
                bit_depth: *bit_depth,
            },
            Unmatched::Level { codec, level } => Unmatched::Level { codec: *codec, level: *level },
            Unmatched::Chroma => Unmatched::Chroma,
            Unmatched::Hdr => Unmatched::Hdr,
            Unmatched::Interlaced => Unmatched::Interlaced,
            Unmatched::EncodersUnknown => Unmatched::EncodersUnknown,
        }
    }
}

/// The encoder chosen for a source, and how it was asked.
#[derive(Debug, PartialEq, Eq)]
pub struct EncoderChoice {
    pub codec: VideoCodec,
    pub encoder: String,
    pub source: EncoderSource,
    pub profile: String,
    pub pixel_format: String,
    pub bit_depth: u8,
    /// The level the encoder is asked for: the source's.
    pub level: Option<i32>,
    pub colour: [Option<String>; 4],
}

/// What an [`EncoderChoice`] says.
pub struct ChoiceModel {
    pub codec: VideoCodec,
    pub encoder: Seq<char>,
    pub source: EncoderSource,
    pub profile: Seq<char>,
    pub pixel_format: Seq<char>,
    pub bit_depth: u8,
    pub level: Option<i32>,
    pub colour: Seq<Option<Seq<char>>>,
}

impl View for EncoderChoice {
    type V = ChoiceModel;

    open spec fn view(&self) -> ChoiceModel {
        ChoiceModel {
            codec: self.codec,
            encoder: self.encoder@,
            source: self.source,
            profile: self.profile@,
            pixel_format: self.pixel_format@,
            bit_depth: self.bit_depth,
            level: self.level,
            colour: four(self.colour),
        }
    }
}

/// The codec that a name stands for.
pub open spec fn codec_named(name: Seq<char>) -> Option<VideoCodec> {
    if name == "h264"@ {
        Some(VideoCodec::H264)
    } else if name == "hevc"@ {
        Some(VideoCodec::Hevc)
    } else if name == "vp9"@ {
        Some(VideoCodec::Vp9)
    } else if name == "av1"@ {
        Some(VideoCodec::Av1)
    } else {
        None
    }
}

/// The codec that a name stands for.
pub fn codec_of(name: &str) -> (codec: Option<VideoCodec>)
    ensures
        codec == codec_named(name@),
{
    if same_text(name, "h264") {
        Some(VideoCodec::H264)
    } else if same_text(name, "hevc") {
        Some(VideoCodec::Hevc)
    } else if same_text(name, "vp9") {
        Some(VideoCodec::Vp9)
    } else if same_text(name, "av1") {
        Some(VideoCodec::Av1)
    } else {
        None
    }
}

/// A stream's profile in the terms of the encoders' capabilities: in small
/// letters, the ten-bit profiles without their space, VP9's by its number,
/// any other with hyphens for spaces.
pub open spec fn profile_named(codec: VideoCodec, probed: Seq<char>) -> Seq<char> {
    let name = lowercase(probed);
    if codec == VideoCodec::H264 && name == "high 10"@ {
        "high10"@
    } else if codec == VideoCodec::Hevc && name == "main 10"@ {
        "main10"@
    } else if codec == VideoCodec::Vp9 {
        stripped(name, "profile "@)
    } else {
        replaced(name, ' ', '-')
    }
}

/// A stream's profile in the terms of the encoders' capabilities.
pub fn profile_name(codec: VideoCodec, probed: &str) -> (name: String)
    ensures
        name@ == profile_named(codec, probed@),
{
    let name = to_lowercase(probed);
    if codec == VideoCodec::H264 && same_text(name.as_str(), "high 10") {
        return "high10".to_owned();
    }
    if codec == VideoCodec::Hevc && same_text(name.as_str(), "main 10") {
        return "main10".to_owned();
    }
    match codec {
        VideoCodec::Vp9 => {
            proof {
                reveal_strlit("profile ");
            }
            strip(name.as_str(), "profile ")
        },
        _ => hyphenate(name.as_str()),
    }
}

/// A colour field, where it says something.
pub open spec fn stated_text(value: Option<Seq<char>>) -> Option<Seq<char>> {
    match value {
        Some(text) => if text.len() == 0 || text == "unknown"@ || text == "unspecified"@ {
            None
        } else {
            Some(text)
        },
        None => None,
    }
}

/// A colour field, where it says something.
fn stated(value: &Option<String>) -> (text: Option<String>)
    ensures
        optional(text) == stated_text(optional(*value)),
{
    match value {
        Some(text) => {
            if text.as_str().is_empty() || same_text(text.as_str(), "unknown") || same_text(
                text.as_str(),
                "unspecified",
            ) {
                None
            } else {
                Some(text.clone())
            }
        },
        None => None,
    }
}

/// The text of an optional field, empty where there is none.
pub open spec fn or_empty(text: Option<Seq<char>>) -> Seq<char> {
    match text {
        Some(text) => text,
        None => Seq::empty(),
    }
}

/// The text of an optional field, empty where there is none.
pub fn text_or_empty(text: &Option<String>) -> (out: String)
    ensures
        out@ == or_empty(optional(*text)),
{
    match text {
        Some(text) => text.clone(),
        None => String::new(),
    }
}

/// The bit depth of pictures that do not state it, from their pixel format.
pub open spec fn depth_of(stated: Option<u8>, pixel_format: Seq<char>) -> u8 {
    match stated {
        Some(depth) => depth,
        None => if holds_text(pixel_format, "10"@) {
            10
        } else {
            8
        },
    }
}

/// What a video stream of a codec is, as far as an encoder must match it.
pub open spec fn video_profile(
    stream: StreamInfo,
    video: VideoInfo,
    codec: VideoCodec,
) -> ProfileModel {
    ProfileModel {
        codec,
        profile: profile_named(codec, or_empty(optional(stream.profile))),
        level: match codec {
            VideoCodec::H264 | VideoCodec::Hevc => stream.level,
            VideoCodec::Vp9 | VideoCodec::Av1 => None,
        },
        pixel_format: or_empty(optional(video.pixel_format)),
        bit_depth: depth_of(video.bit_depth, or_empty(optional(video.pixel_format))),
        width: video.width,
        height: video.height,
        colour: seq![
            stated_text(optional(video.color.primaries)),
            stated_text(optional(video.color.transfer)),
            stated_text(optional(video.color.matrix)),
            stated_text(optional(video.color.range)),
        ],
        time_base: match stream.time_base {
            Some(base) => base,
            None => Rational { num: 1, den: 1 },
        },
    }
}

/// A stream's pictures are not stored whole.
pub open spec fn interlaced(field_order: Option<Seq<char>>) -> bool {
    match field_order {
        Some(order) => order != "progressive"@ && order != "unknown"@,
        None => false,
    }
}

/// What a stream is, or why no encoder could ever match it.
pub open spec fn profile_of(stream: StreamInfo) -> Result<ProfileModel, Refusal> {
    let name = or_empty(optional(stream.codec));
    match stream.kind {
        StreamKind::Video(video) => match codec_named(name) {
            None => Err(Refusal::Codec { codec: name }),
            Some(codec) => if video.hdr {
                Err(Refusal::Hdr)
            } else if interlaced(optional(video.field_order)) {
                Err(Refusal::Interlaced)
            } else if video.chroma_subsampling is Some && video.chroma_subsampling->0
                != ChromaSubsampling::Yuv420 {
                Err(Refusal::Chroma)
            } else {
                Ok(video_profile(stream, video, codec))
            },
        },
        _ => Err(Refusal::Codec { codec: name }),
    }
}

/// What `stream` is, or why no encoder could ever match it: it is not video,
/// not a codec that is encoded, HDR, interlaced or not 4:2:0.
pub fn source_profile(stream: &StreamInfo) -> (profile: Result<SourceProfile, Unmatched>)
    ensures
        match profile_of(*stream) {
            Ok(model) => profile is Ok && profile->Ok_0@ == model,
            Err(refusal) => profile is Err && profile->Err_0@ == refusal,
        },
{
    let name = text_or_empty(&stream.codec);
    let video = match &stream.kind {
        StreamKind::Video(video) => video,
        _ => {
            return Err(Unmatched::Codec { codec: name });
        },
    };
    let codec = match codec_of(name.as_str()) {
        Some(codec) => codec,
        None => {
            return Err(Unmatched::Codec { codec: name });
        },
    };
    if video.hdr {
        return Err(Unmatched::Hdr);
    }
    if let Some(order) = &video.field_order {
        if !same_text(order.as_str(), "progressive") && !same_text(order.as_str(), "unknown") {
            return Err(Unmatched::Interlaced);
        }
    }
    if let Some(chroma) = video.chroma_subsampling {
        if chroma != ChromaSubsampling::Yuv420 {
            return Err(Unmatched::Chroma);
        }
    }
    let pixel_format = text_or_empty(&video.pixel_format);
    let bit_depth: u8 = match video.bit_depth {
        Some(depth) => depth,
        None => {
            if contains(&characters(pixel_format.as_str()), &characters("10")) {
                10
            } else {
                8
            }
        },
    };
    let probed = text_or_empty(&stream.profile);
    let colour = [
        stated(&video.color.primaries),
        stated(&video.color.transfer),
        stated(&video.color.matrix),
        stated(&video.color.range),
    ];
    let profile = SourceProfile {
        codec,
        profile: profile_name(codec, probed.as_str()),
        level: match codec {
            VideoCodec::H264 | VideoCodec::Hevc => stream.level,
            VideoCodec::Vp9 | VideoCodec::Av1 => None,
        },
        pixel_format,
        bit_depth,
        width: video.width,
        height: video.height,
        colour,
        time_base: match stream.time_base {
            Some(base) => base,
            None => Rational { num: 1, den: 1 },
        },
    };
    proof {
        assert(profile@.colour =~= video_profile(*stream, *video, codec).colour);
    }
    Ok(profile)
}

/// A level label (`5.1`) as its codec numbers it: H.264 in tenths, HEVC in
/// thirtieths. Nothing where the label has no point, a part is not a number
/// or the level does not fit; other codecs number no levels.
pub open spec fn level_of(codec: VideoCodec, label: Seq<char>) -> Option<i32> {
    let point = find(label, '.');
    if point >= label.len() {
        None
    } else {
        match (parsed_i32(label.take(point)), parsed_i32(label.skip(point + 1))) {
            (Some(major), Some(minor)) => {
                let tenths = major * 10 + minor;
                match codec {
                    VideoCodec::H264 => if i32::MIN <= tenths <= i32::MAX {
                        Some(tenths as i32)
                    } else {
                        None
                    },
                    VideoCodec::Hevc => if i32::MIN <= tenths * 3 <= i32::MAX {
                        Some((tenths * 3) as i32)
                    } else {
                        None
                    },
                    _ => None,
                }
            },
            _ => None,
        }
    }
}

/// A level label (`5.1`) as its codec numbers it.
pub fn level_number(codec: VideoCodec, label: &str) -> (level: Option<i32>)
    ensures
        level == level_of(codec, label@),
{
    let chars = characters(label);
    let point = position(&chars, '.');
    if point >= chars.len() {
        return None;
    }
    let whole = copy(&chars, 0, point);
    let part = copy(&chars, point + 1, chars.len());
    proof {
        assert(whole@ =~= label@.take(point as int));
        assert(part@ =~= label@.skip(point + 1));
    }
    let major = parse_i32(&whole)?;
    let minor = parse_i32(&part)?;
    let tenths: i64 = major as i64 * 10 + minor as i64;
    match codec {
        VideoCodec::H264 => {
            if -0x8000_0000 <= tenths && tenths <= 0x7fff_ffff {
                Some(tenths as i32)
            } else {
                None
            }
        },
        VideoCodec::Hevc => {
            let level: i64 = tenths * 3;
            if -0x8000_0000 <= level && level <= 0x7fff_ffff {
                Some(level as i32)
            } else {
                None
            }
        },
        _ => None,
    }
}

/// The highest level of a capability reaches `level`.
pub open spec fn reaches(codec: VideoCodec, max_level: Option<Seq<char>>, level: i32) -> bool {
    match max_level {
        Some(label) => level_of(codec, label) is Some && level_of(codec, label)->0 >= level,
        None => false,
    }
}

/// What keeps a capability from making a source: the first of profile, bit
/// depth and level that it does not match.
pub open spec fn refusal_of(source: ProfileModel, capability: ProfileCapability) -> Option<
    Refusal,
> {
    if capability.profile@ != source.profile {
        Some(Refusal::Profile { codec: source.codec, profile: source.profile })
    } else if capability.bit_depth != source.bit_depth {
        Some(Refusal::BitDepth { codec: source.codec, bit_depth: source.bit_depth })
    } else if source.level is Some && !reaches(
        source.codec,
        optional(capability.max_level),
        source.level->0,
    ) {
        Some(Refusal::Level { codec: source.codec, level: source.level->0 })
    } else {
        None
    }
}

/// What keeps `capability` from making `source`'s profile at its bit depth
/// and level, if anything does.
fn fits(source: &SourceProfile, capability: &ProfileCapability) -> (result: Result<(), Unmatched>)
    ensures
        match refusal_of(source@, *capability) {
            None => result is Ok,
            Some(refusal) => result is Err && result->Err_0@ == refusal,
        },
{
    if !same_text(capability.profile.as_str(), source.profile.as_str()) {
        return Err(Unmatched::Profile { codec: source.codec, profile: source.profile.clone() });
    }
    if capability.bit_depth != source.bit_depth {
        return Err(Unmatched::BitDepth { codec: source.codec, bit_depth: source.bit_depth });
    }
    if let Some(level) = source.level {
        let ceiling = match &capability.max_level {
            Some(label) => level_number(source.codec, label.as_str()),
            None => None,
        };
        let enough = match ceiling {
            Some(ceiling) => ceiling >= level,
            None => false,
        };
        if !enough {
            return Err(Unmatched::Level { codec: source.codec, level });
        }
    }
    Ok(())
}

/// The `p`th capability of the `e`th encoder makes the source.
pub open spec fn fits_at(
    source: ProfileModel,
    encoders: Seq<EncoderCapability>,
    e: int,
    p: int,
) -> bool {
    0 <= e < encoders.len() && 0 <= p < encoders[e].profiles@.len() && refusal_of(
        source,
        encoders[e].profiles@[p],
    ) is None
}

/// It is the first that does: none of an earlier encoder, and no earlier one
/// of this encoder.
pub open spec fn first_fit(
    source: ProfileModel,
    encoders: Seq<EncoderCapability>,
    e: int,
    p: int,
) -> bool {
    &&& fits_at(source, encoders, e, p)
    &&& forall|d: int, q: int|
        #[trigger] fits_at(source, encoders, d, q) ==> d > e || (d == e && q >= p)
}

/// Some capability is kept from the source by nothing less than its level,
/// and so on: a capability refuses the source in this way.
pub open spec fn refused_with(
    source: ProfileModel,
    encoders: Seq<EncoderCapability>,
    refusal: Refusal,
) -> bool {
    exists|e: int, p: int|
        0 <= e < encoders.len() && 0 <= p < encoders[e].profiles@.len() && refusal_of(
            source,
            #[trigger] encoders[e].profiles@[p],
        ) == Some(refusal)
}

/// The refusal of a source that nothing fits: the one that got furthest. A
/// level is closer than a bit depth, which is closer than a profile.
pub open spec fn closest(source: ProfileModel, encoders: Seq<EncoderCapability>) -> Refusal {
    let level = Refusal::Level { codec: source.codec, level: source.level->0 };
    let depth = Refusal::BitDepth { codec: source.codec, bit_depth: source.bit_depth };
    let profile = Refusal::Profile { codec: source.codec, profile: source.profile };
    if refused_with(source, encoders, level) {
        level
    } else if refused_with(source, encoders, depth) {
        depth
    } else if refused_with(source, encoders, profile) {
        profile
    } else {
        Refusal::NoEncoder { codec: source.codec }
    }
}

/// An encoder asked for a source through one of its capabilities.
pub open spec fn choice_of(
    source: ProfileModel,
    encoder: EncoderCapability,
    capability: ProfileCapability,
) -> ChoiceModel {
    ChoiceModel {
        codec: source.codec,
        encoder: encoder.encoder@,
        source: encoder.source,
        profile: source.profile,
        pixel_format: capability.pixel_format@,
        bit_depth: source.bit_depth,
        level: source.level,
        colour: source.colour,
    }
}

/// Something fits the source.
pub open spec fn something_fits(source: ProfileModel, encoders: Seq<EncoderCapability>) -> bool {
    exists|e: int, p: int| fits_at(source, encoders, e, p)
}

/// Whom a source is encoded by: the first that makes it exactly, or why there
/// is none.
pub open spec fn selected(source: ProfileModel, encoders: Seq<EncoderCapability>) -> Result<
    ChoiceModel,
    Refusal,
> {
    if something_fits(source, encoders) {
        let (e, p) = choose|e: int, p: int| first_fit(source, encoders, e, p);
        Ok(choice_of(source, encoders[e], encoders[e].profiles@[p]))
    } else {
        Err(closest(source, encoders))
    }
}

/// Only one place is the first that fits.
proof fn lemma_first_fit(source: ProfileModel, encoders: Seq<EncoderCapability>, e: int, p: int)
    requires
        first_fit(source, encoders, e, p),
    ensures
        selected(source, encoders) == Ok::<ChoiceModel, Refusal>(
            choice_of(source, encoders[e], encoders[e].profiles@[p]),
        ),
{
    assert(fits_at(source, encoders, e, p));
    let (d, q) = choose|d: int, q: int| first_fit(source, encoders, d, q);
    assert(first_fit(source, encoders, d, q));
    assert(fits_at(source, encoders, d, q));
    assert(d == e && q == p);
}

/// How far a refusal got.
pub open spec fn rank_of(refusal: Refusal) -> int {
    match refusal {
        Refusal::Level { .. } => 3,
        Refusal::BitDepth { .. } => 2,
        _ => 1,
    }
}

/// How far a refusal got: a level is closer than a bit depth, which is closer
/// than a profile.
fn rank(unmatched: &Unmatched) -> (rank: u8)
    ensures
        rank == rank_of(unmatched@),
{
    match unmatched {
        Unmatched::Level { .. } => 3,
        Unmatched::BitDepth { .. } => 2,
        _ => 1,
    }
}

/// The place (`e`, `p`) comes before (`d`, `q`).
pub open spec fn earlier(e: int, p: int, d: int, q: int) -> bool {
    e < d || (e == d && p < q)
}

/// A refusal is the furthest that a capability before (`d`, `q`) gave.
pub open spec fn furthest_before(
    source: ProfileModel,
    encoders: Seq<EncoderCapability>,
    d: int,
    q: int,
    refusal: Option<Refusal>,
) -> bool {
    &&& refusal is Some ==> refused_with(source, encoders, refusal->0)
    &&& forall|e: int, p: int|
        0 <= e < encoders.len() && 0 <= p < encoders[e].profiles@.len() && earlier(e, p, d, q)
            ==> {
            let given = refusal_of(source, #[trigger] encoders[e].profiles@[p]);
            given is Some && refusal is Some && rank_of(given->0) <= rank_of(refusal->0)
        }
}

/// The furthest refusal of all is the closest.
proof fn lemma_furthest(
    source: ProfileModel,
    encoders: Seq<EncoderCapability>,
    refusal: Option<Refusal>,
)
    requires
        furthest_before(source, encoders, encoders.len() as int, 0, refusal),
    ensures
        selected(source, encoders) == Err::<ChoiceModel, Refusal>(
            match refusal {
                Some(refusal) => refusal,
                None => Refusal::NoEncoder { codec: source.codec },
            },
        ),
{
    let level = Refusal::Level { codec: source.codec, level: source.level->0 };
    let depth = Refusal::BitDepth { codec: source.codec, bit_depth: source.bit_depth };
    let profile = Refusal::Profile { codec: source.codec, profile: source.profile };
    if something_fits(source, encoders) {
        let (e, p) = choose|e: int, p: int| fits_at(source, encoders, e, p);
        assert(earlier(e, p, encoders.len() as int, 0));
        assert(refusal_of(source, encoders[e].profiles@[p]) is None);
        assert(false);
    }
    assert forall|r: Refusal| #[trigger] refused_with(source, encoders, r) implies refusal is Some
        && rank_of(r) <= rank_of(refusal->0) && (r == level || r == depth || r == profile) by {
        let (e, p) = choose|e: int, p: int|
            0 <= e < encoders.len() && 0 <= p < encoders[e].profiles@.len() && refusal_of(
                source,
                #[trigger] encoders[e].profiles@[p],
            ) == Some(r);
        assert(earlier(e, p, encoders.len() as int, 0));
    }
    assert(refused_with(source, encoders, level) ==> refusal is Some);
    assert(refused_with(source, encoders, depth) ==> refusal is Some);
    assert(refused_with(source, encoders, profile) ==> refusal is Some);
}

/// The first encoder on this machine, hardware first, that makes `source`
/// exactly. Otherwise the most specific thing no encoder could match: no
/// encoder for the codec at all, else the profile, else the bit depth, else
/// the level.
pub fn select(source: &SourceProfile, capabilities: &EncoderCapabilities) -> (choice: Result<
    EncoderChoice,
    Unmatched,
>)
    ensures
        match selected(source@, capabilities.encoders(source.codec)) {
            Ok(model) => choice is Ok && choice->Ok_0@ == model,
            Err(refusal) => choice is Err && choice->Err_0@ == refusal,
        },
{
    let ghost all = capabilities.encoders(source.codec);
    let ghost model = source@;
    let encoders = match capabilities.encoders_for(source.codec) {
        Some(encoders) => encoders,
        None => {
            proof {
                lemma_furthest(model, all, None);
            }
            return Err(Unmatched::NoEncoder { codec: source.codec });
        },
    };
    let mut closest: Option<Unmatched> = None;
    let ghost mut said: Option<Refusal> = None;
    let mut e: usize = 0;
    while e < encoders.len()
        invariant
            e <= encoders@.len(),
            all == encoders@,
            all == capabilities.encoders(source.codec),
            model == source@,
            furthest_before(model, all, e as int, 0, said),
            closest is Some <==> said is Some,
            closest is Some ==> closest->0@ == said->0,
        decreases encoders@.len() - e,
    {
        let profiles = &encoders[e].profiles;
        let mut p: usize = 0;
        while p < profiles.len()
            invariant
                p <= profiles@.len(),
                e < encoders@.len(),
                all == encoders@,
                all == capabilities.encoders(source.codec),
                *profiles == encoders@[e as int].profiles,
                model == source@,
                furthest_before(model, all, e as int, p as int, said),
                closest is Some <==> said is Some,
                closest is Some ==> closest->0@ == said->0,
            decreases profiles@.len() - p,
        {
            let capability = &profiles[p];
            assert(*capability == all[e as int].profiles@[p as int]);
            match fits(source, capability) {
                Ok(()) => {
                    let choice = EncoderChoice {
                        codec: source.codec,
                        encoder: encoders[e].encoder.clone(),
                        source: encoders[e].source,
                        profile: source.profile.clone(),
                        pixel_format: capability.pixel_format.clone(),
                        bit_depth: source.bit_depth,
                        level: source.level,
                        colour: copy_four(&source.colour),
                    };
                    proof {
                        assert(fits_at(model, all, e as int, p as int));
                        assert forall|d: int, q: int| #[trigger] fits_at(model, all, d, q) implies d
                            > e || (d == e && q >= p) by {
                            if earlier(d, q, e as int, p as int) {
                                assert(refusal_of(model, all[d].profiles@[q]) is Some);
                            }
                        }
                        assert(first_fit(model, all, e as int, p as int));
                        lemma_first_fit(model, all, e as int, p as int);
                    }
                    return Ok(choice);
                },
                Err(unmatched) => {
                    let ghost before = said;
                    let further = match &closest {
                        Some(known) => rank(&unmatched) > rank(known),
                        None => true,
                    };
                    if further {
                        proof {
                            said = Some(unmatched@);
                        }
                        closest = Some(unmatched);
                    }
                    proof {
                        assert(refusal_of(model, all[e as int].profiles@[p as int]) is Some);
                        assert forall|d: int, q: int|
                            0 <= d < all.len() && 0 <= q < all[d].profiles@.len() && earlier(
                                d,
                                q,
                                e as int,
                                p + 1,
                            ) implies {
                            let given = refusal_of(model, #[trigger] all[d].profiles@[q]);
                            given is Some && said is Some && rank_of(given->0) <= rank_of(said->0)
                        } by {
                            if !(d == e && q == p) {
                                assert(earlier(d, q, e as int, p as int));
                                assert(before is Some);
                            }
                        }
                    }
                },
            }
            p += 1;
        }
        proof {
            assert forall|d: int, q: int|
                0 <= d < all.len() && 0 <= q < all[d].profiles@.len() && earlier(
                    d,
                    q,
                    e + 1,
                    0,
                ) implies {
                let given = refusal_of(model, #[trigger] all[d].profiles@[q]);
                given is Some && said is Some && rank_of(given->0) <= rank_of(said->0)
            } by {
                assert(earlier(d, q, e as int, p as int));
            }
        }
        e += 1;
    }
    proof {
        lemma_furthest(model, all, said);
    }
    match closest {
        Some(unmatched) => Err(unmatched),
        None => Err(Unmatched::NoEncoder { codec: source.codec }),
    }
}

/// A chosen encoder makes the source's own profile and bit depth, at a level
/// that reaches the source's: nothing is ever substituted.
pub proof fn nothing_is_substituted(source: ProfileModel, encoders: Seq<EncoderCapability>)
    ensures
        selected(source, encoders) matches Ok(choice) ==> {
            &&& choice.codec == source.codec
            &&& choice.profile == source.profile
            &&& choice.bit_depth == source.bit_depth
            &&& choice.level == source.level
            &&& choice.colour == source.colour
            &&& exists|e: int, p: int| #[trigger]
                fits_at(source, encoders, e, p) && choice.encoder == encoders[e].encoder@
                    && choice.pixel_format == encoders[e].profiles@[p].pixel_format@
        },
{
    if something_fits(source, encoders) {
        lemma_some_first_fit(source, encoders);
        let (e, p) = choose|e: int, p: int| first_fit(source, encoders, e, p);
        assert(fits_at(source, encoders, e, p));
    }
}

/// Where something fits, something is the first to.
pub proof fn lemma_some_first_fit(source: ProfileModel, encoders: Seq<EncoderCapability>)
    requires
        something_fits(source, encoders),
    ensures
        exists|e: int, p: int| first_fit(source, encoders, e, p),
{
    let (e, p) = choose|e: int, p: int| fits_at(source, encoders, e, p);
    lemma_earliest(source, encoders, e, p);
}

/// Something at or before a place that fits is the first to.
proof fn lemma_earliest(source: ProfileModel, encoders: Seq<EncoderCapability>, e: int, p: int)
    requires
        fits_at(source, encoders, e, p),
    ensures
        exists|d: int, q: int| first_fit(source, encoders, d, q),
    decreases e, p,
{
    if !first_fit(source, encoders, e, p) {
        let (d, q) = choose|d: int, q: int|
            #[trigger] fits_at(source, encoders, d, q) && !(d > e || (d == e && q >= p));
        lemma_earliest(source, encoders, d, q);
    }
}

/// A machine without an encoder for a codec refuses the codec; it never falls
/// back to another.
pub proof fn without_an_encoder_the_codec_is_refused(source: ProfileModel)
    ensures
        selected(source, Seq::empty()) == Err::<ChoiceModel, Refusal>(
            Refusal::NoEncoder { codec: source.codec },
        ),
{
    lemma_furthest(source, Seq::empty(), None);
}

/// What a stream at a level may carry, in kilobits a second, before its
/// profile's factor: H.264 Table A-1, HEVC Table A.8 main tier.
pub open spec fn level_kilobits(codec: VideoCodec, level: i32) -> Option<int> {
    match codec {
        VideoCodec::H264 => match level {
            10 => Some(64),
            11 => Some(192),
            12 => Some(384),
            13 => Some(768),
            20 => Some(2_000),
            21 | 22 => Some(4_000),
            30 => Some(10_000),
            31 => Some(14_000),
            32 | 40 => Some(20_000),
            41 | 42 => Some(50_000),
            50 => Some(135_000),
            51 | 52 | 60 => Some(240_000),
            61 => Some(480_000),
            62 => Some(800_000),
            _ => None,
        },
        VideoCodec::Hevc => match level {
            30 => Some(128),
            60 => Some(1_500),
            63 => Some(3_000),
            90 => Some(6_000),
            93 => Some(10_000),
            120 => Some(12_000),
            123 => Some(20_000),
            150 => Some(25_000),
            153 => Some(40_000),
            156 | 180 => Some(60_000),
            183 => Some(120_000),
            186 => Some(240_000),
            _ => None,
        },
        _ => None,
    }
}

/// The most a stream at a level may carry, in kilobits a second: nine tenths
/// of the table's, which H.264 multiplies by 5/4 for High and by 3 for
/// High 10. Nothing where the level is not in the tables.
pub open spec fn ceiling_kilobits(codec: VideoCodec, profile: Seq<char>, level: i32) -> Option<
    int,
> {
    let factor: int = if codec == VideoCodec::H264 && profile == "high"@ {
        5
    } else if codec == VideoCodec::H264 && profile == "high10"@ {
        12
    } else {
        4
    };
    match level_kilobits(codec, level) {
        Some(base) => Some(base * factor * 9 / 40),
        None => None,
    }
}

/// The most a stream at `level` may carry, in kilobits a second, with a tenth
/// held back.
pub fn max_kilobits(codec: VideoCodec, profile: &str, level: i32) -> (most: Option<u32>)
    ensures
        match ceiling_kilobits(codec, profile@, level) {
            Some(kilobits) => most is Some && most->0 == kilobits,
            None => most is None,
        },
{
    let base: u32 = match codec {
        VideoCodec::H264 => match level {
            10 => 64,
            11 => 192,
            12 => 384,
            13 => 768,
            20 => 2_000,
            21 | 22 => 4_000,
            30 => 10_000,
            31 => 14_000,
            32 | 40 => 20_000,
            41 | 42 => 50_000,
            50 => 135_000,
            51 | 52 | 60 => 240_000,
            61 => 480_000,
            62 => 800_000,
            _ => {
                return None;
            },
        },
        VideoCodec::Hevc => match level {
            30 => 128,
            60 => 1_500,
            63 => 3_000,
            90 => 6_000,
            93 => 10_000,
            120 => 12_000,
            123 => 20_000,
            150 => 25_000,
            153 => 40_000,
            156 | 180 => 60_000,
            183 => 120_000,
            186 => 240_000,
            _ => {
                return None;
            },
        },
        VideoCodec::Vp9 | VideoCodec::Av1 => {
            return None;
        },
    };
    let factor: u32 = match codec {
        VideoCodec::H264 => {
            if same_text(profile, "high") {
                5
            } else if same_text(profile, "high10") {
                proof {
                    reveal_strlit("high");
                    reveal_strlit("high10");
                }
                12
            } else {
                4
            }
        },
        _ => 4,
    };
    proof {
        assert(base * factor * 9 <= 800_000 * 12 * 9) by (nonlinear_arith)
            requires
                base <= 800_000,
                factor <= 12,
        ;
        assert(base * factor <= 800_000 * 12) by (nonlinear_arith)
            requires
                base <= 800_000,
                factor <= 12,
        ;
    }
    Some(base * factor * 9 / 40)
}

/// An option of an encoder: its name and its value.
pub type Argument = (Seq<char>, Seq<char>);

/// What a list of options says.
pub open spec fn arguments_in(list: Seq<(&'static str, String)>) -> Seq<Argument> {
    list.map_values(|entry: (&'static str, String)| (entry.0@, entry.1@))
}

/// Append an option.
fn push_argument(list: &mut Vec<(&'static str, String)>, name: &'static str, value: String)
    ensures
        arguments_in(final(list)@) == arguments_in(old(list)@).push((name@, value@)),
{
    let ghost before = list@;
    list.push((name, value));
    proof {
        assert(arguments_in(list@) =~= arguments_in(before).push((name@, value@)));
    }
}

/// The encoders that name AV1's only profile by number.
pub open spec fn names_no_profile(encoder: Seq<char>) -> bool {
    encoder == "libsvtav1"@ || encoder == "libaom-av1"@ || encoder == "av1_nvenc"@ || encoder
        == "av1_qsv"@ || encoder == "av1_amf"@
}

/// The quality that an encoder is asked for, far above the source's: a seam
/// is a fraction of a second.
pub open spec fn quality_of(source: EncoderSource, encoder: Seq<char>) -> Seq<Argument> {
    match source {
        EncoderSource::Nvidia => seq![
            ("-preset"@, "p7"@),
            ("-rc"@, "vbr"@),
            ("-cq"@, "16"@),
            ("-b:v"@, "0"@),
        ],
        EncoderSource::Intel => seq![("-preset"@, "veryslow"@), ("-global_quality"@, "16"@)],
        EncoderSource::Amd => seq![
            ("-quality"@, "quality"@),
            ("-rc"@, "qvbr"@),
            ("-qvbr_quality_level"@, "44"@),
        ],
        EncoderSource::Software => if encoder == "libvpx-vp9"@ {
            seq![("-crf"@, "12"@), ("-b:v"@, "0"@), ("-row-mt"@, "1"@)]
        } else if encoder == "libsvtav1"@ {
            seq![("-crf"@, "14"@), ("-preset"@, "8"@)]
        } else {
            seq![("-crf"@, "14"@), ("-b:v"@, "0"@), ("-cpu-used"@, "6"@)]
        },
    }
}

/// One option, where it has a value.
pub open spec fn where_given(name: Seq<char>, value: Option<Seq<char>>) -> Seq<Argument> {
    match value {
        Some(value) => seq![(name, value)],
        None => Seq::empty(),
    }
}

impl ChoiceModel {
    /// The level as the encoder's option takes it: the codec's own number, but
    /// for Quick Sync's HEVC, which takes tenths like H.264.
    pub open spec fn level_text(self, codec: VideoCodec) -> Option<Seq<char>> {
        match self.level {
            Some(level) => if codec == VideoCodec::Hevc && self.source == EncoderSource::Intel {
                Some(signed_decimal((level * 10) / 30))
            } else {
                Some(signed_decimal(level as int))
            },
            None => None,
        }
    }

    /// The options that hold the stream to what its level allows.
    pub open spec fn ceiling(self, codec: VideoCodec) -> Seq<Argument> {
        match self.level {
            Some(level) => match ceiling_kilobits(codec, self.profile, level) {
                Some(kilobits) => seq![
                    ("-maxrate"@, decimal(kilobits as nat) + "k"@),
                    ("-bufsize"@, decimal(kilobits as nat) + "k"@),
                ],
                None => Seq::empty(),
            },
            None => Seq::empty(),
        }
    }

    /// The options that name the encoder and the kind of stream it produces.
    pub open spec fn naming(self, codec: VideoCodec) -> Seq<Argument> {
        seq![("-c:v"@, self.encoder), ("-pix_fmt"@, self.pixel_format)] + where_given(
            "-profile:v"@,
            if names_no_profile(self.encoder) {
                None
            } else {
                Some(self.profile)
            },
        ) + where_given("-level:v"@, self.level_text(codec))
    }

    /// The options that carry the source's colour description over.
    pub open spec fn colours(self) -> Seq<Argument> {
        where_given("-color_primaries"@, self.colour[0]) + where_given("-color_trc"@, self.colour[1])
            + where_given("-colorspace"@, self.colour[2]) + where_given(
            "-color_range"@,
            self.colour[3],
        )
    }

    /// The options that make the encoder produce the source's kind of
    /// stream, at a quality well above the source's.
    pub open spec fn options(self, codec: VideoCodec) -> Seq<Argument> {
        self.naming(codec) + quality_of(self.source, self.encoder) + self.ceiling(codec)
            + self.colours()
    }
}

/// Append an option where it has a value.
fn push_where_given(
    list: &mut Vec<(&'static str, String)>,
    name: &'static str,
    value: Option<String>,
)
    ensures
        arguments_in(final(list)@) == arguments_in(old(list)@) + where_given(name@, optional(value)),
{
    let ghost before = arguments_in(list@);
    if let Some(text) = value {
        push_argument(list, name, text);
    }
    proof {
        assert(arguments_in(list@) =~= before + where_given(name@, optional(value)));
    }
}

/// Append the quality that an encoder is asked for.
fn push_quality(list: &mut Vec<(&'static str, String)>, source: EncoderSource, encoder: &str)
    ensures
        arguments_in(final(list)@) == arguments_in(old(list)@) + quality_of(source, encoder@),
{
    let ghost before = arguments_in(list@);
    match source {
        EncoderSource::Nvidia => {
            push_argument(list, "-preset", "p7".to_owned());
            push_argument(list, "-rc", "vbr".to_owned());
            push_argument(list, "-cq", "16".to_owned());
            push_argument(list, "-b:v", "0".to_owned());
        },
        EncoderSource::Intel => {
            push_argument(list, "-preset", "veryslow".to_owned());
            push_argument(list, "-global_quality", "16".to_owned());
        },
        EncoderSource::Amd => {
            push_argument(list, "-quality", "quality".to_owned());
            push_argument(list, "-rc", "qvbr".to_owned());
            push_argument(list, "-qvbr_quality_level", "44".to_owned());
        },
        EncoderSource::Software => {
            if same_text(encoder, "libvpx-vp9") {
                push_argument(list, "-crf", "12".to_owned());
                push_argument(list, "-b:v", "0".to_owned());
                push_argument(list, "-row-mt", "1".to_owned());
            } else if same_text(encoder, "libsvtav1") {
                push_argument(list, "-crf", "14".to_owned());
                push_argument(list, "-preset", "8".to_owned());
            } else {
                push_argument(list, "-crf", "14".to_owned());
                push_argument(list, "-b:v", "0".to_owned());
                push_argument(list, "-cpu-used", "6".to_owned());
            }
        },
    }
    proof {
        assert(arguments_in(list@) =~= before + quality_of(source, encoder@));
    }
}

impl EncoderChoice {
    /// The same choice once more.
    pub fn copy(&self) -> (same: EncoderChoice)
        ensures
            same@ == self@,
    {
        EncoderChoice {
            codec: self.codec,
            encoder: self.encoder.clone(),
            source: self.source,
            profile: self.profile.clone(),
            pixel_format: self.pixel_format.clone(),
            bit_depth: self.bit_depth,
            level: self.level,
            colour: copy_four(&self.colour),
        }
    }

    /// The level as this encoder's `-level` option takes it.
    fn level_argument(&self, codec: VideoCodec) -> (text: Option<String>)
        ensures
            optional(text) == self@.level_text(codec),
    {
        match self.level {
            Some(level) => {
                let mut text = String::new();
                let tenths = codec == VideoCodec::Hevc && self.source == EncoderSource::Intel;
                let shown: i64 = if tenths {
                    floor_third(level)
                } else {
                    level as i64
                };
                push_signed(&mut text, shown);
                proof {
                    assert(text@ =~= signed_decimal(shown as int));
                }
                Some(text)
            },
            None => None,
        }
    }

    /// The options that make this encoder produce the source's kind of
    /// stream, at a quality well above the source's, as `(name, value)`.
    pub fn arguments(&self, codec: VideoCodec) -> (list: Vec<(&'static str, String)>)
        ensures
            arguments_in(list@) == self@.options(codec),
    {
        let mut list = self.named(codec);
        push_quality(&mut list, self.source, self.encoder.as_str());
        self.push_ceiling(&mut list, codec);
        self.push_colours(&mut list);
        list
    }

    /// The options that name the encoder and the kind of stream it produces.
    fn named(&self, codec: VideoCodec) -> (list: Vec<(&'static str, String)>)
        ensures
            arguments_in(list@) == self@.naming(codec),
    {
        let mut list: Vec<(&'static str, String)> = Vec::new();
        push_argument(&mut list, "-c:v", self.encoder.clone());
        push_argument(&mut list, "-pix_fmt", self.pixel_format.clone());
        proof {
            assert(arguments_in(list@) =~= seq![
                ("-c:v"@, self.encoder@),
                ("-pix_fmt"@, self.pixel_format@),
            ]);
        }
        let encoder = self.encoder.as_str();
        let unnamed = same_text(encoder, "libsvtav1") || same_text(encoder, "libaom-av1")
            || same_text(encoder, "av1_nvenc") || same_text(encoder, "av1_qsv") || same_text(
            encoder,
            "av1_amf",
        );
        let profile = if unnamed {
            None
        } else {
            Some(self.profile.clone())
        };
        push_where_given(&mut list, "-profile:v", profile);
        push_where_given(&mut list, "-level:v", self.level_argument(codec));
        list
    }

    /// Append the options that carry the source's colour description over.
    fn push_colours(&self, list: &mut Vec<(&'static str, String)>)
        ensures
            arguments_in(final(list)@) == arguments_in(old(list)@) + self@.colours(),
    {
        let ghost before = arguments_in(list@);
        push_where_given(list, "-color_primaries", copy_optional(&self.colour[0]));
        push_where_given(list, "-color_trc", copy_optional(&self.colour[1]));
        push_where_given(list, "-colorspace", copy_optional(&self.colour[2]));
        push_where_given(list, "-color_range", copy_optional(&self.colour[3]));
        proof {
            assert(arguments_in(list@) =~= before + self@.colours());
        }
    }

    /// Append the options that hold the stream to what its level allows.
    fn push_ceiling(&self, list: &mut Vec<(&'static str, String)>, codec: VideoCodec)
        ensures
            arguments_in(final(list)@) == arguments_in(old(list)@) + self@.ceiling(codec),
    {
        let ghost before = arguments_in(list@);
        let ceiling = match self.level {
            Some(level) => max_kilobits(codec, self.profile.as_str(), level),
            None => None,
        };
        if let Some(kilobits) = ceiling {
            let mut rate = String::new();
            push_decimal(&mut rate, kilobits as u64);
            rate.append("k");
            proof {
                assert(rate@ =~= decimal(kilobits as nat) + "k"@);
            }
            push_argument(list, "-maxrate", rate.clone());
            push_argument(list, "-bufsize", rate);
        }
        proof {
            assert(arguments_in(list@) =~= before + self@.ceiling(codec));
        }
    }
}

/// A third of a level, rounded down: ten thirtieths of it.
fn floor_third(level: i32) -> (third: i64)
    ensures
        third == (level * 10) / 30,
{
    let wide: i64 = level as i64;
    if wide >= 0 {
        wide / 3
    } else {
        -((2 - wide) / 3)
    }
}

/// A field of a codec configuration that differs between a re-encoded
/// stretch and the stream it joins.
#[derive(Debug, Clone, Copy, PartialEq, Eq, Structural)]
pub enum JoinMismatch {
    Unreadable,
    Profile,
    Level,
    Chroma,
    BitDepth,
}

impl JoinMismatch {
    /// The mismatch in words.
    pub open spec fn words(self) -> Seq<char> {
        match self {
            JoinMismatch::Unreadable => "the codec configuration could not be read"@,
            JoinMismatch::Profile => "the profile differs"@,
            JoinMismatch::Level => "the level is above the stream's"@,
            JoinMismatch::Chroma => "the chroma format differs"@,
            JoinMismatch::BitDepth => "the bit depth differs"@,
        }
    }

    /// The mismatch in words.
    pub fn message(self) -> (text: &'static str)
        ensures
            text@ == self.words(),
    {
        match self {
            JoinMismatch::Unreadable => "the codec configuration could not be read",
            JoinMismatch::Profile => "the profile differs",
            JoinMismatch::Level => "the level is above the stream's",
            JoinMismatch::Chroma => "the chroma format differs",
            JoinMismatch::BitDepth => "the bit depth differs",
        }
    }
}

/// What a codec's configuration says. VP9 has none to read: every keyframe
/// carries it.
pub open spec fn configured(codec: VideoCodec, record: Seq<u8>) -> Option<Sequence> {
    match codec {
        VideoCodec::H264 => sequence_of(Codec::H264, record),
        VideoCodec::Hevc => sequence_of(Codec::Hevc, record),
        VideoCodec::Av1 => av1_of(record),
        VideoCodec::Vp9 => None,
    }
}

/// What a codec's configuration says.
fn sequence(codec: VideoCodec, record: &[u8]) -> (said: Option<Sequence>)
    ensures
        said == configured(codec, record@),
{
    match codec {
        VideoCodec::H264 => h264_sequence(record),
        VideoCodec::Hevc => hevc_sequence(record),
        VideoCodec::Av1 => av1_sequence(record),
        VideoCodec::Vp9 => None,
    }
}

/// Both are known and they differ.
pub open spec fn known_to_differ(a: Option<u8>, b: Option<u8>) -> bool {
    a is Some && b is Some && a->0 != b->0
}

/// Whether both are known and they differ.
fn differ(a: Option<u8>, b: Option<u8>) -> (yes: bool)
    ensures
        yes == known_to_differ(a, b),
{
    match (a, b) {
        (Some(a), Some(b)) => a != b,
        _ => false,
    }
}

/// Whether a stretch can join a stream, from what both configurations say.
pub open spec fn joins(source: Sequence, encoded: Sequence) -> Result<(), JoinMismatch> {
    if source.profile != encoded.profile {
        Err(JoinMismatch::Profile)
    } else if encoded.level > source.level {
        Err(JoinMismatch::Level)
    } else if known_to_differ(source.chroma, encoded.chroma) {
        Err(JoinMismatch::Chroma)
    } else if known_to_differ(source.bit_depth, encoded.bit_depth) {
        Err(JoinMismatch::BitDepth)
    } else {
        Ok(())
    }
}

/// Whether a stretch can join a stream, from both configurations.
pub open spec fn join_of(codec: VideoCodec, source: Seq<u8>, encoded: Seq<u8>) -> Result<
    (),
    JoinMismatch,
> {
    if codec == VideoCodec::Vp9 {
        Ok(())
    } else {
        match (configured(codec, source), configured(codec, encoded)) {
            (Some(source), Some(encoded)) => joins(source, encoded),
            _ => Err(JoinMismatch::Unreadable),
        }
    }
}

/// Whether a stretch encoded with `encoded`'s codec configuration can join a
/// stream whose configuration is `source`: same profile, chroma and bit
/// depth, and a level no higher. Otherwise the first field that differs, or
/// that a record could not be read.
pub fn validate_join(codec: VideoCodec, source: &[u8], encoded: &[u8]) -> (result: Result<
    (),
    JoinMismatch,
>)
    ensures
        result == join_of(codec, source@, encoded@),
{
    if codec == VideoCodec::Vp9 {
        return Ok(());
    }
    let (source, encoded) = match (sequence(codec, source), sequence(codec, encoded)) {
        (Some(source), Some(encoded)) => (source, encoded),
        _ => {
            return Err(JoinMismatch::Unreadable);
        },
    };
    if source.profile != encoded.profile {
        return Err(JoinMismatch::Profile);
    }
    if encoded.level > source.level {
        return Err(JoinMismatch::Level);
    }
    if differ(source.chroma, encoded.chroma) {
        return Err(JoinMismatch::Chroma);
    }
    if differ(source.bit_depth, encoded.bit_depth) {
        return Err(JoinMismatch::BitDepth);
    }
    Ok(())
}

/// A configuration that can be read joins itself.
pub proof fn a_stream_joins_itself(codec: VideoCodec, record: Seq<u8>)
    requires
        configured(codec, record) is Some,
    ensures
        join_of(codec, record, record) == Ok::<(), JoinMismatch>(()),
{
}

} // verus!
