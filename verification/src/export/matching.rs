//! What a source is said to be is what it is, and what is encoded matches it.
use crate::capability::{EncoderCapability, VideoCodec};
use crate::export::facts::{
    describes, describes_sound, lists_all, picked, player, points_of, wanted,
};
use crate::export::plan::{AudioFacts, EncodingField, EncodingModel, VideoFacts};
use crate::export::profile::{
    ceiling_kilobits, first_fit, fits_at, joins, lemma_some_first_fit, level_kilobits, level_of,
    profile_named, profile_of, refusal_of, selected, stated_text, ChoiceModel, JoinMismatch,
    ProfileModel, Refusal,
};
use crate::export::sps::Sequence;
use crate::keyframes::nal::PictureKind;
use crate::keyframes::KeyframeIndex;
use crate::probe::{ChromaSubsampling, StreamInfo, StreamKind};
use crate::text::{
    a_number_reads_back, decimal, lemma_find_is, lowercase, optional, signed_decimal, small,
};
use vstd::prelude::*;

verus! {

/// What two signatures differ in is named, field by field: each of them exactly
/// where its own differs, and the configuration only where nothing else does.
pub proof fn every_difference_is_named(a: EncodingModel, b: EncodingModel)
    ensures
        ({
            let fields = a.differences(b);
            let same = a.codec == b.codec && a.profile == b.profile && a.level == b.level
                && a.pixel_format == b.pixel_format && a.width == b.width && a.height == b.height
                && a.colour == b.colour && a.sample_rate == b.sample_rate && a.channels
                == b.channels;
            &&& fields.contains(EncodingField::Codec) <==> a.codec != b.codec
            &&& fields.contains(EncodingField::Profile) <==> a.profile != b.profile
            &&& fields.contains(EncodingField::Level) <==> a.level != b.level
            &&& fields.contains(EncodingField::PixelFormat) <==> a.pixel_format != b.pixel_format
            &&& fields.contains(EncodingField::Resolution) <==> a.width != b.width || a.height
                != b.height
            &&& fields.contains(EncodingField::Colour) <==> a.colour != b.colour
            &&& fields.contains(EncodingField::SampleRate) <==> a.sample_rate != b.sample_rate
            &&& fields.contains(EncodingField::Channels) <==> a.channels != b.channels
            &&& fields.contains(EncodingField::Configuration) <==> same && a.configuration
                != b.configuration
            &&& fields.len() == 0 <==> same && a.configuration == b.configuration
        }),
{
    lemma_two(a, b);
}

/// One field, where it differs, in front of the others.
proof fn lemma_one(
    differs: bool,
    field: EncodingField,
    front: Seq<EncodingField>,
    other: EncodingField,
)
    ensures
        ({
            let all = front + crate::export::plan::if_differs(differs, field);
            &&& all.contains(other) <==> front.contains(other) || (differs && other == field)
            &&& all.len() == 0 <==> front.len() == 0 && !differs
        }),
{
    let back = crate::export::plan::if_differs(differs, field);
    let all = front + back;
    if front.contains(other) {
        let k = choose|k: int| 0 <= k < front.len() && front[k] == other;
        assert(all[k] == other);
    }
    if differs && other == field {
        assert(all[front.len() as int] == other);
    }
    if all.contains(other) {
        let k = choose|k: int| 0 <= k < all.len() && all[k] == other;
        if k < front.len() {
            assert(front[k] == other);
        } else {
            assert(back[k - front.len()] == other);
        }
    }
}

proof fn lemma_two(a: EncodingModel, b: EncodingModel)
    ensures
        ({
            let fields = a.differences(b);
            let same = a.codec == b.codec && a.profile == b.profile && a.level == b.level
                && a.pixel_format == b.pixel_format && a.width == b.width && a.height == b.height
                && a.colour == b.colour && a.sample_rate == b.sample_rate && a.channels
                == b.channels;
            &&& forall|f: EncodingField| #[trigger]
                fields.contains(f) <==> match f {
                    EncodingField::Codec => a.codec != b.codec,
                    EncodingField::Profile => a.profile != b.profile,
                    EncodingField::Level => a.level != b.level,
                    EncodingField::PixelFormat => a.pixel_format != b.pixel_format,
                    EncodingField::Resolution => a.width != b.width || a.height != b.height,
                    EncodingField::Colour => a.colour != b.colour,
                    EncodingField::SampleRate => a.sample_rate != b.sample_rate,
                    EncodingField::Channels => a.channels != b.channels,
                    EncodingField::Configuration => same && a.configuration != b.configuration,
                }
            &&& fields.len() == 0 <==> same && a.configuration == b.configuration
        }),
{
    let d1 = a.codec != b.codec;
    let d2 = a.profile != b.profile;
    let d3 = a.level != b.level;
    let d4 = a.pixel_format != b.pixel_format;
    let d5 = a.width != b.width || a.height != b.height;
    let d6 = a.colour != b.colour;
    let d7 = a.sample_rate != b.sample_rate;
    let d8 = a.channels != b.channels;
    let e = Seq::<EncodingField>::empty();
    let s1 = crate::export::plan::if_differs(d1, EncodingField::Codec);
    let s2 = s1 + crate::export::plan::if_differs(d2, EncodingField::Profile);
    let s3 = s2 + crate::export::plan::if_differs(d3, EncodingField::Level);
    let s4 = s3 + crate::export::plan::if_differs(d4, EncodingField::PixelFormat);
    let s5 = s4 + crate::export::plan::if_differs(d5, EncodingField::Resolution);
    let s6 = s5 + crate::export::plan::if_differs(d6, EncodingField::Colour);
    let s7 = s6 + crate::export::plan::if_differs(d7, EncodingField::SampleRate);
    let s8 = s7 + crate::export::plan::if_differs(d8, EncodingField::Channels);
    assert(a.stated_differences(b) == s8);
    assert forall|f: EncodingField| true implies (#[trigger] s8.contains(f) <==> match f {
        EncodingField::Codec => d1,
        EncodingField::Profile => d2,
        EncodingField::Level => d3,
        EncodingField::PixelFormat => d4,
        EncodingField::Resolution => d5,
        EncodingField::Colour => d6,
        EncodingField::SampleRate => d7,
        EncodingField::Channels => d8,
        EncodingField::Configuration => false,
    }) && (s8.len() == 0 <==> !d1 && !d2 && !d3 && !d4 && !d5 && !d6 && !d7 && !d8) by {
        assert(e + s1 =~= s1);
        assert(!e.contains(f));
        lemma_one(d1, EncodingField::Codec, e, f);
        lemma_one(d2, EncodingField::Profile, s1, f);
        lemma_one(d3, EncodingField::Level, s2, f);
        lemma_one(d4, EncodingField::PixelFormat, s3, f);
        lemma_one(d5, EncodingField::Resolution, s4, f);
        lemma_one(d6, EncodingField::Colour, s5, f);
        lemma_one(d7, EncodingField::SampleRate, s6, f);
        lemma_one(d8, EncodingField::Channels, s7, f);
    }
    let conf = a.configuration != b.configuration;
    assert(s8.contains(EncodingField::Codec) <==> d1);
    assert forall|f: EncodingField| true implies (#[trigger] crate::export::plan::if_differs(
        conf,
        EncodingField::Configuration,
    ).contains(f) <==> conf && f == EncodingField::Configuration) by {
        assert(e + crate::export::plan::if_differs(conf, EncodingField::Configuration)
            =~= crate::export::plan::if_differs(conf, EncodingField::Configuration));
        assert(!e.contains(f));
        lemma_one(conf, EncodingField::Configuration, e, f);
    }
    if s8.len() == 0 {
        assert forall|f: EncodingField| !#[trigger] s8.contains(f) by {}
    }
}

/// The stream that describes a source is the first default one of its kind,
/// else the first; a cover image is none.
pub proof fn the_default_stream_describes_its_source(
    streams: Seq<StreamInfo>,
    pictures: bool,
    i: int,
)
    requires
        0 <= i < streams.len(),
        pictures ==> (streams[i].kind matches StreamKind::Video(video)
            && !video.is_attached_picture),
        !pictures ==> streams[i].kind is Audio,
    ensures
        picked(streams, wanted(pictures)) matches Some(at) && 0 <= at < streams.len() && (
        streams[at].is_default || !streams[i].is_default) && (streams[at].is_default
            == streams[i].is_default ==> at <= i) && (pictures ==> (
        streams[at].kind matches StreamKind::Video(video) && !video.is_attached_picture)) && (
        !pictures ==> streams[at].kind is Audio),
{
    let meant = wanted(pictures);
    assert(meant(streams[i]));
    lemma_meant(streams, meant, 0, i);
    if streams[i].is_default {
        lemma_meant(streams, |s: StreamInfo| meant(s) && s.is_default, 0, i);
    } else {
        lemma_meant_at(streams, |s: StreamInfo| meant(s) && s.is_default, 0);
    }
}

proof fn lemma_meant_at(streams: Seq<StreamInfo>, meant: spec_fn(StreamInfo) -> bool, at: int)
    requires
        0 <= at <= streams.len(),
    ensures
        at <= crate::export::facts::first_meant(streams, meant, at) <= streams.len(),
        crate::export::facts::first_meant(streams, meant, at) < streams.len() ==> meant(
            streams[crate::export::facts::first_meant(streams, meant, at)],
        ),
    decreases streams.len() - at,
{
    if at < streams.len() && !meant(streams[at]) {
        lemma_meant_at(streams, meant, at + 1);
    }
}

proof fn lemma_meant(
    streams: Seq<StreamInfo>,
    meant: spec_fn(StreamInfo) -> bool,
    at: int,
    i: int,
)
    requires
        0 <= at <= i < streams.len(),
        meant(streams[i]),
    ensures
        at <= crate::export::facts::first_meant(streams, meant, at) <= i,
        meant(streams[crate::export::facts::first_meant(streams, meant, at)]),
    decreases i - at,
{
    if !meant(streams[at]) {
        lemma_meant(streams, meant, at + 1, i);
    }
}

/// A stream is described as it is.
pub proof fn a_stream_is_described_as_it_is(
    facts: VideoFacts,
    stream: StreamInfo,
    index: Option<&KeyframeIndex>,
)
    requires
        stream.kind is Video,
        describes(facts, stream, index, None),
    ensures
        ({
            let video = stream.kind->Video_0;
            let encoding = facts.encoding@;
            &&& facts.stream == stream.index && stream.time_base == Some(facts.time_base)
            &&& facts.time_base.num > 0 && facts.time_base.den > 0
            &&& facts.end == stream.end && facts.reorders == video.has_b_frames
            &&& encoding.codec == optional(stream.codec)
            &&& encoding.profile == optional(stream.profile)
            &&& encoding.level == stream.level
            &&& encoding.pixel_format == optional(video.pixel_format)
            &&& encoding.width == video.width && encoding.height == video.height
            &&& encoding.colour.len() == 4
            &&& encoding.colour[0] == optional(video.color.primaries)
            &&& encoding.colour[1] == optional(video.color.transfer)
            &&& encoding.colour[2] == optional(video.color.matrix)
            &&& encoding.colour[3] == optional(video.color.range)
            &&& encoding.configuration == optional(stream.extradata_hash)
            &&& encoding.sample_rate is None && encoding.channels is None
            &&& facts.encoder is Err
            &&& index is None ==> facts.keyframes@.len() == 0 && !facts.keyframes_complete
        }),
{
}

/// So is a stream of sound.
pub proof fn sound_is_described_as_it_is(facts: AudioFacts, stream: StreamInfo)
    requires
        stream.kind is Audio,
        describes_sound(facts, stream),
    ensures
        ({
            let audio = stream.kind->Audio_0;
            let encoding = facts.encoding@;
            &&& facts.stream == stream.index && stream.time_base == Some(facts.time_base)
            &&& facts.time_base.num > 0 && facts.time_base.den > 0
            &&& encoding.codec == optional(stream.codec)
            &&& encoding.profile == optional(stream.profile)
            &&& encoding.pixel_format == optional(audio.sample_format)
            &&& encoding.sample_rate == audio.sample_rate && encoding.channels == audio.channels
            &&& encoding.configuration == optional(stream.extradata_hash)
        }),
{
}

/// The stream that plays under a number is the last of sound with that number
/// and usable ticks.
pub proof fn a_number_plays_its_stream(streams: Seq<StreamInfo>, number: u32, count: int, i: int)
    requires
        0 <= i < count <= streams.len(),
        streams[i].index == number,
        streams[i].kind is Audio,
        streams[i].time_base matches Some(base) && base.num > 0 && base.den > 0,
    ensures
        player(streams, number, count) matches Some(at) && i <= at < count && streams[at].index
            == number && streams[at].kind is Audio,
    decreases count,
{
    if i < count - 1 {
        a_number_plays_its_stream(streams, number, count - 1, i);
    }
}

/// Every keyframe of a stream's index is known to the planner: when it is
/// shown, whether pictures before it depend on it, and whether a decoder can
/// start there.
pub proof fn every_keyframe_is_a_point(index: &KeyframeIndex, i: int, k: int)
    requires
        index.wf(),
        0 <= i < index.streams@.len(),
        0 <= k < index.streams@[i].entries.entries@.len(),
    ensures
        ({
            let entries = index.streams@[i].entries.entries@;
            let points = points_of(Some(index), index.streams@[i].stream);
            &&& points.len() == entries.len()
            &&& points[k].pts == entries[k].keyframe.pts
            &&& points[k].open == entries[k].keyframe.has_leading_pictures
            &&& points[k].random_access <==> entries[k].keyframe.picture != Some(
                PictureKind::RecoveryPoint,
            )
        }),
{
    let stream = index.streams@[i].stream;
    assert(crate::keyframes::numbered(index, stream));
    let at = choose|j: int|
        0 <= j < index.streams@.len() && (#[trigger] index.streams@[j]).stream == stream;
    if at < i {
        assert(index.streams@[at].stream < index.streams@[i].stream);
    }
    if i < at {
        assert(index.streams@[i].stream < index.streams@[at].stream);
    }
}

/// An index is complete only where every tick of every stream was read.
pub proof fn an_index_is_complete_where_all_was_read(
    index: Option<&KeyframeIndex>,
    i: int,
    tick: int,
)
    requires
        lists_all(index),
    ensures
        index is Some,
        0 <= i < index->0.streams@.len() && 0 <= tick < i64::MAX
            ==> crate::keyframes::coverage::covers(index->0.streams@[i].coverage.0@, tick),
{
    if 0 <= i < index->0.streams@.len() && 0 <= tick < i64::MAX {
        assert(index->0.streams@[i].whole());
        assert(index->0.streams@[i].coverage.has(tick));
    }
}

/// A capability fits where it makes the source's profile at its depth and
/// reaches its level, and what falls short is named: the profile, then the
/// depth, then the level.
pub proof fn a_capability_fits_its_source(
    source: ProfileModel,
    capability: crate::capability::ProfileCapability,
)
    ensures
        ({
            let reached = source.level is None || (capability.max_level matches Some(label)
                && level_of(source.codec, label@) is Some && level_of(source.codec, label@)->0
                >= source.level->0);
            let profile = capability.profile@ == source.profile;
            let depth = capability.bit_depth == source.bit_depth;
            let said = refusal_of(source, capability);
            &&& said is None <==> profile && depth && reached
            &&& !profile ==> said == Some(
                Refusal::Profile { codec: source.codec, profile: source.profile },
            )
            &&& profile && !depth ==> said == Some(
                Refusal::BitDepth { codec: source.codec, bit_depth: source.bit_depth },
            )
            &&& profile && depth && !reached ==> said == Some(
                Refusal::Level { codec: source.codec, level: source.level->0 },
            )
        }),
{
}

/// The first encoder that fits is taken, with the first of its formats that
/// does.
pub proof fn the_first_that_fits_is_taken(
    source: ProfileModel,
    encoders: Seq<EncoderCapability>,
    d: int,
    q: int,
)
    requires
        0 <= d < encoders.len(),
        0 <= q < encoders[d].profiles@.len(),
        refusal_of(source, encoders[d].profiles@[q]) is None,
    ensures
        exists|e: int, p: int|
            #![trigger encoders[e].profiles@[p]]
            0 <= e < encoders.len() && 0 <= p < encoders[e].profiles@.len() && (e < d || e == d && p
                <= q) && refusal_of(source, encoders[e].profiles@[p]) is None && (selected(
                source,
                encoders,
            ) matches Ok(choice) && choice.encoder == encoders[e].encoder@ && choice.source
                == encoders[e].source && choice.pixel_format
                == encoders[e].profiles@[p].pixel_format@),
{
    assert(fits_at(source, encoders, d, q));
    lemma_some_first_fit(source, encoders);
    let (e, p) = choose|e: int, p: int| first_fit(source, encoders, e, p);
    assert(fits_at(source, encoders, e, p));
    assert(refusal_of(source, encoders[e].profiles@[p]) is None);
}

/// Where none fits, what comes nearest says why: a level before a depth before
/// a profile.
pub proof fn the_nearest_miss_is_named(
    source: ProfileModel,
    encoders: Seq<EncoderCapability>,
    e: int,
    p: int,
)
    requires
        0 <= e < encoders.len(),
        0 <= p < encoders[e].profiles@.len(),
        forall|d: int, q: int|
            0 <= d < encoders.len() && 0 <= q < encoders[d].profiles@.len() ==> refusal_of(
                source,
                #[trigger] encoders[d].profiles@[q],
            ) is Some,
    ensures
        selected(source, encoders) matches Err(said) && match refusal_of(
            source,
            encoders[e].profiles@[p],
        )->0 {
            Refusal::Level { .. } => said == (Refusal::Level {
                codec: source.codec,
                level: source.level->0,
            }),
            Refusal::BitDepth { .. } => said is Level || said == (Refusal::BitDepth {
                codec: source.codec,
                bit_depth: source.bit_depth,
            }),
            _ => said is Level || said is BitDepth || said == (Refusal::Profile {
                codec: source.codec,
                profile: source.profile,
            }),
        },
{
    if crate::export::profile::something_fits(source, encoders) {
        let (d, q) = choose|d: int, q: int| fits_at(source, encoders, d, q);
        assert(fits_at(source, encoders, d, q));
        assert(refusal_of(source, encoders[d].profiles@[q]) is Some);
    }
    let said = refusal_of(source, encoders[e].profiles@[p])->0;
    assert(crate::export::profile::refused_with(source, encoders, said));
}

/// A level's label is its number with a point before the last digit: in tenths
/// for H.264, in thirtieths for HEVC.
pub proof fn a_level_is_numbered_as_its_codec_does(major: nat, minor: nat)
    requires
        major <= 1000,
        minor <= 1000,
    ensures
        level_of(VideoCodec::H264, decimal(major) + seq!['.'] + decimal(minor)) == Some(
            (10 * major + minor) as i32,
        ),
        level_of(VideoCodec::Hevc, decimal(major) + seq!['.'] + decimal(minor)) == Some(
            (30 * major + 3 * minor) as i32,
        ),
        level_of(VideoCodec::Av1, decimal(major) + seq!['.'] + decimal(minor)) is None,
        level_of(VideoCodec::H264, decimal(major)) is None,
{
    a_number_reads_back(major);
    a_number_reads_back(minor);
    let (a, b) = (decimal(major), decimal(minor));
    let label = a + seq!['.'] + b;
    assert forall|j: int| 0 <= j < a.len() implies a[j] != '.' by {
        assert(crate::text::digit(a[j]));
    }
    assert forall|j: int| 0 <= j < a.len() implies label[j] != '.' by {
        assert(label[j] == a[j]);
    }
    assert(label[a.len() as int] == '.');
    lemma_find_is(label, '.', a.len() as int);
    lemma_find_is(a, '.', a.len() as int);
    assert(label.take(a.len() as int) =~= a);
    assert(label.skip(a.len() as int + 1) =~= b);
}

/// A text that says nothing is not stated; any other is.
pub proof fn only_known_texts_are_stated(text: Seq<char>)
    ensures
        text.len() == 0 || text == "unknown"@ || text == "unspecified"@ ==> stated_text(
            Some(text),
        ) is None,
        text.len() > 0 && text != "unknown"@ && text != "unspecified"@ ==> stated_text(Some(text))
            == Some(text),
        stated_text(None) is None,
{
}

/// A profile is named in small letters with hyphens for spaces, letter by
/// letter, but for the two ten-bit ones and the numbers of VP9.
pub proof fn a_profile_is_named_in_small_letters(codec: VideoCodec, probed: Seq<char>, i: int)
    requires
        codec != VideoCodec::Vp9,
        lowercase(probed) != "high 10"@,
        lowercase(probed) != "main 10"@,
        0 <= i < probed.len(),
    ensures
        profile_named(codec, probed).len() == probed.len(),
        profile_named(codec, probed)[i] == (if small(probed[i]) == ' ' {
            '-'
        } else {
            small(probed[i])
        }),
{
}

/// A source can be matched where its pictures are of a codec that can be
/// encoded, are no HDR, are not interlaced and have no chroma but 4:2:0; it is
/// then described as it is.
pub proof fn only_plain_pictures_are_matched(stream: StreamInfo)
    requires
        stream.kind is Video,
        stream.codec is Some,
    ensures
        ({
            let video = stream.kind->Video_0;
            let name = stream.codec->0@;
            let known = name == "h264"@ || name == "hevc"@ || name == "vp9"@ || name == "av1"@;
            let progressive = video.field_order is None || video.field_order->0@ == "progressive"@
                || video.field_order->0@ == "unknown"@;
            let plain = video.chroma_subsampling is None || video.chroma_subsampling->0
                == ChromaSubsampling::Yuv420;
            let said = profile_of(stream);
            &&& said is Ok <==> known && !video.hdr && progressive && plain
            &&& !known ==> said == Err::<ProfileModel, Refusal>(Refusal::Codec { codec: name })
            &&& known && video.hdr ==> said == Err::<ProfileModel, Refusal>(Refusal::Hdr)
            &&& known && !video.hdr && !progressive ==> said == Err::<ProfileModel, Refusal>(
                Refusal::Interlaced,
            )
            &&& known && !video.hdr && progressive && !plain ==> said == Err::<
                ProfileModel,
                Refusal,
            >(Refusal::Chroma)
            &&& said matches Ok(profile) ==> {
                &&& profile.width == video.width && profile.height == video.height
                &&& name == "h264"@ ==> profile.codec == VideoCodec::H264
                &&& name == "hevc"@ && name != "h264"@ ==> profile.codec == VideoCodec::Hevc
                &&& profile.codec == VideoCodec::H264 || profile.codec == VideoCodec::Hevc
                    ==> profile.level == stream.level
                &&& profile.codec == VideoCodec::Vp9 || profile.codec == VideoCodec::Av1
                    ==> profile.level is None
                &&& video.bit_depth is Some ==> profile.bit_depth == video.bit_depth->0
                &&& video.pixel_format is Some ==> profile.pixel_format == video.pixel_format->0@
                &&& stream.time_base is Some ==> profile.time_base == stream.time_base->0
                &&& profile.colour.len() == 4
                &&& profile.colour[0] == stated_text(optional(video.color.primaries))
                &&& profile.colour[1] == stated_text(optional(video.color.transfer))
                &&& profile.colour[2] == stated_text(optional(video.color.matrix))
                &&& profile.colour[3] == stated_text(optional(video.color.range))
            }
        }),
{
}

/// A higher level carries as much and more.
pub proof fn a_higher_level_carries_more(codec: VideoCodec, low: i32, high: i32)
    requires
        low <= high,
        level_kilobits(codec, low) is Some,
        level_kilobits(codec, high) is Some,
    ensures
        0 < level_kilobits(codec, low)->0 <= level_kilobits(codec, high)->0,
{
}

/// What is asked for stays a tenth below what a level carries: five quarters of
/// it for H.264 High and three times for High 10.
pub proof fn a_tenth_is_left_below_the_level(codec: VideoCodec, profile: Seq<char>, level: i32)
    requires
        level_kilobits(codec, level) is Some,
    ensures
        ({
            let most = level_kilobits(codec, level)->0;
            let high = codec == VideoCodec::H264 && profile == "high"@;
            let high10 = codec == VideoCodec::H264 && profile == "high10"@ && profile != "high"@;
            ceiling_kilobits(codec, profile, level) matches Some(asked) && {
                &&& high ==> 40 * asked <= 45 * most < 40 * (asked + 1)
                &&& high10 ==> 40 * asked <= 108 * most < 40 * (asked + 1)
                &&& !high && !high10 ==> 40 * asked <= 36 * most < 40 * (asked + 1)
            }
        }),
{
}

/// An encoder is told everything that must match: its name and its pictures'
/// format, their profile and level, and what the level carries.
pub proof fn an_encoder_is_told_what_must_match(choice: ChoiceModel, codec: VideoCodec)
    ensures
        ({
            let told = choice.options(codec);
            &&& told.contains(("-c:v"@, choice.encoder))
            &&& told.contains(("-pix_fmt"@, choice.pixel_format))
            &&& choice.encoder == "libvpx-vp9"@ ==> told.contains(("-profile:v"@, choice.profile))
            &&& choice.level is Some && codec == VideoCodec::H264 ==> told.contains(
                ("-level:v"@, signed_decimal(choice.level->0 as int)),
            )
            &&& choice.level matches Some(level) ==> (ceiling_kilobits(
                codec,
                choice.profile,
                level,
            ) matches Some(most) ==> told.contains(("-maxrate"@, decimal(most as nat) + "k"@)))
        }),
{
    lemma_named(choice, codec);
    lemma_limited(choice, codec);
    lemma_told(
        choice.naming(codec),
        crate::export::profile::quality_of(choice.source, choice.encoder),
        choice.ceiling(codec),
        choice.colours(),
    );
}

/// And every colour that the source states, each under its own name.
pub proof fn an_encoder_is_told_every_colour(choice: ChoiceModel, codec: VideoCodec)
    requires
        choice.colour.len() == 4,
    ensures
        ({
            let told = choice.options(codec);
            &&& choice.colour[0] is Some ==> told.contains(
                ("-color_primaries"@, choice.colour[0]->0),
            )
            &&& choice.colour[1] is Some ==> told.contains(("-color_trc"@, choice.colour[1]->0))
            &&& choice.colour[2] is Some ==> told.contains(("-colorspace"@, choice.colour[2]->0))
            &&& choice.colour[3] is Some ==> told.contains(("-color_range"@, choice.colour[3]->0))
        }),
{
    lemma_coloured(choice);
    lemma_told(
        choice.naming(codec),
        crate::export::profile::quality_of(choice.source, choice.encoder),
        choice.ceiling(codec),
        choice.colours(),
    );
}

/// What stands in one of four lists stands in all of them on end.
proof fn lemma_told(
    a: Seq<(Seq<char>, Seq<char>)>,
    b: Seq<(Seq<char>, Seq<char>)>,
    c: Seq<(Seq<char>, Seq<char>)>,
    d: Seq<(Seq<char>, Seq<char>)>,
)
    ensures
        forall|x: (Seq<char>, Seq<char>)|
            a.contains(x) || b.contains(x) || c.contains(x) || d.contains(x) ==> #[trigger] (a + b
                + c + d).contains(x),
{
    lemma_within(a, b);
    lemma_within(a + b, c);
    lemma_within(a + b + c, d);
    assert forall|x: (Seq<char>, Seq<char>)|
        a.contains(x) || b.contains(x) || c.contains(x) || d.contains(x) implies #[trigger] (a + b
        + c + d).contains(x) by {
        assert(a.contains(x) || b.contains(x) ==> (a + b).contains(x));
        assert((a + b).contains(x) || c.contains(x) ==> (a + b + c).contains(x));
    }
}

proof fn lemma_named(choice: ChoiceModel, codec: VideoCodec)
    ensures
        ({
            let naming = choice.naming(codec);
            &&& naming.contains(("-c:v"@, choice.encoder))
            &&& naming.contains(("-pix_fmt"@, choice.pixel_format))
            &&& choice.encoder == "libvpx-vp9"@ ==> naming.contains(
                ("-profile:v"@, choice.profile),
            )
            &&& choice.level is Some && codec == VideoCodec::H264 ==> naming.contains(
                ("-level:v"@, signed_decimal(choice.level->0 as int)),
            )
        }),
{
    let naming = choice.naming(codec);
    assert(naming[0] == ("-c:v"@, choice.encoder));
    assert(naming[1] == ("-pix_fmt"@, choice.pixel_format));
    if choice.encoder == "libvpx-vp9"@ {
        lemma_names_its_profile();
        assert(naming[2] == ("-profile:v"@, choice.profile));
    }
    if choice.level is Some {
        assert(naming[naming.len() - 1] == ("-level:v"@, choice.level_text(codec)->0));
    }
}

proof fn lemma_names_its_profile()
    ensures
        !crate::export::profile::names_no_profile("libvpx-vp9"@),
{
    reveal_strlit("libvpx-vp9");
    reveal_strlit("libsvtav1");
    reveal_strlit("libaom-av1");
    reveal_strlit("av1_nvenc");
    reveal_strlit("av1_qsv");
    reveal_strlit("av1_amf");
    assert("libvpx-vp9"@[3] == 'v' && "libaom-av1"@[3] == 'a');
}

proof fn lemma_limited(choice: ChoiceModel, codec: VideoCodec)
    ensures
        choice.level matches Some(level) ==> (ceiling_kilobits(
            codec,
            choice.profile,
            level,
        ) matches Some(most) ==> choice.ceiling(codec).contains(
            ("-maxrate"@, decimal(most as nat) + "k"@),
        )),
{
    if choice.level is Some {
        if let Some(most) = ceiling_kilobits(codec, choice.profile, choice.level->0) {
            assert(choice.ceiling(codec)[0] == ("-maxrate"@, decimal(most as nat) + "k"@));
        }
    }
}

proof fn lemma_coloured(choice: ChoiceModel)
    ensures
        ({
            let told = choice.colours();
            &&& choice.colour[0] is Some ==> told.contains(
                ("-color_primaries"@, choice.colour[0]->0),
            )
            &&& choice.colour[1] is Some ==> told.contains(("-color_trc"@, choice.colour[1]->0))
            &&& choice.colour[2] is Some ==> told.contains(("-colorspace"@, choice.colour[2]->0))
            &&& choice.colour[3] is Some ==> told.contains(("-color_range"@, choice.colour[3]->0))
        }),
{
    let a = crate::export::profile::where_given("-color_primaries"@, choice.colour[0]);
    let b = crate::export::profile::where_given("-color_trc"@, choice.colour[1]);
    let c = crate::export::profile::where_given("-colorspace"@, choice.colour[2]);
    let d = crate::export::profile::where_given("-color_range"@, choice.colour[3]);
    assert(choice.colours() =~= a + (b + (c + d)));
    lemma_within(a, b + (c + d));
    lemma_within(b, c + d);
    lemma_within(c, d);
    if choice.colour[0] is Some {
        assert(a[0] == ("-color_primaries"@, choice.colour[0]->0));
    }
    if choice.colour[1] is Some {
        assert(b[0] == ("-color_trc"@, choice.colour[1]->0));
    }
    if choice.colour[2] is Some {
        assert(c[0] == ("-colorspace"@, choice.colour[2]->0));
    }
    if choice.colour[3] is Some {
        assert(d[0] == ("-color_range"@, choice.colour[3]->0));
    }
}

proof fn lemma_within(
    front: Seq<(Seq<char>, Seq<char>)>,
    back: Seq<(Seq<char>, Seq<char>)>,
)
    ensures
        forall|x: (Seq<char>, Seq<char>)|
            front.contains(x) ==> #[trigger] (front + back).contains(x),
        forall|x: (Seq<char>, Seq<char>)|
            back.contains(x) ==> #[trigger] (front + back).contains(x),
{
    let all = front + back;
    assert forall|x: (Seq<char>, Seq<char>)| front.contains(x) implies #[trigger] all.contains(
        x,
    ) by {
        let k = choose|k: int| 0 <= k < front.len() && front[k] == x;
        assert(all[k] == x);
    }
    assert forall|x: (Seq<char>, Seq<char>)| back.contains(x) implies #[trigger] all.contains(x) by {
        let k = choose|k: int| 0 <= k < back.len() && back[k] == x;
        assert(all[front.len() + k] == x);
    }
}

/// Two streams join where the profile is the same, the level no higher, and
/// neither chroma nor depth is known to differ; else the first of these is
/// named.
pub proof fn streams_join_where_they_agree(source: Sequence, encoded: Sequence)
    ensures
        ({
            let profile = source.profile == encoded.profile;
            let level = encoded.level <= source.level;
            let chroma = source.chroma is None || encoded.chroma is None || source.chroma
                == encoded.chroma;
            let depth = source.bit_depth is None || encoded.bit_depth is None || source.bit_depth
                == encoded.bit_depth;
            let said = joins(source, encoded);
            &&& said is Ok <==> profile && level && chroma && depth
            &&& !profile ==> said == Err::<(), JoinMismatch>(JoinMismatch::Profile)
            &&& profile && !level ==> said == Err::<(), JoinMismatch>(JoinMismatch::Level)
            &&& profile && level && !chroma ==> said == Err::<(), JoinMismatch>(
                JoinMismatch::Chroma,
            )
            &&& profile && level && chroma && !depth ==> said == Err::<(), JoinMismatch>(
                JoinMismatch::BitDepth,
            )
        }),
{
}

} // verus!
