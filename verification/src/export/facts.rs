//! What the planner needs to know about a source, read from its probe and its
//! keyframe index. The planner itself reads no file; this is the one place
//! its facts are gathered.
use crate::capability::EncoderCapabilities;
use crate::export::plan::{
    in_order, AudioFacts, EncodingModel, EncodingSignature, KeyframePoint, SourceFacts, VideoFacts,
};
use crate::export::profile::{
    profile_of, select, selected, source_profile, ChoiceModel, Refusal, Unmatched,
};
use crate::keyframes::nal::PictureKind;
use crate::keyframes::table::Keyframe;
use crate::keyframes::{numbered, KeyframeIndex};
use crate::probe::{AudioInfo, MediaInfo, Rational, StreamInfo, StreamKind, VideoInfo};
use crate::text::{copy_optional, optional};
use std::collections::BTreeMap;
use vstd::prelude::*;

verus! {

/// A stream of pictures, and no cover image.
pub open spec fn is_picture(stream: StreamInfo) -> bool {
    stream.kind matches StreamKind::Video(video) && !video.is_attached_picture
}

/// A stream of sound.
pub open spec fn is_sound(stream: StreamInfo) -> bool {
    stream.kind is Audio
}

/// Where the first stream that is meant stands at `at` or behind; the number
/// of streams where there is none.
pub open spec fn first_meant(
    streams: Seq<StreamInfo>,
    meant: spec_fn(StreamInfo) -> bool,
    at: int,
) -> int
    decreases streams.len() - at,
{
    if at >= streams.len() || meant(streams[at]) {
        at
    } else {
        first_meant(streams, meant, at + 1)
    }
}

/// The default of the streams that are meant, or the first of them.
pub open spec fn picked(streams: Seq<StreamInfo>, meant: spec_fn(StreamInfo) -> bool) -> Option<
    int,
> {
    let default = first_meant(streams, |s: StreamInfo| meant(s) && s.is_default, 0);
    let first = first_meant(streams, meant, 0);
    if default < streams.len() {
        Some(default)
    } else if first < streams.len() {
        Some(first)
    } else {
        None
    }
}

/// Whether a stream is one of pictures, or else one of sound.
fn means(stream: &StreamInfo, pictures: bool) -> (yes: bool)
    ensures
        yes == (if pictures {
            is_picture(*stream)
        } else {
            is_sound(*stream)
        }),
{
    match &stream.kind {
        StreamKind::Video(video) => pictures && !video.is_attached_picture,
        StreamKind::Audio(_) => !pictures,
        StreamKind::Other => false,
    }
}

/// The streams of pictures, or else those of sound.
pub open spec fn wanted(pictures: bool) -> spec_fn(StreamInfo) -> bool {
    if pictures {
        |s: StreamInfo| is_picture(s)
    } else {
        |s: StreamInfo| is_sound(s)
    }
}

/// The default stream of pictures or of sound, or the first.
fn pick(streams: &Vec<StreamInfo>, pictures: bool) -> (place: Option<usize>)
    ensures
        match picked(streams@, wanted(pictures)) {
            Some(at) => place is Some && place->0 == at && 0 <= at < streams@.len(),
            None => place is None,
        },
{
    let ghost meant = wanted(pictures);
    let ghost default = |s: StreamInfo| meant(s) && s.is_default;
    let mut first: Option<usize> = None;
    let mut i: usize = 0;
    while i < streams.len()
        invariant
            i <= streams@.len(),
            meant == wanted(pictures),
            default == (|s: StreamInfo| meant(s) && s.is_default),
            first_meant(streams@, default, 0) == first_meant(streams@, default, i as int),
            match first {
                Some(at) => at < i && first_meant(streams@, meant, 0) == at,
                None => first_meant(streams@, meant, 0) == first_meant(streams@, meant, i as int),
            },
        decreases streams@.len() - i,
    {
        if means(&streams[i], pictures) {
            if streams[i].is_default {
                return Some(i);
            }
            if first.is_none() {
                first = Some(i);
            }
        }
        i += 1;
    }
    first
}

/// A time base that can be used.
pub open spec fn usable(base: Option<Rational>) -> Option<Rational> {
    match base {
        Some(base) => if base.positive() {
            Some(base)
        } else {
            None
        },
        None => None,
    }
}

/// A time base that can be used.
fn valid(base: Option<Rational>) -> (usable_base: Option<Rational>)
    ensures
        usable_base == usable(base),
{
    match base {
        Some(base) => {
            if base.is_positive() {
                Some(base)
            } else {
                None
            }
        },
        None => None,
    }
}

/// A keyframe as the planner takes it. An H.264 recovery point is no place to
/// start a copy.
pub open spec fn point_of(keyframe: Keyframe) -> KeyframePoint {
    KeyframePoint {
        pts: keyframe.pts,
        open: keyframe.has_leading_pictures,
        random_access: keyframe.picture != Some(PictureKind::RecoveryPoint),
    }
}

/// The keyframes indexed of a stream, as the planner takes them: none without
/// an index, or where the stream is not in it.
pub open spec fn points_of(index: Option<&KeyframeIndex>, stream: u32) -> Seq<KeyframePoint> {
    match index {
        Some(index) => if numbered(index, stream) {
            let at = choose|i: int|
                0 <= i < index.streams@.len() && (#[trigger] index.streams@[i]).stream == stream;
            let entries = index.streams@[at].entries.entries@;
            Seq::new(entries.len(), |k: int| point_of(entries[k].keyframe))
        } else {
            Seq::empty()
        },
        None => Seq::empty(),
    }
}

/// An index lists every keyframe.
pub open spec fn lists_all(index: Option<&KeyframeIndex>) -> bool {
    match index {
        Some(index) => forall|i: int|
            0 <= i < index.streams@.len() ==> (#[trigger] index.streams@[i]).whole(),
        None => false,
    }
}

/// The keyframes of a stream that a planner takes stand in order.
fn points(index: Option<&KeyframeIndex>, stream: u32) -> (points: Vec<KeyframePoint>)
    requires
        index is Some ==> index->0.wf(),
    ensures
        points@ == points_of(index, stream),
        in_order(points@),
{
    let mut points: Vec<KeyframePoint> = Vec::new();
    if let Some(index) = index {
        if let Ok(list) = index.keyframes(stream) {
            let ghost at = choose|i: int|
                0 <= i < index.streams@.len() && (#[trigger] index.streams@[i]).stream == stream;
            let ghost entries = index.streams@[at].entries.entries@;
            proof {
                assert(numbered(index, stream));
                assert(index.streams@[at].wf());
                assert(list@ =~= Seq::new(entries.len(), |k: int| entries[k].keyframe));
            }
            let mut i: usize = 0;
            while i < list.len()
                invariant
                    i <= list@.len(),
                    list@ == Seq::new(entries.len(), |k: int| entries[k].keyframe),
                    points@.len() == i,
                    forall|k: int|
                        0 <= k < i ==> #[trigger] points@[k] == point_of(entries[k].keyframe),
                decreases list@.len() - i,
            {
                let keyframe = list[i];
                let recovery = match keyframe.picture {
                    Some(PictureKind::RecoveryPoint) => true,
                    _ => false,
                };
                points.push(
                    KeyframePoint {
                        pts: keyframe.pts,
                        open: keyframe.has_leading_pictures,
                        random_access: !recovery,
                    },
                );
                i += 1;
            }
        }
    }
    proof {
        assert(points@ =~= points_of(index, stream));
    }
    points
}

/// The parameters of a stream of pictures.
pub open spec fn picture_encoding(stream: StreamInfo, video: VideoInfo) -> EncodingModel {
    EncodingModel {
        codec: optional(stream.codec),
        profile: optional(stream.profile),
        level: stream.level,
        pixel_format: optional(video.pixel_format),
        width: video.width,
        height: video.height,
        colour: seq![
            optional(video.color.primaries),
            optional(video.color.transfer),
            optional(video.color.matrix),
            optional(video.color.range),
        ],
        sample_rate: None,
        channels: None,
        configuration: optional(stream.extradata_hash),
    }
}

/// The parameters of a stream of sound.
pub open spec fn sound_encoding(stream: StreamInfo, audio: AudioInfo) -> EncodingModel {
    EncodingModel {
        codec: optional(stream.codec),
        profile: optional(stream.profile),
        level: None,
        pixel_format: optional(audio.sample_format),
        width: 0,
        height: 0,
        colour: seq![None, None, None, None],
        sample_rate: audio.sample_rate,
        channels: audio.channels,
        configuration: optional(stream.extradata_hash),
    }
}

/// Whom a stream is encoded by: nobody knows while the encoders are still
/// being tried.
pub open spec fn encoder_for(stream: StreamInfo, encoders: Option<&EncoderCapabilities>) -> Result<
    ChoiceModel,
    Refusal,
> {
    match profile_of(stream) {
        Err(refusal) => Err(refusal),
        Ok(profile) => match encoders {
            None => Err(Refusal::EncodersUnknown),
            Some(encoders) => selected(profile, encoders.encoders(profile.codec)),
        },
    }
}

/// The facts about a stream of pictures that has a usable time base and shape.
pub open spec fn describes(
    facts: VideoFacts,
    stream: StreamInfo,
    index: Option<&KeyframeIndex>,
    encoders: Option<&EncoderCapabilities>,
) -> bool {
    let video = stream.kind->Video_0;
    &&& facts.stream == stream.index
    &&& usable(stream.time_base) == Some(facts.time_base)
    &&& video.geometry == Some(facts.geometry)
    &&& facts.encoding@ == picture_encoding(stream, video)
    &&& facts.keyframes@ == points_of(index, stream.index)
    &&& facts.keyframes_complete == lists_all(index)
    &&& facts.end == stream.end
    &&& facts.reorders == video.has_b_frames
    &&& match encoder_for(stream, encoders) {
        Ok(choice) => facts.encoder is Ok && facts.encoder->Ok_0@ == choice,
        Err(refusal) => facts.encoder is Err && facts.encoder->Err_0@ == refusal,
    }
}

/// A stream of pictures has facts: its time base and its shape are usable.
pub open spec fn has_facts(stream: StreamInfo) -> bool {
    usable(stream.time_base) is Some && stream.kind->Video_0.geometry is Some
}

/// A stream has sound that can be planned with.
pub open spec fn plays(stream: StreamInfo) -> bool {
    is_sound(stream) && usable(stream.time_base) is Some
}

/// The last of the first `count` streams that plays under a number.
pub open spec fn player(streams: Seq<StreamInfo>, number: u32, count: int) -> Option<int>
    decreases count,
{
    if count <= 0 {
        None
    } else if plays(streams[count - 1]) && streams[count - 1].index == number {
        Some(count - 1)
    } else {
        player(streams, number, count - 1)
    }
}

/// The facts about a stream of sound.
pub open spec fn describes_sound(facts: AudioFacts, stream: StreamInfo) -> bool {
    &&& facts.stream == stream.index
    &&& usable(stream.time_base) == Some(facts.time_base)
    &&& facts.encoding@ == sound_encoding(stream, stream.kind->Audio_0)
}

/// The facts about the sound of the first `count` streams, by their numbers.
pub open spec fn describes_sounds(
    audio: Map<u32, AudioFacts>,
    streams: Seq<StreamInfo>,
    count: int,
) -> bool {
    forall|number: u32|
        {
            &&& #[trigger] audio.dom().contains(number) <==> player(streams, number, count) is Some
            &&& player(streams, number, count) matches Some(at) ==> describes_sound(
                audio[number],
                streams[at],
            )
        }
}

/// The facts about a stream of pictures, where it has any.
fn video_facts(
    stream: &StreamInfo,
    index: Option<&KeyframeIndex>,
    encoders: Option<&EncoderCapabilities>,
) -> (facts: Option<VideoFacts>)
    requires
        is_picture(*stream),
        index is Some ==> index->0.wf(),
    ensures
        facts is Some <==> has_facts(*stream),
        facts is Some ==> describes(facts->0, *stream, index, encoders) && facts->0.wf(),
{
    let video = match &stream.kind {
        StreamKind::Video(video) => video,
        _ => {
            return None;
        },
    };
    let time_base = valid(stream.time_base)?;
    let geometry = video.geometry?;
    let encoder = match source_profile(stream) {
        Err(unmatched) => Err(unmatched),
        Ok(profile) => match encoders {
            None => Err(Unmatched::EncodersUnknown),
            Some(encoders) => select(&profile, encoders),
        },
    };
    let complete = match index {
        Some(index) => index.is_complete(),
        None => false,
    };
    let encoding = EncodingSignature {
        codec: copy_optional(&stream.codec),
        profile: copy_optional(&stream.profile),
        level: stream.level,
        pixel_format: copy_optional(&video.pixel_format),
        width: video.width,
        height: video.height,
        colour: [
            copy_optional(&video.color.primaries),
            copy_optional(&video.color.transfer),
            copy_optional(&video.color.matrix),
            copy_optional(&video.color.range),
        ],
        sample_rate: None,
        channels: None,
        configuration: copy_optional(&stream.extradata_hash),
    };
    proof {
        assert(encoding@.colour =~= picture_encoding(*stream, *video).colour);
    }
    Some(
        VideoFacts {
            stream: stream.index,
            time_base,
            geometry,
            encoding,
            keyframes: points(index, stream.index),
            keyframes_complete: complete,
            end: stream.end,
            reorders: video.has_b_frames,
            encoder,
        },
    )
}

/// The facts about a stream of sound, where it can be planned with.
fn sound_facts(stream: &StreamInfo) -> (facts: Option<AudioFacts>)
    ensures
        facts is Some <==> plays(*stream),
        facts is Some ==> describes_sound(facts->0, *stream),
{
    let audio = match &stream.kind {
        StreamKind::Audio(audio) => audio,
        _ => {
            return None;
        },
    };
    let time_base = valid(stream.time_base)?;
    let encoding = EncodingSignature {
        codec: copy_optional(&stream.codec),
        profile: copy_optional(&stream.profile),
        level: None,
        pixel_format: copy_optional(&audio.sample_format),
        width: 0,
        height: 0,
        colour: [None, None, None, None],
        sample_rate: audio.sample_rate,
        channels: audio.channels,
        configuration: copy_optional(&stream.extradata_hash),
    };
    proof {
        assert(encoding@.colour =~= sound_encoding(*stream, *audio).colour);
    }
    Some(AudioFacts { stream: stream.index, time_base, encoding })
}

/// The planner's facts about the file `info` describes. `index` is its
/// keyframe index, as far as it has got; without one no cut can be proved to
/// be on a keyframe. `encoders` is what this machine's encoders make, `None`
/// while they are still being tried.
pub fn source_facts(
    info: &MediaInfo,
    index: Option<&KeyframeIndex>,
    encoders: Option<&EncoderCapabilities>,
) -> (facts: SourceFacts)
    requires
        index is Some ==> index->0.wf(),
    ensures
        facts.wf(),
        match picked(info.streams@, wanted(true)) {
            Some(at) => {
                &&& facts.video is Some <==> has_facts(info.streams@[at])
                &&& facts.video is Some ==> describes(
                    facts.video->0,
                    info.streams@[at],
                    index,
                    encoders,
                )
            },
            None => facts.video is None,
        },
        describes_sounds(facts.audio@, info.streams@, info.streams@.len() as int),
        facts.default_audio == (match picked(info.streams@, wanted(false)) {
            Some(at) => if player(
                info.streams@,
                info.streams@[at].index,
                info.streams@.len() as int,
            ) is Some {
                Some(info.streams@[at].index)
            } else {
                None
            },
            None => None,
        }),
{
    broadcast use vstd::std_specs::btree::group_btree_axioms;

    let streams = &info.streams;
    let video = match pick(streams, true) {
        Some(at) => {
            proof {
                lemma_picked(streams@, wanted(true));
            }
            video_facts(&streams[at], index, encoders)
        },
        None => None,
    };
    let mut audio: BTreeMap<u32, AudioFacts> = BTreeMap::new();
    let mut i: usize = 0;
    while i < streams.len()
        invariant
            i <= streams@.len(),
            describes_sounds(audio@, streams@, i as int),
        decreases streams@.len() - i,
    {
        let ghost before = audio@;
        if let Some(facts) = sound_facts(&streams[i]) {
            audio.insert(streams[i].index, facts);
        }
        proof {
            assert forall|number: u32|
                {
                    &&& #[trigger] audio@.dom().contains(number) <==> player(
                        streams@,
                        number,
                        i + 1,
                    ) is Some
                    &&& player(streams@, number, i + 1) matches Some(at) ==> describes_sound(
                        audio@[number],
                        streams@[at],
                    )
                } by {
                assert(before.dom().contains(number) <==> player(
                    streams@,
                    number,
                    i as int,
                ) is Some);
            }
        }
        i += 1;
    }
    let default_audio = match pick(streams, false) {
        Some(at) => {
            let number = streams[at].index;
            if audio.contains_key(&number) {
                Some(number)
            } else {
                None
            }
        },
        None => None,
    };
    SourceFacts { video, audio, default_audio }
}

/// The first that is found is meant.
proof fn lemma_first_meant(streams: Seq<StreamInfo>, meant: spec_fn(StreamInfo) -> bool, at: int)
    requires
        0 <= at <= streams.len(),
    ensures
        at <= first_meant(streams, meant, at) <= streams.len(),
        first_meant(streams, meant, at) < streams.len() ==> meant(
            streams[first_meant(streams, meant, at)],
        ),
    decreases streams.len() - at,
{
    if at < streams.len() && !meant(streams[at]) {
        lemma_first_meant(streams, meant, at + 1);
    }
}

/// What is picked is meant.
proof fn lemma_picked(streams: Seq<StreamInfo>, meant: spec_fn(StreamInfo) -> bool)
    ensures
        picked(streams, meant) matches Some(at) ==> 0 <= at < streams.len() && meant(streams[at]),
{
    lemma_first_meant(streams, |s: StreamInfo| meant(s) && s.is_default, 0);
    lemma_first_meant(streams, meant, 0);
}

} // verus!
