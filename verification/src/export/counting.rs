//! What is counted of a plan is what it does.
use crate::export::audio::{encodes_sound, matched, shape_of, AudioTarget};
use crate::export::estimate::{
    basis, channels_in, load, pictures_in, reference_from, taken_from, unrecorded, Basis,
};
use crate::export::plan::summary::{
    encoded_frames, played_base, summary_of, window_length, windows_length,
};
use crate::export::plan::video::first_used;
use crate::export::plan::{Media, SeamWindow, Segment, SegmentModel, SegmentSource};
use crate::probe::{MediaInfo, Rational, StreamInfo, StreamKind};
use crate::project::SourceId;
use crate::time::a_conversion_keeps_the_time;
use vstd::prelude::*;

verus! {

/// A window counts as the whole frames that it touches, at the speed its source
/// plays at.
pub proof fn a_window_counts_the_frames_it_touches(
    window: SeamWindow,
    base: Rational,
    speed: Rational,
    sequence: Rational,
)
    requires
        0 < base.num && 0 < base.den && 0 < speed.num && 0 < speed.den,
        base.num * speed.den <= i64::MAX,
        base.den * speed.num <= i64::MAX,
        0 <= window.to - window.from <= i64::MAX,
        0 < sequence.num && 0 < sequence.den,
    ensures
        ({
            let count = window_length(window, played_base(base, speed), sequence);
            let ticks = (window.to - window.from) * (base.num * speed.den) * sequence.den;
            let frame = base.den * speed.num * sequence.num;
            count < i64::MAX ==> count * frame - frame < ticks <= count * frame
        }),
{
    let (p, q) = (base.num as int, speed.den as int);
    let (u, v) = (base.den as int, speed.num as int);
    assert(p * q > 0 && u * v > 0) by (nonlinear_arith)
        requires
            p > 0,
            q > 0,
            u > 0,
            v > 0,
    ;
    a_conversion_keeps_the_time(
        (window.to - window.from) as i64,
        played_base(base, speed),
        sequence,
        crate::time::Rounding::Up,
    );
}

/// What a segment re-encodes: nothing where it is copied, all of it where it is
/// re-encoded, and as many frames as its windows touch, at most all, where it is
/// cut.
pub proof fn a_segment_encodes_what_its_tier_says(segment: SegmentModel, sequence: Rational)
    requires
        segment.length >= 0,
    ensures
        segment.tier is StreamCopy ==> encoded_frames(segment, sequence) == 0,
        segment.tier is FullReEncode ==> encoded_frames(segment, sequence) == segment.length,
        segment.tier is SmartCut && segment.sources.len() == 0 ==> encoded_frames(segment, sequence)
            == 0,
        segment.tier is SmartCut && segment.sources.len() > 0 ==> ({
            let source = segment.sources[0];
            let windows = windows_length(
                segment.windows,
                played_base(source.time_base, source.speed),
                sequence,
                segment.windows.len() as int,
            );
            &&& windows <= segment.length ==> encoded_frames(segment, sequence) == windows
            &&& windows > segment.length ==> encoded_frames(segment, sequence) == segment.length
        }),
{
}

/// Windows add up.
pub proof fn windows_add_up(
    windows: Seq<SeamWindow>,
    played: Rational,
    sequence: Rational,
    count: int,
)
    requires
        0 <= count < windows.len(),
    ensures
        windows_length(windows, played, sequence, 0) == 0,
        ({
            let sum = windows_length(windows, played, sequence, count) + window_length(
                windows[count],
                played,
                sequence,
            );
            i64::MIN <= sum <= i64::MAX ==> windows_length(windows, played, sequence, count + 1)
                == sum
        }),
{
}

/// A plan is lossless where every segment is copied, of pictures and of sound,
/// and can be exported where none is declined.
pub proof fn a_summary_speaks_of_every_segment(
    video: Seq<SegmentModel>,
    audio: Seq<SegmentModel>,
    sequence: Rational,
    i: int,
    j: int,
)
    requires
        0 <= i < video.len(),
        0 <= j < audio.len(),
    ensures
        ({
            let said = summary_of(video, audio, sequence);
            &&& said.lossless ==> video[i].tier is StreamCopy && audio[j].tier is StreamCopy
            &&& said.exportable ==> video[i].decline is None && audio[j].decline is None
            &&& !said.lossless ==> exists|k: int|
                0 <= k < video.len() + audio.len() && !((#[trigger] (video
                    + audio)[k]).tier is StreamCopy)
            &&& !said.exportable ==> exists|k: int|
                0 <= k < video.len() + audio.len() && (#[trigger] (video + audio)[k]).decline
                    is Some
        }),
{
    let said = summary_of(video, audio, sequence);
    let all = video + audio;
    if !said.lossless {
        if !crate::export::plan::summary::all_copied(video) {
            let k = choose|k: int| 0 <= k < video.len() && !(#[trigger] video[k]).tier.lossless();
            assert(all[k] == video[k]);
        } else {
            let k = choose|k: int| 0 <= k < audio.len() && !(#[trigger] audio[k]).tier.lossless();
            assert(all[video.len() + k] == audio[k]);
        }
    }
    if !said.exportable {
        if !crate::export::plan::summary::none_declined(video) {
            let k = choose|k: int| 0 <= k < video.len() && (#[trigger] video[k]).decline is Some;
            assert(all[k] == video[k]);
        } else {
            let k = choose|k: int| 0 <= k < audio.len() && (#[trigger] audio[k]).decline is Some;
            assert(all[video.len() + k] == audio[k]);
        }
    }
    assert(video[i].tier.lossless() || !video[i].tier.lossless());
    assert(audio[j].tier.lossless() || !audio[j].tier.lossless());
}

/// The first source that is used is the first segment's that has one.
pub proof fn the_first_used_source_comes_first(segments: Seq<SegmentModel>, from: int, at: int)
    requires
        0 <= from <= at <= segments.len(),
        forall|k: int| from <= k < at ==> (#[trigger] segments[k]).sources.len() == 0,
        at < segments.len() ==> segments[at].sources.len() > 0,
    ensures
        at < segments.len() ==> first_used(segments, from) == Some(segments[at].sources[0].source),
        at == segments.len() ==> first_used(segments, from) is None,
    decreases at - from,
{
    if from < at {
        assert(segments[from].sources.len() == 0);
        the_first_used_source_comes_first(segments, from + 1, at);
    }
}

/// What a stream's rate rests on: its own record; else what the others leave,
/// where it is the only one without; else its channels where it is sound; else a
/// share of what is left for the pictures.
pub proof fn a_rate_rests_on_what_is_recorded(info: MediaInfo, index: u32, at: int, stated: bool)
    requires
        0 <= at < info.streams@.len(),
        info.streams@[at].index == index,
        forall|k: int| 0 <= k < at ==> (#[trigger] info.streams@[k]).index != index,
    ensures
        ({
            let streams = info.streams@;
            let n = streams.len() as int;
            let said = basis(info, index, stated);
            let alone = unrecorded(streams, n) == 1;
            &&& streams[at].kilobits is Some ==> said == Some(Basis::Recorded)
            &&& streams[at].kilobits is None && alone && stated ==> said == Some(Basis::Remaining)
            &&& streams[at].kilobits is None && alone && !stated ==> said is None
            &&& streams[at].kilobits is None && !alone ==> match streams[at].kind {
                StreamKind::Audio(audio) => match audio.channels {
                    Some(channels) => said == Some(Basis::Assumed { channels }),
                    None => said is None,
                },
                _ => said is Some <==> stated,
            }
        }),
{
    lemma_numbered(info, index, 0, at);
}

proof fn lemma_numbered(info: MediaInfo, index: u32, from: int, at: int)
    requires
        0 <= from <= at < info.streams@.len(),
        info.streams@[at].index == index,
        forall|k: int| from <= k < at ==> (#[trigger] info.streams@[k]).index != index,
    ensures
        crate::export::execute::stream_numbered(info, index, from) == at,
    decreases at - from,
{
    if from < at {
        assert(info.streams@[from].index != index);
        lemma_numbered(info, index, from + 1, at);
    }
}

/// Each stream without a record counts once: as one, as one of pictures where it
/// is, and with its channels where it is sound.
pub proof fn every_unrecorded_stream_counts(streams: Seq<StreamInfo>, count: int)
    requires
        0 <= count < streams.len(),
    ensures
        ({
            let stream = streams[count];
            let more = |after: nat, before: nat| after - before;
            let streams_more = more(unrecorded(streams, count + 1), unrecorded(streams, count));
            let pictures_more = more(pictures_in(streams, count + 1), pictures_in(streams, count));
            let channels_more = more(channels_in(streams, count + 1), channels_in(streams, count));
            &&& stream.kilobits is Some ==> streams_more == 0 && pictures_more == 0
                && channels_more == 0
            &&& stream.kilobits is None ==> streams_more == 1
            &&& stream.kilobits is None && stream.kind is Video ==> pictures_more == 1
                && channels_more == 0
            &&& stream.kilobits is None && !(stream.kind is Video) ==> pictures_more == 0
            &&& stream.kilobits is None && (stream.kind matches StreamKind::Audio(audio)
                && audio.channels is Some) ==> channels_more == stream.kind->Audio_0.channels->0
        }),
        unrecorded(streams, 0) == 0 && pictures_in(streams, 0) == 0 && channels_in(streams, 0) == 0,
{
}

/// A segment weighs as its source does where it is copied or cut, as the
/// reference's pictures where they are re-encoded, and as its encoding where
/// sound is.
pub proof fn a_segment_weighs_as_what_it_is_made_of(segment: Segment)
    ensures
        ({
            let whole = segment.tier is FullReEncode;
            &&& whole && segment.media == Media::Video ==> load(segment) is Reference
            &&& whole && segment.media == Media::Audio ==> load(segment) is Encoding
            &&& !whole && segment.sources@.len() > 0 ==> load(segment) is Source
            &&& !whole && segment.sources@.len() == 0 ==> load(segment) is Nothing
        }),
{
}

/// The reference is found where its pictures are first used.
pub proof fn the_reference_is_found_where_it_is_used(
    segments: Seq<Segment>,
    id: SourceId,
    i: int,
    k: int,
)
    requires
        0 <= i < segments.len(),
        segments[i].media == Media::Video,
        0 <= k < segments[i].sources@.len(),
        segments[i].sources@[k].source == id,
        forall|a: int, b: int|
            0 <= a < segments.len() && 0 <= b < (#[trigger] segments[a]).sources@.len() && (a < i
                || a == i && b < k) && segments[a].media == Media::Video ==> (
            #[trigger] segments[a].sources@[b]).source != id,
    ensures
        reference_from(segments, id, 0) == Some(segments[i].sources@[k]),
{
    lemma_reference(segments, id, 0, i, k);
}

proof fn lemma_reference(segments: Seq<Segment>, id: SourceId, from: int, i: int, k: int)
    requires
        0 <= from <= i < segments.len(),
        segments[i].media == Media::Video,
        0 <= k < segments[i].sources@.len(),
        segments[i].sources@[k].source == id,
        forall|a: int, b: int|
            0 <= a < segments.len() && 0 <= b < (#[trigger] segments[a]).sources@.len() && (a < i
                || a == i && b < k) && segments[a].media == Media::Video ==> (
            #[trigger] segments[a].sources@[b]).source != id,
    ensures
        reference_from(segments, id, from) == Some(segments[i].sources@[k]),
    decreases i - from,
{
    if from < i {
        if segments[from].media == Media::Video {
            let sources = segments[from].sources@;
            assert forall|b: int| 0 <= b < sources.len() implies (#[trigger] sources[b]).source
                != id by {
                assert(segments[from].sources@[b].source != id);
            }
            lemma_taken(sources, id, 0, sources.len() as int);
        }
        lemma_reference(segments, id, from + 1, i, k);
    } else {
        let sources = segments[i].sources@;
        assert forall|b: int| 0 <= b < k implies (#[trigger] sources[b]).source != id by {
            assert(segments[i].sources@[b].source != id);
        }
        lemma_taken(sources, id, 0, k);
    }
}

proof fn lemma_taken(sources: Seq<SegmentSource>, id: SourceId, from: int, k: int)
    requires
        0 <= from <= k <= sources.len(),
        forall|b: int| from <= b < k ==> (#[trigger] sources[b]).source != id,
        k < sources.len() ==> sources[k].source == id,
    ensures
        k < sources.len() ==> taken_from(sources, id, from) == Some(sources[k]),
        k == sources.len() ==> taken_from(sources, id, from) is None,
    decreases k - from,
{
    if from < k {
        assert(sources[from].source != id);
        lemma_taken(sources, id, from + 1, k);
    }
}

/// Sound that joins copied sound is as good: of the same codec, rate and
/// channels, at its own rate or the one asked for, whichever is more; nothing is
/// lost where the codec loses nothing.
pub proof fn joining_sound_is_as_good(stream: StreamInfo, target: AudioTarget)
    requires
        stream.codec is Some,
    ensures
        ({
            let name = stream.codec->0@;
            let known = name == "aac"@ || name == "opus"@ || name == "mp3"@ || name == "vorbis"@
                || name == "flac"@ || name == "pcm_s16le"@ || name == "pcm_s24le"@;
            matched(stream, target) is Ok <==> known && (stream.kind matches StreamKind::Audio(
                audio,
            ) && audio.sample_rate is Some && audio.channels is Some)
        }),
        matched(stream, target) matches Ok(encoding) ==> {
            let asked: u32 = match target {
                AudioTarget::Aac { kilobits } => kilobits,
                AudioTarget::Opus { kilobits } => kilobits,
                _ => 256,
            };
            let own: u32 = if stream.kilobits is Some {
                stream.kilobits->0
            } else {
                0
            };
            &&& encoding.codec == stream.codec->0@
            &&& shape_of(stream) == Some((encoding.sample_rate, encoding.channels))
            &&& encoding.lossless ==> encoding.kilobits is None
            &&& !encoding.lossless ==> (encoding.kilobits matches Some(given) && given >= own
                && given >= asked && (given == own || given == asked))
            &&& encoding.codec == "flac"@ || encoding.codec == "pcm_s16le"@ || encoding.codec
                == "pcm_s24le"@ <==> encoding.lossless
        },
{
    reveal_strlit("flac");
    reveal_strlit("pcm_s16le");
    reveal_strlit("pcm_s24le");
    reveal_strlit("aac");
    reveal_strlit("opus");
    reveal_strlit("mp3");
    reveal_strlit("vorbis");
    assert("flac"@[0] != "aac"@[0] && "flac"@[0] != "opus"@[0] && "flac"@[0] != "mp3"@[0]
        && "flac"@[0] != "vorbis"@[0] && "flac"@.len() != "pcm_s16le"@.len());
    assert("pcm_s16le"@[0] != "aac"@[0] && "pcm_s16le"@[0] != "opus"@[0] && "pcm_s16le"@[0]
        != "mp3"@[0] && "pcm_s16le"@[0] != "vorbis"@[0]);
    assert("pcm_s24le"@[0] != "aac"@[0] && "pcm_s24le"@[0] != "opus"@[0] && "pcm_s24le"@[0]
        != "mp3"@[0] && "pcm_s24le"@[0] != "vorbis"@[0]);
}

/// Sound is encoded where some segment of it is not copied.
pub proof fn sound_is_encoded_where_it_is_not_copied(segments: Seq<Segment>, i: int)
    requires
        0 <= i < segments.len(),
    ensures
        segments[i].media == Media::Audio && !(segments[i].tier is StreamCopy) ==> encodes_sound(
            segments,
        ),
        (forall|k: int|
            0 <= k < segments.len() ==> (#[trigger] segments[k]).media != Media::Audio
                || segments[k].tier is StreamCopy) ==> !encodes_sound(segments),
{
    assert(segments[i].tier.lossless() <==> segments[i].tier is StreamCopy);
}

} // verus!
