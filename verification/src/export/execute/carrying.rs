//! An export does what was planned, all of it, and nothing else.
use crate::export::audio::{
    copied_stream, encodes_sound, encoding_of, first_copied, moves_from, sound_shape, stream_for,
    targeted, unmade_in, unmade_step, unsupported_sound, AudioModel, AudioTarget,
};
use crate::export::execute::chapters::{chapter_place, in_order, kept, placed, starts_at};
use crate::export::execute::check::{
    checked, first_declined, first_remux, first_unrendered, obstacle, places_of, reference_for,
    segment_obstacle, source_obstacle, work_for, Route, Target, Work,
};
use crate::export::execute::command::{
    entry_for, first_pictured, opened, piped, rotation_of, segment_codec,
};
use crate::export::execute::gather::{first_failed, first_metadata};
use crate::export::execute::route::{without, Announcement};
use crate::export::execute::{
    container_named, stream_numbered, Container, ErrorModel, ExportError, ExportInput,
};
use crate::export::nut::{tags, ChapterModel, Tag};
use crate::export::plan::{ExportPlan, Media, Segment};
use crate::export::seam::{pieces_of, Piece};
use crate::orchestrator::command::{lemma_says, says};
use crate::probe::{MediaInfo, StreamKind};
use crate::project::{AudioOperation, SourceId};
use crate::text::{decimal, optional};
use crate::tier::ExportTier;
use vstd::prelude::*;

verus! {

/// Every step of every chain of a segment is a gain.
pub open spec fn only_gains(segment: Segment) -> bool {
    forall|k: int, j: int|
        #![trigger segment.sources@[k].audio@[j]]
        0 <= k < segment.sources@.len() && 0 <= j < segment.sources@[k].audio@.len()
            ==> segment.sources@[k].audio@[j] is Gain
}

/// No source of a segment is held or reversed.
pub open spec fn plays_forwards(segment: Segment) -> bool {
    forall|k: int|
        0 <= k < segment.sources@.len() ==> (#[trigger] segment.sources@[k]).motion is None
}

proof fn lemma_moves(segment: Segment, from: int)
    requires
        0 <= from,
    ensures
        moves_from(segment, from) <==> exists|k: int|
            from <= k < segment.sources@.len() && (#[trigger] segment.sources@[k]).motion is Some,
    decreases segment.sources@.len() - from,
{
    if from < segment.sources@.len() {
        lemma_moves(segment, from + 1);
        assert(segment.sources@[from].motion is Some || segment.sources@[from].motion is None);
    }
}

proof fn lemma_unmade_in(chain: Seq<AudioOperation>, from: int)
    requires
        0 <= from,
    ensures
        unmade_in(chain, from) is None <==> forall|j: int|
            from <= j < chain.len() ==> (#[trigger] chain[j]) is Gain,
    decreases chain.len() - from,
{
    if from < chain.len() {
        lemma_unmade_in(chain, from + 1);
        assert(chain[from] is Gain || !(chain[from] is Gain));
    }
}

proof fn lemma_unmade(segment: Segment, from: int)
    requires
        0 <= from,
    ensures
        unmade_step(segment, from) is None <==> forall|k: int, j: int|
            #![trigger segment.sources@[k].audio@[j]]
            from <= k < segment.sources@.len() && 0 <= j < segment.sources@[k].audio@.len()
                ==> segment.sources@[k].audio@[j] is Gain,
    decreases segment.sources@.len() - from,
{
    if from < segment.sources@.len() {
        lemma_unmade(segment, from + 1);
        let chain = segment.sources@[from].audio@;
        lemma_unmade_in(chain, 0);
        if unmade_in(chain, 0) is Some {
            let j = choose|j: int| 0 <= j < chain.len() && !((#[trigger] chain[j]) is Gain);
            assert(!(segment.sources@[from].audio@[j] is Gain));
        }
    }
}

/// Sound can be encoded exactly where it plays forwards and its chains hold
/// nothing but gains; and sound is never cut smart.
pub proof fn sound_is_made_or_refused(segment: Segment)
    ensures
        unsupported_sound(segment) is None <==> !(segment.tier is SmartCut) && plays_forwards(
            segment,
        ) && only_gains(segment),
{
    lemma_moves(segment, 0);
    lemma_unmade(segment, 0);
    if plays_forwards(segment) {
        if moves_from(segment, 0) {
            let k = choose|k: int|
                0 <= k < segment.sources@.len() && (
                #[trigger] segment.sources@[k]).motion is Some;
            assert(segment.sources@[k].motion is None);
        }
    }
}

/// What can be carried out: a copy of one source; a smart-cut of one with an
/// encoder; pictures with an encoder; and sound that can be encoded.
pub open spec fn can_be_made(segment: Segment, encodes_audio: bool) -> bool {
    let one = segment.sources@.len() == 1;
    let pictures = segment.media == Media::Video && segment.encoder is Some;
    match segment.tier {
        ExportTier::StreamCopy => one,
        ExportTier::SmartCut { .. } => one && pictures,
        ExportTier::FullReEncode { .. } => pictures || segment.media == Media::Audio
            && encodes_audio && plays_forwards(segment) && only_gains(segment),
    }
}

/// A segment that can be made is made as the plan chose: copied where it is a
/// copy, cut smart where it is a smart-cut, rendered where its pictures and
/// encoded where its sound is re-encoded; and no other is made at all.
pub proof fn a_segment_is_made_as_planned(segment: Segment, encodes_audio: bool)
    ensures
        obstacle(segment, encodes_audio) is None <==> can_be_made(segment, encodes_audio),
        can_be_made(segment, encodes_audio) ==> (work_for(segment, encodes_audio) matches Ok(work)
            && {
            &&& segment.tier is StreamCopy ==> work == Work::Copy
            &&& segment.tier is SmartCut ==> work is SmartCut
            &&& segment.tier is FullReEncode && segment.media == Media::Video ==> work
                == Work::Render
            &&& segment.tier is FullReEncode && segment.media == Media::Audio ==> work
                == Work::Encode
        }),
{
    sound_is_made_or_refused(segment);
}

proof fn lemma_first_remux(pieces: Seq<Piece>, at: int, i: int)
    requires
        0 <= at <= i < pieces.len(),
        pieces[i] is Remux,
        forall|k: int| at <= k < i ==> !((#[trigger] pieces[k]) is Remux),
    ensures
        first_remux(pieces, at) == Some(pieces[i].start()),
    decreases i - at,
{
    if at < i {
        assert(!(pieces[at] is Remux));
        lemma_first_remux(pieces, at + 1, i);
    }
}

/// The reader of a smart-cut opens where its first copied piece starts.
pub proof fn a_smart_cut_is_read_from_its_first_copy(
    segment: Segment,
    encodes_audio: bool,
    i: int,
)
    requires
        segment.tier is SmartCut,
        segment.sources@.len() == 1,
        ({
            let source = segment.sources@[0];
            let pieces = pieces_of(&segment, source.source_in, source.source_out);
            &&& 0 <= i < pieces.len()
            &&& pieces[i] is Remux
            &&& forall|k: int| 0 <= k < i ==> !((#[trigger] pieces[k]) is Remux)
        }),
    ensures
        work_for(segment, encodes_audio) == Ok::<Work, ErrorModel>(
            Work::SmartCut {
                first_copy: pieces_of(
                    &segment,
                    segment.sources@[0].source_in,
                    segment.sources@[0].source_out,
                )[i].start(),
            },
        ),
{
    let source = segment.sources@[0];
    lemma_first_remux(pieces_of(&segment, source.source_in, source.source_out), 0, i);
}

/// Every source of a segment can be read: it is there, and where it is copied
/// its codec goes into the container.
pub open spec fn can_be_read(
    segment: Segment,
    inputs: Map<SourceId, ExportInput>,
    container: Container,
) -> bool {
    forall|k: int|
        0 <= k < segment.sources@.len() ==> {
            let source = #[trigger] segment.sources@[k];
            &&& inputs.dom().contains(source.source)
            &&& segment.tier is StreamCopy ==> (stream_for(
                inputs,
                source.source,
                source.stream,
            ) matches Some(stream) ==> (optional(stream.codec) matches Some(codec)
                ==> container.holds(codec)))
        }
}

proof fn lemma_read(
    segment: Segment,
    inputs: Map<SourceId, ExportInput>,
    container: Container,
    from: int,
)
    requires
        0 <= from,
    ensures
        source_obstacle(segment, inputs, container, from) is None <==> forall|k: int|
            from <= k < segment.sources@.len() ==> {
                let source = #[trigger] segment.sources@[k];
                &&& inputs.dom().contains(source.source)
                &&& segment.tier is StreamCopy ==> (stream_for(
                    inputs,
                    source.source,
                    source.stream,
                ) matches Some(stream) ==> (optional(stream.codec) matches Some(codec)
                    ==> container.holds(codec)))
            },
    decreases segment.sources@.len() - from,
{
    if from < segment.sources@.len() {
        lemma_read(segment, inputs, container, from + 1);
        assert(segment.sources@[from] == segment.sources@[from]);
    }
}

proof fn lemma_declined(segments: Seq<Segment>, from: int)
    requires
        0 <= from,
    ensures
        first_declined(segments, from) >= segments.len() <==> forall|i: int|
            from <= i < segments.len() ==> (#[trigger] segments[i]).decline is None,
    decreases segments.len() - from,
{
    if from < segments.len() {
        lemma_declined(segments, from + 1);
        assert(segments[from].decline is None || segments[from].decline is Some);
    }
}

proof fn lemma_obstacles(
    segments: Seq<Segment>,
    inputs: Map<SourceId, ExportInput>,
    container: Container,
    encodes_audio: bool,
    from: int,
)
    requires
        0 <= from,
    ensures
        segment_obstacle(segments, inputs, container, encodes_audio, from) is None <==> forall|
            i: int,
        |
            from <= i < segments.len() ==> can_be_made(#[trigger] segments[i], encodes_audio)
                && can_be_read(segments[i], inputs, container),
    decreases segments.len() - from,
{
    if from < segments.len() {
        lemma_obstacles(segments, inputs, container, encodes_audio, from + 1);
        a_segment_is_made_as_planned(segments[from], encodes_audio);
        lemma_read(segments[from], inputs, container, 0);
        assert(can_be_made(segments[from], encodes_audio) || !can_be_made(
            segments[from],
            encodes_audio,
        ));
    }
}

/// An export runs exactly where everything about it can be done: its target's
/// extension names a container, its sound can be encoded where it must be, no
/// segment is declined, every segment can be made and read, the target is no
/// source, and what exists there may be replaced.
pub proof fn an_export_runs_or_is_refused(
    plan: ExportPlan,
    inputs: Map<SourceId, ExportInput>,
    target: Target,
    overwrite: bool,
    audio: AudioTarget,
)
    ensures
        checked(plan, inputs, target, overwrite, audio) is Ok <==> {
            &&& container_named(target.extension@) matches Some(container) && encoding_of(
                plan.segments@,
                inputs,
                audio,
                container,
            ) matches Ok(encoding) && {
                &&& forall|i: int|
                    0 <= i < plan.segments@.len() ==> (#[trigger] plan.segments@[i]).decline is None
                &&& forall|i: int|
                    0 <= i < plan.segments@.len() ==> can_be_made(
                        #[trigger] plan.segments@[i],
                        encoding is Some,
                    ) && can_be_read(plan.segments@[i], inputs, container)
                &&& target.source is None
                &&& target.exists ==> overwrite
            }
        },
{
    if let Some(container) = container_named(target.extension@) {
        if let Ok(encoding) = encoding_of(plan.segments@, inputs, audio, container) {
            lemma_declined(plan.segments@, 0);
            lemma_obstacles(plan.segments@, inputs, container, encoding is Some, 0);
        }
    }
}

/// Every segment goes its stream's way, once and in order: the places of a
/// stream are those of its segments, rising.
pub proof fn every_segment_has_its_route(segments: Seq<Segment>, media: Media, count: int)
    requires
        0 <= count <= segments.len() <= usize::MAX,
    ensures
        ({
            let places = places_of(segments, media, count);
            &&& forall|j: int, k: int|
                #![trigger places[j], places[k]]
                0 <= j < k < places.len() ==> places[j] < places[k]
            &&& forall|j: int|
                0 <= j < places.len() ==> #[trigger] places[j] < count
                    && segments[places[j] as int].media == media
            &&& forall|i: int|
                0 <= i < count && (#[trigger] segments[i]).media == media ==> places.contains(
                    i as usize,
                )
        }),
    decreases count,
{
    if count > 0 {
        every_segment_has_its_route(segments, media, count - 1);
        let places = places_of(segments, media, count);
        let before = places_of(segments, media, count - 1);
        assert forall|i: int| 0 <= i < count && (
        #[trigger] segments[i]).media == media implies places.contains(i as usize) by {
            if i == count - 1 {
                assert(places[places.len() - 1] == i as usize);
            } else {
                let j = choose|j: int| 0 <= j < before.len() && before[j] == i as usize;
                assert(places[j] == i as usize);
            }
        }
        assert forall|j: int| 0 <= j < places.len() implies #[trigger] places[j] < count
            && segments[places[j] as int].media == media by {
            if j < before.len() {
                assert(places[j] == before[j]);
            }
        }
        assert forall|j: int, k: int|
            #![trigger places[j], places[k]]
            0 <= j < k < places.len() implies places[j] < places[k] by {
            assert(places[j] == before[j]);
            if k < before.len() {
                assert(places[k] == before[k]);
            }
        }
    }
}

/// An output that starts with rendered pictures and copies some later takes the
/// configuration of the first that is not rendered; any other of the first.
pub proof fn copied_pictures_give_the_configuration(segments: Seq<Segment>, route: Route, i: int)
    requires
        0 <= i < route.segments@.len(),
        !(segments[route.segments@[i] as int].tier is FullReEncode),
        forall|k: int|
            0 <= k < i ==> segments[#[trigger] route.segments@[k] as int].tier is FullReEncode,
    ensures
        reference_for(segments, route) == (if route.media == Media::Video && i > 0 {
            Some(route.segments@[i])
        } else {
            None
        }),
{
    lemma_unrendered(segments, route.segments@, 0, i);
}

proof fn lemma_unrendered(segments: Seq<Segment>, places: Seq<usize>, at: int, i: int)
    requires
        0 <= at <= i < places.len(),
        !(segments[places[i] as int].tier is FullReEncode),
        forall|k: int| at <= k < i ==> segments[#[trigger] places[k] as int].tier is FullReEncode,
    ensures
        first_unrendered(segments, places, at) == i,
    decreases i - at,
{
    if at < i {
        assert(segments[places[at] as int].tier is FullReEncode);
        lemma_unrendered(segments, places, at + 1, i);
    }
}

/// The first route that failed is the first.
pub proof fn the_first_failure_is_told(routed: Seq<Result<u64, ExportError>>, from: int)
    requires
        0 <= from <= routed.len(),
    ensures
        from <= first_failed(routed, from) <= routed.len(),
        forall|i: int|
            from <= i < first_failed(routed, from) ==> (#[trigger] routed[i]) is Ok,
        first_failed(routed, from) < routed.len() ==> routed[first_failed(routed, from)] is Err,
    decreases routed.len() - from,
{
    if from < routed.len() && routed[from] is Ok {
        the_first_failure_is_told(routed, from + 1);
    }
}

/// The file's metadata is that of the first stream that brings any.
pub proof fn the_first_metadata_is_kept(list: Seq<Announcement>, from: int, i: int)
    requires
        0 <= from <= i < list.len(),
        list[i].metadata@.len() > 0,
        forall|k: int| from <= k < i ==> (#[trigger] list[k]).metadata@.len() == 0,
    ensures
        first_metadata(list, from) == tags(list[i].metadata@),
    decreases i - from,
{
    if from < i {
        assert(list[from].metadata@.len() == 0);
        the_first_metadata_is_kept(list, from + 1, i);
    }
}

/// Only the tags of one name are left out, every other one is kept, and none is
/// added: a list without the name is left as it is.
pub proof fn only_one_name_is_left_out(list: Seq<Tag>, name: Seq<char>, count: int)
    requires
        0 <= count <= list.len(),
    ensures
        forall|tag: Tag| #[trigger]
            without(list, name, count).contains(tag) <==> list.take(count).contains(tag) && tag.0
                != name,
        (forall|i: int| 0 <= i < count ==> (#[trigger] list[i]).0 != name) ==> without(
            list,
            name,
            count,
        ) == list.take(count),
    decreases count,
{
    let kept = without(list, name, count);
    let all = list.take(count);
    if count > 0 {
        only_one_name_is_left_out(list, name, count - 1);
        let before = without(list, name, count - 1);
        let some = list.take(count - 1);
        assert(all =~= some.push(list[count - 1]));
        assert forall|tag: Tag| #[trigger] kept.contains(tag) <==> all.contains(tag) && tag.0
            != name by {
            assert(before.contains(tag) <==> some.contains(tag) && tag.0 != name);
            if kept.contains(tag) {
                let k = kept.index_of(tag);
                if k < before.len() {
                    assert(before[k] == tag);
                    assert(before.contains(tag));
                    let j = some.index_of(tag);
                    assert(all[j] == tag);
                } else {
                    assert(all[count - 1] == tag);
                }
            }
            if all.contains(tag) && tag.0 != name {
                let j = all.index_of(tag);
                if j < count - 1 {
                    assert(some[j] == tag);
                    assert(some.contains(tag));
                    let k = before.index_of(tag);
                    assert(kept[k] == tag);
                } else {
                    assert(kept[kept.len() - 1] == tag);
                }
            }
        }
        if forall|i: int| 0 <= i < count ==> (#[trigger] list[i]).0 != name {
            assert(list[count - 1].0 != name);
            assert(kept =~= all);
        }
    } else {
        assert(all.len() == 0 && kept.len() == 0);
        assert(kept =~= all);
    }
}

/// A reader opens its file and takes its stream, from where it seeks to; and
/// what it writes comes a hundred seconds late.
pub proof fn a_reader_reads_its_stream(path: Seq<char>, stream: u32, seek: Option<&str>)
    ensures
        says(opened(path, stream, seek), "-i"@, "file:"@ + path),
        says(opened(path, stream, seek), "-map"@, "0:"@ + decimal(stream as nat)),
        seek matches Some(seconds) ==> says(opened(path, stream, seek), "-ss"@, seconds@),
        says(piped(), "-output_ts_offset"@, decimal(crate::export::execute::READER_OFFSET_SECONDS as nat)),
        says(piped(), "-f"@, "nut"@),
        piped().last() == "pipe:1"@,
{
    let words = opened(path, stream, seek);
    let map = "0:"@ + decimal(stream as nat);
    let file = "file:"@ + path;
    let quiet = crate::export::execute::command::quiet();
    let front = quiet + seq!["-copyts"@] + crate::export::execute::command::sought(seek);
    assert(crate::orchestrator::command::file_words(path) == file);
    assert(words =~= front + seq!["-i"@, file] + seq!["-map"@, map]);
    lemma_says(words, front, "-i"@, file, seq!["-map"@, map]);
    let before = front + seq!["-i"@, file];
    assert(words =~= before + seq!["-map"@, map] + Seq::<Seq<char>>::empty());
    lemma_says(words, before, "-map"@, map, Seq::empty());
    if let Some(seconds) = seek {
        let rest = seq!["-i"@, file, "-map"@, map];
        assert(words =~= quiet + seq!["-copyts"@] + seq!["-ss"@, seconds@] + rest);
        lemma_says(words, quiet + seq!["-copyts"@], "-ss"@, seconds@, rest);
    }
    reveal_strlit("100");
    reveal_with_fuel(decimal, 4);
    assert("100"@ =~= decimal(100));
    assert(piped()[0] == "-output_ts_offset"@ && piped()[1] == "100"@);
    assert(piped()[2] == "-f"@ && piped()[3] == "nut"@);
}

/// The rotation that the muxer is told of is that of the first pictures of the
/// plan that have a source; and it is told exactly where there is one and there
/// are pictures.
pub proof fn the_first_pictures_turn_the_output(
    segments: Seq<Segment>,
    inputs: Map<SourceId, ExportInput>,
    i: int,
)
    requires
        0 <= i < segments.len(),
        segments[i].media == Media::Video,
        segments[i].sources@.len() > 0,
        forall|k: int|
            0 <= k < i ==> !((#[trigger] segments[k]).media == Media::Video
                && segments[k].sources@.len() > 0),
    ensures
        rotation_of(segments, inputs) == (match stream_for(
            inputs,
            segments[i].sources@[0].source,
            segments[i].sources@[0].stream,
        ) {
            Some(stream) => match stream.kind {
                StreamKind::Video(video) => video.rotation,
                _ => 0,
            },
            None => 0,
        }),
        ({
            let smart = exists|k: int|
                0 <= k < segments.len() && (#[trigger] segments[k]).media == Media::Video
                    && segments[k].tier != ExportTier::StreamCopy;
            let boxed = |container: Container|
                container == Container::Mp4 || container == Container::Mov;
            forall|container: Container|
                #![trigger entry_for(segments, inputs, container)]
                entry_for(segments, inputs, container) == (if boxed(container) && smart {
                    match segment_codec(segments[i], inputs) {
                        Some(crate::capability::VideoCodec::H264) => Some("avc3"@),
                        Some(crate::capability::VideoCodec::Hevc) => Some("hev1"@),
                        _ => None,
                    }
                } else {
                    None
                })
        }),
{
    lemma_pictured(segments, 0, i);
    let smart = exists|k: int|
        0 <= k < segments.len() && (#[trigger] segments[k]).media == Media::Video
            && segments[k].tier != ExportTier::StreamCopy;
    assert(crate::export::execute::command::encodes_pictures(segments) <==> smart) by {
        if crate::export::execute::command::encodes_pictures(segments) {
            let k = choose|k: int|
                0 <= k < segments.len() && (#[trigger] segments[k]).media == Media::Video
                    && !segments[k].tier.lossless();
            assert(segments[k].tier != ExportTier::StreamCopy);
        }
        if smart {
            let k = choose|k: int|
                0 <= k < segments.len() && (#[trigger] segments[k]).media == Media::Video
                    && segments[k].tier != ExportTier::StreamCopy;
            assert(!segments[k].tier.lossless());
        }
    }
}

proof fn lemma_pictured(segments: Seq<Segment>, at: int, i: int)
    requires
        0 <= at <= i < segments.len(),
        segments[i].media == Media::Video,
        segments[i].sources@.len() > 0,
        forall|k: int|
            at <= k < i ==> !((#[trigger] segments[k]).media == Media::Video
                && segments[k].sources@.len() > 0),
    ensures
        first_pictured(segments, at) == i,
    decreases i - at,
{
    if at < i {
        assert(!(segments[at].media == Media::Video && segments[at].sources@.len() > 0));
        lemma_pictured(segments, at + 1, i);
    }
}

/// A stream is found by its number, wherever it stands.
pub proof fn a_stream_is_found_by_its_number(info: MediaInfo, number: u32, from: int)
    requires
        0 <= from <= info.streams@.len(),
    ensures
        from <= stream_numbered(info, number, from) <= info.streams@.len(),
        stream_numbered(info, number, from) < info.streams@.len()
            ==> info.streams@[stream_numbered(info, number, from)].index == number,
        forall|i: int|
            from <= i < stream_numbered(info, number, from) ==> (
            #[trigger] info.streams@[i]).index != number,
    decreases info.streams@.len() - from,
{
    if from < info.streams@.len() && info.streams@[from].index != number {
        a_stream_is_found_by_its_number(info, number, from + 1);
    }
}

/// Encoded sound is matched to the first copied sound that has a source, and
/// only where something is encoded at all.
pub proof fn the_first_copied_sound_is_matched(
    segments: Seq<Segment>,
    inputs: Map<SourceId, ExportInput>,
    i: int,
)
    requires
        0 <= i < segments.len(),
        segments[i].media == Media::Audio,
        segments[i].tier == ExportTier::StreamCopy,
        segments[i].sources@.len() > 0,
        forall|k: int|
            0 <= k < i ==> !((#[trigger] segments[k]).media == Media::Audio && segments[k].tier
                == ExportTier::StreamCopy && segments[k].sources@.len() > 0),
    ensures
        copied_stream(segments, inputs) == stream_for(
            inputs,
            segments[i].sources@[0].source,
            segments[i].sources@[0].stream,
        ),
{
    lemma_copied(segments, 0, i);
}

proof fn lemma_copied(segments: Seq<Segment>, at: int, i: int)
    requires
        0 <= at <= i < segments.len(),
        segments[i].media == Media::Audio,
        segments[i].tier == ExportTier::StreamCopy,
        segments[i].sources@.len() > 0,
        forall|k: int|
            at <= k < i ==> !((#[trigger] segments[k]).media == Media::Audio && segments[k].tier
                == ExportTier::StreamCopy && segments[k].sources@.len() > 0),
    ensures
        first_copied(segments, at) == i,
    decreases i - at,
{
    if at < i {
        assert(!(segments[at].media == Media::Audio && segments[at].tier == ExportTier::StreamCopy
            && segments[at].sources@.len() > 0));
        lemma_copied(segments, at + 1, i);
    }
}

/// Sound is encoded exactly where some of it is not copied; and to what was
/// asked for where none is copied: its codec and rate of bits, its source's
/// samples and channels, at 48 kHz for Opus; and without loss for FLAC and PCM.
pub proof fn sound_is_encoded_to_what_was_asked(
    segments: Seq<Segment>,
    inputs: Map<SourceId, ExportInput>,
    target: AudioTarget,
    container: Container,
    shape: (u32, u32),
)
    ensures
        encoding_of(segments, inputs, target, container) == Ok::<Option<AudioModel>, ErrorModel>(
            None,
        ) <==> forall|i: int|
            0 <= i < segments.len() && (#[trigger] segments[i]).media == Media::Audio
                ==> segments[i].tier == ExportTier::StreamCopy,
        encoding_of(segments, inputs, target, container) matches Ok(Some(made)) ==> (
        copied_stream(segments, inputs) is None ==> made == targeted(
            target,
            match sound_shape(segments, inputs, 0) {
                Some(shape) => shape,
                None => (48_000u32, 2u32),
            },
        )),
        ({
            let made = targeted(target, shape);
            &&& made.channels == shape.1 && !made.matches_copied
            &&& target matches AudioTarget::Aac { kilobits } ==> made.codec == "aac"@
                && made.encoder == "aac"@ && made.kilobits == Some(kilobits) && made.sample_rate
                == shape.0 && !made.lossless
            &&& target matches AudioTarget::Opus { kilobits } ==> made.codec == "opus"@
                && made.encoder == "libopus"@ && made.kilobits == Some(kilobits)
                && made.sample_rate == 48_000 && !made.lossless
            &&& target == AudioTarget::Flac ==> made.codec == "flac"@ && made.encoder == "flac"@
                && made.kilobits is None && made.sample_rate == shape.0 && made.lossless
            &&& target == AudioTarget::Pcm ==> made.codec == "pcm_s24le"@ && made.encoder
                == "pcm_s24le"@ && made.kilobits is None && made.sample_rate == shape.0
                && made.lossless
        }),
{
    if !encodes_sound(segments) {
        assert forall|i: int| 0 <= i < segments.len() && (
        #[trigger] segments[i]).media == Media::Audio implies segments[i].tier
            == ExportTier::StreamCopy by {
            assert(segments[i].tier.lossless());
        }
    } else {
        let i = choose|i: int|
            0 <= i < segments.len() && (#[trigger] segments[i]).media == Media::Audio
                && !segments[i].tier.lossless();
        assert(segments[i].tier != ExportTier::StreamCopy);
    }
}

proof fn lemma_kept(found: Seq<ChapterModel>, count: int)
    requires
        0 <= count <= found.len(),
    ensures
        ({
            let list = kept(found, count);
            &&& forall|i: int, j: int|
                #![trigger list[i], list[j]]
                0 <= i < j < list.len() ==> list[i].start != list[j].start
            &&& forall|i: int|
                0 <= i < list.len() ==> (#[trigger] list[i]).length > 0 && found.contains(list[i])
            &&& forall|k: int|
                0 <= k < count && (#[trigger] found[k]).length > 0 ==> starts_at(
                    list,
                    found[k].start,
                )
        }),
    decreases count,
{
    if count > 0 {
        lemma_kept(found, count - 1);
        let before = kept(found, count - 1);
        let list = kept(found, count);
        let chapter = found[count - 1];
        assert forall|k: int| 0 <= k < count && (
        #[trigger] found[k]).length > 0 implies starts_at(list, found[k].start) by {
            if k < count - 1 {
                let i = choose|i: int|
                    0 <= i < before.len() && (#[trigger] before[i]).start == found[k].start;
                assert(list[i].start == found[k].start);
            } else if !starts_at(before, chapter.start) {
                assert(list[list.len() - 1].start == chapter.start);
            }
        }
        assert forall|i: int| 0 <= i < list.len() implies (#[trigger] list[i]).length > 0
            && found.contains(list[i]) by {
            if i < before.len() {
                assert(list[i] == before[i]);
            } else {
                assert(found[count - 1] == list[i]);
            }
        }
        assert forall|i: int, j: int|
            #![trigger list[i], list[j]]
            0 <= i < j < list.len() implies list[i].start != list[j].start by {
            assert(list[i] == before[i]);
            if j < before.len() {
                assert(list[j] == before[j]);
            } else {
                assert(before[i].start != chapter.start);
            }
        }
    }
}

proof fn lemma_chapter_place(sorted: Seq<ChapterModel>, start: u64, count: int)
    requires
        0 <= count <= sorted.len(),
    ensures
        0 <= chapter_place(sorted, start, count) <= count,
        forall|i: int|
            chapter_place(sorted, start, count) <= i < count ==> (#[trigger] sorted[i]).start
                > start,
        chapter_place(sorted, start, count) > 0 ==> sorted[chapter_place(sorted, start, count)
            - 1].start <= start,
    decreases count,
{
    if count > 0 && sorted[count - 1].start > start {
        lemma_chapter_place(sorted, start, count - 1);
    }
}

proof fn lemma_in_order(list: Seq<ChapterModel>, count: int)
    requires
        0 <= count <= list.len(),
        forall|i: int, j: int|
            #![trigger list[i], list[j]]
            0 <= i < j < list.len() ==> list[i].start != list[j].start,
    ensures
        ({
            let sorted = in_order(list, count);
            &&& forall|i: int, j: int|
                #![trigger sorted[i], sorted[j]]
                0 <= i < j < sorted.len() ==> sorted[i].start < sorted[j].start
            &&& forall|c: ChapterModel| #[trigger]
                sorted.contains(c) <==> exists|k: int| 0 <= k < count && #[trigger] list[k] == c
        }),
    decreases count,
{
    if count > 0 {
        lemma_in_order(list, count - 1);
        let sorted = in_order(list, count - 1);
        let chapter = list[count - 1];
        let at = chapter_place(sorted, chapter.start, sorted.len() as int);
        lemma_chapter_place(sorted, chapter.start, sorted.len() as int);
        let more = sorted.insert(at, chapter);
        assert forall|i: int| 0 <= i < sorted.len() implies (#[trigger] sorted[i]).start
            != chapter.start by {
            assert(sorted.contains(sorted[i]));
            let k = choose|k: int| 0 <= k < count - 1 && #[trigger] list[k] == sorted[i];
            assert(list[k].start != list[count - 1].start);
        }
        assert forall|i: int, j: int|
            #![trigger more[i], more[j]]
            0 <= i < j < more.len() implies more[i].start < more[j].start by {
            if at > 0 {
                assert(sorted[at - 1].start < chapter.start);
            }
            if i < at && i < at - 1 {
                assert(sorted[i].start < sorted[at - 1].start);
            }
            let a = if i < at {
                i
            } else {
                i - 1
            };
            let b = if j < at {
                j
            } else {
                j - 1
            };
            if i != at {
                assert(more[i] == sorted[a]);
            }
            if j != at {
                assert(more[j] == sorted[b]);
            }
            if i != at && j != at && a < b {
                assert(sorted[a].start < sorted[b].start);
            }
        }
        assert forall|c: ChapterModel| #[trigger] more.contains(c) <==> exists|k: int|
            0 <= k < count && #[trigger] list[k] == c by {
            if more.contains(c) {
                let i = more.index_of(c);
                if i == at {
                    assert(list[count - 1] == c);
                } else {
                    assert(sorted[if i < at {
                        i
                    } else {
                        i - 1
                    }] == c);
                    assert(sorted.contains(c));
                    let k = choose|k: int| 0 <= k < count - 1 && #[trigger] list[k] == c;
                    assert(list[k] == c);
                }
            }
            if exists|k: int| 0 <= k < count && #[trigger] list[k] == c {
                let k = choose|k: int| 0 <= k < count && #[trigger] list[k] == c;
                if k == count - 1 {
                    assert(more[at] == c);
                } else {
                    assert(sorted.contains(c));
                    let i = sorted.index_of(c);
                    assert(more[if i < at {
                        i
                    } else {
                        i + 1
                    }] == c);
                }
            }
        }
    } else {
        assert(in_order(list, 0).len() == 0);
    }
}

/// The chapters of an output are those that were found: in order, none empty,
/// no two at once, each as it was found; and where one was found that is not
/// empty, one starts.
pub proof fn chapters_come_out_in_order(found: Seq<ChapterModel>)
    ensures
        ({
            let list = placed(found);
            &&& forall|i: int, j: int|
                #![trigger list[i], list[j]]
                0 <= i < j < list.len() ==> list[i].start < list[j].start
            &&& forall|i: int|
                0 <= i < list.len() ==> (#[trigger] list[i]).length > 0 && found.contains(list[i])
            &&& forall|k: int|
                0 <= k < found.len() && (#[trigger] found[k]).length > 0 ==> exists|i: int|
                    0 <= i < list.len() && (#[trigger] list[i]).start == found[k].start
        }),
{
    let some = kept(found, found.len() as int);
    let list = placed(found);
    lemma_kept(found, found.len() as int);
    lemma_in_order(some, some.len() as int);
    assert forall|i: int| 0 <= i < list.len() implies (#[trigger] list[i]).length > 0
        && found.contains(list[i]) by {
        assert(list.contains(list[i]));
        let a = choose|a: int| 0 <= a < some.len() && #[trigger] some[a] == list[i];
        assert(some[a].length > 0);
    }
    assert forall|k: int| 0 <= k < found.len() && (
    #[trigger] found[k]).length > 0 implies exists|i: int|
        0 <= i < list.len() && (#[trigger] list[i]).start == found[k].start by {
        let a = choose|a: int| 0 <= a < some.len() && (#[trigger] some[a]).start == found[k].start;
        assert(some[a] == some[a]);
        assert(list.contains(some[a]));
        let i = list.index_of(some[a]);
        assert(list[i].start == found[k].start);
    }
}

} // verus!
