//! What can be planned is planned: nothing is refused but for a reason.
use crate::export::plan::audio::{
    audio_plan, piece_of, pieces_of, sound_laid, stretch_segment,
};
use crate::export::plan::cut::{aligned, ends_clean, lemma_nearest, nearest_start};
use crate::export::plan::sound::{sound_of, sounds_of, track_sounds};
use crate::export::plan::stretch::{stretch_plan, StretchModel};
use crate::export::plan::summary::planned;
use crate::export::plan::video::{drafted, laid, video_plan};
use crate::export::plan::{KeyframePoint, PlanError, SourceFacts, SourceModel, VideoFacts};
use crate::project::{Picture, Placement, SourceId, Timeline, TrackKind};
use crate::time::{rescaled, Rounding};
use vstd::prelude::*;

verus! {

/// A cut on keyframes is offered wherever there is one: a keyframe to start on,
/// and behind it the clip's own end where a copy can end there, a keyframe that
/// it can end on, or the end of the stream.
pub proof fn an_aligned_cut_is_offered(video: VideoFacts, from: i64, to: i64, i: int, j: int)
    requires
        0 <= i < video.keyframes@.len(),
        video.keyframes@[i].random_access,
    ensures
        nearest_start(video.keyframes@, from) matches Some(start) && {
            &&& ends_clean(video, to) ==> (aligned(video, from, to) matches Some(cut)
                && cut.source_in == start && cut.source_out == to)
            &&& 0 <= j < video.keyframes@.len() && !video.keyframes@[j].open
                && video.keyframes@[j].pts > start ==> aligned(video, from, to) is Some
            &&& (video.end matches Some(end) && end > start) ==> aligned(video, from, to) is Some
        },
{
    let keyframes = video.keyframes@;
    let n = keyframes.len() as int;
    let starts = |k: KeyframePoint| k.random_access;
    assert(starts(keyframes[i]));
    lemma_nearest(keyframes, starts, from, n);
    if let Some(start) = nearest_start(keyframes, from) {
        let ends = |k: KeyframePoint| !k.open && k.pts > start;
        lemma_nearest(keyframes, ends, to, n);
        if 0 <= j < n && !keyframes[j].open && keyframes[j].pts > start {
            assert(ends(keyframes[j]));
        }
    }
}

/// A picture is refused only where its source is not known, has no pictures, or
/// its range cannot be told in their ticks.
pub proof fn a_picture_is_refused_only_for_its_source(
    piece: Picture,
    sources: Map<SourceId, SourceFacts>,
)
    ensures
        ({
            let id = piece.placement.source;
            let known = sources.contains_key(id);
            &&& !known ==> drafted(piece, sources) is Err && drafted(piece, sources)->Err_0
                == PlanError::UnknownSource(id)
            &&& known && sources[id].video is None ==> drafted(piece, sources) is Err && drafted(
                piece,
                sources,
            )->Err_0 == PlanError::NoVideo(id)
            &&& known && (sources[id].video matches Some(video) && rescaled(
                piece.placement.source_in,
                piece.placement.time_base,
                video.time_base,
                Rounding::Down,
            ) is Some && rescaled(
                piece.placement.source_out,
                piece.placement.time_base,
                video.time_base,
                Rounding::Up,
            ) is Some) ==> drafted(piece, sources) is Ok
        }),
{
}

/// The pictures of a sequence are refused only where one of them is.
pub proof fn pictures_are_refused_only_for_one_of_them(
    timeline: Timeline,
    sources: Map<SourceId, SourceFacts>,
)
    ensures
        video_plan(timeline, sources) matches Err(error) ==> exists|i: int|
            0 <= i < timeline.picture@.len() && drafted(#[trigger] timeline.picture@[i], sources)
                is Err && drafted(timeline.picture@[i], sources)->Err_0 == error,
{
    lemma_laid(timeline.picture@, sources, timeline.picture@.len() as int);
}

proof fn lemma_laid(pieces: Seq<Picture>, sources: Map<SourceId, SourceFacts>, count: int)
    requires
        0 <= count <= pieces.len(),
    ensures
        laid(pieces, sources, count) matches Err(error) ==> exists|i: int|
            0 <= i < count && drafted(#[trigger] pieces[i], sources) is Err && drafted(
                pieces[i],
                sources,
            )->Err_0 == error,
    decreases count,
{
    if count > 0 {
        lemma_laid(pieces, sources, count - 1);
        if let Err(error) = laid(pieces, sources, count) {
            if laid(pieces, sources, count - 1) is Ok {
                assert(drafted(pieces[count - 1], sources) is Err);
            }
        }
    }
}

/// The sound of a clip is refused only where its source is not known, does not
/// have the stream, or its range cannot be told in its ticks; a silent clip of
/// pictures, and one whose source has no sound, has none.
pub proof fn sound_is_refused_only_for_its_source(
    timeline: Timeline,
    sources: Map<SourceId, SourceFacts>,
    place: int,
    index: int,
)
    requires
        0 <= place < timeline.tracks@.len(),
        0 <= index < timeline.tracks@[place].placements@.len(),
    ensures
        ({
            let track = timeline.tracks@[place];
            let clip = track.placements@[index];
            let said = sound_of(timeline, sources, place, index);
            let facts = sources[clip.source];
            let none = track.kind == TrackKind::Video && (clip.silent || facts.default_audio
                is None);
            let stream = if track.kind == TrackKind::Audio {
                clip.stream
            } else {
                facts.default_audio->0
            };
            let base = facts.audio@[stream].time_base;
            &&& !sources.contains_key(clip.source) ==> said is Err && said->Err_0
                == PlanError::UnknownSource(clip.source)
            &&& sources.contains_key(clip.source) && none ==> said is Ok && said->Ok_0 is None
            &&& sources.contains_key(clip.source) && !none && !facts.audio@.contains_key(stream)
                ==> said is Err && said->Err_0 == (PlanError::NoAudio { file: clip.source, stream })
            &&& sources.contains_key(clip.source) && !none && facts.audio@.contains_key(stream)
                && rescaled(clip.source_in, clip.time_base, base, Rounding::Down) is Some
                && rescaled(clip.source_out, clip.time_base, base, Rounding::Up) is Some ==> (
            said matches Ok(Some(sound)) && sound.stream == stream && sound.start == clip.start
                && sound.end == clip.end_frame() && sound.track == place as usize && sound.index
                == index as usize)
        }),
{
}

/// Every clip of a track that is heard sounds, and none of one that is not; it
/// is refused only where a clip's sound is.
pub proof fn every_clip_of_a_heard_track_sounds(
    timeline: Timeline,
    sources: Map<SourceId, SourceFacts>,
    count: int,
    place: int,
    index: int,
)
    requires
        0 <= place < count <= timeline.tracks@.len(),
        0 <= index < timeline.tracks@[place].placements@.len(),
        timeline.tracks@[place].audible,
    ensures
        sounds_of(timeline, sources, count) matches Ok(sounds) ==> (sound_of(
            timeline,
            sources,
            place,
            index,
        ) matches Ok(own) && (own matches Some(sound) ==> sounds.contains(sound))),
    decreases count,
{
    if let Ok(sounds) = sounds_of(timeline, sources, count) {
        let before = sounds_of(timeline, sources, count - 1)->Ok_0;
        let track = timeline.tracks@[count - 1];
        let n = track.placements@.len() as int;
        if place < count - 1 {
            every_clip_of_a_heard_track_sounds(timeline, sources, count - 1, place, index);
            let own = sound_of(timeline, sources, place, index)->Ok_0;
            if track.audible {
                lemma_track_keeps(timeline, sources, count - 1, before, n);
                if own is Some {
                    let k = choose|k: int| 0 <= k < before.len() && before[k] == own->0;
                    assert(sounds[k] == own->0);
                }
            }
        } else {
            lemma_track_sounds(timeline, sources, count - 1, before, n, index);
        }
    }
}

proof fn lemma_track_keeps(
    timeline: Timeline,
    sources: Map<SourceId, SourceFacts>,
    place: int,
    before: Seq<crate::export::plan::sound::Sound>,
    count: int,
)
    requires
        0 <= count,
    ensures
        track_sounds(timeline, sources, place, before, count) matches Ok(sounds) ==> before.len()
            <= sounds.len() && forall|k: int|
            0 <= k < before.len() ==> #[trigger] sounds[k] == before[k],
    decreases count,
{
    if count > 0 {
        lemma_track_keeps(timeline, sources, place, before, count - 1);
    }
}

proof fn lemma_track_sounds(
    timeline: Timeline,
    sources: Map<SourceId, SourceFacts>,
    place: int,
    before: Seq<crate::export::plan::sound::Sound>,
    count: int,
    index: int,
)
    requires
        0 <= index < count,
    ensures
        track_sounds(timeline, sources, place, before, count) matches Ok(sounds) ==> (sound_of(
            timeline,
            sources,
            place,
            index,
        ) matches Ok(own) && (own matches Some(sound) ==> sounds.contains(sound))),
    decreases count,
{
    if let Ok(sounds) = track_sounds(timeline, sources, place, before, count) {
        let shorter = track_sounds(timeline, sources, place, before, count - 1)->Ok_0;
        if index < count - 1 {
            lemma_track_sounds(timeline, sources, place, before, count - 1, index);
            let own = sound_of(timeline, sources, place, index)->Ok_0;
            if own is Some {
                let k = choose|k: int| 0 <= k < shorter.len() && shorter[k] == own->0;
                assert(sounds[k] == own->0);
            }
        } else if sound_of(timeline, sources, place, index)->Ok_0 is Some {
            assert(sounds[sounds.len() - 1] == sound_of(timeline, sources, place, index)->Ok_0->0);
        }
    }
}

/// A piece of sound is refused only where it was not cut, or its range cannot
/// be told in its stream's ticks.
pub proof fn a_piece_of_sound_is_refused_only_for_its_range(
    timeline: Timeline,
    sound: crate::export::plan::sound::Sound,
    cut: Placement,
)
    ensures
        piece_of(timeline, sound, None) is Err,
        piece_of(timeline, sound, Some(cut)) is Ok <==> rescaled(
            cut.source_in,
            cut.time_base,
            sound.time_base,
            Rounding::Down,
        ) is Some && rescaled(cut.source_out, cut.time_base, sound.time_base, Rounding::Up) is Some,
{
}

/// A stretch of sound is refused only where its one source is not known.
pub proof fn a_stretch_is_refused_only_for_its_source(
    timeline: Timeline,
    sources: Map<SourceId, SourceFacts>,
    stretch: StretchModel,
    pieces: Seq<SourceModel>,
)
    requires
        pieces.len() == stretch.playing.len(),
    ensures
        stretch_segment(timeline, sources, stretch, pieces) is Err <==> pieces.len() == 1
            && !sources.contains_key(pieces[0].source),
{
}

/// A plan is refused only where it is empty, or its pictures or its sound are.
pub proof fn a_plan_is_refused_only_for_its_streams(
    timeline: Timeline,
    settings: crate::export::plan::SequenceSettings,
    sources: Map<SourceId, SourceFacts>,
    cuts: Seq<Vec<Option<Placement>>>,
)
    ensures
        ({
            let said = planned(timeline, settings, sources, cuts);
            let pictures = video_plan(timeline, sources);
            let sound = audio_plan(timeline, sources, cuts);
            &&& timeline.length <= 0 ==> said is Err && said->Err_0 == PlanError::Empty
            &&& timeline.length > 0 && pictures is Ok && sound is Ok ==> (said matches Ok(plan)
                && plan.segments == (pictures->Ok_0).0 + sound->Ok_0 && plan.length
                == timeline.length && plan.time_base == timeline.time_base && plan.reference == (
            pictures->Ok_0).1)
            &&& timeline.length > 0 && pictures is Err ==> said is Err && said->Err_0
                == pictures->Err_0
            &&& timeline.length > 0 && pictures is Ok && sound is Err ==> said is Err && said->Err_0
                == sound->Err_0
        }),
{
}

/// Sound is refused only where what sounds is, or a stretch of it.
pub proof fn sound_is_refused_only_for_a_stretch(
    timeline: Timeline,
    sources: Map<SourceId, SourceFacts>,
    cuts: Seq<Vec<Option<Placement>>>,
)
    ensures
        stretch_plan(timeline, sources) is Err <==> sounds_of(
            timeline,
            sources,
            timeline.tracks@.len() as int,
        ) is Err,
        audio_plan(timeline, sources, cuts) is Err && stretch_plan(timeline, sources) is Ok
            ==> exists|e: int|
            0 <= e < stretch_plan(timeline, sources)->Ok_0.len() && stretch_fails(
                timeline,
                sources,
                cuts,
                #[trigger] stretch_plan(timeline, sources)->Ok_0[e],
                e,
            ),
{
    if stretch_plan(timeline, sources) is Ok {
        let list = stretch_plan(timeline, sources)->Ok_0;
        lemma_sound_laid(timeline, sources, list, cuts, list.len() as int);
    }
}

/// Whether a stretch of sound cannot be made: one of its pieces, or all of it.
pub open spec fn stretch_fails(
    timeline: Timeline,
    sources: Map<SourceId, SourceFacts>,
    cuts: Seq<Vec<Option<Placement>>>,
    stretch: StretchModel,
    e: int,
) -> bool {
    let pieces = pieces_of(timeline, stretch.playing, cuts, e, stretch.playing.len() as int);
    pieces is Err || stretch_segment(timeline, sources, stretch, pieces->Ok_0) is Err
}

proof fn lemma_sound_laid(
    timeline: Timeline,
    sources: Map<SourceId, SourceFacts>,
    list: Seq<StretchModel>,
    cuts: Seq<Vec<Option<Placement>>>,
    count: int,
)
    requires
        0 <= count <= list.len(),
    ensures
        sound_laid(timeline, sources, list, cuts, count) is Err ==> exists|e: int|
            0 <= e < count && stretch_fails(timeline, sources, cuts, #[trigger] list[e], e),
    decreases count,
{
    if count > 0 {
        lemma_sound_laid(timeline, sources, list, cuts, count - 1);
        if sound_laid(timeline, sources, list, cuts, count) is Err && sound_laid(
            timeline,
            sources,
            list,
            cuts,
            count - 1,
        ) is Ok {
            assert(stretch_fails(timeline, sources, cuts, list[count - 1], count - 1));
        }
    }
}

/// Every piece of what is made is made.
pub proof fn every_piece_is_made(
    timeline: Timeline,
    playing: Seq<crate::export::plan::sound::Sound>,
    cuts: Seq<Vec<Option<Placement>>>,
    stretch: int,
    count: int,
    k: int,
)
    requires
        0 <= k < count <= playing.len(),
        0 <= stretch < cuts.len(),
        playing.len() <= cuts[stretch]@.len(),
    ensures
        ({
            let made = pieces_of(timeline, playing, cuts, stretch, count);
            let own = piece_of(timeline, playing[k], cuts[stretch]@[k]);
            made is Ok ==> made->Ok_0.len() == count && own is Ok && made->Ok_0[k] == own->Ok_0
        }),
    decreases count,
{
    lemma_pieces(timeline, playing, cuts, stretch, count);
    lemma_pieces(timeline, playing, cuts, stretch, count - 1);
    if k < count - 1 {
        every_piece_is_made(timeline, playing, cuts, stretch, count - 1, k);
    }
}

proof fn lemma_pieces(
    timeline: Timeline,
    playing: Seq<crate::export::plan::sound::Sound>,
    cuts: Seq<Vec<Option<Placement>>>,
    stretch: int,
    count: int,
)
    requires
        0 <= count,
    ensures
        pieces_of(timeline, playing, cuts, stretch, count) is Ok ==> pieces_of(
            timeline,
            playing,
            cuts,
            stretch,
            count,
        )->Ok_0.len() == count,
    decreases count,
{
    if count > 0 {
        lemma_pieces(timeline, playing, cuts, stretch, count - 1);
    }
}

} // verus!
