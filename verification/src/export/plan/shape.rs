//! What holds of every segment of a plan.
use crate::export::plan::audio::{audio_plan, pieces_of, sound_laid, stretch_segment};
use crate::export::plan::cut::{a_copy_has_no_cause, only_seams, seam_causes, seam_windows, tier_for};
use crate::export::plan::share::shared;
use crate::export::plan::sound::Sound;
use crate::export::plan::stretch::{stretch_plan, StretchModel};
use crate::export::plan::summary::planned;
use crate::export::plan::video::{decided, drafted, gap_of, laid, own_causes, ticks_of, up_to};
use crate::export::plan::video::video_plan;
use crate::export::plan::{CauseModel, EncodingModel, Media, SegmentModel, SourceFacts};
use crate::project::{Picture, Placement, SequenceSettings, SourceId, Timeline};
use vstd::prelude::*;

verus! {

/// A segment before its tier is known: without sources exactly for a lone gap,
/// and with windows to re-encode where it may be cut smart, which only pictures
/// may.
pub open spec fn ready(segment: SegmentModel) -> bool {
    &&& segment.sources.len() == 0 <==> segment.causes == seq![CauseModel::Gap]
    &&& segment.causes.len() > 0 && only_seams(segment.causes) ==> segment.windows.len() > 0
        && segment.media == Media::Video
    &&& segment.media == Media::Audio ==> segment.windows.len() == 0
}

/// A planned segment says one thing: its tier is what its causes make it, a
/// copy has none, a smart-cut has windows and only it, and only pictures are
/// cut smart; a segment without sources is a gap and nothing else.
pub open spec fn consistent(segment: SegmentModel) -> bool {
    &&& segment.tier == tier_for(segment.causes)
    &&& segment.causes.len() == 0 <==> segment.tier is StreamCopy
    &&& segment.windows.len() > 0 <==> segment.tier is SmartCut
    &&& segment.tier is SmartCut ==> segment.media == Media::Video
    &&& segment.sources.len() == 0 <==> segment.causes == seq![CauseModel::Gap]
}

/// A gap is ready.
proof fn lemma_gap(media: Media, start: i64, end: i64)
    ensures
        ready(gap_of(media, start, end)),
{
    assert(!(gap_of(media, start, end).causes[0].effect() is Seam));
}

/// A piece's segment is ready.
proof fn lemma_drafted(piece: Picture, sources: Map<SourceId, SourceFacts>)
    ensures
        drafted(piece, sources) matches Ok((segment, _)) ==> ready(segment) && segment.media
            == Media::Video,
{
    if let Ok((segment, _)) = drafted(piece, sources) {
        let placement = piece.placement;
        let video = sources[placement.source].video->0;
        let own = own_causes(piece);
        if segment.causes.len() == 1 {
            assert(segment.causes[0] != CauseModel::Gap);
        }
        if own.len() > 0 {
            assert(segment.causes[0] == own[0]);
            assert(!(own[0].effect() is Seam));
        } else if segment.causes.len() > 0 && only_seams(segment.causes) {
            let (from, to) = ticks_of(
                placement.source_in,
                placement.source_out,
                placement.time_base,
                video.time_base,
            )->0;
            let seams = seam_causes(video, from, to);
            assert(segment.causes =~= seams);
            assert(seams[0].effect() is Seam);
            assert(seam_windows(video, from, to).len() > 0);
        }
    }
}

/// Pieces that are laid are ready, and every one is there.
pub proof fn lemma_laid_ready(pieces: Seq<Picture>, sources: Map<SourceId, SourceFacts>, count: int)
    requires
        0 <= count <= pieces.len(),
    ensures
        laid(pieces, sources, count) matches Ok(draft) ==> {
            &&& draft.signatures.len() == draft.segments.len()
            &&& forall|i: int|
                0 <= i < draft.segments.len() ==> ready(#[trigger] draft.segments[i])
            &&& forall|i: int|
                0 <= i < count ==> (#[trigger] drafted(pieces[i], sources)) is Ok
                    && draft.segments.contains(drafted(pieces[i], sources)->Ok_0.0)
        },
    decreases count,
{
    if count > 0 {
        lemma_laid_ready(pieces, sources, count - 1);
        lemma_drafted(pieces[count - 1], sources);
        if let Ok(draft) = laid(pieces, sources, count) {
            let before = laid(pieces, sources, count - 1)->Ok_0;
            let (segment, _) = drafted(pieces[count - 1], sources)->Ok_0;
            lemma_gap(Media::Video, before.at, segment.start);
            assert forall|i: int| 0 <= i < count implies (#[trigger] drafted(
                pieces[i],
                sources,
            )) is Ok && draft.segments.contains(drafted(pieces[i], sources)->Ok_0.0) by {
                if i == count - 1 {
                    assert(draft.segments[draft.segments.len() - 1] == segment);
                } else {
                    let one = drafted(pieces[i], sources)->Ok_0.0;
                    let j = choose|j: int| 0 <= j < before.segments.len() && before.segments[j]
                        == one;
                    assert(draft.segments[j] == one);
                }
            }
            assert forall|i: int| 0 <= i < draft.segments.len() implies ready(
                #[trigger] draft.segments[i],
            ) by {
                if i < before.segments.len() {
                    assert(draft.segments[i] == before.segments[i]);
                }
            }
        }
    }
}

/// Held to the output's parameters, a segment is still ready, and keeps every
/// cause it had.
pub proof fn lemma_shared(segments: Seq<SegmentModel>, signatures: Seq<Option<EncodingModel>>, i: int)
    requires
        0 <= i < segments.len(),
        ready(segments[i]),
    ensures
        shared(segments, signatures).len() == segments.len(),
        ready(shared(segments, signatures)[i]),
        segments[i].causes.is_prefix_of(shared(segments, signatures)[i].causes),
        shared(segments, signatures)[i].start == segments[i].start,
        shared(segments, signatures)[i].length == segments[i].length,
        shared(segments, signatures)[i].sources == segments[i].sources,
        shared(segments, signatures)[i].media == segments[i].media,
{
    let after = shared(segments, signatures)[i];
    if after.causes != segments[i].causes {
        let n = segments[i].causes.len() as int;
        assert(after.causes.drop_last() =~= segments[i].causes);
        assert(!(after.causes[n].effect() is Seam));
        assert(after.causes[n] != CauseModel::Gap);
        if segments[i].sources.len() == 0 {
            assert(segments[i].causes[0].effect() is Seam);
        }
    }
}

/// A decided segment says one thing.
pub proof fn lemma_decided(
    segment: SegmentModel,
    sources: Map<SourceId, SourceFacts>,
    reference: Option<SourceId>,
)
    requires
        ready(segment),
    ensures
        consistent(decided(segment, sources, reference)),
        decided(segment, sources, reference).causes == segment.causes,
        decided(segment, sources, reference).sources == segment.sources,
        decided(segment, sources, reference).start == segment.start,
        decided(segment, sources, reference).length == segment.length,
{
    a_copy_has_no_cause(segment.causes);
}

/// What a piece must pass to be copied, and does not: what keeps it from being
/// copied wherever it is cut, and then its cut.
pub open spec fn failed(piece: Picture, sources: Map<SourceId, SourceFacts>) -> Seq<CauseModel> {
    let video = sources[piece.placement.source].video->0;
    own_causes(piece) + (match ticks_of(
        piece.placement.source_in,
        piece.placement.source_out,
        piece.placement.time_base,
        video.time_base,
    ) {
        Some((from, to)) => seam_causes(video, from, to),
        None => Seq::empty(),
    })
}

/// `segment` is planned for `piece`: it stands where the piece does, shows its
/// source, and carries every precondition that the piece fails.
pub open spec fn carries(
    segment: SegmentModel,
    piece: Picture,
    sources: Map<SourceId, SourceFacts>,
) -> bool {
    &&& segment.start == piece.placement.start
    &&& segment.length == piece.placement.length
    &&& segment.sources.len() == 1 && segment.sources[0].clip == piece.placement.clip
    &&& failed(piece, sources).is_prefix_of(segment.causes)
}

/// A segment carries every precondition that failed, not only the first: each
/// piece shown has a segment with all of its causes.
pub proof fn every_failed_precondition_is_carried(
    timeline: Timeline,
    sources: Map<SourceId, SourceFacts>,
    i: int,
)
    requires
        0 <= i < timeline.picture@.len(),
    ensures
        video_plan(timeline, sources) matches Ok((segments, _)) ==> exists|j: int|
            0 <= j < segments.len() && carries(
                #[trigger] segments[j],
                timeline.picture@[i],
                sources,
            ),
{
    let pieces = timeline.picture@;
    let n = pieces.len() as int;
    lemma_laid_ready(pieces, sources, n);
    if let Ok((segments, reference)) = video_plan(timeline, sources) {
        let draft = laid(pieces, sources, n)->Ok_0;
        let whole = up_to(draft, Media::Video, timeline.length);
        assert(drafted(pieces[i], sources) is Ok);
        let one = drafted(pieces[i], sources)->Ok_0.0;
        let j = choose|j: int| 0 <= j < draft.segments.len() && draft.segments[j] == one;
        assert(whole.segments[j] == one);
        assert(ready(draft.segments[j]));
        lemma_shared(whole.segments, whole.signatures, j);
        lemma_decided(shared(whole.segments, whole.signatures)[j], sources, reference);
        assert(segments[j] == decided(
            shared(whole.segments, whole.signatures)[j],
            sources,
            reference,
        ));
        assert(carries(segments[j], pieces[i], sources));
    }
}

/// The pictures of a plan say one thing each.
proof fn lemma_video(timeline: Timeline, sources: Map<SourceId, SourceFacts>)
    ensures
        video_plan(timeline, sources) matches Ok((segments, _)) ==> forall|i: int|
            0 <= i < segments.len() ==> consistent(#[trigger] segments[i]),
{
    let pieces = timeline.picture@;
    let n = pieces.len() as int;
    lemma_laid_ready(pieces, sources, n);
    if let Ok((segments, reference)) = video_plan(timeline, sources) {
        if n > 0 {
            let draft = laid(pieces, sources, n)->Ok_0;
            let whole = up_to(draft, Media::Video, timeline.length);
            lemma_gap(Media::Video, draft.at, timeline.length);
            assert forall|i: int| 0 <= i < segments.len() implies consistent(
                #[trigger] segments[i],
            ) by {
                if i < draft.segments.len() {
                    assert(whole.segments[i] == draft.segments[i]);
                    assert(ready(draft.segments[i]));
                }
                assert(ready(whole.segments[i]));
                lemma_shared(whole.segments, whole.signatures, i);
                lemma_decided(shared(whole.segments, whole.signatures)[i], sources, reference);
            }
        }
    }
}

/// Stretches that are laid are ready.
proof fn lemma_sound_ready(
    timeline: Timeline,
    sources: Map<SourceId, SourceFacts>,
    list: Seq<StretchModel>,
    cuts: Seq<Vec<Option<Placement>>>,
    count: int,
)
    ensures
        sound_laid(timeline, sources, list, cuts, count) matches Ok(draft) ==> {
            &&& draft.signatures.len() == draft.segments.len()
            &&& forall|i: int|
                0 <= i < draft.segments.len() ==> ready(#[trigger] draft.segments[i])
                    && draft.segments[i].media == Media::Audio
        },
    decreases count,
{
    if count > 0 {
        lemma_sound_ready(timeline, sources, list, cuts, count - 1);
        if let Ok(draft) = sound_laid(timeline, sources, list, cuts, count) {
            let stretch = list[count - 1];
            let n = stretch.playing.len() as int;
            let pieces = pieces_of(
                timeline,
                stretch.playing,
                cuts,
                count - 1,
                n,
            )->Ok_0;
            lemma_pieces(timeline, stretch.playing, cuts, count - 1, n);
            let (segment, _) = stretch_segment(timeline, sources, stretch, pieces)->Ok_0;
            if n > 0 && segment.causes.len() > 0 {
                assert(!(segment.causes[0].effect() is Seam));
                assert(segment.causes[0] != CauseModel::Gap);
            }
            assert(ready(segment));
        }
    }
}

/// As many sounds as play give to a stretch.
proof fn lemma_pieces(
    timeline: Timeline,
    playing: Seq<Sound>,
    cuts: Seq<Vec<Option<Placement>>>,
    stretch: int,
    count: int,
)
    ensures
        pieces_of(timeline, playing, cuts, stretch, count) matches Ok(
            pieces,
        ) ==> pieces.len() == (if count <= 0 {
            0
        } else {
            count
        }),
    decreases count,
{
    if count > 0 {
        lemma_pieces(timeline, playing, cuts, stretch, count - 1);
    }
}

/// Every segment of a plan says one thing: causes exactly where it is not
/// copied, windows exactly where it is cut smart, no smart-cut of sound, and no
/// sources exactly in a gap that is nothing else.
pub proof fn every_segment_says_one_thing(
    timeline: Timeline,
    settings: SequenceSettings,
    sources: Map<SourceId, SourceFacts>,
    cuts: Seq<Vec<Option<Placement>>>,
)
    ensures
        planned(timeline, settings, sources, cuts) matches Ok(plan) ==> forall|i: int|
            0 <= i < plan.segments.len() ==> consistent(#[trigger] plan.segments[i]),
{
    if let Ok(plan) = planned(timeline, settings, sources, cuts) {
        let (video, _) = video_plan(timeline, sources)->Ok_0;
        let audio = audio_plan(timeline, sources, cuts)->Ok_0;
        lemma_video(timeline, sources);
        let list = stretch_plan(timeline, sources)->Ok_0;
        let n = list.len() as int;
        lemma_sound_ready(timeline, sources, list, cuts, n);
        let draft = sound_laid(timeline, sources, list, cuts, n)->Ok_0;
        assert forall|i: int| 0 <= i < plan.segments.len() implies consistent(
            #[trigger] plan.segments[i],
        ) by {
            if i < video.len() {
                assert(plan.segments[i] == video[i]);
            } else {
                let k = i - video.len();
                assert(plan.segments[i] == audio[k]);
                assert(ready(draft.segments[k]));
                lemma_shared(draft.segments, draft.signatures, k);
                a_copy_has_no_cause(shared(draft.segments, draft.signatures)[k].causes);
            }
        }
    }
}

} // verus!
