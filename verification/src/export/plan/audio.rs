//! The sound of the plan.
use crate::export::plan::cut::{tier_for, tier_of};
use crate::export::plan::share::{share_encoding, shared, signatures_in};
use crate::export::plan::sound::Sound;
use crate::export::plan::stretch::{
    lemma_stretches, stretch_plan, stretches, stretches_in, Stretch, StretchModel,
};
use crate::export::plan::video::{
    gap, gap_of, in_ticks, lemma_tile_fits, lemma_tile_push, lemma_tile_same, source_model, source_of,
    tile, ticks_of,
};
use crate::export::plan::{
    causes_in, segments_in, sources_in, Cause, CauseModel, EncodingModel, EncodingSignature, Media,
    PlanError, Segment, SegmentModel, SegmentSource, SourceFacts, SourceModel,
};
use crate::num::{larger, max, min, smaller};
use crate::probe::Rational;
use crate::project::{any_applied, copy_chain, some_applied, Placement, SourceId, Timeline};
use crate::tier::ExportTier;
use std::collections::BTreeMap;
use vstd::prelude::*;

verus! {

/// The clip that a sound comes from.
pub open spec fn clip_of(timeline: Timeline, sound: Sound) -> Placement {
    timeline.tracks@[sound.track as int].placements@[sound.index as int]
}

/// The clips of one stretch cut to it: nothing where there is no cut, or the
/// clip's timing does not fit.
pub open spec fn cut_at(cuts: Seq<Vec<Option<Placement>>>, stretch: int, k: int) -> Option<
    Placement,
> {
    if 0 <= stretch < cuts.len() && 0 <= k < cuts[stretch]@.len() {
        cuts[stretch]@[k]
    } else {
        None
    }
}

/// What a sound gives to a stretch, from its clip cut to it: its range in the
/// stream's own ticks, never outside the clip's.
pub open spec fn piece_of(timeline: Timeline, sound: Sound, cut: Option<Placement>) -> Result<
    SourceModel,
    PlanError,
> {
    match cut {
        None => Err(PlanError::Overflow(clip_of(timeline, sound).clip)),
        Some(piece) => match ticks_of(
            piece.source_in,
            piece.source_out,
            piece.time_base,
            sound.time_base,
        ) {
            None => Err(PlanError::Overflow(piece.clip)),
            Some((source_in, source_out)) => Ok(
                SourceModel {
                    source_in: larger(source_in as int, sound.source_in as int) as i64,
                    source_out: smaller(source_out as int, sound.source_out as int) as i64,
                    audio: piece.audio@,
                    ..source_model(piece, sound.stream, sound.time_base)
                },
            ),
        },
    }
}

/// What the first `count` sounds of a stretch give to it; or the first error.
pub open spec fn pieces_of(
    timeline: Timeline,
    playing: Seq<Sound>,
    cuts: Seq<Vec<Option<Placement>>>,
    stretch: int,
    count: int,
) -> Result<Seq<SourceModel>, PlanError>
    decreases count,
{
    if count <= 0 {
        Ok(Seq::empty())
    } else {
        match pieces_of(timeline, playing, cuts, stretch, count - 1) {
            Err(error) => Err(error),
            Ok(pieces) => match piece_of(
                timeline,
                playing[count - 1],
                cut_at(cuts, stretch, count - 1),
            ) {
                Err(error) => Err(error),
                Ok(piece) => Ok(pieces.push(piece)),
            },
        }
    }
}

/// A segment of sound, before the output's parameters are known.
pub open spec fn sound_segment(
    from: i64,
    to: i64,
    pieces: Seq<SourceModel>,
    causes: Seq<CauseModel>,
) -> SegmentModel {
    SegmentModel {
        media: Media::Audio,
        start: from,
        length: (to - from) as i64,
        sources: pieces,
        tier: ExportTier::StreamCopy,
        causes,
        windows: Seq::empty(),
        decline: None,
        alternative: None,
        encoder: None,
    }
}

/// What keeps a sound that plays alone from being copied: its operation, its
/// chain, its speed. A bypassed step is applied to nothing, and keeps it from
/// nothing.
pub open spec fn sound_causes(clip: Placement) -> Seq<CauseModel> {
    (match clip.forced {
        Some(reason) => seq![CauseModel::Operation { reason }],
        None => Seq::empty(),
    }) + (if some_applied(clip.audio@) {
        seq![CauseModel::AudioChain]
    } else {
        Seq::empty()
    }) + (if clip.speed != (Rational { num: 1, den: 1 }) {
        seq![CauseModel::AudioSpeed { speed: clip.speed }]
    } else {
        Seq::empty()
    })
}

/// How many sounds are mixed, as far as that can be counted.
pub open spec fn mixed(count: nat) -> u32 {
    if count <= u32::MAX {
        count as u32
    } else {
        u32::MAX
    }
}

/// A stretch's segment, with its encoding where it may be copied: a gap where
/// nothing plays, one sound alone, or several mixed.
pub open spec fn stretch_segment(
    timeline: Timeline,
    sources: Map<SourceId, SourceFacts>,
    stretch: StretchModel,
    pieces: Seq<SourceModel>,
) -> Result<(SegmentModel, Option<EncodingModel>), PlanError> {
    let playing = stretch.playing;
    if playing.len() == 0 {
        Ok((gap_of(Media::Audio, stretch.from, stretch.to), None))
    } else if playing.len() == 1 {
        let piece = pieces[0];
        if !sources.dom().contains(piece.source) {
            Err(PlanError::UnknownSource(piece.source))
        } else {
            let streams = sources[piece.source].audio@;
            Ok(
                (
                    sound_segment(
                        stretch.from,
                        stretch.to,
                        pieces,
                        sound_causes(clip_of(timeline, playing[0])),
                    ),
                    if streams.dom().contains(piece.stream) {
                        Some(streams[piece.stream].encoding@)
                    } else {
                        None
                    },
                ),
            )
        }
    } else {
        Ok(
            (
                sound_segment(
                    stretch.from,
                    stretch.to,
                    pieces,
                    seq![CauseModel::AudioMix { count: mixed(playing.len()) }],
                ),
                None,
            ),
        )
    }
}

/// Segments of sound with their encodings.
pub struct SoundDraft {
    pub segments: Seq<SegmentModel>,
    pub signatures: Seq<Option<EncodingModel>>,
}

/// The first `count` stretches as segments; or the first error.
pub open spec fn sound_laid(
    timeline: Timeline,
    sources: Map<SourceId, SourceFacts>,
    list: Seq<StretchModel>,
    cuts: Seq<Vec<Option<Placement>>>,
    count: int,
) -> Result<SoundDraft, PlanError>
    decreases count,
{
    if count <= 0 {
        Ok(SoundDraft { segments: Seq::empty(), signatures: Seq::empty() })
    } else {
        match sound_laid(timeline, sources, list, cuts, count - 1) {
            Err(error) => Err(error),
            Ok(before) => {
                let stretch = list[count - 1];
                match pieces_of(
                    timeline,
                    stretch.playing,
                    cuts,
                    count - 1,
                    stretch.playing.len() as int,
                ) {
                    Err(error) => Err(error),
                    Ok(pieces) => match stretch_segment(timeline, sources, stretch, pieces) {
                        Err(error) => Err(error),
                        Ok((segment, encoding)) => Ok(
                            SoundDraft {
                                segments: before.segments.push(segment),
                                signatures: before.signatures.push(encoding),
                            },
                        ),
                    },
                }
            },
        }
    }
}

/// Every segment with the tier that its causes make.
pub open spec fn all_tiered(segments: Seq<SegmentModel>) -> Seq<SegmentModel> {
    segments.map_values(
        |segment: SegmentModel| SegmentModel { tier: tier_for(segment.causes), ..segment },
    )
}

/// The sound of a sequence, planned: its stretches as segments, held to one
/// set of parameters.
pub open spec fn audio_plan(
    timeline: Timeline,
    sources: Map<SourceId, SourceFacts>,
    cuts: Seq<Vec<Option<Placement>>>,
) -> Result<Seq<SegmentModel>, PlanError> {
    match stretch_plan(timeline, sources) {
        Err(error) => Err(error),
        Ok(list) => match sound_laid(timeline, sources, list, cuts, list.len() as int) {
            Err(error) => Err(error),
            Ok(draft) => Ok(all_tiered(shared(draft.segments, draft.signatures))),
        },
    }
}

/// What a sound gives to a stretch.
fn piece(timeline: &Timeline, sound: &Sound, cut: &Option<Placement>) -> (result: Result<
    SegmentSource,
    PlanError,
>)
    requires
        sound.track < timeline.tracks@.len(),
        sound.index < timeline.tracks@[sound.track as int].placements@.len(),
    ensures
        match piece_of(*timeline, *sound, *cut) {
            Ok(piece) => result is Ok && result->Ok_0@ == piece,
            Err(error) => result == Err::<SegmentSource, PlanError>(error),
        },
{
    match cut {
        None => {
            let clip = timeline.tracks[sound.track].placements[sound.index].clip;
            Err(PlanError::Overflow(clip))
        },
        Some(piece) => match in_ticks(
            piece.source_in,
            piece.source_out,
            piece.time_base,
            sound.time_base,
        ) {
            None => Err(PlanError::Overflow(piece.clip)),
            Some((source_in, source_out)) => {
                let mut source = source_of(piece, sound.stream, sound.time_base);
                source.source_in = max(source_in, sound.source_in);
                source.source_out = min(source_out, sound.source_out);
                source.audio = copy_chain(&piece.audio);
                Ok(source)
            },
        },
    }
}

/// An error of some sounds is the error of the stretch.
proof fn lemma_pieces_error(
    timeline: Timeline,
    playing: Seq<Sound>,
    cuts: Seq<Vec<Option<Placement>>>,
    stretch: int,
    some: int,
    all: int,
)
    requires
        0 <= some <= all,
        pieces_of(timeline, playing, cuts, stretch, some) is Err,
    ensures
        pieces_of(timeline, playing, cuts, stretch, all) == pieces_of(
            timeline,
            playing,
            cuts,
            stretch,
            some,
        ),
    decreases all,
{
    if some < all {
        lemma_pieces_error(timeline, playing, cuts, stretch, some, all - 1);
    }
}

/// As many pieces as sounds.
proof fn lemma_pieces_len(
    timeline: Timeline,
    playing: Seq<Sound>,
    cuts: Seq<Vec<Option<Placement>>>,
    stretch: int,
    count: int,
)
    requires
        0 <= count,
    ensures
        pieces_of(timeline, playing, cuts, stretch, count) matches Ok(pieces) ==> pieces.len()
            == count,
    decreases count,
{
    if count > 0 {
        lemma_pieces_len(timeline, playing, cuts, stretch, count - 1);
    }
}

/// What the sounds of a stretch give to it.
fn pieces(timeline: &Timeline, stretch: &Stretch, cuts: &Vec<Vec<Option<Placement>>>, e: usize) -> (
result: Result<Vec<SegmentSource>, PlanError>)
    requires
        forall|k: int|
            0 <= k < stretch.playing@.len() ==> (#[trigger] stretch.playing@[k]).track
                < timeline.tracks@.len() && stretch.playing@[k].index
                < timeline.tracks@[stretch.playing@[k].track as int].placements@.len(),
    ensures
        match pieces_of(
            *timeline,
            stretch.playing@,
            cuts@,
            e as int,
            stretch.playing@.len() as int,
        ) {
            Ok(pieces) => result is Ok && sources_in(result->Ok_0@) == pieces,
            Err(error) => result == Err::<Vec<SegmentSource>, PlanError>(error),
        },
{
    let playing = &stretch.playing;
    let mut pieces: Vec<SegmentSource> = Vec::new();
    proof {
        assert(sources_in(pieces@) =~= Seq::empty());
    }
    let none: Option<Placement> = None;
    let mut k: usize = 0;
    while k < playing.len()
        invariant
            k <= playing@.len(),
            *playing == stretch.playing,
            none is None,
            forall|k: int|
                0 <= k < playing@.len() ==> (#[trigger] playing@[k]).track < timeline.tracks@.len()
                    && playing@[k].index
                    < timeline.tracks@[playing@[k].track as int].placements@.len(),
            pieces_of(*timeline, playing@, cuts@, e as int, k as int) == Ok::<
                Seq<SourceModel>,
                PlanError,
            >(sources_in(pieces@)),
        decreases playing@.len() - k,
    {
        let cut = if e < cuts.len() && k < cuts[e].len() {
            &cuts[e][k]
        } else {
            &none
        };
        assert(*cut == cut_at(cuts@, e as int, k as int));
        match piece(timeline, &playing[k], cut) {
            Ok(source) => {
                let ghost before = pieces@;
                pieces.push(source);
                proof {
                    assert(sources_in(pieces@) =~= sources_in(before).push(source@));
                }
            },
            Err(error) => {
                proof {
                    assert(pieces_of(*timeline, playing@, cuts@, e as int, k + 1) == Err::<
                        Seq<SourceModel>,
                        PlanError,
                    >(error));
                    lemma_pieces_error(
                        *timeline,
                        playing@,
                        cuts@,
                        e as int,
                        k + 1,
                        playing@.len() as int,
                    );
                }
                return Err(error);
            },
        }
        k += 1;
    }
    Ok(pieces)
}

/// What keeps a sound that plays alone from being copied.
fn causes_of(clip: &Placement) -> (causes: Vec<Cause>)
    ensures
        causes_in(causes@) == sound_causes(*clip),
{
    let mut causes: Vec<Cause> = Vec::new();
    if let Some(reason) = clip.forced {
        causes.push(Cause::Operation { reason });
    }
    if any_applied(&clip.audio) {
        causes.push(Cause::AudioChain);
    }
    if clip.speed != (Rational { num: 1, den: 1 }) {
        causes.push(Cause::AudioSpeed { speed: clip.speed });
    }
    proof {
        assert(causes_in(causes@) =~= sound_causes(*clip));
    }
    causes
}

/// A segment of sound, before the output's parameters are known.
fn new_segment(from: i64, to: i64, pieces: Vec<SegmentSource>, causes: Vec<Cause>) -> (segment:
    Segment)
    requires
        0 <= from <= to,
    ensures
        segment@ == sound_segment(from, to, sources_in(pieces@), causes_in(causes@)),
{
    let segment = Segment {
        media: Media::Audio,
        start: from,
        length: to - from,
        sources: pieces,
        tier: ExportTier::StreamCopy,
        causes,
        windows: Vec::new(),
        decline: None,
        alternative: None,
        encoder: None,
    };
    proof {
        assert(segment@.windows =~= Seq::empty());
    }
    segment
}

/// A stretch's segment, with its encoding where it may be copied.
fn segment_of<'a>(
    timeline: &Timeline,
    sources: &'a BTreeMap<SourceId, SourceFacts>,
    stretch: &Stretch,
    pieces: Vec<SegmentSource>,
) -> (result: Result<(Segment, Option<&'a EncodingSignature>), PlanError>)
    requires
        pieces@.len() == stretch.playing@.len(),
        0 <= stretch.from <= stretch.to,
        forall|k: int|
            0 <= k < stretch.playing@.len() ==> (#[trigger] stretch.playing@[k]).track
                < timeline.tracks@.len() && stretch.playing@[k].index
                < timeline.tracks@[stretch.playing@[k].track as int].placements@.len(),
    ensures
        match stretch_segment(*timeline, sources@, stretch@, sources_in(pieces@)) {
            Ok((segment, encoding)) => {
                &&& result is Ok
                &&& result->Ok_0.0@ == segment
                &&& encoding == (match result->Ok_0.1 {
                    Some(signature) => Some(signature@),
                    None => None,
                })
            },
            Err(error) => result == Err::<(Segment, Option<&'a EncodingSignature>), PlanError>(
                error,
            ),
        },
{
    broadcast use vstd::std_specs::btree::group_btree_axioms;

    let (from, to) = (stretch.from, stretch.to);
    if stretch.playing.len() == 0 {
        return Ok((gap(Media::Audio, from, to), None));
    }
    if stretch.playing.len() == 1 {
        let (source, stream) = (pieces[0].source, pieces[0].stream);
        assert(sources_in(pieces@)[0] == pieces@[0]@);
        let facts = match sources.get(&source) {
            Some(facts) => facts,
            None => {
                return Err(PlanError::UnknownSource(source));
            },
        };
        let signature = match facts.audio.get(&stream) {
            Some(audio) => Some(&audio.encoding),
            None => None,
        };
        let sound = stretch.playing[0];
        let clip = &timeline.tracks[sound.track].placements[sound.index];
        return Ok((new_segment(from, to, pieces, causes_of(clip)), signature));
    }
    let count: u32 = if stretch.playing.len() <= 0xffff_ffff {
        stretch.playing.len() as u32
    } else {
        0xffff_ffff
    };
    let mut causes: Vec<Cause> = Vec::new();
    causes.push(Cause::AudioMix { count });
    proof {
        assert(causes_in(causes@) =~= seq![CauseModel::AudioMix { count }]);
    }
    Ok((new_segment(from, to, pieces, causes), None))
}

/// An error of some stretches is the error of all.
proof fn lemma_sound_error(
    timeline: Timeline,
    sources: Map<SourceId, SourceFacts>,
    list: Seq<StretchModel>,
    cuts: Seq<Vec<Option<Placement>>>,
    some: int,
    all: int,
)
    requires
        0 <= some <= all,
        sound_laid(timeline, sources, list, cuts, some) is Err,
    ensures
        sound_laid(timeline, sources, list, cuts, all) == sound_laid(
            timeline,
            sources,
            list,
            cuts,
            some,
        ),
    decreases all,
{
    if some < all {
        lemma_sound_error(timeline, sources, list, cuts, some, all - 1);
    }
}

/// The segments laid tile up to the last stretch's end.
proof fn lemma_sound_tiles(
    timeline: Timeline,
    sources: Map<SourceId, SourceFacts>,
    list: Seq<StretchModel>,
    cuts: Seq<Vec<Option<Placement>>>,
    count: int,
)
    requires
        timeline.wf(),
        timeline.length > 0,
        stretch_plan(timeline, sources) == Ok::<Seq<StretchModel>, PlanError>(list),
        0 <= count <= list.len(),
    ensures
        sound_laid(timeline, sources, list, cuts, count) matches Ok(draft) ==> {
            &&& draft.segments.len() == count
            &&& draft.signatures.len() == count
            &&& tile(
                draft.segments,
                if count > 0 {
                    list[count - 1].to as int
                } else {
                    0
                },
            )
        },
    decreases count,
{
    lemma_stretches(timeline, sources);
    if count > 0 {
        lemma_sound_tiles(timeline, sources, list, cuts, count - 1);
        if let Ok(before) = sound_laid(timeline, sources, list, cuts, count - 1) {
            let stretch = list[count - 1];
            if count > 1 {
                assert(list[count - 2].to == list[count - 1].from);
            }
            if let Ok(draft) = sound_laid(timeline, sources, list, cuts, count) {
                lemma_tile_push(before.segments, stretch.from as int, draft.segments.last());
                assert(draft.segments == before.segments.push(draft.segments.last()));
            }
        }
    }
}

/// Plan the sound of `timeline`. `cuts` holds, for each stretch of
/// [`stretches`] and each clip that plays in it, the clip cut to the stretch,
/// or nothing where its timing does not fit.
pub fn plan_audio(
    timeline: &Timeline,
    sources: &BTreeMap<SourceId, SourceFacts>,
    cuts: &Vec<Vec<Option<Placement>>>,
) -> (result: Result<Vec<Segment>, PlanError>)
    requires
        timeline.wf(),
        timeline.length > 0,
    ensures
        match audio_plan(*timeline, sources@, cuts@) {
            Ok(segments) => result is Ok && segments_in(result->Ok_0@) == segments,
            Err(error) => result == Err::<Vec<Segment>, PlanError>(error),
        },
{
    let list = match stretches(timeline, sources) {
        Ok(list) => list,
        Err(error) => {
            return Err(error);
        },
    };
    let ghost all = stretches_in(list@);
    let mut segments: Vec<Segment> = Vec::new();
    let mut signatures: Vec<Option<&EncodingSignature>> = Vec::new();
    proof {
        lemma_stretches(*timeline, sources@);
        assert(segments_in(segments@) =~= Seq::empty());
        assert(signatures_in(signatures@) =~= Seq::empty());
    }
    let mut e: usize = 0;
    while e < list.len()
        invariant
            e <= list@.len(),
            timeline.wf(),
            timeline.length > 0,
            all == stretches_in(list@),
            stretch_plan(*timeline, sources@) == Ok::<Seq<StretchModel>, PlanError>(all),
            sound_laid(*timeline, sources@, all, cuts@, e as int) == Ok::<SoundDraft, PlanError>(
                SoundDraft {
                    segments: segments_in(segments@),
                    signatures: signatures_in(signatures@),
                },
            ),
        decreases list@.len() - e,
    {
        let stretch = &list[e];
        proof {
            lemma_stretches(*timeline, sources@);
            assert(all[e as int] == stretch@);
            assert forall|k: int| 0 <= k < stretch.playing@.len() implies (
            #[trigger] stretch.playing@[k]).track < timeline.tracks@.len()
                && stretch.playing@[k].index
                < timeline.tracks@[stretch.playing@[k].track as int].placements@.len() by {
                assert(all[e as int].playing[k] == stretch.playing@[k]);
            }
            lemma_pieces_len(
                *timeline,
                stretch.playing@,
                cuts@,
                e as int,
                stretch.playing@.len() as int,
            );
        }
        let found = match pieces(timeline, stretch, cuts, e) {
            Ok(found) => found,
            Err(error) => {
                proof {
                    assert(sound_laid(*timeline, sources@, all, cuts@, e + 1) == Err::<
                        SoundDraft,
                        PlanError,
                    >(error));
                    lemma_sound_error(
                        *timeline,
                        sources@,
                        all,
                        cuts@,
                        e + 1,
                        all.len() as int,
                    );
                }
                return Err(error);
            },
        };
        assert(found@.len() == sources_in(found@).len());
        let (segment, signature) = match segment_of(timeline, sources, stretch, found) {
            Ok(both) => both,
            Err(error) => {
                proof {
                    assert(sound_laid(*timeline, sources@, all, cuts@, e + 1) == Err::<
                        SoundDraft,
                        PlanError,
                    >(error));
                    lemma_sound_error(
                        *timeline,
                        sources@,
                        all,
                        cuts@,
                        e + 1,
                        all.len() as int,
                    );
                }
                return Err(error);
            },
        };
        let ghost (before, said) = (segments@, signatures@);
        segments.push(segment);
        signatures.push(signature);
        proof {
            assert(segments_in(segments@) =~= segments_in(before).push(segment@));
            assert(signatures_in(signatures@) =~= signatures_in(said).push(
                match signature {
                    Some(signature) => Some(signature@),
                    None => None,
                },
            ));
        }
        e += 1;
    }
    let ghost draft = sound_laid(*timeline, sources@, all, cuts@, all.len() as int)->Ok_0;
    proof {
        lemma_sound_tiles(*timeline, sources@, all, cuts@, all.len() as int);
        lemma_tile_fits(
            draft.segments,
            if all.len() > 0 {
                all[all.len() - 1].to as int
            } else {
                0
            },
        );
        assert(segments@.len() == draft.segments.len());
        assert(signatures@.len() == draft.signatures.len());
    }
    let _source = share_encoding(&mut segments, &signatures);
    let ghost ready = shared(draft.segments, draft.signatures);
    let mut j: usize = 0;
    while j < segments.len()
        invariant
            j <= segments@.len(),
            segments@.len() == ready.len(),
            forall|k: int|
                0 <= k < j ==> (#[trigger] segments@[k])@ == (SegmentModel {
                    tier: tier_for(ready[k].causes),
                    ..ready[k]
                }),
            forall|k: int| j <= k < segments@.len() ==> (#[trigger] segments@[k])@ == ready[k],
        decreases segments@.len() - j,
    {
        assert(segments@[j as int]@ == ready[j as int]);
        let tier = tier_of(&segments[j].causes);
        segments[j].tier = tier;
        j += 1;
    }
    proof {
        assert(segments_in(segments@) =~= all_tiered(ready));
    }
    Ok(segments)
}

/// The sound of a plan tiles the sequence exactly, where there is any.
pub proof fn sound_tiles_the_sequence(
    timeline: Timeline,
    sources: Map<SourceId, SourceFacts>,
    cuts: Seq<Vec<Option<Placement>>>,
)
    requires
        timeline.wf(),
        timeline.length > 0,
    ensures
        audio_plan(timeline, sources, cuts) matches Ok(segments) ==> segments.len() > 0 ==> tile(
            segments,
            timeline.length as int,
        ),
{
    lemma_stretches(timeline, sources);
    if let Ok(list) = stretch_plan(timeline, sources) {
        let n = list.len() as int;
        lemma_sound_tiles(timeline, sources, list, cuts, n);
        if let Ok(draft) = sound_laid(timeline, sources, list, cuts, n) {
            if n > 0 {
                let ready = shared(draft.segments, draft.signatures);
                lemma_tile_same(draft.segments, ready, timeline.length as int);
                lemma_tile_same(ready, all_tiered(ready), timeline.length as int);
            }
        }
    }
}

} // verus!
