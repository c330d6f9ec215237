//! A plan does what the timeline asks for: every picture and every sound comes
//! from its clip, and is changed only where it must be.
use crate::export::plan::audio::{clip_of, piece_of, sound_causes, stretch_segment};
use crate::export::plan::cut::{a_copy_has_no_cause, seam_causes, seam_windows, tier_for};
use crate::export::plan::seams::{
    copy_may_end, copy_may_start, distinct, every_seam_names_its_keyframes, only_a_cut_costs_a_seam,
};
use crate::export::plan::shape::{lemma_decided, lemma_laid_ready, lemma_shared, ready};
use crate::export::plan::share::{held_to, shared};
use crate::export::plan::sound::{by_start, lemma_by_start, sound_of, sounds_of, track_sounds, Sound};
use crate::export::plan::stretch::{
    edges_of, lemma_edges, lemma_sounds_within, playing, stretch_plan, StretchModel,
};
use crate::export::plan::video::{
    decided, drafted, laid, own_causes, ticks_of, undecided, up_to, video_plan,
};
use crate::export::plan::{
    CauseModel, DeclineModel, EncodingModel, Media, SegmentModel, SourceFacts, SourceModel,
};
use crate::probe::Rational;
use crate::project::{AudioOperation, Picture, Placement, SourceId, Timeline, TrackKind};
use crate::time::{a_conversion_keeps_the_time, Rounding};
use vstd::prelude::*;

verus! {

/// The tick of a base that an earlier or later tick of another lies at or just
/// behind.
pub open spec fn floor_tick(ticks: i64, from: Rational, to: Rational, there: i64) -> bool {
    let (n, d) = (ticks * from.num * to.den, from.den * to.num);
    there * d <= n < there * d + d
}

/// The first tick of a base that lies at or behind a tick of another.
pub open spec fn ceiling_tick(ticks: i64, from: Rational, to: Rational, there: i64) -> bool {
    let (n, d) = (ticks * from.num * to.den, from.den * to.num);
    there * d - d < n <= there * d
}

/// A range in other ticks holds all of it and no whole tick more.
pub proof fn a_range_keeps_its_ends(source_in: i64, source_out: i64, from: Rational, to: Rational)
    ensures
        ticks_of(source_in, source_out, from, to) matches Some((a, b)) ==> floor_tick(
            source_in,
            from,
            to,
            a,
        ) && ceiling_tick(source_out, from, to, b),
{
    a_conversion_keeps_the_time(source_in, from, to, Rounding::Down);
    a_conversion_keeps_the_time(source_out, from, to, Rounding::Up);
}

/// Only one tick is the floor, and one the ceiling.
proof fn lemma_one_tick(n: int, d: int, a: int, b: int)
    requires
        d > 0,
        a * d <= n < a * d + d && b * d <= n < b * d + d || a * d - d < n <= a * d && b * d - d < n
            <= b * d,
    ensures
        a == b,
{
    assert(a == b) by (nonlinear_arith)
        requires
            d > 0,
            -d < a * d - b * d < d,
    ;
}

/// What a clip's segment takes from its source.
pub open spec fn taken_from(placement: Placement, stream: u32) -> SourceModel {
    SourceModel {
        track: placement.track,
        clip: placement.clip,
        source: placement.source,
        stream,
        time_base: placement.time_base,
        source_in: placement.source_in,
        source_out: placement.source_out,
        speed: placement.speed,
        motion: placement.motion,
        audio: Seq::empty(),
    }
}

/// A piece plays as it is in its file, as far as nothing but its cut goes.
pub open spec fn plain(piece: Picture) -> bool {
    &&& piece.placement.forced is None
    &&& piece.rate_outside_container is None
    &&& piece.mismatches@.len() == 0
}

/// The segment of a piece: where the piece stands, of its source and range. It
/// is re-encoded whole where anything but its cut keeps it from being copied,
/// and every such thing is told. Otherwise only its cut decides, between the
/// tick at or before its in-point and the one at or behind its out-point, or
/// that it was encoded unlike the rest of the output.
pub open spec fn plans_piece(segment: SegmentModel, piece: Picture, facts: SourceFacts) -> bool {
    let placement = piece.placement;
    &&& segment.media == Media::Video
    &&& segment.start == placement.start
    &&& segment.length == placement.length
    &&& facts.video matches Some(video) && {
        &&& segment.sources == seq![taken_from(placement, video.stream)]
        &&& placement.forced matches Some(reason) ==> segment.causes.contains(
            CauseModel::Operation { reason },
        )
        &&& piece.rate_outside_container matches Some(rate) ==> segment.causes.contains(
            CauseModel::SpeedOutsideContainer { rate },
        )
        &&& forall|k: int|
            0 <= k < piece.mismatches@.len() ==> segment.causes.contains(
                CauseModel::SequenceMismatch { mismatch: #[trigger] piece.mismatches@[k] },
            )
        &&& !plain(piece) ==> segment.tier is FullReEncode && segment.windows.len() == 0
        &&& plain(piece) ==> exists|from: i64, to: i64|
            {
                &&& floor_tick(placement.source_in, placement.time_base, video.time_base, from)
                &&& ceiling_tick(placement.source_out, placement.time_base, video.time_base, to)
                &&& #[trigger] cut_decides(segment, video, from, to)
            }
    }
}

/// A segment is what its cut makes of it, unless it was encoded unlike the rest
/// of the output.
pub open spec fn cut_decides(
    segment: SegmentModel,
    video: crate::export::plan::VideoFacts,
    from: i64,
    to: i64,
) -> bool {
    let cut = seam_causes(video, from, to);
    let unlike = segment.causes.len() == cut.len() + 1 && segment.causes.drop_last() == cut
        && segment.causes.last() is IncompatibleEncoding;
    &&& segment.causes == cut || unlike
    &&& unlike ==> segment.tier is FullReEncode
    &&& segment.tier is SmartCut ==> segment.windows == seam_windows(video, from, to)
    &&& distinct(video.keyframes@) && video.keyframes_complete ==> {
        &&& segment.tier is StreamCopy ==> copy_may_start(video, from) && copy_may_end(video, to)
        &&& copy_may_start(video, from) && copy_may_end(video, to) ==> segment.tier is StreamCopy
            || unlike && segment.causes.len() == 1
        &&& segment.tier is FullReEncode ==> unlike
    }
}

proof fn lemma_own_causes(piece: Picture)
    ensures
        ({
            let own = own_causes(piece);
            &&& plain(piece) <==> own.len() == 0
            &&& forall|i: int| 0 <= i < own.len() ==> (#[trigger] own[i]).effect() is Whole
            &&& piece.placement.forced matches Some(reason) ==> own.contains(
                CauseModel::Operation { reason },
            )
            &&& piece.rate_outside_container matches Some(rate) ==> own.contains(
                CauseModel::SpeedOutsideContainer { rate },
            )
            &&& forall|k: int|
                0 <= k < piece.mismatches@.len() ==> own.contains(
                    CauseModel::SequenceMismatch { mismatch: #[trigger] piece.mismatches@[k] },
                )
        }),
{
    let own = own_causes(piece);
    let first: int = if piece.placement.forced is Some {
        1
    } else {
        0
    };
    let second: int = if piece.rate_outside_container is Some {
        first + 1
    } else {
        first
    };
    if let Some(reason) = piece.placement.forced {
        assert(own[0] == CauseModel::Operation { reason });
    }
    if let Some(rate) = piece.rate_outside_container {
        assert(own[first] == CauseModel::SpeedOutsideContainer { rate });
    }
    assert forall|k: int| 0 <= k < piece.mismatches@.len() implies own.contains(
        CauseModel::SequenceMismatch { mismatch: #[trigger] piece.mismatches@[k] },
    ) by {
        assert(own[second + k] == CauseModel::SequenceMismatch { mismatch: piece.mismatches@[k] });
    }
    assert forall|i: int| 0 <= i < own.len() implies (#[trigger] own[i]).effect() is Whole by {
        if i >= second {
            assert(own[i] == CauseModel::SequenceMismatch {
                mismatch: piece.mismatches@[i - second],
            });
        }
    }
}

proof fn lemma_whole(causes: Seq<CauseModel>, i: int)
    requires
        0 <= i < causes.len(),
        causes[i].effect() is Whole,
    ensures
        tier_for(causes) is FullReEncode,
{
    a_copy_has_no_cause(causes);
    assert(!(causes[i].effect() is Seam));
}

/// Every piece of a timeline has its segment in the plan, and only what keeps
/// it from being copied is held against it.
pub proof fn a_piece_is_planned_as_it_is(
    timeline: Timeline,
    sources: Map<SourceId, SourceFacts>,
    i: int,
)
    requires
        0 <= i < timeline.picture@.len(),
    ensures
        video_plan(timeline, sources) matches Ok((segments, _)) ==> exists|j: int|
            0 <= j < segments.len() && plans_piece(
                #[trigger] segments[j],
                timeline.picture@[i],
                sources[timeline.picture@[i].placement.source],
            ),
{
    let pieces = timeline.picture@;
    let n = pieces.len() as int;
    lemma_laid_ready(pieces, sources, n);
    if let Ok((segments, reference)) = video_plan(timeline, sources) {
        let draft = laid(pieces, sources, n)->Ok_0;
        let whole = up_to(draft, Media::Video, timeline.length);
        let piece = pieces[i];
        assert(drafted(piece, sources) is Ok);
        let one = drafted(piece, sources)->Ok_0.0;
        let j = choose|j: int| 0 <= j < draft.segments.len() && draft.segments[j] == one;
        assert(whole.segments[j] == one);
        assert(ready(draft.segments[j]));
        let held = shared(whole.segments, whole.signatures)[j];
        lemma_shared(whole.segments, whole.signatures, j);
        lemma_decided(held, sources, reference);
        let segment = segments[j];
        assert(segment == decided(held, sources, reference));
        lemma_piece(piece, sources, one, held, segment, reference);
        assert(plans_piece(segment, piece, sources[piece.placement.source]));
    }
}

proof fn lemma_piece(
    piece: Picture,
    sources: Map<SourceId, SourceFacts>,
    one: SegmentModel,
    held: SegmentModel,
    segment: SegmentModel,
    reference: Option<SourceId>,
)
    requires
        drafted(piece, sources) is Ok,
        one == drafted(piece, sources)->Ok_0.0,
        held == one || exists|signature: Option<EncodingModel>, like: EncodingModel, id: SourceId|
            held == #[trigger] held_to(one, signature, like, id),
        segment == decided(held, sources, reference),
    ensures
        plans_piece(segment, piece, sources[piece.placement.source]),
{
    let placement = piece.placement;
    let video = sources[placement.source].video->0;
    let own = own_causes(piece);
    lemma_own_causes(piece);
    assert(segment.causes == held.causes);
    assert(one.causes.is_prefix_of(held.causes)) by {
        if held != one {
            assert(held.causes.drop_last() =~= one.causes);
        }
    }
    assert forall|k: int| 0 <= k < own.len() implies segment.causes.contains(#[trigger] own[k]) by {
        assert(one.causes[k] == own[k]);
        assert(segment.causes[k] == own[k]);
    }
    assert(segment.sources =~= seq![taken_from(placement, video.stream)]);
    if !plain(piece) {
        assert(own[0].effect() is Whole);
        assert(segment.causes[0] == own[0]);
        lemma_whole(segment.causes, 0);
    } else {
        let (from, to) = ticks_of(
            placement.source_in,
            placement.source_out,
            placement.time_base,
            video.time_base,
        )->0;
        a_range_keeps_its_ends(
            placement.source_in,
            placement.source_out,
            placement.time_base,
            video.time_base,
        );
        let cut = seam_causes(video, from, to);
        assert(one.causes =~= cut);
        let unlike = segment.causes.len() == cut.len() + 1 && segment.causes.drop_last() == cut
            && segment.causes.last() is IncompatibleEncoding;
        if held.causes != one.causes {
            assert(held.causes.drop_last() =~= cut);
            assert(unlike);
        }
        if unlike {
            lemma_whole(segment.causes, segment.causes.len() - 1);
        }
        a_copy_has_no_cause(segment.causes);
        if distinct(video.keyframes@) && video.keyframes_complete {
            every_seam_names_its_keyframes(video, from, to);
            if !unlike {
                assert forall|k: int| 0 <= k < cut.len() implies (#[trigger] cut[k]).effect() is Seam by {
                    only_a_cut_costs_a_seam(cut[k]);
                }
            }
        }
        assert(cut_decides(segment, video, from, to));
    }
}

/// A segment that is not copied has an encoder, or says why it has none. The
/// encoder makes the stream that its pictures join: a smart-cut's own source's,
/// a whole re-encode's the output's. High dynamic range is declined, whichever
/// of the two has it, and what no encoder makes is declined with its reason.
pub proof fn an_encoded_segment_has_its_encoder(
    segment: SegmentModel,
    sources: Map<SourceId, SourceFacts>,
    reference: Option<SourceId>,
    own: SourceId,
    joins: SourceId,
)
    requires
        undecided(segment),
        segment.causes.len() > 0,
        segment.sources.len() > 0,
        segment.sources[0].source == own,
        sources.dom().contains(own),
        sources[own].video is Some,
        joins == (if tier_for(segment.causes) is SmartCut || reference is None {
            own
        } else {
            reference->0
        }),
        sources.dom().contains(joins),
        sources[joins].video is Some,
    ensures
        ({
            let done = decided(segment, sources, reference);
            let (target, rendered) = (sources[joins].video->0, sources[own].video->0);
            let hdr = target.geometry.hdr || rendered.geometry.hdr;
            &&& hdr ==> done.decline == Some(DeclineModel::HdrWouldBeRendered)
                && done.encoder is None
            &&& !hdr ==> match target.encoder {
                Ok(choice) => done.encoder == Some(choice@) && done.decline is None,
                Err(why) => done.encoder is None && done.decline == Some(
                    DeclineModel::NoEncoder { refusal: why@ },
                ),
            }
            &&& done.alternative is Some ==> done.tier is SmartCut
        }),
{
    a_copy_has_no_cause(segment.causes);
}

/// A clip on a track that is heard has its sound.
proof fn lemma_track_holds(
    timeline: Timeline,
    sources: Map<SourceId, SourceFacts>,
    place: int,
    before: Seq<Sound>,
    count: int,
)
    requires
        0 <= count,
    ensures
        track_sounds(timeline, sources, place, before, count) matches Ok(sounds) ==> {
            &&& forall|s: Sound| #[trigger]
                sounds.contains(s) <==> before.contains(s) || exists|i: int|
                    0 <= i < count && #[trigger] sound_of(timeline, sources, place, i) == Ok::<
                        Option<Sound>,
                        crate::export::plan::PlanError,
                    >(Some(s))
            &&& forall|i: int|
                0 <= i < count ==> (#[trigger] sound_of(timeline, sources, place, i)) is Ok
        },
    decreases count,
{
    if count > 0 {
        lemma_track_holds(timeline, sources, place, before, count - 1);
        if let Ok(sounds) = track_sounds(timeline, sources, place, before, count) {
            let held = track_sounds(timeline, sources, place, before, count - 1)->Ok_0;
            let more = sound_of(timeline, sources, place, count - 1)->Ok_0;
            assert forall|s: Sound| #[trigger] sounds.contains(s) <==> before.contains(s)
                || exists|i: int|
                0 <= i < count && #[trigger] sound_of(timeline, sources, place, i) == Ok::<
                    Option<Sound>,
                    crate::export::plan::PlanError,
                >(Some(s)) by {
                if sounds.contains(s) {
                    let k = sounds.index_of(s);
                    if k < held.len() {
                        assert(held[k] == s);
                        assert(held.contains(s));
                    } else {
                        assert(sound_of(timeline, sources, place, count - 1) == Ok::<
                            Option<Sound>,
                            crate::export::plan::PlanError,
                        >(Some(s)));
                    }
                }
                if held.contains(s) {
                    let k = held.index_of(s);
                    assert(sounds[k] == s);
                }
                if more == Some(s) {
                    assert(sounds[sounds.len() - 1] == s);
                }
            }
        }
    }
}

proof fn lemma_tracks_hold(timeline: Timeline, sources: Map<SourceId, SourceFacts>, count: int)
    requires
        0 <= count <= timeline.tracks@.len(),
    ensures
        sounds_of(timeline, sources, count) matches Ok(sounds) ==> forall|s: Sound| #[trigger]
            sounds.contains(s) <==> exists|t: int, i: int|
                0 <= t < count && timeline.tracks@[t].audible && 0 <= i
                    < timeline.tracks@[t].placements@.len() && #[trigger] sound_of(
                    timeline,
                    sources,
                    t,
                    i,
                ) == Ok::<Option<Sound>, crate::export::plan::PlanError>(Some(s)),
    decreases count,
{
    if count > 0 {
        lemma_tracks_hold(timeline, sources, count - 1);
        if let Ok(sounds) = sounds_of(timeline, sources, count) {
            let held = sounds_of(timeline, sources, count - 1)->Ok_0;
            let track = timeline.tracks@[count - 1];
            if track.audible {
                lemma_track_holds(
                    timeline,
                    sources,
                    count - 1,
                    held,
                    track.placements@.len() as int,
                );
            }
            assert forall|s: Sound| #[trigger] sounds.contains(s) <==> exists|t: int, i: int|
                0 <= t < count && timeline.tracks@[t].audible && 0 <= i
                    < timeline.tracks@[t].placements@.len() && #[trigger] sound_of(
                    timeline,
                    sources,
                    t,
                    i,
                ) == Ok::<Option<Sound>, crate::export::plan::PlanError>(Some(s)) by {
                if sounds.contains(s) && !held.contains(s) {
                    assert(track.audible);
                }
                if exists|t: int, i: int|
                    0 <= t < count && timeline.tracks@[t].audible && 0 <= i
                        < timeline.tracks@[t].placements@.len() && #[trigger] sound_of(
                        timeline,
                        sources,
                        t,
                        i,
                    ) == Ok::<Option<Sound>, crate::export::plan::PlanError>(Some(s)) {
                    let (t, i) = choose|t: int, i: int|
                        0 <= t < count && timeline.tracks@[t].audible && 0 <= i
                            < timeline.tracks@[t].placements@.len() && #[trigger] sound_of(
                            timeline,
                            sources,
                            t,
                            i,
                        ) == Ok::<Option<Sound>, crate::export::plan::PlanError>(Some(s));
                    if t < count - 1 {
                        assert(held.contains(s));
                    }
                }
            }
        }
    } else {
        if let Ok(sounds) = sounds_of(timeline, sources, count) {
            assert(sounds.len() == 0);
        }
    }
}

proof fn lemma_playing_holds(sounds: Seq<Sound>, frame: i64, count: int, s: Sound)
    requires
        0 <= count <= sounds.len(),
    ensures
        playing(sounds, frame, count).contains(s) <==> s.start <= frame < s.end && exists|i: int|
            0 <= i < count && #[trigger] sounds[i] == s,
    decreases count,
{
    let all = playing(sounds, frame, count);
    if count > 0 {
        lemma_playing_holds(sounds, frame, count - 1, s);
        let before = playing(sounds, frame, count - 1);
        if all.contains(s) {
            let k = all.index_of(s);
            if k < before.len() {
                assert(before[k] == s);
                assert(before.contains(s));
            } else {
                assert(sounds[count - 1] == s);
            }
        }
        if before.contains(s) {
            let k = before.index_of(s);
            assert(all[k] == s);
        }
        if sounds[count - 1] == s && s.start <= frame < s.end {
            assert(all[all.len() - 1] == s);
        }
    } else {
        assert(all.len() == 0);
    }
}

/// Everything that sounds is heard, as long as it does, and nothing else. In a
/// stretch of the output exactly those clips play that stand over all of it, of
/// the tracks that are heard; and every frame lies in a stretch as soon as
/// anything sounds at all.
pub proof fn what_sounds_is_heard(
    timeline: Timeline,
    sources: Map<SourceId, SourceFacts>,
    e: int,
    s: Sound,
)
    requires
        timeline.wf(),
        timeline.length > 0,
        stretch_plan(timeline, sources) is Ok,
        0 <= e < stretch_plan(timeline, sources)->Ok_0.len(),
    ensures
        ({
            let stretch = stretch_plan(timeline, sources)->Ok_0[e];
            let sounds = exists|t: int, i: int|
                0 <= t < timeline.tracks@.len() && timeline.tracks@[t].audible && 0 <= i
                    < timeline.tracks@[t].placements@.len() && #[trigger] sound_of(
                    timeline,
                    sources,
                    t,
                    i,
                ) == Ok::<Option<Sound>, crate::export::plan::PlanError>(Some(s));
            &&& stretch.playing.contains(s) <==> sounds && s.start <= stretch.from && stretch.to
                <= s.end
            &&& sounds ==> s.end <= stretch.from || stretch.to <= s.start || s.start <= stretch.from
                && stretch.to <= s.end
        }),
{
    let n = timeline.tracks@.len() as int;
    let heard = sounds_of(timeline, sources, n)->Ok_0;
    lemma_tracks_hold(timeline, sources, n);
    lemma_sounds_within(timeline, sources, n);
    let count = heard.len() as int;
    let sorted = by_start(heard, count);
    lemma_by_start(heard, count);
    assert(heard.take(count) =~= heard);
    assert forall|x: Sound| #[trigger] sorted.contains(x) <==> heard.contains(x) by {
        broadcast use vstd::seq_lib::group_to_multiset_ensures;

        assert(sorted.to_multiset().count(x) == heard.to_multiset().count(x));
    }
    assert forall|i: int| 0 <= i < sorted.len() implies 0 <= (#[trigger] sorted[i]).start
        < sorted[i].end <= timeline.length by {
        assert(sorted.contains(sorted[i]));
        let k = heard.index_of(sorted[i]);
        assert(heard[k] == sorted[i]);
    }
    lemma_edges(sorted, timeline.length, count);
    let edges = edges_of(sorted, timeline.length, count);
    let stretch = stretch_plan(timeline, sources)->Ok_0[e];
    assert(stretch.from == edges[e] && stretch.to == edges[e + 1]);
    assert(stretch.playing == playing(sorted, edges[e], count));
    lemma_playing_holds(sorted, edges[e], count, s);
    if heard.contains(s) {
        assert(sorted.contains(s));
        let i = sorted.index_of(s);
        assert(sorted[i] == s);
        assert(edges.contains(s.start) && edges.contains(s.end));
        let (a, b) = (edges.index_of(s.start), edges.index_of(s.end));
        assert(edges[a] == s.start && edges[b] == s.end);
        // No edge lies within a stretch.
        if a <= e {
            if a < e {
                assert(edges[a] < edges[e]);
            }
        } else if a > e + 1 {
            assert(edges[e + 1] < edges[a]);
        }
        if b <= e {
            if b < e {
                assert(edges[b] < edges[e]);
            }
        } else if b > e + 1 {
            assert(edges[e + 1] < edges[b]);
        }
        assert(edges[e] < edges[e + 1]);
    }
    if exists|i: int| 0 <= i < count && #[trigger] sorted[i] == s {
        let i = choose|i: int| 0 <= i < count && #[trigger] sorted[i] == s;
        assert(sorted.contains(s));
        assert(heard.contains(s));
    }
}

/// A clip sounds from its own stream on a track of sound, from its file's
/// default on a track of pictures, unless it is silent or the file has none;
/// from its first frame to its last, over all of its range.
pub proof fn a_clip_sounds_as_it_is_placed(
    timeline: Timeline,
    sources: Map<SourceId, SourceFacts>,
    place: int,
    index: int,
)
    requires
        timeline.wf(),
        0 <= place < timeline.tracks@.len(),
        0 <= index < timeline.tracks@[place].placements@.len(),
        sound_of(timeline, sources, place, index) is Ok,
    ensures
        ({
            let track = timeline.tracks@[place];
            let clip = track.placements@[index];
            let facts = sources[clip.source];
            let found = sound_of(timeline, sources, place, index)->Ok_0;
            &&& found is None <==> track.kind == TrackKind::Video && (clip.silent
                || facts.default_audio is None)
            &&& found matches Some(sound) ==> {
                &&& sound.track == place && sound.index == index
                &&& sound.start == clip.start && sound.end == clip.start + clip.length
                &&& track.kind == TrackKind::Audio ==> sound.stream == clip.stream
                &&& track.kind == TrackKind::Video ==> facts.default_audio == Some(sound.stream)
                &&& facts.audio@.dom().contains(sound.stream) && sound.time_base
                    == facts.audio@[sound.stream].time_base
                &&& floor_tick(clip.source_in, clip.time_base, sound.time_base, sound.source_in)
                &&& ceiling_tick(clip.source_out, clip.time_base, sound.time_base, sound.source_out)
            }
        }),
{
    let clip = timeline.tracks@[place].placements@[index];
    assert(clip.within(timeline.length as int));
    vstd::std_specs::vec::axiom_spec_len(&timeline.tracks);
    vstd::std_specs::vec::axiom_spec_len(&timeline.tracks@[place].placements);
    if let Some(sound) = sound_of(timeline, sources, place, index)->Ok_0 {
        a_range_keeps_its_ends(clip.source_in, clip.source_out, clip.time_base, sound.time_base);
    }
}

/// A step of a chain changes the sound: a gain always, any other unless it is
/// bypassed.
pub open spec fn changes(step: AudioOperation) -> bool {
    match step {
        AudioOperation::Gain { .. } => true,
        AudioOperation::Denoise { bypassed } => !bypassed,
        AudioOperation::Normalise { bypassed, .. } => !bypassed,
    }
}

/// Sound is copied only where one clip plays alone, as it is: nothing keeps it
/// from it, no step of its chain changes it, and its speed is its own. Every
/// other sound is re-encoded, and says why; a mix counts what it mixes, and a
/// stretch without sound is a gap.
pub proof fn only_untouched_sound_is_copied(
    timeline: Timeline,
    sources: Map<SourceId, SourceFacts>,
    stretch: StretchModel,
    pieces: Seq<SourceModel>,
)
    requires
        stretch_segment(timeline, sources, stretch, pieces) is Ok,
        pieces.len() == stretch.playing.len(),
    ensures
        ({
            let (segment, encoding) = stretch_segment(timeline, sources, stretch, pieces)->Ok_0;
            let n = stretch.playing.len();
            let clip = clip_of(timeline, stretch.playing[0]);
            let touched = exists|i: int|
                0 <= i < clip.audio@.len() && #[trigger] changes(clip.audio@[i]);
            let own = Rational { num: 1, den: 1 };
            &&& segment.media == Media::Audio
            &&& segment.start == stretch.from && segment.length == (stretch.to
                - stretch.from) as i64
            &&& segment.sources == pieces
            &&& segment.windows.len() == 0
            &&& n == 0 <==> segment.causes == seq![CauseModel::Gap]
            &&& n > 1 ==> segment.causes.len() == 1 && (segment.causes[0] matches CauseModel::AudioMix {
                count,
            } && (n <= u32::MAX ==> count == n)) && encoding is None
            &&& n == 1 ==> {
                &&& segment.causes.len() == 0 <==> clip.forced is None && !touched && clip.speed
                    == own
                &&& clip.forced matches Some(reason) ==> segment.causes.contains(
                    CauseModel::Operation { reason },
                )
                &&& touched <==> segment.causes.contains(CauseModel::AudioChain)
                &&& clip.speed != own ==> segment.causes.contains(
                    CauseModel::AudioSpeed { speed: clip.speed },
                )
                &&& encoding matches Some(encoding) ==> sources[pieces[0].source].audio@.dom().contains(
                    pieces[0].stream,
                ) && encoding == sources[pieces[0].source].audio@[pieces[0].stream].encoding@
            }
        }),
{
    let (segment, encoding) = stretch_segment(timeline, sources, stretch, pieces)->Ok_0;
    let n = stretch.playing.len();
    if n == 0 {
        assert(pieces =~= Seq::empty());
    } else if n == 1 {
        let clip = clip_of(timeline, stretch.playing[0]);
        let causes = sound_causes(clip);
        assert(crate::project::some_applied(clip.audio@) <==> exists|i: int|
            0 <= i < clip.audio@.len() && #[trigger] changes(clip.audio@[i])) by {
            if crate::project::some_applied(clip.audio@) {
                let i = choose|i: int|
                    0 <= i < clip.audio@.len() && !(#[trigger] clip.audio@[i]).is_bypassed();
                assert(changes(clip.audio@[i]));
            }
            if exists|i: int| 0 <= i < clip.audio@.len() && #[trigger] changes(clip.audio@[i]) {
                let i = choose|i: int|
                    0 <= i < clip.audio@.len() && #[trigger] changes(clip.audio@[i]);
                assert(!clip.audio@[i].is_bypassed());
            }
        }
        let first: int = if clip.forced is Some {
            1
        } else {
            0
        };
        let second: int = if crate::project::some_applied(clip.audio@) {
            first + 1
        } else {
            first
        };
        if clip.forced is Some {
            assert(causes[0] == CauseModel::Operation { reason: clip.forced->0 });
        }
        if crate::project::some_applied(clip.audio@) {
            assert(causes[first] == CauseModel::AudioChain);
        }
        if clip.speed != (Rational { num: 1, den: 1 }) {
            assert(causes[second] == CauseModel::AudioSpeed { speed: clip.speed });
        }
        assert(causes != seq![CauseModel::Gap]) by {
            if causes.len() == 1 {
                assert(causes[0] != CauseModel::Gap);
            }
        }
    }
}

/// What a clip gives to a stretch is its own: cut to the stretch, in its
/// stream's ticks, with its speed and its chain, and never outside the clip.
pub proof fn a_piece_of_sound_stays_within_its_clip(
    timeline: Timeline,
    sound: Sound,
    cut: Placement,
)
    ensures
        piece_of(timeline, sound, Some(cut)) matches Ok(piece) ==> {
            &&& piece.source == cut.source && piece.clip == cut.clip && piece.track == cut.track
            &&& piece.stream == sound.stream && piece.time_base == sound.time_base
            &&& piece.speed == cut.speed && piece.motion == cut.motion && piece.audio == cut.audio@
            &&& sound.source_in <= piece.source_in && piece.source_out <= sound.source_out
            &&& piece.source_in == sound.source_in || floor_tick(
                cut.source_in,
                cut.time_base,
                sound.time_base,
                piece.source_in,
            )
            &&& piece.source_out == sound.source_out || ceiling_tick(
                cut.source_out,
                cut.time_base,
                sound.time_base,
                piece.source_out,
            )
            &&& forall|at: i64| #[trigger]
                floor_tick(cut.source_in, cut.time_base, sound.time_base, at) && at
                    > sound.source_in ==> piece.source_in == at
            &&& forall|at: i64| #[trigger]
                ceiling_tick(cut.source_out, cut.time_base, sound.time_base, at) && at
                    < sound.source_out ==> piece.source_out == at
        },
{
    if let Ok(piece) = piece_of(timeline, sound, Some(cut)) {
        let base = sound.time_base;
        a_range_keeps_its_ends(cut.source_in, cut.source_out, cut.time_base, base);
        a_conversion_keeps_the_time(cut.source_in, cut.time_base, base, Rounding::Down);
        let (a, b) = ticks_of(cut.source_in, cut.source_out, cut.time_base, base)->0;
        let d = cut.time_base.den * base.num;
        assert forall|at: i64| #[trigger]
            floor_tick(cut.source_in, cut.time_base, base, at) implies at == a by {
            lemma_one_tick(
                cut.source_in * cut.time_base.num * base.den,
                d,
                at as int,
                a as int,
            );
        }
        assert forall|at: i64| #[trigger]
            ceiling_tick(cut.source_out, cut.time_base, base, at) implies at == b by {
            lemma_one_tick(
                cut.source_out * cut.time_base.num * base.den,
                d,
                at as int,
                b as int,
            );
        }
    }
}

} // verus!
