//! The pictures of the plan.
use crate::export::plan::cut::{
    aligned, boundaries, keyframe_alternative, seam_causes, seam_windows, tier_for, tier_of,
};
use crate::export::plan::share::{
    frames, lengths_fit, share_encoding, shared, shared_source, signatures_in,
};
use crate::export::plan::{
    causes_in, segments_in, sources_wf, Cause, CauseModel, Decline, DeclineModel, EncodingModel,
    EncodingSignature, KeyframeAlternative, Media, PlanError, SeamWindow, Segment, SegmentModel,
    SegmentSource, SourceFacts, SourceModel, VideoFacts,
};
use crate::export::profile::ChoiceModel;
use crate::probe::Rational;
use crate::project::{Mismatch, Picture, Placement, SourceId, Timeline};
use crate::tier::{ExportTier, ReEncodeReason};
use crate::time::{rescale, rescaled, Rounding};
use std::collections::BTreeMap;
use vstd::prelude::*;

verus! {

/// A stretch in which nothing plays.
pub open spec fn gap_of(media: Media, start: i64, end: i64) -> SegmentModel {
    SegmentModel {
        media,
        start,
        length: (end - start) as i64,
        sources: Seq::empty(),
        tier: ExportTier::FullReEncode { reason: ReEncodeReason::Gap },
        causes: seq![CauseModel::Gap],
        windows: Seq::empty(),
        decline: None,
        alternative: None,
        encoder: None,
    }
}

/// A stretch in which nothing plays.
pub fn gap(media: Media, start: i64, end: i64) -> (segment: Segment)
    requires
        0 <= start <= end,
    ensures
        segment@ == gap_of(media, start, end),
{
    let mut causes: Vec<Cause> = Vec::new();
    causes.push(Cause::Gap);
    let segment = Segment {
        media,
        start,
        length: end - start,
        sources: Vec::new(),
        tier: ExportTier::FullReEncode { reason: ReEncodeReason::Gap },
        causes,
        windows: Vec::new(),
        decline: None,
        alternative: None,
        encoder: None,
    };
    proof {
        assert(segment@.causes =~= seq![CauseModel::Gap]);
        assert(segment@.sources =~= Seq::empty());
        assert(segment@.windows =~= Seq::empty());
    }
    segment
}

/// What a clip gives to a segment, from one stream of its source.
pub open spec fn source_model(
    placement: Placement,
    stream: u32,
    time_base: Rational,
) -> SourceModel {
    SourceModel {
        track: placement.track,
        clip: placement.clip,
        source: placement.source,
        stream,
        time_base,
        source_in: placement.source_in,
        source_out: placement.source_out,
        speed: placement.speed,
        motion: placement.motion,
        audio: Seq::empty(),
    }
}

/// What a clip gives to a segment, from one stream of its source.
pub fn source_of(placement: &Placement, stream: u32, time_base: Rational) -> (source: SegmentSource)
    ensures
        source@ == source_model(*placement, stream, time_base),
{
    let source = SegmentSource {
        track: placement.track,
        clip: placement.clip,
        source: placement.source,
        stream,
        time_base,
        source_in: placement.source_in,
        source_out: placement.source_out,
        speed: placement.speed,
        motion: placement.motion,
        audio: Vec::new(),
    };
    proof {
        assert(source@.audio =~= Seq::empty());
    }
    source
}

/// What keeps a piece from being copied wherever it is cut: its operation, its
/// speed, and every way in which it is not of the sequence's shape.
pub open spec fn own_causes(piece: Picture) -> Seq<CauseModel> {
    (match piece.placement.forced {
        Some(reason) => seq![CauseModel::Operation { reason }],
        None => Seq::empty(),
    }) + (match piece.rate_outside_container {
        Some(rate) => seq![CauseModel::SpeedOutsideContainer { rate }],
        None => Seq::empty(),
    }) + piece.mismatches@.map_values(
        |mismatch: Mismatch| CauseModel::SequenceMismatch { mismatch },
    )
}

/// What keeps a piece from being copied wherever it is cut.
fn causes_of(piece: &Picture) -> (causes: Vec<Cause>)
    ensures
        causes_in(causes@) == own_causes(*piece),
{
    let mut causes: Vec<Cause> = Vec::new();
    if let Some(reason) = piece.placement.forced {
        causes.push(Cause::Operation { reason });
    }
    if let Some(rate) = piece.rate_outside_container {
        causes.push(Cause::SpeedOutsideContainer { rate });
    }
    let ghost head = causes_in(causes@);
    let ghost all = piece.mismatches@.map_values(
        |mismatch: Mismatch| CauseModel::SequenceMismatch { mismatch },
    );
    let mut i: usize = 0;
    proof {
        assert(causes_in(causes@) =~= head + all.take(0));
    }
    while i < piece.mismatches.len()
        invariant
            i <= piece.mismatches@.len(),
            all == piece.mismatches@.map_values(
                |mismatch: Mismatch| CauseModel::SequenceMismatch { mismatch },
            ),
            causes_in(causes@) == head + all.take(i as int),
        decreases piece.mismatches@.len() - i,
    {
        let ghost before = causes@;
        let mismatch = piece.mismatches[i];
        causes.push(Cause::SequenceMismatch { mismatch });
        proof {
            assert(causes_in(causes@) =~= causes_in(before).push(
                CauseModel::SequenceMismatch { mismatch },
            ));
            assert(causes_in(causes@) =~= head + all.take(i + 1));
        }
        i += 1;
    }
    proof {
        assert(all.take(i as int) =~= all);
        assert(causes_in(causes@) =~= own_causes(*piece));
    }
    causes
}

/// A clip's in- and out-point in ticks of another base, what lies between
/// never made smaller.
pub open spec fn ticks_of(
    source_in: i64,
    source_out: i64,
    from: Rational,
    to: Rational,
) -> Option<(i64, i64)> {
    match (
        rescaled(source_in, from, to, Rounding::Down),
        rescaled(source_out, from, to, Rounding::Up),
    ) {
        (Some(source_in), Some(source_out)) => Some((source_in, source_out)),
        _ => None,
    }
}

/// A clip's in- and out-point in ticks of another base.
pub fn in_ticks(source_in: i64, source_out: i64, from: Rational, to: Rational) -> (ticks: Option<
    (i64, i64),
>)
    ensures
        ticks == ticks_of(source_in, source_out, from, to),
{
    let source_in = rescale(source_in, from, to, Rounding::Down)?;
    let source_out = rescale(source_out, from, to, Rounding::Up)?;
    Some((source_in, source_out))
}

/// A piece's segment before the output's parameters are known, with its
/// encoding; or why there is none. It carries everything that keeps it from
/// being copied: what does so wherever it is cut, and then where it is cut, as
/// far as that can be told in the stream's ticks.
pub open spec fn drafted(piece: Picture, sources: Map<SourceId, SourceFacts>) -> Result<
    (SegmentModel, EncodingModel),
    PlanError,
> {
    let placement = piece.placement;
    if !sources.dom().contains(placement.source) {
        Err(PlanError::UnknownSource(placement.source))
    } else {
        match sources[placement.source].video {
            None => Err(PlanError::NoVideo(placement.source)),
            Some(video) => {
                let ticks = ticks_of(
                    placement.source_in,
                    placement.source_out,
                    placement.time_base,
                    video.time_base,
                );
                if own_causes(piece).len() == 0 && ticks is None {
                    Err(PlanError::Overflow(placement.clip))
                } else {
                    Ok(
                        (
                            SegmentModel {
                                media: Media::Video,
                                start: placement.start,
                                length: placement.length,
                                sources: seq![
                                    source_model(placement, video.stream, placement.time_base),
                                ],
                                tier: ExportTier::StreamCopy,
                                causes: own_causes(piece) + (match ticks {
                                    Some((from, to)) => seam_causes(video, from, to),
                                    None => Seq::empty(),
                                }),
                                windows: match ticks {
                                    Some((from, to)) => seam_windows(video, from, to),
                                    None => Seq::empty(),
                                },
                                decline: None,
                                alternative: None,
                                encoder: None,
                            },
                            video.encoding@,
                        ),
                    )
                }
            },
        }
    }
}

/// A piece's segment before the output's parameters are known, and the facts
/// about its pictures.
fn draft<'a>(piece: &Picture, sources: &'a BTreeMap<SourceId, SourceFacts>) -> (result: Result<
    (Segment, &'a EncodingSignature),
    PlanError,
>)
    requires
        sources_wf(sources@),
    ensures
        match drafted(*piece, sources@) {
            Ok((segment, encoding)) => result is Ok && result->Ok_0.0@ == segment
                && result->Ok_0.1@ == encoding,
            Err(error) => result == Err::<(Segment, &'a EncodingSignature), PlanError>(error),
        },
{
    broadcast use vstd::std_specs::btree::group_btree_axioms;

    let placement = &piece.placement;
    let facts = match sources.get(&placement.source) {
        Some(facts) => facts,
        None => {
            return Err(PlanError::UnknownSource(placement.source));
        },
    };
    let video = match &facts.video {
        Some(video) => video,
        None => {
            return Err(PlanError::NoVideo(placement.source));
        },
    };
    let mut causes = causes_of(piece);
    let ghost own = causes@;
    let mut windows: Vec<SeamWindow> = Vec::new();
    assert(causes_in(own).len() == own.len());
    match in_ticks(
        placement.source_in,
        placement.source_out,
        placement.time_base,
        video.time_base,
    ) {
        Some((from, to)) => {
            let (mut seams, windows_of) = boundaries(video, from, to);
            let ghost cuts = seams@;
            causes.append(&mut seams);
            windows = windows_of;
            assert(causes_in(causes@) =~= causes_in(own) + causes_in(cuts));
        },
        None => {
            if causes.len() == 0 {
                return Err(PlanError::Overflow(placement.clip));
            }
            assert(causes_in(causes@) =~= causes_in(own) + Seq::<CauseModel>::empty());
            assert(windows@ =~= Seq::empty());
        },
    }
    let mut from: Vec<SegmentSource> = Vec::new();
    from.push(source_of(placement, video.stream, placement.time_base));
    let segment = Segment {
        media: Media::Video,
        start: placement.start,
        length: placement.length,
        sources: from,
        tier: ExportTier::StreamCopy,
        causes,
        windows,
        decline: None,
        alternative: None,
        encoder: None,
    };
    proof {
        assert(segment@.sources =~= seq![
            source_model(*placement, video.stream, placement.time_base),
        ]);
    }
    Ok((segment, &video.encoding))
}

/// Segments laid so far: each with its encoding, nothing for a gap, and the
/// frame behind the last.
pub struct Draft {
    pub segments: Seq<SegmentModel>,
    pub signatures: Seq<Option<EncodingModel>>,
    pub at: i64,
}

/// Segments up to a frame, a gap before it where nothing plays.
pub open spec fn up_to(draft: Draft, media: Media, frame: i64) -> Draft {
    if frame > draft.at {
        Draft {
            segments: draft.segments.push(gap_of(media, draft.at, frame)),
            signatures: draft.signatures.push(None),
            at: frame,
        }
    } else {
        draft
    }
}

/// The first `count` pieces, laid; or the first error.
pub open spec fn laid(
    pieces: Seq<Picture>,
    sources: Map<SourceId, SourceFacts>,
    count: int,
) -> Result<Draft, PlanError>
    decreases count,
{
    if count <= 0 {
        Ok(Draft { segments: Seq::empty(), signatures: Seq::empty(), at: 0 })
    } else {
        match laid(pieces, sources, count - 1) {
            Err(error) => Err(error),
            Ok(before) => match drafted(pieces[count - 1], sources) {
                Err(error) => Err(error),
                Ok((segment, encoding)) => {
                    let ready = up_to(before, Media::Video, segment.start);
                    Ok(
                        Draft {
                            segments: ready.segments.push(segment),
                            signatures: ready.signatures.push(Some(encoding)),
                            at: pieces[count - 1].placement.end_frame(),
                        },
                    )
                },
            },
        }
    }
}

/// The facts about a source's pictures, where both are known.
pub open spec fn video_of(sources: Map<SourceId, SourceFacts>, id: Option<SourceId>) -> Option<
    VideoFacts,
> {
    match id {
        Some(id) => if sources.dom().contains(id) {
            sources[id].video
        } else {
            None
        },
        None => None,
    }
}

/// Whose kind of stream the encoded pictures of a segment must be: a
/// smart-cut's windows join its own source's packets; a whole re-encode joins
/// the rest of the output.
pub open spec fn joined(
    tier: ExportTier,
    own: Option<SourceId>,
    reference: Option<SourceId>,
) -> Option<SourceId> {
    if tier is SmartCut || reference is None {
        own
    } else {
        reference
    }
}

/// Why the pictures of a segment cannot be encoded: HDR is declined whatever
/// the encoders, then a stream that no encoder makes.
pub open spec fn declined(target: VideoFacts, rendered: Option<VideoFacts>) -> Option<
    DeclineModel,
> {
    if target.geometry.hdr || (rendered is Some && rendered->0.geometry.hdr) {
        Some(DeclineModel::HdrWouldBeRendered)
    } else {
        match target.encoder {
            Ok(_) => None,
            Err(unmatched) => Some(DeclineModel::NoEncoder { refusal: unmatched@ }),
        }
    }
}

/// The encoder of a segment whose pictures can be encoded.
pub open spec fn encoded_by(target: VideoFacts, rendered: Option<VideoFacts>) -> Option<
    ChoiceModel,
> {
    match (declined(target, rendered), target.encoder) {
        (None, Ok(choice)) => Some(choice@),
        _ => None,
    }
}

/// The keyframe-aligned cut of a segment's first source.
pub open spec fn alternative_of(first: SourceModel, video: VideoFacts) -> Option<
    KeyframeAlternative,
> {
    match ticks_of(first.source_in, first.source_out, first.time_base, video.time_base) {
        Some((from, to)) => aligned(video, from, to),
        None => None,
    }
}

/// A decided segment with what encodes its pictures, why nothing can, and,
/// for a smart-cut, the cut that needs no encoder.
pub open spec fn equipped(
    segment: SegmentModel,
    sources: Map<SourceId, SourceFacts>,
    reference: Option<SourceId>,
) -> SegmentModel {
    let own = if segment.sources.len() > 0 {
        Some(segment.sources[0].source)
    } else {
        None
    };
    let rendered = video_of(sources, own);
    match video_of(sources, joined(segment.tier, own, reference)) {
        Some(target) => if segment.tier.lossless() {
            segment
        } else {
            SegmentModel {
                decline: declined(target, rendered),
                encoder: encoded_by(target, rendered),
                alternative: if segment.tier is SmartCut && rendered is Some {
                    alternative_of(segment.sources[0], rendered->0)
                } else {
                    None
                },
                ..segment
            }
        },
        None => segment,
    }
}

/// A segment once its causes are all known: its tier, its windows where it is
/// a smart-cut, and what its encoding takes.
pub open spec fn decided(
    segment: SegmentModel,
    sources: Map<SourceId, SourceFacts>,
    reference: Option<SourceId>,
) -> SegmentModel {
    let tier = tier_for(segment.causes);
    equipped(
        SegmentModel {
            tier,
            windows: if tier is SmartCut {
                segment.windows
            } else {
                Seq::empty()
            },
            ..segment
        },
        sources,
        reference,
    )
}

/// The source of the first segment at `at` or behind that has one.
pub open spec fn first_used(segments: Seq<SegmentModel>, at: int) -> Option<SourceId>
    decreases segments.len() - at,
{
    if at >= segments.len() {
        None
    } else if segments[at].sources.len() > 0 {
        Some(segments[at].sources[0].source)
    } else {
        first_used(segments, at + 1)
    }
}

/// The source whose parameters the output's pictures take: the copied
/// material's, or the first source's where nothing is copied.
pub open spec fn reference_source(
    segments: Seq<SegmentModel>,
    signatures: Seq<Option<EncodingModel>>,
) -> Option<SourceId> {
    match shared_source(segments, signatures) {
        Some(source) => Some(source),
        None => first_used(segments, 0),
    }
}

/// Every segment once its causes are all known.
pub open spec fn all_decided(
    segments: Seq<SegmentModel>,
    sources: Map<SourceId, SourceFacts>,
    reference: Option<SourceId>,
) -> Seq<SegmentModel> {
    segments.map_values(|segment: SegmentModel| decided(segment, sources, reference))
}

/// The pictures of a sequence, planned: its pieces laid, gaps between them and
/// behind the last, held to one set of parameters and decided.
pub open spec fn video_plan(timeline: Timeline, sources: Map<SourceId, SourceFacts>) -> Result<
    (Seq<SegmentModel>, Option<SourceId>),
    PlanError,
> {
    let pieces = timeline.picture@;
    if pieces.len() == 0 {
        Ok((Seq::empty(), None))
    } else {
        match laid(pieces, sources, pieces.len() as int) {
            Err(error) => Err(error),
            Ok(draft) => {
                let whole = up_to(draft, Media::Video, timeline.length);
                let reference = reference_source(whole.segments, whole.signatures);
                Ok(
                    (
                        all_decided(shared(whole.segments, whole.signatures), sources, reference),
                        reference,
                    ),
                )
            },
        }
    }
}

/// The segments follow one another from the first frame to `to`, none empty.
pub open spec fn tile(segments: Seq<SegmentModel>, to: int) -> bool {
    &&& frames(segments, segments.len() as int) == to
    &&& forall|i: int|
        0 <= i < segments.len() ==> (#[trigger] segments[i]).length > 0 && segments[i].start
            == frames(segments, i)
}

/// The frames of the first segments do not depend on those behind.
pub proof fn lemma_frames_of(a: Seq<SegmentModel>, b: Seq<SegmentModel>, count: int)
    requires
        0 <= count <= a.len(),
        count <= b.len(),
        forall|i: int| 0 <= i < count ==> (#[trigger] a[i]).length == b[i].length,
    ensures
        frames(a, count) == frames(b, count),
    decreases count,
{
    if count > 0 {
        lemma_frames_of(a, b, count - 1);
        assert(a[count - 1].length == b[count - 1].length);
    }
}

/// One segment more, where the others end.
pub proof fn lemma_tile_push(segments: Seq<SegmentModel>, to: int, more: SegmentModel)
    requires
        tile(segments, to),
        more.start == to,
        more.length > 0,
    ensures
        tile(segments.push(more), to + more.length),
{
    let longer = segments.push(more);
    assert forall|n: int| 0 <= n <= segments.len() implies frames(longer, n) == frames(
        segments,
        n,
    ) by {
        lemma_frames_of(longer, segments, n);
    }
    assert forall|i: int| 0 <= i < longer.len() implies (#[trigger] longer[i]).length > 0
        && longer[i].start == frames(longer, i) by {
        if i < segments.len() {
            assert(longer[i] == segments[i]);
        }
        assert(frames(longer, i) == frames(segments, i));
    }
    assert(frames(longer, longer.len() as int) == frames(segments, segments.len() as int)
        + more.length);
}

/// Segments that tile fit.
pub proof fn lemma_tile_fits(segments: Seq<SegmentModel>, to: int)
    requires
        tile(segments, to),
        to <= i64::MAX,
    ensures
        lengths_fit(segments),
{
    assert forall|i: int| 0 <= i < segments.len() implies (#[trigger] segments[i]).length
        >= 0 by {}
}

/// Other segments of the same starts and lengths tile as well.
pub proof fn lemma_tile_same(a: Seq<SegmentModel>, b: Seq<SegmentModel>, to: int)
    requires
        tile(a, to),
        a.len() == b.len(),
        forall|i: int|
            0 <= i < a.len() ==> (#[trigger] a[i]).length == b[i].length && a[i].start
                == b[i].start,
    ensures
        tile(b, to),
{
    assert forall|n: int| 0 <= n <= a.len() implies frames(a, n) == frames(b, n) by {
        lemma_frames_of(a, b, n);
    }
    assert(frames(a, a.len() as int) == frames(b, b.len() as int));
    assert forall|i: int| 0 <= i < b.len() implies (#[trigger] b[i]).length > 0 && b[i].start
        == frames(b, i) by {
        assert(a[i].length > 0);
        assert(frames(a, i) == frames(b, i));
    }
}

/// The pieces laid tile up to the last one's end.
proof fn lemma_laid(timeline: Timeline, sources: Map<SourceId, SourceFacts>, count: int)
    requires
        timeline.wf(),
        0 <= count <= timeline.picture@.len(),
    ensures
        laid(timeline.picture@, sources, count) matches Ok(draft) ==> {
            &&& tile(draft.segments, draft.at as int)
            &&& draft.signatures.len() == draft.segments.len()
            &&& 0 <= draft.at <= larger_length(timeline)
            &&& count > 0 ==> draft.at == timeline.picture@[count - 1].placement.start
                + timeline.picture@[count - 1].placement.length
            &&& count == 0 ==> draft.at == 0
            &&& count > 0 ==> draft.segments.len() > 0
        },
    decreases count,
{
    if count > 0 {
        lemma_laid(timeline, sources, count - 1);
        let pieces = timeline.picture@;
        let piece = pieces[count - 1];
        assert(piece.placement.within(timeline.length as int));
        if let Ok(before) = laid(pieces, sources, count - 1) {
            if let Ok((segment, encoding)) = drafted(piece, sources) {
                assert(segment.start == piece.placement.start);
                assert(segment.length == piece.placement.length);
                if count > 1 {
                    assert(pieces[count - 2].placement.start + pieces[count - 2].placement.length
                        <= pieces[count - 1].placement.start);
                }
                assert(before.at <= segment.start);
                let ready = up_to(before, Media::Video, segment.start);
                if segment.start > before.at {
                    lemma_tile_push(
                        before.segments,
                        before.at as int,
                        gap_of(Media::Video, before.at, segment.start),
                    );
                }
                assert(tile(ready.segments, segment.start as int));
                lemma_tile_push(ready.segments, segment.start as int, segment);
            }
        }
    }
}

/// The sequence's length, or nothing where it is negative.
pub open spec fn larger_length(timeline: Timeline) -> int {
    if timeline.length > 0 {
        timeline.length as int
    } else {
        0
    }
}

/// An error of some pieces is the error of all.
proof fn lemma_first_error(
    pieces: Seq<Picture>,
    sources: Map<SourceId, SourceFacts>,
    some: int,
    all: int,
)
    requires
        0 <= some <= all,
        laid(pieces, sources, some) is Err,
    ensures
        laid(pieces, sources, all) == laid(pieces, sources, some),
    decreases all,
{
    if some < all {
        lemma_first_error(pieces, sources, some, all - 1);
    }
}

/// The facts about a source's pictures, where both are known.
fn find_video(sources: &BTreeMap<SourceId, SourceFacts>, id: Option<SourceId>) -> (video: Option<
    &VideoFacts,
>)
    requires
        sources_wf(sources@),
    ensures
        match video_of(sources@, id) {
            Some(facts) => video is Some && *video->0 == facts && facts.wf(),
            None => video is None,
        },
{
    broadcast use vstd::std_specs::btree::group_btree_axioms;

    match id {
        Some(id) => match sources.get(&id) {
            Some(facts) => match &facts.video {
                Some(video) => Some(video),
                None => None,
            },
            None => None,
        },
        None => None,
    }
}

/// The pictures of a segment that are encoded need an encoder that makes the
/// output's kind of stream. Where there is such an encoder the segment names
/// it; where there is none, the segment is declined. A smart-cut offers the
/// keyframe-aligned cut either way.
fn decline_unencodable(
    segment: &mut Segment,
    sources: &BTreeMap<SourceId, SourceFacts>,
    reference: Option<SourceId>,
)
    requires
        sources_wf(sources@),
        old(segment)@.decline is None,
        old(segment)@.alternative is None,
        old(segment)@.encoder is None,
    ensures
        final(segment)@ == equipped(old(segment)@, sources@, reference),
{
    let ghost before = segment@;
    if segment.tier.is_lossless() {
        return;
    }
    let own = if segment.sources.len() > 0 {
        Some(segment.sources[0].source)
    } else {
        None
    };
    let smart = match segment.tier {
        ExportTier::SmartCut { .. } => true,
        _ => false,
    };
    let join = if smart || reference.is_none() {
        own
    } else {
        reference
    };
    let rendered = find_video(sources, own);
    let target = match find_video(sources, join) {
        Some(target) => target,
        None => {
            return;
        },
    };
    let hdr = target.geometry.hdr || match rendered {
        Some(video) => video.geometry.hdr,
        None => false,
    };
    if hdr {
        segment.decline = Some(Decline::HdrWouldBeRendered);
    } else {
        match &target.encoder {
            Ok(choice) => {
                segment.encoder = Some(choice.copy());
            },
            Err(unmatched) => {
                segment.decline = Some(Decline::NoEncoder { unmatched: unmatched.copy() });
            },
        }
    }
    if smart && segment.sources.len() > 0 {
        if let Some(video) = rendered {
            assert(segment@.sources[0] == segment.sources@[0]@);
            let (source_in, source_out, time_base) = (
                segment.sources[0].source_in,
                segment.sources[0].source_out,
                segment.sources[0].time_base,
            );
            if let Some((from, to)) = in_ticks(source_in, source_out, time_base, video.time_base) {
                segment.alternative = keyframe_alternative(video, from, to);
            }
        }
    }
}

/// Decide a segment whose causes are all known.
fn decide(
    segment: &mut Segment,
    sources: &BTreeMap<SourceId, SourceFacts>,
    reference: Option<SourceId>,
)
    requires
        sources_wf(sources@),
        old(segment)@.decline is None,
        old(segment)@.alternative is None,
        old(segment)@.encoder is None,
    ensures
        final(segment)@ == decided(old(segment)@, sources@, reference),
{
    segment.tier = tier_of(&segment.causes);
    let smart = match segment.tier {
        ExportTier::SmartCut { .. } => true,
        _ => false,
    };
    if !smart {
        segment.windows = Vec::new();
        assert(segment.windows@ =~= Seq::empty());
    }
    decline_unencodable(segment, sources, reference);
}

/// The source of the first segment that has one.
fn find_used(segments: &Vec<Segment>) -> (source: Option<SourceId>)
    ensures
        source == first_used(segments_in(segments@), 0),
{
    let ghost all = segments_in(segments@);
    let mut i: usize = 0;
    while i < segments.len()
        invariant
            i <= segments@.len(),
            all == segments_in(segments@),
            first_used(all, 0) == first_used(all, i as int),
        decreases segments@.len() - i,
    {
        assert(all[i as int] == segments@[i as int]@);
        if segments[i].sources.len() > 0 {
            assert(all[i as int].sources[0] == segments@[i as int].sources@[0]@);
            return Some(segments[i].sources[0].source);
        }
        i += 1;
    }
    None
}

/// A segment as it is drafted: nothing is decided yet.
pub open spec fn undecided(segment: SegmentModel) -> bool {
    segment.decline is None && segment.alternative is None && segment.encoder is None
}

/// What is laid is not decided.
proof fn lemma_laid_undecided(
    pieces: Seq<Picture>,
    sources: Map<SourceId, SourceFacts>,
    count: int,
)
    ensures
        laid(pieces, sources, count) matches Ok(draft) ==> forall|i: int|
            0 <= i < draft.segments.len() ==> undecided(#[trigger] draft.segments[i]),
    decreases count,
{
    if count > 0 {
        lemma_laid_undecided(pieces, sources, count - 1);
    }
}

/// Append a segment with its encoding.
fn lay<'a>(
    segments: &mut Vec<Segment>,
    signatures: &mut Vec<Option<&'a EncodingSignature>>,
    segment: Segment,
    signature: Option<&'a EncodingSignature>,
)
    ensures
        segments_in(final(segments)@) == segments_in(old(segments)@).push(segment@),
        signatures_in(final(signatures)@) == signatures_in(old(signatures)@).push(
            match signature {
                Some(signature) => Some(signature@),
                None => None,
            },
        ),
{
    let ghost (before, said) = (segments@, signatures@);
    segments.push(segment);
    signatures.push(signature);
    proof {
        assert(segments_in(segments@) =~= segments_in(before).push(segment@));
        assert(signatures_in(signatures@) =~= signatures_in(said).push(
            match signature {
                Some(signature) => Some(signature@),
                None => None,
            },
        ));
    }
}

/// Plan the pictures of `timeline`, and the source whose encoding parameters
/// they take.
pub fn plan_video(timeline: &Timeline, sources: &BTreeMap<SourceId, SourceFacts>) -> (result:
    Result<(Vec<Segment>, Option<SourceId>), PlanError>)
    requires
        timeline.wf(),
        sources_wf(sources@),
    ensures
        match video_plan(*timeline, sources@) {
            Ok((segments, reference)) => result is Ok && segments_in(result->Ok_0.0@) == segments
                && result->Ok_0.1 == reference,
            Err(error) => result == Err::<(Vec<Segment>, Option<SourceId>), PlanError>(error),
        },
{
    let mut segments: Vec<Segment> = Vec::new();
    let mut signatures: Vec<Option<&EncodingSignature>> = Vec::new();
    let pieces = &timeline.picture;
    proof {
        assert(segments_in(segments@) =~= Seq::empty());
        assert(signatures_in(signatures@) =~= Seq::empty());
    }
    if pieces.len() == 0 {
        return Ok((segments, None));
    }
    let mut at: i64 = 0;
    let mut i: usize = 0;
    while i < pieces.len()
        invariant
            i <= pieces@.len(),
            *pieces == timeline.picture,
            timeline.wf(),
            sources_wf(sources@),
            pieces@.len() > 0,
            laid(pieces@, sources@, i as int) == Ok::<Draft, PlanError>(
                Draft {
                    segments: segments_in(segments@),
                    signatures: signatures_in(signatures@),
                    at,
                },
            ),
        decreases pieces@.len() - i,
    {
        let piece = &pieces[i];
        proof {
            lemma_laid(*timeline, sources@, i as int);
            if i > 0 {
                assert(pieces@[i - 1].placement.start + pieces@[i - 1].placement.length
                    <= pieces@[i as int].placement.start);
            }
            assert(pieces@[i as int].placement.within(timeline.length as int));
        }
        let (segment, encoding) = match draft(piece, sources) {
            Ok(drafted) => drafted,
            Err(error) => {
                proof {
                    assert(laid(pieces@, sources@, i + 1) == Err::<Draft, PlanError>(error));
                    lemma_first_error(pieces@, sources@, i + 1, pieces@.len() as int);
                }
                return Err(error);
            },
        };
        if piece.placement.start > at {
            lay(
                &mut segments,
                &mut signatures,
                gap(Media::Video, at, piece.placement.start),
                None,
            );
        }
        lay(&mut segments, &mut signatures, segment, Some(encoding));
        at = piece.placement.end();
        i += 1;
    }
    proof {
        lemma_laid(*timeline, sources@, pieces@.len() as int);
        lemma_laid_undecided(pieces@, sources@, pieces@.len() as int);
    }
    let ghost draft = laid(pieces@, sources@, pieces@.len() as int)->Ok_0;
    let ghost whole = up_to(draft, Media::Video, timeline.length);
    if at < timeline.length {
        lay(&mut segments, &mut signatures, gap(Media::Video, at, timeline.length), None);
        proof {
            lemma_tile_push(
                draft.segments,
                draft.at as int,
                gap_of(Media::Video, draft.at, timeline.length),
            );
        }
    }
    proof {
        assert(segments_in(segments@) == whole.segments);
        assert(signatures_in(signatures@) == whole.signatures);
        lemma_tile_fits(whole.segments, whole.at as int);
        assert(segments@.len() == whole.segments.len());
        assert(signatures@.len() == whole.signatures.len());
    }
    let reference = match share_encoding(&mut segments, &signatures) {
        Some(source) => Some(source),
        None => {
            let used = find_used(&segments);
            used
        },
    };
    let ghost ready = shared(whole.segments, whole.signatures);
    proof {
        if shared_source(whole.segments, whole.signatures) is None {
            assert(ready == whole.segments);
        }
        assert(reference == reference_source(whole.segments, whole.signatures));
        assert forall|j: int| 0 <= j < ready.len() implies undecided(#[trigger] ready[j]) by {
            assert(undecided(whole.segments[j]));
        }
    }
    let mut j: usize = 0;
    while j < segments.len()
        invariant
            j <= segments@.len(),
            segments@.len() == ready.len(),
            sources_wf(sources@),
            forall|k: int| 0 <= k < ready.len() ==> undecided(#[trigger] ready[k]),
            forall|k: int|
                0 <= k < j ==> (#[trigger] segments@[k])@ == decided(ready[k], sources@, reference),
            forall|k: int| j <= k < segments@.len() ==> (#[trigger] segments@[k])@ == ready[k],
        decreases segments@.len() - j,
    {
        assert(segments@[j as int]@ == ready[j as int]);
        decide(&mut segments[j], sources, reference);
        j += 1;
    }
    proof {
        assert(segments_in(segments@) =~= all_decided(ready, sources@, reference));
    }
    Ok((segments, reference))
}

/// The pictures of a plan tile the sequence exactly, where there are any.
pub proof fn pictures_tile_the_sequence(timeline: Timeline, sources: Map<SourceId, SourceFacts>)
    requires
        timeline.wf(),
        timeline.picture@.len() > 0,
    ensures
        video_plan(timeline, sources) matches Ok((segments, _)) ==> tile(
            segments,
            timeline.length as int,
        ),
{
    let pieces = timeline.picture@;
    let n = pieces.len() as int;
    lemma_laid(timeline, sources, n);
    if let Ok(draft) = laid(pieces, sources, n) {
        let whole = up_to(draft, Media::Video, timeline.length);
        assert(pieces[n - 1].placement.within(timeline.length as int));
        if timeline.length > draft.at {
            lemma_tile_push(
                draft.segments,
                draft.at as int,
                gap_of(Media::Video, draft.at, timeline.length),
            );
        }
        let reference = reference_source(whole.segments, whole.signatures);
        let ready = shared(whole.segments, whole.signatures);
        lemma_tile_same(whole.segments, ready, timeline.length as int);
        lemma_tile_same(ready, all_decided(ready, sources, reference), timeline.length as int);
    }
}

/// A planned segment carries a cause exactly when it is not copied, and
/// windows only where it is cut smart.
pub proof fn every_reason_is_recorded(
    segment: SegmentModel,
    sources: Map<SourceId, SourceFacts>,
    reference: Option<SourceId>,
)
    ensures
        ({
            let done = decided(segment, sources, reference);
            &&& done.causes == segment.causes
            &&& done.tier.lossless() <==> done.causes.len() == 0
            &&& done.tier is SmartCut || done.windows.len() == 0
        }),
{
    crate::export::plan::cut::a_copy_has_no_cause(segment.causes);
}

/// HDR pictures are never rendered: a segment that would encode them, or
/// encode into their stream, is declined and given no encoder.
pub proof fn hdr_is_never_rendered(
    segment: SegmentModel,
    sources: Map<SourceId, SourceFacts>,
    reference: Option<SourceId>,
    own: SourceId,
)
    requires
        undecided(segment),
        segment.sources.len() > 0,
        segment.sources[0].source == own,
        video_of(sources, Some(own)) is Some,
        video_of(sources, Some(own))->0.geometry.hdr,
        reference is Some ==> video_of(sources, reference) is Some,
        segment.causes.len() > 0,
    ensures
        decided(segment, sources, reference).decline == Some(DeclineModel::HdrWouldBeRendered),
        decided(segment, sources, reference).encoder is None,
{
    crate::export::plan::cut::a_copy_has_no_cause(segment.causes);
}

/// Two pieces show the same: they may differ in how they sound.
pub open spec fn look_alike(a: Picture, b: Picture) -> bool {
    &&& a.rate_outside_container == b.rate_outside_container
    &&& a.mismatches@ == b.mismatches@
    &&& a.placement.track == b.placement.track
    &&& a.placement.clip == b.placement.clip
    &&& a.placement.source == b.placement.source
    &&& a.placement.start == b.placement.start
    &&& a.placement.length == b.placement.length
    &&& a.placement.source_in == b.placement.source_in
    &&& a.placement.source_out == b.placement.source_out
    &&& a.placement.time_base == b.placement.time_base
    &&& a.placement.speed == b.placement.speed
    &&& a.placement.motion == b.placement.motion
    &&& a.placement.forced == b.placement.forced
}

/// Pieces that show the same are laid the same.
proof fn lemma_laid_alike(
    a: Seq<Picture>,
    b: Seq<Picture>,
    sources: Map<SourceId, SourceFacts>,
    count: int,
)
    requires
        0 <= count <= a.len(),
        a.len() == b.len(),
        forall|i: int| 0 <= i < a.len() ==> look_alike(#[trigger] a[i], b[i]),
    ensures
        laid(a, sources, count) == laid(b, sources, count),
    decreases count,
{
    if count > 0 {
        lemma_laid_alike(a, b, sources, count - 1);
        assert(look_alike(a[count - 1], b[count - 1]));
        assert(own_causes(a[count - 1]) =~= own_causes(b[count - 1]));
        assert(drafted(a[count - 1], sources) == drafted(b[count - 1], sources));
    }
}

/// A change to the sound leaves the pictures as they are planned: whatever
/// chains the clips have, and whatever plays on other tracks.
pub proof fn a_change_of_sound_leaves_the_pictures(
    a: Timeline,
    b: Timeline,
    sources: Map<SourceId, SourceFacts>,
)
    requires
        a.length == b.length,
        a.picture@.len() == b.picture@.len(),
        forall|i: int|
            0 <= i < a.picture@.len() ==> look_alike(#[trigger] a.picture@[i], b.picture@[i]),
    ensures
        video_plan(a, sources) == video_plan(b, sources),
{
    lemma_laid_alike(a.picture@, b.picture@, sources, a.picture@.len() as int);
}

/// The windows of a drafted segment do not end before they start.
pub open spec fn windows_fit(segment: SegmentModel) -> bool {
    forall|i: int|
        0 <= i < segment.windows.len() ==> (#[trigger] segment.windows[i]).from
            <= segment.windows[i].to
}

/// A range that does not end before it starts does not in other ticks either.
proof fn lemma_ticks_in_order(source_in: i64, source_out: i64, from: Rational, to: Rational)
    requires
        source_in <= source_out,
    ensures
        ticks_of(source_in, source_out, from, to) matches Some((a, b)) ==> a <= b,
{
    if ticks_of(source_in, source_out, from, to) is Some {
        let (a, b) = (
            crate::time::rescale_numerator(source_in as int, from, to),
            crate::time::rescale_numerator(source_out as int, from, to),
        );
        let d = crate::time::rescale_denominator(from, to);
        let (fn_, fd, tn, td) = (from.num as int, from.den as int, to.num as int, to.den as int);
        assert(a <= b) by (nonlinear_arith)
            requires
                a == source_in * (fn_ * td),
                b == source_out * (fn_ * td),
                source_in <= source_out,
                fn_ > 0,
                td > 0,
        ;
        assert(d > 0) by (nonlinear_arith)
            requires
                d == fd * tn,
                fd > 0,
                tn > 0,
        ;
        vstd::arithmetic::div_mod::lemma_div_is_ordered(a, b, d);
        vstd::arithmetic::div_mod::lemma_fundamental_div_mod(b, d);
        vstd::arithmetic::div_mod::lemma_mod_bound(b, d);
    }
}

/// The windows of what is laid do not end before they start.
proof fn lemma_laid_windows(timeline: Timeline, sources: Map<SourceId, SourceFacts>, count: int)
    requires
        timeline.wf(),
        0 <= count <= timeline.picture@.len(),
    ensures
        laid(timeline.picture@, sources, count) matches Ok(draft) ==> forall|i: int|
            0 <= i < draft.segments.len() ==> windows_fit(#[trigger] draft.segments[i]),
    decreases count,
{
    if count > 0 {
        lemma_laid_windows(timeline, sources, count - 1);
        let piece = timeline.picture@[count - 1];
        assert(piece.placement.source_in <= piece.placement.source_out);
        if let Ok((segment, _)) = drafted(piece, sources) {
            let video = sources[piece.placement.source].video->0;
            lemma_ticks_in_order(
                piece.placement.source_in,
                piece.placement.source_out,
                piece.placement.time_base,
                video.time_base,
            );
            if let Some((from, to)) = ticks_of(
                piece.placement.source_in,
                piece.placement.source_out,
                piece.placement.time_base,
                video.time_base,
            ) {
                crate::export::plan::cut::seams_lie_within_the_clip(video, from, to);
            }
            assert(windows_fit(segment));
        }
    }
}

/// The windows of planned pictures do not end before they start.
pub proof fn lemma_windows(timeline: Timeline, sources: Map<SourceId, SourceFacts>)
    requires
        timeline.wf(),
    ensures
        video_plan(timeline, sources) matches Ok((segments, _)) ==> forall|i: int|
            0 <= i < segments.len() ==> windows_fit(#[trigger] segments[i]),
{
    let pieces = timeline.picture@;
    let n = pieces.len() as int;
    lemma_laid_windows(timeline, sources, n);
    if n > 0 {
        if let Ok(draft) = laid(pieces, sources, n) {
            let whole = up_to(draft, Media::Video, timeline.length);
            let ready = shared(whole.segments, whole.signatures);
            assert forall|i: int| 0 <= i < ready.len() implies windows_fit(#[trigger] ready[i]) by {
                assert(windows_fit(whole.segments[i]));
            }
            if let Ok((segments, _)) = video_plan(timeline, sources) {
                assert forall|i: int| 0 <= i < segments.len() implies windows_fit(
                    #[trigger] segments[i],
                ) by {
                    assert(windows_fit(ready[i]));
                }
            }
        }
    }
}

} // verus!
