//! What an export will do, told before it is asked for: the plan's decisions
//! as the export dialog states them.
//!
//! - **Pictures and sound are claimed separately.**
//! - **Every re-encode names its cause and its time.**
//! - **The keyframe snap is offered with its cost**: by how much each cut
//!   moves.
use crate::export::audio::{AudioEncoding, AudioTarget};
use crate::export::execute::check::{check, checked, Target};
use crate::export::execute::{ErrorModel, ExportError, ExportInput};
use crate::export::plan::cut::{a_copy_has_no_cause, distance, tier_for};
use crate::export::plan::{
    causes_in, Cause, CauseModel, Decline, DeclineModel, ExportPlan, KeyframeAlternative, Media,
    Segment, SegmentSource, SourceModel, Totals,
};
use crate::num::{clamped, saturating_sub};
use crate::probe::Rational;
use crate::project::{ClipId, Placement, SourceId, Timeline};
use crate::tier::ExportTier;
use crate::time::{rescale, rescaled, Rounding};
use std::collections::BTreeMap;
use vstd::prelude::*;

verus! {

/// Bytes kept free whatever an export takes.
pub const SPACE_MARGIN: u64 = 67_108_864;

/// A volume holds an output of about `needed` bytes with a margin of a
/// twentieth, rounded up, and 64 MiB, as far as that can be counted.
pub open spec fn holds_output(needed: u64, available: u64) -> bool {
    let wanted = needed + (needed + 19) / 20 + SPACE_MARGIN;
    available >= (if wanted <= u64::MAX {
        wanted
    } else {
        u64::MAX as int
    })
}

/// Whether `available` bytes hold an output of about `needed`: with a margin,
/// since the size is an estimate and a volume at zero bytes free fails in ways
/// nobody wants to find out about at 90 percent.
pub fn enough_space(needed: u64, available: u64) -> (enough: bool)
    ensures
        enough == holds_output(needed, available),
{
    let margin: u64 = needed / 20 + (if needed % 20 > 0 {
        1
    } else {
        0
    }) + SPACE_MARGIN;
    let wanted: u64 = if needed <= u64::MAX - margin {
        needed + margin
    } else {
        u64::MAX
    };
    available >= wanted
}

/// What happens to one of the output's streams, in sequence frames.
#[derive(Debug, Clone, Copy, PartialEq, Eq, Structural)]
pub struct StreamClaim {
    /// Nothing of the stream is re-encoded.
    pub lossless: bool,
    pub copied: i64,
    pub re_encoded: i64,
}

/// The output has a stream.
pub open spec fn has_stream(segments: Seq<Segment>, media: Media) -> bool {
    exists|i: int| 0 <= i < segments.len() && (#[trigger] segments[i]).media == media
}

/// What is claimed of a stream, from the plan's totals.
pub open spec fn claimed(totals: Totals) -> StreamClaim {
    StreamClaim {
        lossless: totals.re_encoded == 0,
        copied: totals.copied,
        re_encoded: totals.re_encoded,
    }
}

/// What happens to one of the output's streams: nothing where it has none.
pub fn claim(plan: &ExportPlan, media: Media) -> (claim: Option<StreamClaim>)
    ensures
        claim == (if has_stream(plan.segments@, media) {
            Some(
                claimed(
                    match media {
                        Media::Video => plan.summary.video,
                        Media::Audio => plan.summary.audio,
                    },
                ),
            )
        } else {
            None
        }),
{
    let mut i: usize = 0;
    while i < plan.segments.len()
        invariant
            i <= plan.segments@.len(),
            forall|k: int| 0 <= k < i ==> (#[trigger] plan.segments@[k]).media != media,
        decreases plan.segments@.len() - i,
    {
        if plan.segments[i].media == media {
            let totals = match media {
                Media::Video => plan.summary.video,
                Media::Audio => plan.summary.audio,
            };
            return Some(
                StreamClaim {
                    lossless: totals.re_encoded == 0,
                    copied: totals.copied,
                    re_encoded: totals.re_encoded,
                },
            );
        }
        i += 1;
    }
    None
}

/// How far a cut lies from the nearer of two keyframes, where there is one and
/// the distance can be counted.
pub open spec fn nearer(cut: i64, before: Option<i64>, after: Option<i64>) -> Option<i64> {
    let nearest = match (before, after) {
        (Some(a), Some(b)) => Some(
            if distance(cut, b) < distance(cut, a) {
                distance(cut, b)
            } else {
                distance(cut, a)
            },
        ),
        (Some(a), None) => Some(distance(cut, a)),
        (None, Some(b)) => Some(distance(cut, b)),
        (None, None) => None,
    };
    match nearest {
        Some(ticks) => if ticks <= i64::MAX {
            Some(ticks as i64)
        } else {
            None
        },
        None => None,
    }
}

/// How far a cut between keyframes lies from the nearest, in source ticks.
pub open spec fn cut_distance(cause: CauseModel, source: Option<SourceModel>) -> Option<i64> {
    match (cause, source) {
        (CauseModel::InPointNotKeyframe { keyframe_before, keyframe_after }, Some(source)) => {
            nearer(source.source_in, keyframe_before, keyframe_after)
        },
        (CauseModel::OutPointNotKeyframe { keyframe_before, keyframe_after }, Some(source)) => {
            nearer(source.source_out, keyframe_before, keyframe_after)
        },
        _ => None,
    }
}

/// How far two ticks lie apart, where that can be counted.
fn apart(a: i64, b: i64) -> (ticks: i128)
    ensures
        ticks == distance(a, b),
{
    let wide: i128 = a as i128 - b as i128;
    if wide >= 0 {
        wide
    } else {
        -wide
    }
}

/// How far a cut lies from the nearer of two keyframes.
fn nearest(cut: i64, before: Option<i64>, after: Option<i64>) -> (ticks: Option<i64>)
    ensures
        ticks == nearer(cut, before, after),
{
    let wide: i128 = match (before, after) {
        (Some(a), Some(b)) => {
            let (x, y) = (apart(cut, a), apart(cut, b));
            if y < x {
                y
            } else {
                x
            }
        },
        (Some(a), None) => apart(cut, a),
        (None, Some(b)) => apart(cut, b),
        (None, None) => {
            return None;
        },
    };
    if wide <= i64::MAX as i128 {
        Some(wide as i64)
    } else {
        None
    }
}

/// How far the cut that `cause` speaks of lies from the nearest keyframe, in
/// ticks of `source`.
pub fn keyframe_distance(cause: &Cause, source: Option<&SegmentSource>) -> (ticks: Option<i64>)
    ensures
        ticks == cut_distance(
            cause@,
            match source {
                Some(source) => Some(source@),
                None => None,
            },
        ),
{
    match (cause, source) {
        (Cause::InPointNotKeyframe { keyframe_before, keyframe_after }, Some(source)) => {
            nearest(source.source_in, *keyframe_before, *keyframe_after)
        },
        (Cause::OutPointNotKeyframe { keyframe_before, keyframe_after }, Some(source)) => {
            nearest(source.source_out, *keyframe_before, *keyframe_after)
        },
        _ => None,
    }
}

/// A cause in a sentence, with the distance to the keyframe where it is known.
pub open spec fn explained(
    cause: CauseModel,
    gap: Option<Seq<char>>,
    first: Seq<char>,
    second: Seq<char>,
) -> Seq<char> {
    match (cause, gap) {
        (CauseModel::InPointNotKeyframe { .. }, Some(gap)) => "The clip starts "@ + gap
            + " s from the nearest keyframe, so the pictures up to the next keyframe are re-encoded and the rest is copied."@,
        (CauseModel::OutPointNotKeyframe { .. }, Some(gap)) => "The clip ends "@ + gap
            + " s from the nearest keyframe, so the pictures after the last keyframe are re-encoded and the rest is copied."@,
        _ => cause.words(first, second),
    }
}

/// A cause in a sentence, with the distance to the keyframe where the cause is
/// a cut: the export dialog and the report say the same thing. `gap` is
/// [`keyframe_distance`] in seconds, `first` and `second` the rates that the
/// cause speaks of, all in decimals.
pub fn explain(cause: &Cause, gap: Option<&str>, first: &str, second: &str) -> (text: String)
    ensures
        text@ == explained(
            cause@,
            match gap {
                Some(gap) => Some(gap@),
                None => None,
            },
            first@,
            second@,
        ),
{
    match (cause, gap) {
        (Cause::InPointNotKeyframe { .. }, Some(gap)) => {
            "The clip starts ".to_owned().concat(gap).concat(
                " s from the nearest keyframe, so the pictures up to the next keyframe are re-encoded and the rest is copied.",
            )
        },
        (Cause::OutPointNotKeyframe { .. }, Some(gap)) => {
            "The clip ends ".to_owned().concat(gap).concat(
                " s from the nearest keyframe, so the pictures after the last keyframe are re-encoded and the rest is copied.",
            )
        },
        _ => cause.sentence(first, second),
    }
}

/// The way out of a decline, where the cut can be snapped.
pub open spec fn remedy(snappable: bool) -> Seq<char> {
    if snappable {
        " Snapping the cut to the nearest keyframes exports it with nothing re-encoded."@
    } else {
        ""@
    }
}

/// Why a part cannot be exported as it stands, and the way out.
pub open spec fn decline_words(decline: DeclineModel, snappable: bool) -> Seq<char> {
    match decline {
        DeclineModel::HdrWouldBeRendered => {
            "Part of this HDR clip would have to be re-encoded, and Blinkify never re-encodes HDR pictures, so it cannot be exported as it stands."@
                + remedy(snappable)
        },
        DeclineModel::NoEncoder { refusal } => "The cut cannot be smart-cut: "@ + refusal.words()
            + ", so no re-encoded picture could join the copied ones."@ + remedy(snappable),
    }
}

/// Why a part cannot be exported as it stands, and the way out.
pub fn explain_decline(decline: &Decline, snappable: bool) -> (text: String)
    ensures
        text@ == decline_words(decline@, snappable),
{
    let remedy = if snappable {
        " Snapping the cut to the nearest keyframes exports it with nothing re-encoded."
    } else {
        ""
    };
    match decline {
        Decline::HdrWouldBeRendered => {
            "Part of this HDR clip would have to be re-encoded, and Blinkify never re-encodes HDR pictures, so it cannot be exported as it stands.".to_owned().concat(
                remedy,
            )
        },
        Decline::NoEncoder { unmatched } => {
            let why = unmatched.message();
            "The cut cannot be smart-cut: ".to_owned().concat(why.as_str()).concat(
                ", so no re-encoded picture could join the copied ones.",
            ).concat(remedy)
        },
    }
}

/// The decimals that a cause is worded with.
#[derive(Debug, PartialEq, Eq)]
pub struct Wording {
    /// The distance to the keyframe in seconds, where there is one.
    pub gap: Option<String>,
    /// The rates the cause speaks of.
    pub first: String,
    pub second: String,
}

/// A cause as it is worded.
pub open spec fn worded(cause: CauseModel, wording: Wording) -> Seq<char> {
    explained(cause, crate::text::optional(wording.gap), wording.first@, wording.second@)
}

/// A cause as it is worded.
pub fn word(cause: &Cause, wording: &Wording) -> (text: String)
    ensures
        text@ == worded(cause@, *wording),
{
    match &wording.gap {
        Some(gap) => {
            explain(cause, Some(gap.as_str()), wording.first.as_str(), wording.second.as_str())
        },
        None => explain(cause, None, wording.first.as_str(), wording.second.as_str()),
    }
}

/// One reason part of the output is not copied, with where it is.
#[derive(Debug, PartialEq, Eq)]
pub struct Reason {
    pub media: Media,
    /// The sequence frame it applies at: a cut's own, or the start of the
    /// stretch.
    pub at: i64,
    pub tier: ExportTier,
    pub sentence: String,
    /// The part cannot be exported as it stands.
    pub declined: bool,
}

/// What a [`Reason`] says.
pub struct ReasonModel {
    pub media: Media,
    pub at: i64,
    pub tier: ExportTier,
    pub sentence: Seq<char>,
    pub declined: bool,
}

impl View for Reason {
    type V = ReasonModel;

    open spec fn view(&self) -> ReasonModel {
        ReasonModel {
            media: self.media,
            at: self.at,
            tier: self.tier,
            sentence: self.sentence@,
            declined: self.declined,
        }
    }
}

/// What a list of reasons says.
pub open spec fn reasons_in(reasons: Seq<Reason>) -> Seq<ReasonModel> {
    reasons.map_values(|reason: Reason| reason@)
}

/// A cause at a segment's end.
pub open spec fn at_the_end(cause: CauseModel) -> bool {
    cause is OutPointNotKeyframe || cause is OpenGopAtOutPoint
}

/// A cause as a reason.
pub open spec fn cause_reason(segment: Segment, cause: CauseModel, wording: Wording) -> ReasonModel {
    ReasonModel {
        media: segment.media,
        at: if at_the_end(cause) {
            clamped(segment.start + segment.length)
        } else {
            segment.start
        },
        tier: segment.tier,
        sentence: worded(cause, wording),
        declined: false,
    }
}

/// Each reason a segment is not copied: its causes in order, then why it is
/// declined.
pub open spec fn segment_reasons(segment: Segment, wordings: Seq<Wording>) -> Seq<ReasonModel> {
    Seq::new(
        segment.causes@.len(),
        |i: int| cause_reason(segment, segment.causes@[i]@, wordings[i]),
    ) + (match segment.decline {
        Some(decline) => seq![
            ReasonModel {
                media: segment.media,
                at: segment.start,
                tier: segment.tier,
                sentence: decline_words(decline@, segment.alternative is Some),
                declined: true,
            },
        ],
        None => Seq::empty(),
    })
}

/// Every re-encode names its causes: a segment that is not copied has a reason,
/// and each of its causes is told.
pub proof fn every_re_encode_is_told(segment: Segment, wordings: Seq<Wording>)
    requires
        wordings.len() == segment.causes@.len(),
        segment.tier == tier_for(causes_in(segment.causes@)),
        !segment.tier.lossless(),
    ensures
        segment_reasons(segment, wordings).len() >= segment.causes@.len() > 0,
        forall|i: int|
            0 <= i < segment.causes@.len() ==> (#[trigger] segment_reasons(
                segment,
                wordings,
            )[i]).sentence == worded(segment.causes@[i]@, wordings[i]),
{
    a_copy_has_no_cause(causes_in(segment.causes@));
}

/// Each reason `segment` is not copied, where it applies. `wordings` holds the
/// decimals of each cause.
pub fn reasons_of(segment: &Segment, wordings: &Vec<Wording>) -> (reasons: Vec<Reason>)
    requires
        wordings@.len() == segment.causes@.len(),
    ensures
        reasons_in(reasons@) == segment_reasons(*segment, wordings@),
{
    let mut reasons: Vec<Reason> = Vec::new();
    let ghost head = Seq::new(
        segment.causes@.len(),
        |i: int| cause_reason(*segment, segment.causes@[i]@, wordings@[i]),
    );
    let mut i: usize = 0;
    proof {
        assert(reasons_in(reasons@) =~= head.take(0));
    }
    while i < segment.causes.len()
        invariant
            i <= segment.causes@.len(),
            wordings@.len() == segment.causes@.len(),
            head == Seq::new(
                segment.causes@.len(),
                |i: int| cause_reason(*segment, segment.causes@[i]@, wordings@[i]),
            ),
            reasons_in(reasons@) == head.take(i as int),
        decreases segment.causes@.len() - i,
    {
        let cause = &segment.causes[i];
        let late = match cause {
            Cause::OutPointNotKeyframe { .. } | Cause::OpenGopAtOutPoint { .. } => true,
            _ => false,
        };
        let at = if late {
            segment.end()
        } else {
            segment.start
        };
        let ghost before = reasons@;
        reasons.push(
            Reason {
                media: segment.media,
                at,
                tier: segment.tier,
                sentence: word(cause, &wordings[i]),
                declined: false,
            },
        );
        proof {
            assert(reasons_in(reasons@) =~= reasons_in(before).push(head[i as int]));
            assert(head.take(i + 1) =~= head.take(i as int).push(head[i as int]));
        }
        i += 1;
    }
    proof {
        assert(head.take(i as int) =~= head);
    }
    if let Some(decline) = &segment.decline {
        reasons.push(
            Reason {
                media: segment.media,
                at: segment.start,
                tier: segment.tier,
                sentence: explain_decline(decline, segment.alternative.is_some()),
                declined: true,
            },
        );
    }
    proof {
        assert(reasons_in(reasons@) =~= segment_reasons(*segment, wordings@));
    }
    reasons
}

/// Move a clip's cut to keyframes, in the clip's own ticks.
#[derive(Debug, Clone, Copy, PartialEq, Eq, Structural)]
pub struct KeyframeSnap {
    pub clip: ClipId,
    pub from: i64,
    pub to: i64,
}

/// One cut the snap moves, and by how much.
#[derive(Debug, Clone, Copy, PartialEq, Eq, Structural)]
pub struct SnappedCut {
    pub clip: ClipId,
    /// The sequence frame the clip starts at.
    pub at: i64,
    /// The unit of the shifts.
    pub time_base: Rational,
    pub speed: Rational,
    /// How far its in-point moves in the source: positive is later, which
    /// drops pictures from the start.
    pub in_shift: i64,
    /// How far its out-point moves: positive is later, which adds pictures at
    /// the end.
    pub out_shift: i64,
}

/// Moving every smart-cut to the nearest keyframes, so nothing of the pictures
/// is re-encoded for a cut.
#[derive(Debug, PartialEq, Eq)]
pub struct SnapOffer {
    pub snaps: Vec<KeyframeSnap>,
    pub cuts: Vec<SnappedCut>,
    /// Smart-cuts it cannot move: a clip partly covered by another above it is
    /// cut there by the cover, not by its own trim.
    pub unsnappable: u32,
}

/// A clip of a track, from its `i`th on.
pub open spec fn clip_in(placements: Seq<Placement>, clip: ClipId, i: int) -> Option<Placement>
    decreases placements.len() - i,
{
    if i >= placements.len() {
        None
    } else if placements[i].clip == clip {
        Some(placements[i])
    } else {
        clip_in(placements, clip, i + 1)
    }
}

/// A clip of the sequence, from its `t`th track on.
pub open spec fn clip_from(timeline: Timeline, clip: ClipId, t: int) -> Option<Placement>
    decreases timeline.tracks@.len() - t,
{
    if t >= timeline.tracks@.len() {
        None
    } else {
        match clip_in(timeline.tracks@[t].placements@, clip, 0) {
            Some(placement) => Some(placement),
            None => clip_from(timeline, clip, t + 1),
        }
    }
}

/// A clip of the sequence.
fn find_clip(timeline: &Timeline, clip: ClipId) -> (found: Option<&Placement>)
    ensures
        match clip_from(*timeline, clip, 0) {
            Some(placement) => found is Some && *found->0 == placement,
            None => found is None,
        },
{
    let mut t: usize = 0;
    while t < timeline.tracks.len()
        invariant
            t <= timeline.tracks@.len(),
            clip_from(*timeline, clip, 0) == clip_from(*timeline, clip, t as int),
        decreases timeline.tracks@.len() - t,
    {
        let placements = &timeline.tracks[t].placements;
        let mut i: usize = 0;
        while i < placements.len()
            invariant
                i <= placements@.len(),
                t < timeline.tracks@.len(),
                *placements == timeline.tracks@[t as int].placements,
                clip_from(*timeline, clip, 0) == clip_from(*timeline, clip, t as int),
                clip_in(placements@, clip, 0) == clip_in(placements@, clip, i as int),
            decreases placements@.len() - i,
        {
            if placements[i].clip == clip {
                return Some(&placements[i]);
            }
            i += 1;
        }
        t += 1;
    }
    None
}

/// Where a smart-cut of one clip's own trim moves to, in the clip's ticks:
/// nothing where the clip is held or reversed, or is cut by something else
/// than its trim.
pub open spec fn moved(
    source: SegmentSource,
    alternative: KeyframeAlternative,
    placement: Placement,
) -> Option<(i64, i64)> {
    let (own, clip) = (source.time_base, placement.time_base);
    let from = rescaled(alternative.source_in, own, clip, Rounding::Nearest);
    let to = rescaled(alternative.source_out, own, clip, Rounding::Nearest);
    if placement.motion is None && from is Some && to is Some && rescaled(
        source.source_in,
        own,
        clip,
        Rounding::Down,
    ) == Some(placement.source_in) && rescaled(source.source_out, own, clip, Rounding::Up) == Some(
        placement.source_out,
    ) {
        Some((from->0, to->0))
    } else {
        None
    }
}

/// A segment's smart-cut, snapped: the clip and where its cut moves to.
pub open spec fn snapped(segment: Segment, timeline: Timeline) -> Option<(Placement, i64, i64)> {
    if segment.sources@.len() == 1 {
        let source = segment.sources@[0];
        match clip_from(timeline, source.clip, 0) {
            Some(placement) => match moved(source, segment.alternative->0, placement) {
                Some((from, to)) => Some((placement, from, to)),
                None => None,
            },
            None => None,
        }
    } else {
        None
    }
}

/// Where a smart-cut of one clip's own trim moves to, in the clip's ticks.
fn try_move(
    source: &SegmentSource,
    alternative: &KeyframeAlternative,
    placement: &Placement,
) -> (range: Option<(i64, i64)>)
    ensures
        range == moved(*source, *alternative, *placement),
{
    if placement.motion.is_some() {
        return None;
    }
    let (own, clip) = (source.time_base, placement.time_base);
    let from = rescale(alternative.source_in, own, clip, Rounding::Nearest)?;
    let to = rescale(alternative.source_out, own, clip, Rounding::Nearest)?;
    let start = rescale(source.source_in, own, clip, Rounding::Down)?;
    let end = rescale(source.source_out, own, clip, Rounding::Up)?;
    if start == placement.source_in && end == placement.source_out {
        Some((from, to))
    } else {
        None
    }
}

/// A smart-cut of pictures that could be moved to keyframes.
pub open spec fn offers(segment: Segment) -> bool {
    segment.media == Media::Video && segment.tier is SmartCut && segment.alternative is Some
}

/// A clip's cut is among the snaps.
pub open spec fn is_snapped(snaps: Seq<KeyframeSnap>, clip: ClipId) -> bool {
    exists|i: int| 0 <= i < snaps.len() && (#[trigger] snaps[i]).clip == clip
}

/// What an offer says.
pub struct OfferModel {
    pub snaps: Seq<KeyframeSnap>,
    pub cuts: Seq<SnappedCut>,
    pub unsnappable: nat,
}

/// The offer from the first `count` segments: every smart-cut whose clip's own
/// trim makes the cut, a clip once, and how many there are of the others.
pub open spec fn offer_of(segments: Seq<Segment>, timeline: Timeline, count: int) -> OfferModel
    decreases count,
{
    if count <= 0 {
        OfferModel { snaps: Seq::empty(), cuts: Seq::empty(), unsnappable: 0 }
    } else {
        let before = offer_of(segments, timeline, count - 1);
        let segment = segments[count - 1];
        if !offers(segment) {
            before
        } else {
            match snapped(segment, timeline) {
                None => OfferModel { unsnappable: before.unsnappable + 1, ..before },
                Some((placement, from, to)) => if is_snapped(before.snaps, placement.clip) {
                    before
                } else {
                    OfferModel {
                        snaps: before.snaps.push(KeyframeSnap { clip: placement.clip, from, to }),
                        cuts: before.cuts.push(
                            SnappedCut {
                                clip: placement.clip,
                                at: placement.start,
                                time_base: placement.time_base,
                                speed: placement.speed,
                                in_shift: clamped(from - placement.source_in),
                                out_shift: clamped(to - placement.source_out),
                            },
                        ),
                        ..before
                    }
                },
            }
        }
    }
}

/// A count, as far as 32 bits go.
pub open spec fn counted(n: nat) -> u32 {
    if n <= u32::MAX {
        n as u32
    } else {
        u32::MAX
    }
}

/// Whether a clip's cut is among the snaps.
fn has_snap(snaps: &Vec<KeyframeSnap>, clip: ClipId) -> (yes: bool)
    ensures
        yes == is_snapped(snaps@, clip),
{
    let mut i: usize = 0;
    while i < snaps.len()
        invariant
            i <= snaps@.len(),
            forall|k: int| 0 <= k < i ==> (#[trigger] snaps@[k]).clip != clip,
        decreases snaps@.len() - i,
    {
        if snaps[i].clip == clip {
            return true;
        }
        i += 1;
    }
    false
}

/// The snap of every smart-cut whose clip's own trim makes the cut; nothing
/// where no cut is smart.
pub fn snap_offer(plan: &ExportPlan, timeline: &Timeline) -> (offer: Option<SnapOffer>)
    ensures
        ({
            let model = offer_of(plan.segments@, *timeline, plan.segments@.len() as int);
            if model.snaps.len() == 0 && model.unsnappable == 0 {
                offer is None
            } else {
                &&& offer is Some
                &&& offer->0.snaps@ == model.snaps
                &&& offer->0.cuts@ == model.cuts
                &&& offer->0.unsnappable == counted(model.unsnappable)
            }
        }),
{
    let mut snaps: Vec<KeyframeSnap> = Vec::new();
    let mut cuts: Vec<SnappedCut> = Vec::new();
    let mut unsnappable: u32 = 0;
    let segments = &plan.segments;
    let mut i: usize = 0;
    while i < segments.len()
        invariant
            i <= segments@.len(),
            ({
                let model = offer_of(segments@, *timeline, i as int);
                &&& snaps@ == model.snaps
                &&& cuts@ == model.cuts
                &&& unsnappable == counted(model.unsnappable)
                &&& model.unsnappable > 0 <==> unsnappable > 0
            }),
        decreases segments@.len() - i,
    {
        let segment = &segments[i];
        let smart = match segment.tier {
            ExportTier::SmartCut { .. } => segment.media == Media::Video,
            _ => false,
        };
        if smart {
            if let Some(alternative) = &segment.alternative {
                let found = if segment.sources.len() == 1 {
                    let source = &segment.sources[0];
                    match find_clip(timeline, source.clip) {
                        Some(placement) => match try_move(source, alternative, placement) {
                            Some((from, to)) => Some((placement, from, to)),
                            None => None,
                        },
                        None => None,
                    }
                } else {
                    None
                };
                match found {
                    None => {
                        if unsnappable < u32::MAX {
                            unsnappable += 1;
                        }
                    },
                    Some((placement, from, to)) => {
                        if !has_snap(&snaps, placement.clip) {
                            snaps.push(KeyframeSnap { clip: placement.clip, from, to });
                            cuts.push(
                                SnappedCut {
                                    clip: placement.clip,
                                    at: placement.start,
                                    time_base: placement.time_base,
                                    speed: placement.speed,
                                    in_shift: saturating_sub(from, placement.source_in),
                                    out_shift: saturating_sub(to, placement.source_out),
                                },
                            );
                        }
                    },
                }
            }
        }
        i += 1;
    }
    if snaps.len() == 0 && unsnappable == 0 {
        return None;
    }
    Some(SnapOffer { snaps, cuts, unsnappable })
}

/// How large the output will be.
#[derive(Debug, Clone, Copy, PartialEq, Eq, Structural)]
pub struct SizeEstimate {
    pub bytes: u64,
    /// Everything is copied, and every copied stream's rate is one its file
    /// records. Otherwise an encoder's output, or a split of a file's rate
    /// between streams it does not record, is part of it: an estimate.
    pub precise: bool,
}

/// The target's volume, against the size.
#[derive(Debug, Clone, Copy, PartialEq, Eq, Structural)]
pub struct DiskSpace {
    pub available: u64,
    pub enough: bool,
}

/// What the output is reckoned to take, and how that is put into words.
#[derive(Debug, PartialEq, Eq)]
pub struct Reckoning {
    pub bytes: u64,
    /// Every copied stream's rate is one its file records.
    pub recorded: bool,
    /// `bytes` in words.
    pub needed: String,
    /// Free bytes on the target's volume, where known, and in words.
    pub available: Option<u64>,
    pub free: String,
}

/// What exporting the plan to a target will do, before it is asked for.
#[derive(Debug, PartialEq, Eq)]
pub struct ExportOverview {
    /// `None` for a stream the output does not have.
    pub video: Option<StreamClaim>,
    pub audio: Option<StreamClaim>,
    /// Nothing at all is re-encoded.
    pub lossless: bool,
    /// Sequence frames.
    pub length: i64,
    /// In output order: the pictures' reasons, then the sound's.
    pub reasons: Vec<Reason>,
    pub snap: Option<SnapOffer>,
    pub size: SizeEstimate,
    /// What re-encoded sound is made as, where any is.
    pub audio_encoding: Option<AudioEncoding>,
    pub space: Option<DiskSpace>,
    /// A file is at the target already: replacing it must be confirmed.
    pub target_exists: bool,
    /// Why the export would be refused as it stands; empty when it can run.
    pub problems: Vec<String>,
}

/// The reasons of the first `count` segments.
pub open spec fn all_reasons(segments: Seq<Segment>, wordings: Seq<Vec<Wording>>, count: int) -> Seq<
    ReasonModel,
>
    decreases count,
{
    if count <= 0 {
        Seq::empty()
    } else {
        all_reasons(segments, wordings, count - 1) + segment_reasons(
            segments[count - 1],
            wordings[count - 1]@,
        )
    }
}

/// What the volume is found to hold.
pub open spec fn space_of(reckoning: Reckoning) -> Option<DiskSpace> {
    match reckoning.available {
        Some(available) => Some(
            DiskSpace { available, enough: holds_output(reckoning.bytes, available) },
        ),
        None => None,
    }
}

/// What is said of a volume that does not hold the output.
pub open spec fn full_words(reckoning: Reckoning) -> Seq<char> {
    "the target's drive has "@ + reckoning.free@ + " free, and the export needs about "@
        + reckoning.needed@
}

/// Everything that stands in the way: what the export would be refused with,
/// and a volume that is too small. An error is given in its words.
pub open spec fn are_problems(
    problems: Seq<String>,
    refused: Option<ErrorModel>,
    full: bool,
    reckoning: Reckoning,
) -> bool {
    let n = if refused is Some {
        1int
    } else {
        0
    };
    &&& problems.len() == n + (if full {
        1int
    } else {
        0
    })
    &&& refused is Some ==> exists|error: ExportError|
        error@ == refused->0 && problems[0]@ == #[trigger] error.words()
    &&& full ==> problems[n]@ == full_words(reckoning)
}

/// What exporting `plan` to `target` will do. `wordings` holds, for each
/// segment, the decimals of its causes; `reckoning` what the output is reckoned
/// to take. Replacing an existing file is the save dialog's question, and no
/// problem.
pub fn overview(
    plan: &ExportPlan,
    timeline: &Timeline,
    inputs: &BTreeMap<SourceId, ExportInput>,
    target: &Target,
    audio: AudioTarget,
    wordings: &Vec<Vec<Wording>>,
    reckoning: &Reckoning,
) -> (overview: ExportOverview)
    requires
        wordings@.len() == plan.segments@.len(),
        forall|i: int|
            0 <= i < plan.segments@.len() ==> (#[trigger] wordings@[i])@.len()
                == plan.segments@[i].causes@.len(),
    ensures
        overview.lossless == plan.summary.lossless,
        overview.length == plan.length,
        overview.video == (if has_stream(plan.segments@, Media::Video) {
            Some(claimed(plan.summary.video))
        } else {
            None
        }),
        overview.audio == (if has_stream(plan.segments@, Media::Audio) {
            Some(claimed(plan.summary.audio))
        } else {
            None
        }),
        reasons_in(overview.reasons@) == all_reasons(
            plan.segments@,
            wordings@,
            plan.segments@.len() as int,
        ),
        ({
            let model = offer_of(plan.segments@, *timeline, plan.segments@.len() as int);
            if model.snaps.len() == 0 && model.unsnappable == 0 {
                overview.snap is None
            } else {
                &&& overview.snap is Some
                &&& overview.snap->0.snaps@ == model.snaps
                &&& overview.snap->0.cuts@ == model.cuts
                &&& overview.snap->0.unsnappable == counted(model.unsnappable)
            }
        }),
        overview.size == (SizeEstimate {
            bytes: reckoning.bytes,
            precise: plan.summary.lossless && reckoning.recorded,
        }),
        overview.space == space_of(*reckoning),
        overview.target_exists == target.exists,
        match checked(*plan, inputs@, *target, true, audio) {
            Ok((_, Some(model))) => overview.audio_encoding is Some
                && overview.audio_encoding->0@ == model,
            _ => overview.audio_encoding is None,
        },
        are_problems(
            overview.problems@,
            match checked(*plan, inputs@, *target, true, audio) {
                Err(error) => Some(error),
                Ok(_) => None,
            },
            space_of(*reckoning) matches Some(space) && !space.enough,
            *reckoning,
        ),
{
    let mut problems: Vec<String> = Vec::new();
    let audio_encoding = match check(plan, inputs, target, true, audio) {
        Ok(encoding) => encoding,
        Err(error) => {
            let text = error.message();
            assert(text@ == error.words());
            problems.push(text);
            None
        },
    };
    let space = match reckoning.available {
        Some(available) => Some(
            DiskSpace { available, enough: enough_space(reckoning.bytes, available) },
        ),
        None => None,
    };
    if let Some(space) = space {
        if !space.enough {
            let text = "the target's drive has ".to_owned().concat(
                reckoning.free.as_str(),
            ).concat(" free, and the export needs about ").concat(reckoning.needed.as_str());
            problems.push(text);
        }
    }
    let mut reasons: Vec<Reason> = Vec::new();
    let segments = &plan.segments;
    let mut i: usize = 0;
    proof {
        assert(reasons_in(reasons@) =~= Seq::empty());
    }
    while i < segments.len()
        invariant
            i <= segments@.len(),
            *segments == plan.segments,
            wordings@.len() == plan.segments@.len(),
            forall|i: int|
                0 <= i < plan.segments@.len() ==> (#[trigger] wordings@[i])@.len()
                    == plan.segments@[i].causes@.len(),
            reasons_in(reasons@) == all_reasons(segments@, wordings@, i as int),
        decreases segments@.len() - i,
    {
        assert(wordings@[i as int]@.len() == segments@[i as int].causes@.len());
        let mut more = reasons_of(&segments[i], &wordings[i]);
        let ghost (before, added) = (reasons@, more@);
        reasons.append(&mut more);
        proof {
            assert(reasons_in(reasons@) =~= reasons_in(before) + reasons_in(added));
        }
        i += 1;
    }
    ExportOverview {
        video: claim(plan, Media::Video),
        audio: claim(plan, Media::Audio),
        lossless: plan.summary.lossless,
        length: plan.length,
        reasons,
        snap: snap_offer(plan, timeline),
        size: SizeEstimate {
            bytes: reckoning.bytes,
            precise: plan.summary.lossless && reckoning.recorded,
        },
        audio_encoding,
        space,
        target_exists: target.exists,
        problems,
    }
}

/// What is offered moves a clip once.
pub proof fn a_clip_is_snapped_once(segments: Seq<Segment>, timeline: Timeline, count: int)
    requires
        0 <= count <= segments.len(),
    ensures
        ({
            let offer = offer_of(segments, timeline, count);
            &&& offer.snaps.len() == offer.cuts.len()
            &&& forall|i: int, j: int|
                #![trigger offer.snaps[i], offer.snaps[j]]
                0 <= i < j < offer.snaps.len() ==> offer.snaps[i].clip != offer.snaps[j].clip
        }),
    decreases count,
{
    if count > 0 {
        a_clip_is_snapped_once(segments, timeline, count - 1);
    }
}

} // verus!
