//! The whole plan, and what it comes to.
use crate::export::plan::audio::{audio_plan, plan_audio, sound_tiles_the_sequence};
use crate::export::plan::share::{frames, lengths_fit};
use crate::export::plan::video::{
    lemma_tile_fits, lemma_windows, pictures_tile_the_sequence, plan_video, tile, video_plan,
    windows_fit,
};
use crate::export::plan::{
    segments_in, sources_wf, ExportPlan, PlanError, PlanSummary, SeamWindow, Segment, SegmentModel,
    SourceFacts, Totals,
};
use crate::num::{clamped, saturating_add, saturating_mul, saturating_sub, smaller};
use crate::probe::Rational;
use crate::project::{Placement, SequenceSettings, SourceId, Timeline};
use crate::tier::ExportTier;
use crate::time::{rescale, rescaled, Rounding};
use std::collections::BTreeMap;
use vstd::prelude::*;

verus! {

impl Default for Totals {
    fn default() -> (totals: Totals)
        ensures
            totals == (Totals { copied: 0, re_encoded: 0 }),
    {
        Totals { copied: 0, re_encoded: 0 }
    }
}

/// The length of a source's tick as it plays.
pub open spec fn played_base(time_base: Rational, speed: Rational) -> Rational {
    Rational {
        num: clamped(time_base.num * speed.den),
        den: clamped(time_base.den * speed.num),
    }
}

/// The sequence frames that a window takes, rounded up; as many as can be
/// counted where they cannot be.
pub open spec fn window_length(window: SeamWindow, played: Rational, sequence: Rational) -> i64 {
    match rescaled(clamped(window.to - window.from), played, sequence, Rounding::Up) {
        Some(length) => length,
        None => i64::MAX,
    }
}

/// The sequence frames of the first `count` windows together.
pub open spec fn windows_length(
    windows: Seq<SeamWindow>,
    played: Rational,
    sequence: Rational,
    count: int,
) -> i64
    decreases count,
{
    if count <= 0 {
        0
    } else {
        clamped(
            windows_length(windows, played, sequence, count - 1) + window_length(
                windows[count - 1],
                played,
                sequence,
            ),
        )
    }
}

/// The sequence frames of a segment that a smart-cut re-encodes.
pub open spec fn seam_frames(segment: SegmentModel, sequence: Rational) -> i64 {
    if segment.sources.len() == 0 {
        0
    } else {
        let source = segment.sources[0];
        smaller(
            windows_length(
                segment.windows,
                played_base(source.time_base, source.speed),
                sequence,
                segment.windows.len() as int,
            ) as int,
            segment.length as int,
        ) as i64
    }
}

/// The sequence frames of a segment that are re-encoded.
pub open spec fn encoded_frames(segment: SegmentModel, sequence: Rational) -> i64 {
    match segment.tier {
        ExportTier::StreamCopy => 0,
        ExportTier::SmartCut { .. } => seam_frames(segment, sequence),
        ExportTier::FullReEncode { .. } => segment.length,
    }
}

/// The frames of the first `count` segments that are re-encoded.
pub open spec fn encoded(segments: Seq<SegmentModel>, sequence: Rational, count: int) -> int
    decreases count,
{
    if count <= 0 {
        0
    } else {
        encoded(segments, sequence, count - 1) + encoded_frames(segments[count - 1], sequence)
    }
}

/// What a stream's segments come to: all that is not re-encoded is copied.
pub open spec fn totals_of(segments: Seq<SegmentModel>, sequence: Rational) -> Totals {
    let n = segments.len() as int;
    Totals {
        copied: (frames(segments, n) - encoded(segments, sequence, n)) as i64,
        re_encoded: encoded(segments, sequence, n) as i64,
    }
}

/// No segment is re-encoded.
pub open spec fn all_copied(segments: Seq<SegmentModel>) -> bool {
    forall|i: int| 0 <= i < segments.len() ==> (#[trigger] segments[i]).tier.lossless()
}

/// No segment is declined.
pub open spec fn none_declined(segments: Seq<SegmentModel>) -> bool {
    forall|i: int| 0 <= i < segments.len() ==> (#[trigger] segments[i]).decline is None
}

/// What the pictures and the sound come to.
pub open spec fn summary_of(
    video: Seq<SegmentModel>,
    audio: Seq<SegmentModel>,
    sequence: Rational,
) -> PlanSummary {
    PlanSummary {
        video: totals_of(video, sequence),
        audio: totals_of(audio, sequence),
        lossless: all_copied(video) && all_copied(audio),
        exportable: none_declined(video) && none_declined(audio),
    }
}

/// Ticks that are not negative stay so.
proof fn lemma_not_negative(value: i64, from: Rational, to: Rational)
    requires
        value >= 0,
    ensures
        rescaled(value, from, to, Rounding::Up) matches Some(ticks) ==> ticks >= 0,
{
    if rescaled(value, from, to, Rounding::Up) is Some {
        let n = crate::time::rescale_numerator(value as int, from, to);
        let d = crate::time::rescale_denominator(from, to);
        let (fn_, fd, tn, td) = (from.num as int, from.den as int, to.num as int, to.den as int);
        assert(n >= 0) by (nonlinear_arith)
            requires
                n == value * (fn_ * td),
                value >= 0,
                fn_ > 0,
                td > 0,
        ;
        assert(d > 0) by (nonlinear_arith)
            requires
                d == fd * tn,
                fd > 0,
                tn > 0,
        ;
        vstd::arithmetic::div_mod::lemma_div_pos_is_pos(n, d);
    }
}

/// Windows that do not end before they start take no negative length.
proof fn lemma_windows_length(
    windows: Seq<SeamWindow>,
    played: Rational,
    sequence: Rational,
    count: int,
)
    requires
        0 <= count <= windows.len(),
        forall|i: int| 0 <= i < windows.len() ==> (#[trigger] windows[i]).from <= windows[i].to,
    ensures
        windows_length(windows, played, sequence, count) >= 0,
    decreases count,
{
    if count > 0 {
        lemma_windows_length(windows, played, sequence, count - 1);
        let window = windows[count - 1];
        assert(window.from <= window.to);
        lemma_not_negative(clamped(window.to - window.from), played, sequence);
    }
}

/// No more of a segment is re-encoded than there is.
proof fn lemma_encoded_frames(segment: SegmentModel, sequence: Rational)
    requires
        segment.length >= 0,
        windows_fit(segment),
    ensures
        0 <= encoded_frames(segment, sequence) <= segment.length,
{
    if segment.sources.len() > 0 {
        let source = segment.sources[0];
        lemma_windows_length(
            segment.windows,
            played_base(source.time_base, source.speed),
            sequence,
            segment.windows.len() as int,
        );
    }
}

/// No more of some segments is re-encoded than there is.
proof fn lemma_encoded(segments: Seq<SegmentModel>, sequence: Rational, count: int)
    requires
        0 <= count <= segments.len(),
        forall|i: int| 0 <= i < segments.len() ==> (#[trigger] segments[i]).length >= 0,
        forall|i: int| 0 <= i < segments.len() ==> windows_fit(#[trigger] segments[i]),
    ensures
        0 <= encoded(segments, sequence, count) <= frames(segments, count),
    decreases count,
{
    if count > 0 {
        lemma_encoded(segments, sequence, count - 1);
        assert(segments[count - 1].length >= 0);
        lemma_encoded_frames(segments[count - 1], sequence);
    }
}

/// The first segments hold no more frames than all.
proof fn lemma_frames_rise(segments: Seq<SegmentModel>, some: int, all: int)
    requires
        0 <= some <= all <= segments.len(),
        forall|i: int| 0 <= i < segments.len() ==> (#[trigger] segments[i]).length >= 0,
    ensures
        frames(segments, some) <= frames(segments, all),
    decreases all,
{
    if some < all {
        lemma_frames_rise(segments, some, all - 1);
        assert(segments[all - 1].length >= 0);
    }
}

/// The sequence frames of `segment` that a smart-cut re-encodes.
fn window_frames(segment: &Segment, sequence: Rational) -> (count: i64)
    ensures
        count == seam_frames(segment@, sequence),
{
    if segment.sources.len() == 0 {
        return 0;
    }
    let source = &segment.sources[0];
    assert(segment@.sources[0] == source@);
    let played = Rational {
        num: saturating_mul(source.time_base.num, source.speed.den),
        den: saturating_mul(source.time_base.den, source.speed.num),
    };
    assert(played == played_base(source.time_base, source.speed));
    let mut total: i64 = 0;
    let mut i: usize = 0;
    while i < segment.windows.len()
        invariant
            i <= segment.windows@.len(),
            total == windows_length(segment.windows@, played, sequence, i as int),
        decreases segment.windows@.len() - i,
    {
        let window = segment.windows[i];
        let length = match rescale(
            saturating_sub(window.to, window.from),
            played,
            sequence,
            Rounding::Up,
        ) {
            Some(length) => length,
            None => i64::MAX,
        };
        total = saturating_add(total, length);
        i += 1;
    }
    crate::num::min(total, segment.length)
}

/// What a stream's segments come to.
fn totals(segments: &Vec<Segment>, sequence: Rational) -> (totals: Totals)
    requires
        lengths_fit(segments_in(segments@)),
        forall|i: int|
            0 <= i < segments@.len() ==> windows_fit(#[trigger] segments_in(segments@)[i]),
    ensures
        totals == totals_of(segments_in(segments@), sequence),
{
    let ghost all = segments_in(segments@);
    let mut totals = Totals { copied: 0, re_encoded: 0 };
    let mut i: usize = 0;
    while i < segments.len()
        invariant
            i <= segments@.len(),
            all == segments_in(segments@),
            lengths_fit(all),
            forall|k: int| 0 <= k < all.len() ==> windows_fit(#[trigger] all[k]),
            totals.re_encoded == encoded(all, sequence, i as int),
            totals.copied == frames(all, i as int) - encoded(all, sequence, i as int),
        decreases segments@.len() - i,
    {
        let segment = &segments[i];
        assert(all[i as int] == segment@);
        let re_encoded: i64 = match segment.tier {
            ExportTier::StreamCopy => 0,
            ExportTier::SmartCut { .. } => window_frames(segment, sequence),
            ExportTier::FullReEncode { .. } => segment.length,
        };
        proof {
            assert(all[i as int].length >= 0);
            lemma_encoded_frames(all[i as int], sequence);
            lemma_encoded(all, sequence, i as int);
            lemma_encoded(all, sequence, i + 1);
            lemma_frames_rise(all, i + 1, all.len() as int);
        }
        totals.re_encoded = totals.re_encoded + re_encoded;
        totals.copied = totals.copied + (segment.length - re_encoded);
        i += 1;
    }
    totals
}

/// Whether no segment is re-encoded.
fn is_all_copied(segments: &Vec<Segment>) -> (yes: bool)
    ensures
        yes == all_copied(segments_in(segments@)),
{
    let ghost all = segments_in(segments@);
    let mut i: usize = 0;
    while i < segments.len()
        invariant
            i <= segments@.len(),
            all == segments_in(segments@),
            forall|k: int| 0 <= k < i ==> (#[trigger] all[k]).tier.lossless(),
        decreases segments@.len() - i,
    {
        assert(all[i as int] == segments@[i as int]@);
        if !segments[i].tier.is_lossless() {
            return false;
        }
        i += 1;
    }
    true
}

/// Whether no segment is declined.
fn is_none_declined(segments: &Vec<Segment>) -> (yes: bool)
    ensures
        yes == none_declined(segments_in(segments@)),
{
    let ghost all = segments_in(segments@);
    let mut i: usize = 0;
    while i < segments.len()
        invariant
            i <= segments@.len(),
            all == segments_in(segments@),
            forall|k: int| 0 <= k < i ==> (#[trigger] all[k]).decline is None,
        decreases segments@.len() - i,
    {
        assert(all[i as int] == segments@[i as int]@);
        if segments[i].decline.is_some() {
            return false;
        }
        i += 1;
    }
    true
}

/// What the pictures and the sound come to.
fn summarise(video: &Vec<Segment>, audio: &Vec<Segment>, sequence: Rational) -> (summary:
    PlanSummary)
    requires
        lengths_fit(segments_in(video@)),
        lengths_fit(segments_in(audio@)),
        forall|i: int| 0 <= i < video@.len() ==> windows_fit(#[trigger] segments_in(video@)[i]),
        forall|i: int| 0 <= i < audio@.len() ==> windows_fit(#[trigger] segments_in(audio@)[i]),
    ensures
        summary == summary_of(segments_in(video@), segments_in(audio@), sequence),
{
    let lossless = is_all_copied(video) && is_all_copied(audio);
    let exportable = is_none_declined(video) && is_none_declined(audio);
    PlanSummary {
        video: totals(video, sequence),
        audio: totals(audio, sequence),
        lossless,
        exportable,
    }
}

/// What an [`ExportPlan`] says.
pub struct PlanModel {
    pub time_base: Rational,
    pub sequence: SequenceSettings,
    pub reference: Option<SourceId>,
    pub length: i64,
    pub segments: Seq<SegmentModel>,
    pub summary: PlanSummary,
}

impl View for ExportPlan {
    type V = PlanModel;

    open spec fn view(&self) -> PlanModel {
        PlanModel {
            time_base: self.time_base,
            sequence: self.sequence,
            reference: self.reference,
            length: self.length,
            segments: segments_in(self.segments@),
            summary: self.summary,
        }
    }
}

/// The plan of a sequence: its pictures, then its sound, and what both come
/// to; or why there is none.
pub open spec fn planned(
    timeline: Timeline,
    settings: SequenceSettings,
    sources: Map<SourceId, SourceFacts>,
    cuts: Seq<Vec<Option<Placement>>>,
) -> Result<PlanModel, PlanError> {
    if timeline.length <= 0 {
        Err(PlanError::Empty)
    } else {
        match video_plan(timeline, sources) {
            Err(error) => Err(error),
            Ok((video, reference)) => match audio_plan(timeline, sources, cuts) {
                Err(error) => Err(error),
                Ok(audio) => Ok(
                    PlanModel {
                        time_base: timeline.time_base,
                        sequence: settings,
                        reference,
                        length: timeline.length,
                        segments: video + audio,
                        summary: summary_of(video, audio, timeline.time_base),
                    },
                ),
            },
        }
    }
}

/// The windows of a plan's sound: none.
proof fn lemma_no_windows(
    timeline: Timeline,
    sources: Map<SourceId, SourceFacts>,
    cuts: Seq<Vec<Option<Placement>>>,
)
    ensures
        audio_plan(timeline, sources, cuts) matches Ok(segments) ==> forall|i: int|
            0 <= i < segments.len() ==> windows_fit(#[trigger] segments[i]),
{
    if let Ok(list) = crate::export::plan::stretch::stretch_plan(timeline, sources) {
        let n = list.len() as int;
        lemma_laid_no_windows(timeline, sources, list, cuts, n);
        if let Ok(draft) = crate::export::plan::audio::sound_laid(timeline, sources, list, cuts, n) {
            let ready = crate::export::plan::share::shared(draft.segments, draft.signatures);
            assert forall|i: int| 0 <= i < ready.len() implies (
            #[trigger] ready[i]).windows.len() == 0 by {
                assert(draft.segments[i].windows.len() == 0);
            }
            if let Ok(segments) = audio_plan(timeline, sources, cuts) {
                assert forall|i: int| 0 <= i < segments.len() implies windows_fit(
                    #[trigger] segments[i],
                ) by {
                    assert(ready[i].windows.len() == 0);
                }
            }
        }
    }
}

/// No windows in the sound that is laid.
proof fn lemma_laid_no_windows(
    timeline: Timeline,
    sources: Map<SourceId, SourceFacts>,
    list: Seq<crate::export::plan::stretch::StretchModel>,
    cuts: Seq<Vec<Option<Placement>>>,
    count: int,
)
    ensures
        crate::export::plan::audio::sound_laid(timeline, sources, list, cuts, count) matches Ok(
            draft,
        ) ==> forall|i: int|
            0 <= i < draft.segments.len() ==> (#[trigger] draft.segments[i]).windows.len() == 0,
    decreases count,
{
    if count > 0 {
        lemma_laid_no_windows(timeline, sources, list, cuts, count - 1);
    }
}

/// The lengths of a plan's segments fit.
proof fn lemma_plan_fits(
    timeline: Timeline,
    sources: Map<SourceId, SourceFacts>,
    cuts: Seq<Vec<Option<Placement>>>,
)
    requires
        timeline.wf(),
        timeline.length > 0,
    ensures
        video_plan(timeline, sources) matches Ok((video, _)) ==> lengths_fit(video),
        audio_plan(timeline, sources, cuts) matches Ok(audio) ==> lengths_fit(audio),
{
    if timeline.picture@.len() > 0 {
        pictures_tile_the_sequence(timeline, sources);
        if let Ok((video, _)) = video_plan(timeline, sources) {
            lemma_tile_fits(video, timeline.length as int);
        }
    }
    sound_tiles_the_sequence(timeline, sources, cuts);
    if let Ok(audio) = audio_plan(timeline, sources, cuts) {
        if audio.len() > 0 {
            lemma_tile_fits(audio, timeline.length as int);
        }
    }
}

/// Plan the export of `timeline`, made in a sequence with `settings`, over
/// sources described by `sources`. `cuts` holds, for each stretch of its sound
/// and each clip that plays in it, the clip cut to the stretch, or nothing
/// where its timing does not fit. There is no plan of an empty timeline, nor
/// of a clip whose source has not been described.
pub fn plan(
    timeline: &Timeline,
    settings: &SequenceSettings,
    sources: &BTreeMap<SourceId, SourceFacts>,
    cuts: &Vec<Vec<Option<Placement>>>,
) -> (result: Result<ExportPlan, PlanError>)
    requires
        timeline.wf(),
        sources_wf(sources@),
    ensures
        match planned(*timeline, *settings, sources@, cuts@) {
            Ok(plan) => result is Ok && result->Ok_0@ == plan,
            Err(error) => result == Err::<ExportPlan, PlanError>(error),
        },
{
    if timeline.length <= 0 {
        return Err(PlanError::Empty);
    }
    let (mut segments, reference) = match plan_video(timeline, sources) {
        Ok(both) => both,
        Err(error) => {
            return Err(error);
        },
    };
    let mut sound = match plan_audio(timeline, sources, cuts) {
        Ok(sound) => sound,
        Err(error) => {
            return Err(error);
        },
    };
    proof {
        lemma_plan_fits(*timeline, sources@, cuts@);
        lemma_windows(*timeline, sources@);
        lemma_no_windows(*timeline, sources@, cuts@);
    }
    let summary = summarise(&segments, &sound, timeline.time_base);
    let ghost (video, audio) = (segments@, sound@);
    segments.append(&mut sound);
    proof {
        assert(segments_in(segments@) =~= segments_in(video) + segments_in(audio));
    }
    Ok(
        ExportPlan {
            time_base: timeline.time_base,
            sequence: *settings,
            reference,
            length: timeline.length,
            segments,
            summary,
        },
    )
}

/// Every frame of a plan is either copied or re-encoded: for each stream that
/// there is, the two totals make up the sequence's length, neither negative;
/// and a plan that re-encodes nothing says so.
pub proof fn every_frame_is_accounted_for(
    timeline: Timeline,
    settings: SequenceSettings,
    sources: Map<SourceId, SourceFacts>,
    cuts: Seq<Vec<Option<Placement>>>,
)
    requires
        timeline.wf(),
    ensures
        planned(timeline, settings, sources, cuts) matches Ok(plan) ==> {
            let video = video_plan(timeline, sources)->Ok_0.0;
            let audio = audio_plan(timeline, sources, cuts)->Ok_0;
            &&& plan.segments == video + audio
            &&& video.len() > 0 ==> tile(video, plan.length as int)
            &&& audio.len() > 0 ==> tile(audio, plan.length as int)
            &&& plan.summary.video.copied >= 0 && plan.summary.video.re_encoded >= 0
            &&& plan.summary.audio.copied >= 0 && plan.summary.audio.re_encoded >= 0
            &&& video.len() > 0 ==> plan.summary.video.copied + plan.summary.video.re_encoded
                == plan.length
            &&& audio.len() > 0 ==> plan.summary.audio.copied + plan.summary.audio.re_encoded
                == plan.length
            &&& plan.summary.lossless ==> plan.summary.video.re_encoded == 0
                && plan.summary.audio.re_encoded == 0
        },
{
    if let Ok(plan) = planned(timeline, settings, sources, cuts) {
        let video = video_plan(timeline, sources)->Ok_0.0;
        let audio = audio_plan(timeline, sources, cuts)->Ok_0;
        lemma_plan_fits(timeline, sources, cuts);
        lemma_windows(timeline, sources);
        lemma_no_windows(timeline, sources, cuts);
        if timeline.picture@.len() > 0 {
            pictures_tile_the_sequence(timeline, sources);
        }
        sound_tiles_the_sequence(timeline, sources, cuts);
        lemma_encoded(video, timeline.time_base, video.len() as int);
        lemma_encoded(audio, timeline.time_base, audio.len() as int);
        if plan.summary.lossless {
            lemma_lossless(video, timeline.time_base, video.len() as int);
            lemma_lossless(audio, timeline.time_base, audio.len() as int);
        }
    }
}

/// Of copied segments nothing is re-encoded.
proof fn lemma_lossless(segments: Seq<SegmentModel>, sequence: Rational, count: int)
    requires
        all_copied(segments),
        0 <= count <= segments.len(),
    ensures
        encoded(segments, sequence, count) == 0,
    decreases count,
{
    if count > 0 {
        lemma_lossless(segments, sequence, count - 1);
        assert(segments[count - 1].tier.lossless());
    }
}

} // verus!
