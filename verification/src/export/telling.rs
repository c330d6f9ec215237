//! What is told of an export is so: before it, of what it will copy and take,
//! and after it, of what it did.
use crate::export::estimate::{basis, load, unrecorded, Basis, Load};
use crate::export::execute::stream_numbered;
use crate::export::overview::{
    all_reasons, clip_from, clip_in, cut_distance, holds_output, moved, offer_of, offers,
    segment_reasons, snapped, Wording,
};
use crate::export::plan::summary::{
    all_copied, encoded, encoded_frames, none_declined, planned, window_length, windows_length,
};
use crate::export::plan::{
    CauseModel, KeyframeAlternative, Media, SeamWindow, Segment, SegmentModel, SegmentSource,
    SourceFacts, SourceModel,
};
use crate::export::report::measure::{
    counted, execution_of, identical, inside, is_as_planned, Execution,
};
use crate::export::report::segment::ReportSegment;
use crate::export::report::{identical_of, packets_of};
use crate::export::verify::PacketHash;
use crate::probe::{MediaInfo, Rational, StreamInfo, StreamKind};
use crate::project::{ClipId, Placement, SequenceSettings, SourceId, Timeline};
use crate::tier::ExportTier;
use crate::time::{a_conversion_keeps_the_time, Rounding};
use vstd::prelude::*;

verus! {

/// A packet of the output is shown in a segment.
pub open spec fn shown_in(packet: PacketHash, from: int, to: int) -> bool {
    from - 1 <= packet.micros && packet.micros < to - 1
}

/// A packet is one of those known.
pub open spec fn is_one_of(packet: PacketHash, known: Seq<[u8; 32]>) -> bool {
    exists|k: int| 0 <= k < known.len() && (#[trigger] known[k])@ == packet.sha256@
}

proof fn lemma_counts(
    output: Seq<PacketHash>,
    known: Seq<[u8; 32]>,
    from: int,
    to: int,
    count: int,
)
    requires
        0 <= count <= output.len(),
    ensures
        identical(output, known, from, to, count) <= inside(output, from, to, count) <= count,
        inside(output, from, to, count) > 0 <==> exists|i: int|
            0 <= i < count && shown_in(#[trigger] output[i], from, to),
        identical(output, known, from, to, count) > 0 <==> exists|i: int|
            0 <= i < count && shown_in(#[trigger] output[i], from, to) && is_one_of(
                output[i],
                known,
            ),
        identical(output, known, from, to, count) < inside(output, from, to, count)
            <==> exists|i: int|
            0 <= i < count && shown_in(#[trigger] output[i], from, to) && !is_one_of(
                output[i],
                known,
            ),
    decreases count,
{
    if count > 0 {
        lemma_counts(output, known, from, to, count - 1);
        let last = output[count - 1];
        assert(shown_in(output[count - 1], from, to) || !shown_in(output[count - 1], from, to));
        if inside(output, from, to, count - 1) > 0 {
            let i = choose|i: int| 0 <= i < count - 1 && shown_in(#[trigger] output[i], from, to);
            assert(shown_in(output[i], from, to));
        }
        if identical(output, known, from, to, count - 1) > 0 {
            let i = choose|i: int|
                0 <= i < count - 1 && shown_in(#[trigger] output[i], from, to) && is_one_of(
                    output[i],
                    known,
                );
            assert(shown_in(output[i], from, to));
        }
        if identical(output, known, from, to, count - 1) < inside(output, from, to, count - 1) {
            let i = choose|i: int|
                0 <= i < count - 1 && shown_in(#[trigger] output[i], from, to) && !is_one_of(
                    output[i],
                    known,
                );
            assert(shown_in(output[i], from, to));
        }
    }
}

/// What a segment is said to have come to is what its packets show: copied
/// where every one of them is its source's, re-encoded where none is, some of
/// each otherwise, and empty where there is none. And it is as planned exactly
/// where that is what the plan said, a smart-cut that needed no encoding being
/// a copy.
pub proof fn what_is_measured_is_so(
    output: Seq<PacketHash>,
    known: Seq<[u8; 32]>,
    from: int,
    to: int,
    tier: ExportTier,
)
    requires
        output.len() <= u32::MAX,
    ensures
        ({
            let n = output.len() as int;
            let execution = execution_of(
                counted(inside(output, from, to, n)),
                counted(identical(output, known, from, to, n)),
            );
            let some = exists|i: int| 0 <= i < n && shown_in(#[trigger] output[i], from, to);
            let same = exists|i: int|
                0 <= i < n && shown_in(#[trigger] output[i], from, to) && is_one_of(
                    output[i],
                    known,
                );
            let other = exists|i: int|
                0 <= i < n && shown_in(#[trigger] output[i], from, to) && !is_one_of(
                    output[i],
                    known,
                );
            &&& execution == Execution::Empty <==> !some
            &&& execution == Execution::Copied <==> some && !other
            &&& execution == Execution::ReEncoded <==> some && !same
            &&& execution == Execution::PartlyReEncoded <==> same && other
            &&& some ==> (is_as_planned(tier, execution) <==> match tier {
                ExportTier::StreamCopy => !other,
                ExportTier::SmartCut { .. } => same,
                ExportTier::FullReEncode { .. } => !same,
            })
            &&& !some ==> is_as_planned(tier, execution)
        }),
{
    lemma_counts(output, known, from, to, output.len() as int);
}

/// Another packet is counted once, where it is shown in the segment, and as
/// identical where it is one of its sources'.
pub proof fn every_packet_counts_once(
    output: Seq<PacketHash>,
    known: Seq<[u8; 32]>,
    from: int,
    to: int,
    count: int,
)
    requires
        0 <= count < output.len(),
    ensures
        inside(output, from, to, 0) == 0 && identical(output, known, from, to, 0) == 0,
        inside(output, from, to, count + 1) - inside(output, from, to, count) == (if shown_in(
            output[count],
            from,
            to,
        ) {
            1int
        } else {
            0
        }),
        identical(output, known, from, to, count + 1) - identical(output, known, from, to, count)
            == (if shown_in(output[count], from, to) && is_one_of(output[count], known) {
            1int
        } else {
            0
        }),
{
}

/// A stream's totals are those of its segments together: a segment adds its
/// packets to its own stream, and nothing to the other.
pub proof fn a_segment_adds_to_its_own_stream(
    segments: Seq<ReportSegment>,
    media: Media,
    count: int,
)
    requires
        0 <= count < segments.len(),
    ensures
        packets_of(segments, media, 0) == 0 && identical_of(segments, media, 0) == 0,
        segments[count].media == media ==> packets_of(segments, media, count + 1) == packets_of(
            segments,
            media,
            count,
        ) + segments[count].measured.packets,
        segments[count].media == media ==> identical_of(segments, media, count + 1)
            == identical_of(segments, media, count) + segments[count].measured.identical,
        segments[count].media != media ==> packets_of(segments, media, count + 1) == packets_of(
            segments,
            media,
            count,
        ) && identical_of(segments, media, count + 1) == identical_of(segments, media, count),
{
}

/// What a reader of the plan is told before is kept: a plan is called lossless
/// exactly where every segment of it is copied, and exportable where none is
/// declined.
pub proof fn a_lossless_plan_copies_everything(
    timeline: Timeline,
    settings: SequenceSettings,
    sources: Map<SourceId, SourceFacts>,
    cuts: Seq<Vec<Option<Placement>>>,
)
    ensures
        planned(timeline, settings, sources, cuts) matches Ok(plan) ==> {
            &&& plan.summary.lossless <==> forall|i: int|
                0 <= i < plan.segments.len() ==> (#[trigger] plan.segments[i]).tier
                    == ExportTier::StreamCopy
            &&& plan.summary.exportable <==> forall|i: int|
                0 <= i < plan.segments.len() ==> (#[trigger] plan.segments[i]).decline is None
            &&& plan.length == timeline.length && plan.time_base == timeline.time_base
            &&& plan.sequence == settings
        },
{
    if let Ok(plan) = planned(timeline, settings, sources, cuts) {
        let video = crate::export::plan::video::video_plan(timeline, sources)->Ok_0.0;
        let audio = crate::export::plan::audio::audio_plan(timeline, sources, cuts)->Ok_0;
        let all = plan.segments;
        assert(all == video + audio);
        let n = video.len() as int;
        if all_copied(video) && all_copied(audio) {
            assert forall|i: int| 0 <= i < all.len() implies (#[trigger] all[i]).tier
                == ExportTier::StreamCopy by {
                if i < n {
                    assert(video[i].tier.lossless());
                } else {
                    assert(audio[i - n].tier.lossless());
                }
            }
        }
        if forall|i: int|
            0 <= i < all.len() ==> (#[trigger] all[i]).tier == ExportTier::StreamCopy {
            assert forall|i: int| 0 <= i < video.len() implies (
            #[trigger] video[i]).tier.lossless() by {
                assert(all[i].tier == ExportTier::StreamCopy);
            }
            assert forall|i: int| 0 <= i < audio.len() implies (
            #[trigger] audio[i]).tier.lossless() by {
                assert(all[n + i].tier == ExportTier::StreamCopy);
            }
        }
        if none_declined(video) && none_declined(audio) {
            assert forall|i: int| 0 <= i < all.len() implies (#[trigger] all[i]).decline is None by {
                if i < n {
                    assert(video[i].decline is None);
                } else {
                    assert(audio[i - n].decline is None);
                }
            }
        }
        if forall|i: int| 0 <= i < all.len() ==> (#[trigger] all[i]).decline is None {
            assert forall|i: int| 0 <= i < video.len() implies (
            #[trigger] video[i]).decline is None by {
                assert(all[i].decline is None);
            }
            assert forall|i: int| 0 <= i < audio.len() implies (
            #[trigger] audio[i]).decline is None by {
                assert(all[n + i].decline is None);
            }
        }
    }
}

/// The ticks of the first `count` windows together.
pub open spec fn window_ticks(windows: Seq<SeamWindow>, count: int) -> int
    decreases count,
{
    if count <= 0 {
        0
    } else {
        window_ticks(windows, count - 1) + (windows[count - 1].to - windows[count - 1].from)
    }
}

/// What the windows of a smart-cut take, in frames: at least as long as they
/// play, and not a frame more for each.
proof fn lemma_windows_take(
    windows: Seq<SeamWindow>,
    played: Rational,
    sequence: Rational,
    count: int,
)
    requires
        0 <= count <= windows.len(),
        forall|i: int| 0 <= i < windows.len() ==> (#[trigger] windows[i]).from <= windows[i].to,
        0 <= windows_length(windows, played, sequence, count) < i64::MAX,
        forall|i: int| 0 <= i < windows.len() ==> windows[i].to - windows[i].from <= i64::MAX,
        forall|i: int|
            0 <= i < windows.len() ==> window_length(#[trigger] windows[i], played, sequence) >= 0,
    ensures
        count > 0 ==> played.den * sequence.num > 0,
        ({
            let (n, d) = (played.num * sequence.den, played.den * sequence.num);
            let frames = windows_length(windows, played, sequence, count);
            let ticks = window_ticks(windows, count);
            &&& ticks * n <= frames * d
            &&& count > 0 ==> frames * d < ticks * n + count * d
        }),
    decreases count,
{
    let (n, d) = (played.num * sequence.den, played.den * sequence.num);
    if count > 0 {
        let window = windows[count - 1];
        assert(window_length(window, played, sequence) >= 0);
        assert(windows_length(windows, played, sequence, count - 1) >= 0) by {
            lemma_not_negative(windows, played, sequence, count - 1);
        }
        assert(windows_length(windows, played, sequence, count - 1) < i64::MAX);
        lemma_windows_take(windows, played, sequence, count - 1);
        let span = (window.to - window.from) as i64;
        a_conversion_keeps_the_time(span, played, sequence, Rounding::Up);
        let more = window_length(window, played, sequence) as int;
        let before = windows_length(windows, played, sequence, count - 1) as int;
        let ticks = window_ticks(windows, count - 1);
        assert(more != i64::MAX);
        assert(span * played.num * sequence.den == span * n) by (nonlinear_arith)
            requires
                n == played.num * sequence.den,
        ;
        assert((before + more) * d == before * d + more * d && (ticks + span) * n == ticks * n + span
            * n && count * d == (count - 1) * d + d) by (nonlinear_arith);
    } else {
        assert(0 * n == 0 && 0 * d == 0) by (nonlinear_arith);
    }
}

proof fn lemma_not_negative(
    windows: Seq<SeamWindow>,
    played: Rational,
    sequence: Rational,
    count: int,
)
    requires
        0 <= count <= windows.len(),
        forall|i: int|
            0 <= i < windows.len() ==> window_length(#[trigger] windows[i], played, sequence) >= 0,
    ensures
        windows_length(windows, played, sequence, count) >= 0,
    decreases count,
{
    if count > 0 {
        lemma_not_negative(windows, played, sequence, count - 1);
        assert(window_length(windows[count - 1], played, sequence) >= 0);
    }
}

/// What a segment is said to re-encode is what it does: nothing of a copy, all
/// of a whole re-encode, and of a smart-cut its windows: at least as many
/// frames as they play, less than one more for each, and never more than the
/// segment has.
pub proof fn a_segment_re_encodes_what_is_told(segment: SegmentModel, sequence: Rational)
    requires
        segment.length >= 0,
    ensures
        segment.tier is StreamCopy ==> encoded_frames(segment, sequence) == 0,
        segment.tier is FullReEncode ==> encoded_frames(segment, sequence) == segment.length,
        segment.tier is SmartCut ==> encoded_frames(segment, sequence) <= segment.length,
        ({
            let source = segment.sources[0];
            let played = Rational {
                num: (source.time_base.num * source.speed.den) as i64,
                den: (source.time_base.den * source.speed.num) as i64,
            };
            let (n, d) = (
                source.time_base.num * source.speed.den * sequence.den,
                source.time_base.den * source.speed.num * sequence.num,
            );
            let ticks = window_ticks(segment.windows, segment.windows.len() as int);
            let frames = encoded_frames(segment, sequence);
            segment.tier is SmartCut && segment.sources.len() > 0 && frames < segment.length
                && segment.windows.len() > 0 && 0 < source.time_base.num * source.speed.den
                <= i64::MAX && 0 < source.time_base.den * source.speed.num <= i64::MAX && (forall|
                i: int,
            |
                0 <= i < segment.windows.len() ==> (#[trigger] segment.windows[i]).from
                    <= segment.windows[i].to && segment.windows[i].to - segment.windows[i].from
                    <= i64::MAX) && (forall|i: int|
                0 <= i < segment.windows.len() ==> window_length(
                    #[trigger] segment.windows[i],
                    played,
                    sequence,
                ) >= 0) ==> ticks * n <= frames * d && frames * d < ticks * n
                + segment.windows.len() * d
        }),
{
    let source = segment.sources[0];
    let played = crate::export::plan::summary::played_base(source.time_base, source.speed);
    let count = segment.windows.len() as int;
    let frames = encoded_frames(segment, sequence);
    if segment.tier is SmartCut && segment.sources.len() > 0 && frames < segment.length && count > 0
        && 0 < source.time_base.num * source.speed.den <= i64::MAX && 0 < source.time_base.den
        * source.speed.num <= i64::MAX && (forall|i: int|
        0 <= i < count ==> (#[trigger] segment.windows[i]).from <= segment.windows[i].to
            && segment.windows[i].to - segment.windows[i].from <= i64::MAX) && (forall|i: int|
        0 <= i < count ==> window_length(#[trigger] segment.windows[i], played, sequence) >= 0) {
        lemma_not_negative(segment.windows, played, sequence, count);
        assert(windows_length(segment.windows, played, sequence, count) == frames);
        lemma_windows_take(segment.windows, played, sequence, count);
    }
}

/// The frames told of some segments are those of each together.
pub proof fn every_segment_counts(segments: Seq<SegmentModel>, sequence: Rational, count: int)
    requires
        0 <= count < segments.len(),
    ensures
        encoded(segments, sequence, 0) == 0,
        encoded(segments, sequence, count + 1) == encoded(segments, sequence, count)
            + encoded_frames(segments[count], sequence),
{
}

/// A volume that is said to hold an output does, and leaves a twentieth of it
/// and 64 MiB free.
pub proof fn an_output_that_fits_leaves_room(needed: u64, available: u64)
    ensures
        holds_output(needed, available) && available < u64::MAX ==> 20 * (available - needed
            - 67_108_864) >= needed,
        20 * (available - needed - 67_108_864) >= needed ==> holds_output(needed, available),
{
}

/// How far a cut is said to lie from a keyframe is the distance to the nearer
/// of the two that are named, of an in-point from there, of an out-point from
/// there.
pub proof fn a_cut_is_measured_to_the_nearer_keyframe(
    source: SourceModel,
    before: Option<i64>,
    after: Option<i64>,
    k: i64,
)
    requires
        before == Some(k) || after == Some(k),
    ensures
        cut_distance(
            CauseModel::InPointNotKeyframe { keyframe_before: before, keyframe_after: after },
            Some(source),
        ) matches Some(ticks) ==> {
            let cut = source.source_in;
            &&& ticks <= cut - k || ticks <= k - cut
            &&& before is Some && (ticks == cut - before->0 || ticks == before->0 - cut)
                || after is Some && (ticks == cut - after->0 || ticks == after->0 - cut)
        },
        cut_distance(
            CauseModel::OutPointNotKeyframe { keyframe_before: before, keyframe_after: after },
            Some(source),
        ) matches Some(ticks) ==> {
            let cut = source.source_out;
            &&& ticks <= cut - k || ticks <= k - cut
            &&& before is Some && (ticks == cut - before->0 || ticks == before->0 - cut)
                || after is Some && (ticks == cut - after->0 || ticks == after->0 - cut)
        },
{
}

/// Each reason is told where it applies: a cut's at its own end of the segment,
/// any other at the segment's start; and a decline is told with its remedy
/// behind them.
pub proof fn a_reason_is_told_where_it_applies(
    segment: Segment,
    wordings: Seq<Wording>,
    i: int,
)
    requires
        0 <= i < segment.causes@.len(),
        wordings.len() == segment.causes@.len(),
        segment.start + segment.length <= i64::MAX,
        segment.start >= 0 && segment.length >= 0,
    ensures
        ({
            let told = segment_reasons(segment, wordings)[i];
            let cause = segment.causes@[i]@;
            &&& told.media == segment.media && told.tier == segment.tier && !told.declined
            &&& cause is OutPointNotKeyframe || cause is OpenGopAtOutPoint ==> told.at
                == segment.start + segment.length
            &&& !(cause is OutPointNotKeyframe || cause is OpenGopAtOutPoint) ==> told.at
                == segment.start
        }),
        segment.decline is Some <==> segment_reasons(segment, wordings).len()
            == segment.causes@.len() + 1,
        segment.decline is Some ==> segment_reasons(segment, wordings).last().declined,
{
}

/// Nothing is left out of what is told: the reasons of every segment are among
/// all of them, in order.
pub proof fn every_segment_is_told_of(
    segments: Seq<Segment>,
    wordings: Seq<Vec<Wording>>,
    count: int,
    i: int,
) -> (at: int)
    requires
        0 <= i < count,
    ensures
        0 <= at,
        at + segment_reasons(segments[i], wordings[i]@).len() <= all_reasons(
            segments,
            wordings,
            count,
        ).len(),
        all_reasons(segments, wordings, count).subrange(
            at,
            at + segment_reasons(segments[i], wordings[i]@).len(),
        ) == segment_reasons(segments[i], wordings[i]@),
    decreases count,
{
    let all = all_reasons(segments, wordings, count);
    let before = all_reasons(segments, wordings, count - 1);
    let own = segment_reasons(segments[i], wordings[i]@);
    if i == count - 1 {
        let at = before.len() as int;
        assert(all.subrange(at, at + own.len()) =~= own);
        at
    } else {
        let at = every_segment_is_told_of(segments, wordings, count - 1, i);
        assert(all.subrange(at, at + own.len()) =~= before.subrange(at, at + own.len()));
        at
    }
}

/// A number of ticks in another base is the nearest.
pub open spec fn nearest_tick(ticks: i64, from: Rational, to: Rational, there: i64) -> bool {
    let (n, d) = (ticks * from.num * to.den, from.den * to.num);
    d > 0 && -d <= 2 * (n - there * d) < d
}

/// A snap moves a clip's own trim to the keyframes, and nothing else: the clip
/// plays forwards, its trim makes the cut, and its ends go to the keyframe
/// aligned cut in its own ticks.
pub proof fn a_snap_moves_the_clips_own_trim(
    source: SegmentSource,
    alternative: KeyframeAlternative,
    placement: Placement,
)
    ensures
        moved(source, alternative, placement) matches Some((from, to)) ==> {
            let (own, clip) = (source.time_base, placement.time_base);
            &&& placement.motion is None
            &&& nearest_tick(alternative.source_in, own, clip, from)
            &&& nearest_tick(alternative.source_out, own, clip, to)
            &&& crate::export::plan::faithful::floor_tick(
                source.source_in,
                own,
                clip,
                placement.source_in,
            )
            &&& crate::export::plan::faithful::ceiling_tick(
                source.source_out,
                own,
                clip,
                placement.source_out,
            )
        },
{
    let (own, clip) = (source.time_base, placement.time_base);
    a_conversion_keeps_the_time(alternative.source_in, own, clip, Rounding::Nearest);
    a_conversion_keeps_the_time(alternative.source_out, own, clip, Rounding::Nearest);
    a_conversion_keeps_the_time(source.source_in, own, clip, Rounding::Down);
    a_conversion_keeps_the_time(source.source_out, own, clip, Rounding::Up);
}

/// A clip is found on whatever track it is.
proof fn lemma_clip_in(placements: Seq<Placement>, clip: ClipId, i: int)
    requires
        0 <= i,
    ensures
        match clip_in(placements, clip, i) {
            Some(found) => found.clip == clip && exists|k: int|
                i <= k < placements.len() && #[trigger] placements[k] == found,
            None => forall|k: int|
                i <= k < placements.len() ==> (#[trigger] placements[k]).clip != clip,
        },
    decreases placements.len() - i,
{
    if i < placements.len() {
        if placements[i].clip == clip {
            assert(placements[i] == clip_in(placements, clip, i)->0);
        } else {
            lemma_clip_in(placements, clip, i + 1);
            if clip_in(placements, clip, i) is Some {
                let k = choose|k: int|
                    i + 1 <= k < placements.len() && #[trigger] placements[k] == clip_in(
                        placements,
                        clip,
                        i,
                    )->0;
                assert(placements[k] == clip_in(placements, clip, i)->0);
            }
        }
    }
}

/// A snap offers a cut for every smart-cut that has a place to move to and is
/// its clip's own, and counts every other; each cut is told with how far its
/// ends move.
pub proof fn every_smart_cut_is_offered_or_counted(
    segments: Seq<Segment>,
    timeline: Timeline,
    count: int,
)
    requires
        0 <= count < segments.len(),
    ensures
        ({
            let before = offer_of(segments, timeline, count);
            let after = offer_of(segments, timeline, count + 1);
            let segment = segments[count];
            let smart = segment.media == Media::Video && segment.tier is SmartCut
                && segment.alternative is Some;
            &&& !smart ==> after == before
            &&& smart && snapped(segment, timeline) is None ==> after.unsnappable
                == before.unsnappable + 1 && after.snaps == before.snaps && after.cuts
                == before.cuts
            &&& smart ==> (snapped(segment, timeline) matches Some((placement, from, to)) ==> {
                &&& after.unsnappable == before.unsnappable
                &&& exists|k: int|
                    0 <= k < after.snaps.len() && (#[trigger] after.snaps[k]).clip
                        == placement.clip
                &&& after.snaps.len() == before.snaps.len() || {
                    let (snap, cut) = (after.snaps.last(), after.cuts.last());
                    &&& snap.clip == placement.clip && snap.from == from && snap.to == to
                    &&& cut.clip == placement.clip && cut.at == placement.start
                    &&& cut.time_base == placement.time_base && cut.speed == placement.speed
                    &&& i64::MIN <= from - placement.source_in <= i64::MAX ==> cut.in_shift == from
                        - placement.source_in
                    &&& i64::MIN <= to - placement.source_out <= i64::MAX ==> cut.out_shift == to
                        - placement.source_out
                }
            })
        }),
{
    let before = offer_of(segments, timeline, count);
    let after = offer_of(segments, timeline, count + 1);
    let segment = segments[count];
    if offers(segment) {
        if let Some((placement, from, to)) = snapped(segment, timeline) {
            if !crate::export::overview::is_snapped(before.snaps, placement.clip) {
                assert(after.snaps[before.snaps.len() as int].clip == placement.clip);
            }
        }
    }
}

/// The clip that a snap moves is the segment's own, wherever in the timeline it
/// stands.
pub proof fn a_snap_is_of_the_segments_clip(segment: Segment, timeline: Timeline)
    ensures
        snapped(segment, timeline) matches Some((placement, _, _)) ==> segment.sources@.len() == 1
            && placement.clip == segment.sources@[0].clip,
{
    if segment.sources@.len() == 1 {
        lemma_clip_from(timeline, segment.sources@[0].clip, 0);
    }
}

proof fn lemma_clip_from(timeline: Timeline, clip: ClipId, t: int)
    requires
        0 <= t,
    ensures
        clip_from(timeline, clip, t) matches Some(found) ==> found.clip == clip,
    decreases timeline.tracks@.len() - t,
{
    if t < timeline.tracks@.len() {
        lemma_clip_in(timeline.tracks@[t].placements@, clip, 0);
        lemma_clip_from(timeline, clip, t + 1);
    }
}

/// How a rate is known. One that the file records is its own; one that alone is
/// not recorded is what the rest leave of the file's; a sound among several is
/// assumed from its channels, and pictures share what is left. Nothing is known
/// of a stream that is not there.
pub proof fn a_rate_is_known_as_it_is_told(info: MediaInfo, index: u32, stated: bool, at: int)
    requires
        0 <= at < info.streams@.len(),
        info.streams@[at].index == index,
        forall|i: int| 0 <= i < at ==> (#[trigger] info.streams@[i]).index != index,
    ensures
        ({
            let streams = info.streams@;
            let own = streams[at];
            let alone = forall|i: int|
                0 <= i < streams.len() && i != at ==> (#[trigger] streams[i]).kilobits is Some;
            let known = basis(info, index, stated);
            &&& own.kilobits is Some ==> known == Some(Basis::Recorded)
            &&& own.kilobits is None && alone ==> known == (if stated {
                Some(Basis::Remaining)
            } else {
                None
            })
            &&& own.kilobits is None && !alone ==> match own.kind {
                StreamKind::Audio(audio) => known == (match audio.channels {
                    Some(channels) => Some(Basis::Assumed { channels }),
                    None => None,
                }),
                _ => known is Some <==> stated,
            }
            &&& known == Some(Basis::Recorded) <==> own.kilobits is Some
        }),
{
    lemma_numbered(info, index, 0, at);
    if info.streams@[at].kilobits is None {
        lemma_unrecorded(info.streams@, at, info.streams@.len() as int);
    }
}

proof fn lemma_numbered(info: MediaInfo, index: u32, from: int, at: int)
    requires
        0 <= from <= at < info.streams@.len(),
        info.streams@[at].index == index,
        forall|i: int| from <= i < at ==> (#[trigger] info.streams@[i]).index != index,
    ensures
        stream_numbered(info, index, from) == at,
    decreases at - from,
{
    if from < at {
        assert(info.streams@[from].index != index);
        lemma_numbered(info, index, from + 1, at);
    }
}

proof fn lemma_unrecorded(streams: Seq<StreamInfo>, at: int, count: int)
    requires
        0 <= at < streams.len(),
        0 <= count <= streams.len(),
        streams[at].kilobits is None,
    ensures
        unrecorded(streams, count) >= (if at < count {
            1nat
        } else {
            0
        }),
        at < count ==> (unrecorded(streams, count) == 1 <==> forall|i: int|
            0 <= i < count && i != at ==> (#[trigger] streams[i]).kilobits is Some),
        at >= count ==> (unrecorded(streams, count) == 0 <==> forall|i: int|
            0 <= i < count && i != at ==> (#[trigger] streams[i]).kilobits is Some),
    decreases count,
{
    if count > 0 {
        lemma_unrecorded(streams, at, count - 1);
        assert(streams[count - 1].kilobits is Some || streams[count - 1].kilobits is None);
        if unrecorded(streams, count) == unrecorded(streams, count - 1) {
            assert forall|i: int| 0 <= i < count && i != at && (forall|k: int|
                0 <= k < count - 1 && k != at ==> (
                #[trigger] streams[k]).kilobits is Some) implies (
            #[trigger] streams[i]).kilobits is Some by {}
        }
    }
}

/// Whose rate counts for the size: of what is copied or cut smart its source's,
/// of pictures that are rendered the reference's, of encoded sound the
/// encoding's.
pub proof fn a_stretch_weighs_what_makes_it(segment: Segment)
    ensures
        segment.tier is FullReEncode && segment.media == Media::Video ==> load(segment)
            == Load::Reference,
        segment.tier is FullReEncode && segment.media == Media::Audio ==> load(segment)
            == Load::Encoding,
        !(segment.tier is FullReEncode) && segment.sources@.len() > 0 ==> load(segment)
            == Load::Source,
        !(segment.tier is FullReEncode) && segment.sources@.len() == 0 ==> load(segment)
            == Load::Nothing,
{
}

/// A cut with a keyframe on either side is measured.
pub proof fn a_cut_with_a_keyframe_is_measured(
    source: SourceModel,
    before: Option<i64>,
    after: Option<i64>,
)
    requires
        before is Some || after is Some,
        before matches Some(k) ==> -0x4000_0000_0000_0000 <= k < 0x4000_0000_0000_0000,
        after matches Some(k) ==> -0x4000_0000_0000_0000 <= k < 0x4000_0000_0000_0000,
        -0x4000_0000_0000_0000 < source.source_in < 0x4000_0000_0000_0000,
        -0x4000_0000_0000_0000 < source.source_out < 0x4000_0000_0000_0000,
    ensures
        cut_distance(
            CauseModel::InPointNotKeyframe { keyframe_before: before, keyframe_after: after },
            Some(source),
        ) is Some,
        cut_distance(
            CauseModel::OutPointNotKeyframe { keyframe_before: before, keyframe_after: after },
            Some(source),
        ) is Some,
{
}

/// A clip's trim is moved wherever it is the segment's own, and its pictures
/// play on.
pub proof fn a_trim_is_moved_where_it_is_the_segments(
    source: SegmentSource,
    alternative: KeyframeAlternative,
    placement: Placement,
)
    ensures
        ({
            let (own, clip) = (source.time_base, placement.time_base);
            let down = crate::time::Rounding::Down;
            let up = crate::time::Rounding::Up;
            let nearest = crate::time::Rounding::Nearest;
            moved(source, alternative, placement) is Some <==> placement.motion is None
                && crate::time::rescaled(source.source_in, own, clip, down) == Some(
                placement.source_in,
            ) && crate::time::rescaled(source.source_out, own, clip, up) == Some(
                placement.source_out,
            ) && crate::time::rescaled(alternative.source_in, own, clip, nearest) is Some
                && crate::time::rescaled(alternative.source_out, own, clip, nearest) is Some
        }),
{
}

/// The clip that is moved is the first with the segment's number.
pub proof fn a_snap_is_found_on_its_track(segment: Segment, timeline: Timeline, t: int, i: int)
    requires
        segment.sources@.len() == 1,
        segment.alternative is Some,
        0 <= t < timeline.tracks@.len(),
        0 <= i < timeline.tracks@[t].placements@.len(),
        timeline.tracks@[t].placements@[i].clip == segment.sources@[0].clip,
        forall|a: int, b: int|
            0 <= a < timeline.tracks@.len() && 0 <= b < (
            #[trigger] timeline.tracks@[a]).placements@.len() && (a < t || a == t && b < i) ==> (
            #[trigger] timeline.tracks@[a].placements@[b]).clip != segment.sources@[0].clip,
    ensures
        snapped(segment, timeline) is Some <==> moved(
            segment.sources@[0],
            segment.alternative->0,
            timeline.tracks@[t].placements@[i],
        ) is Some,
        snapped(segment, timeline) matches Some((placement, _, _)) ==> placement
            == timeline.tracks@[t].placements@[i],
{
    lemma_clip_there(timeline, segment.sources@[0].clip, 0, t, i);
}

proof fn lemma_clip_there(
    timeline: Timeline,
    clip: ClipId,
    from: int,
    t: int,
    i: int,
)
    requires
        0 <= from <= t < timeline.tracks@.len(),
        0 <= i < timeline.tracks@[t].placements@.len(),
        timeline.tracks@[t].placements@[i].clip == clip,
        forall|a: int, b: int|
            0 <= a < timeline.tracks@.len() && 0 <= b < (
            #[trigger] timeline.tracks@[a]).placements@.len() && (a < t || a == t && b < i) ==> (
            #[trigger] timeline.tracks@[a].placements@[b]).clip != clip,
    ensures
        crate::export::overview::clip_from(timeline, clip, from) == Some(
            timeline.tracks@[t].placements@[i],
        ),
    decreases t - from,
{
    let list = timeline.tracks@[from].placements@;
    if from < t {
        assert forall|b: int| 0 <= b < list.len() implies (#[trigger] list[b]).clip != clip by {
            assert(timeline.tracks@[from].placements@[b].clip != clip);
        }
        lemma_clip_among(list, clip, 0, list.len() as int);
        lemma_clip_there(timeline, clip, from + 1, t, i);
    } else {
        assert forall|b: int| 0 <= b < i implies (#[trigger] list[b]).clip != clip by {
            assert(timeline.tracks@[from].placements@[b].clip != clip);
        }
        lemma_clip_among(list, clip, 0, i);
    }
}

proof fn lemma_clip_among(
    list: Seq<Placement>,
    clip: ClipId,
    from: int,
    i: int,
)
    requires
        0 <= from <= i <= list.len(),
        forall|b: int| from <= b < i ==> (#[trigger] list[b]).clip != clip,
        i < list.len() ==> list[i].clip == clip,
    ensures
        i < list.len() ==> crate::export::overview::clip_in(list, clip, from) == Some(list[i]),
        i == list.len() ==> crate::export::overview::clip_in(list, clip, from) is None,
    decreases i - from,
{
    if from < i {
        assert(list[from].clip != clip);
        lemma_clip_among(list, clip, from + 1, i);
    }
}

} // verus!
