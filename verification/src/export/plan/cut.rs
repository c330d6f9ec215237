//! Where a copy may start and end, and what a cut elsewhere costs.
use crate::export::plan::{
    causes_in, in_order, Cause, CauseModel, Effect, KeyframeAlternative, KeyframePoint, SeamWindow,
    VideoFacts,
};
use crate::num::{larger, max, min, smaller};
use crate::tier::{ExportTier, ReEncodeReason};
use vstd::prelude::*;

verus! {

/// The first cause at `at` or behind that re-encodes the whole segment.
pub open spec fn first_whole(causes: Seq<CauseModel>, at: int) -> Option<ReEncodeReason>
    decreases causes.len() - at,
{
    if at >= causes.len() {
        None
    } else {
        match causes[at].effect() {
            Effect::Whole(reason) => Some(reason),
            Effect::Seam(_) => first_whole(causes, at + 1),
        }
    }
}

/// A segment's tier from its causes: any whole-segment cause makes it a
/// re-encode, named by the first; otherwise the first seam makes it a
/// smart-cut; otherwise it is a copy.
pub open spec fn tier_for(causes: Seq<CauseModel>) -> ExportTier {
    match first_whole(causes, 0) {
        Some(reason) => ExportTier::FullReEncode { reason },
        None => if causes.len() == 0 {
            ExportTier::StreamCopy
        } else {
            match causes[0].effect() {
                Effect::Seam(reason) => ExportTier::SmartCut { reason },
                Effect::Whole(reason) => ExportTier::FullReEncode { reason },
            }
        },
    }
}

/// Every cause at `at` or behind is a seam.
pub open spec fn only_seams(causes: Seq<CauseModel>) -> bool {
    forall|i: int| 0 <= i < causes.len() ==> (#[trigger] causes[i]).effect() is Seam
}

/// Decide a segment's tier from its causes.
pub fn tier_of(causes: &Vec<Cause>) -> (tier: ExportTier)
    ensures
        tier == tier_for(causes_in(causes@)),
{
    let ghost all = causes_in(causes@);
    let mut i: usize = 0;
    while i < causes.len()
        invariant
            i <= causes@.len(),
            all == causes_in(causes@),
            first_whole(all, 0) == first_whole(all, i as int),
        decreases causes@.len() - i,
    {
        if let Effect::Whole(reason) = causes[i].effect() {
            return ExportTier::FullReEncode { reason };
        }
        i += 1;
    }
    if causes.len() == 0 {
        return ExportTier::StreamCopy;
    }
    match causes[0].effect() {
        Effect::Seam(reason) => ExportTier::SmartCut { reason },
        Effect::Whole(reason) => ExportTier::FullReEncode { reason },
    }
}

/// Whether every cause is a seam.
pub fn are_seams(causes: &Vec<Cause>) -> (yes: bool)
    ensures
        yes == only_seams(causes_in(causes@)),
{
    let ghost all = causes_in(causes@);
    let mut i: usize = 0;
    while i < causes.len()
        invariant
            i <= causes@.len(),
            all == causes_in(causes@),
            forall|j: int| 0 <= j < i ==> (#[trigger] all[j]).effect() is Seam,
        decreases causes@.len() - i,
    {
        assert(all[i as int] == causes@[i as int]@);
        match causes[i].effect() {
            Effect::Whole(_) => {
                return false;
            },
            Effect::Seam(_) => {},
        }
        i += 1;
    }
    true
}

/// A whole-segment cause is found where there is one.
proof fn lemma_first_whole(causes: Seq<CauseModel>, at: int)
    requires
        0 <= at <= causes.len(),
    ensures
        first_whole(causes, at) is None <==> forall|i: int|
            at <= i < causes.len() ==> (#[trigger] causes[i]).effect() is Seam,
    decreases causes.len() - at,
{
    if at < causes.len() {
        lemma_first_whole(causes, at + 1);
    }
}

/// A segment is copied exactly when nothing speaks against it, and cut smart
/// exactly when something does and all of it is at a seam.
pub proof fn a_copy_has_no_cause(causes: Seq<CauseModel>)
    ensures
        tier_for(causes).lossless() <==> causes.len() == 0,
        tier_for(causes) is SmartCut <==> causes.len() > 0 && only_seams(causes),
{
    lemma_first_whole(causes, 0);
}

/// The lowest tier that satisfies the edit is chosen: nothing is re-encoded
/// without a cause, and nothing whole where every cause is at a seam.
pub proof fn the_lowest_tier_is_chosen(causes: Seq<CauseModel>)
    ensures
        causes.len() == 0 ==> tier_for(causes) is StreamCopy,
        causes.len() > 0 && only_seams(causes) ==> tier_for(causes) is SmartCut,
        tier_for(causes) is FullReEncode ==> exists|i: int|
            0 <= i < causes.len() && (#[trigger] causes[i]).effect() is Whole,
{
    lemma_first_whole(causes, 0);
    if tier_for(causes) is FullReEncode {
        assert(causes.len() > 0);
        if first_whole(causes, 0) is None {
            assert(causes[0].effect() is Seam);
        }
        let i = choose|i: int| 0 <= i < causes.len() && !((#[trigger] causes[i]).effect() is Seam);
        assert(causes[i].effect() is Whole);
    }
}

/// The first keyframe at `at` or behind that is meant.
pub open spec fn first_of(
    keyframes: Seq<KeyframePoint>,
    meant: spec_fn(KeyframePoint) -> bool,
    at: int,
) -> Option<KeyframePoint>
    decreases keyframes.len() - at,
{
    if at >= keyframes.len() {
        None
    } else if meant(keyframes[at]) {
        Some(keyframes[at])
    } else {
        first_of(keyframes, meant, at + 1)
    }
}

/// The last of the first `count` keyframes that is meant.
pub open spec fn last_of(
    keyframes: Seq<KeyframePoint>,
    meant: spec_fn(KeyframePoint) -> bool,
    count: int,
) -> Option<KeyframePoint>
    decreases count,
{
    if count <= 0 {
        None
    } else if meant(keyframes[count - 1]) {
        Some(keyframes[count - 1])
    } else {
        last_of(keyframes, meant, count - 1)
    }
}

/// The keyframe at or after a tick.
pub open spec fn after(keyframes: Seq<KeyframePoint>, pts: i64) -> Option<KeyframePoint> {
    first_of(keyframes, |k: KeyframePoint| k.pts >= pts, 0)
}

/// The last keyframe before a tick.
pub open spec fn before(keyframes: Seq<KeyframePoint>, pts: i64) -> Option<KeyframePoint> {
    last_of(keyframes, |k: KeyframePoint| k.pts < pts, keyframes.len() as int)
}

/// The keyframe at a tick, or the last before it.
pub open spec fn at_or_before(keyframes: Seq<KeyframePoint>, pts: i64) -> Option<KeyframePoint> {
    match after(keyframes, pts) {
        Some(k) => if k.pts == pts {
            Some(k)
        } else {
            before(keyframes, pts)
        },
        None => before(keyframes, pts),
    }
}

/// The first keyframe after a tick that a copy may start on.
pub open spec fn next_start(keyframes: Seq<KeyframePoint>, pts: i64) -> Option<KeyframePoint> {
    first_of(keyframes, |k: KeyframePoint| k.pts > pts && k.random_access, 0)
}

/// The last keyframe at or before a tick that a copy may start on.
pub open spec fn start_before(keyframes: Seq<KeyframePoint>, pts: i64) -> Option<KeyframePoint> {
    last_of(
        keyframes,
        |k: KeyframePoint| k.pts <= pts && k.random_access,
        keyframes.len() as int,
    )
}

/// When a keyframe is shown, if there is one.
pub open spec fn shown(keyframe: Option<KeyframePoint>) -> Option<i64> {
    match keyframe {
        Some(k) => Some(k.pts),
        None => None,
    }
}

/// When a keyframe is shown, if there is one.
fn pts_of(keyframe: Option<KeyframePoint>) -> (pts: Option<i64>)
    ensures
        pts == shown(keyframe),
{
    match keyframe {
        Some(k) => Some(k.pts),
        None => None,
    }
}

/// The first keyframe of `video` after `pts` that a copy may start on.
fn next_random_access(video: &VideoFacts, pts: i64) -> (found: Option<KeyframePoint>)
    ensures
        found == next_start(video.keyframes@, pts),
{
    let ghost meant = |k: KeyframePoint| k.pts > pts && k.random_access;
    let mut i: usize = 0;
    while i < video.keyframes.len()
        invariant
            i <= video.keyframes@.len(),
            meant == (|k: KeyframePoint| k.pts > pts && k.random_access),
            first_of(video.keyframes@, meant, 0) == first_of(video.keyframes@, meant, i as int),
        decreases video.keyframes@.len() - i,
    {
        let k = video.keyframes[i];
        if k.pts > pts && k.random_access {
            return Some(k);
        }
        i += 1;
    }
    None
}

/// The last keyframe of `video` at or before `pts` that a copy may start on.
fn random_access_before(video: &VideoFacts, pts: i64) -> (found: Option<KeyframePoint>)
    ensures
        found == start_before(video.keyframes@, pts),
{
    let ghost meant = |k: KeyframePoint| k.pts <= pts && k.random_access;
    let mut i: usize = video.keyframes.len();
    while i > 0
        invariant
            i <= video.keyframes@.len(),
            meant == (|k: KeyframePoint| k.pts <= pts && k.random_access),
            last_of(video.keyframes@, meant, video.keyframes@.len() as int) == last_of(
                video.keyframes@,
                meant,
                i as int,
            ),
        decreases i,
    {
        let k = video.keyframes[i - 1];
        if k.pts <= pts && k.random_access {
            return Some(k);
        }
        i -= 1;
    }
    None
}

/// The last keyframe of `video` before `pts`.
fn keyframe_before(video: &VideoFacts, pts: i64) -> (found: Option<KeyframePoint>)
    ensures
        found == before(video.keyframes@, pts),
{
    let ghost meant = |k: KeyframePoint| k.pts < pts;
    let mut i: usize = video.keyframes.len();
    while i > 0
        invariant
            i <= video.keyframes@.len(),
            meant == (|k: KeyframePoint| k.pts < pts),
            last_of(video.keyframes@, meant, video.keyframes@.len() as int) == last_of(
                video.keyframes@,
                meant,
                i as int,
            ),
        decreases i,
    {
        let k = video.keyframes[i - 1];
        if k.pts < pts {
            return Some(k);
        }
        i -= 1;
    }
    None
}

/// The first keyframe at or after a tick stands where all before it are
/// earlier and it is not.
proof fn lemma_after(keyframes: Seq<KeyframePoint>, pts: i64, at: int, place: int)
    requires
        0 <= at <= place <= keyframes.len(),
        forall|i: int| at <= i < place ==> (#[trigger] keyframes[i]).pts < pts,
        place < keyframes.len() ==> keyframes[place].pts >= pts,
    ensures
        first_of(keyframes, |k: KeyframePoint| k.pts >= pts, at) == (if place < keyframes.len() {
            Some(keyframes[place])
        } else {
            None
        }),
    decreases place - at,
{
    if at < place {
        lemma_after(keyframes, pts, at + 1, place);
    }
}

/// The last keyframe before a tick stands just before the first that is not.
proof fn lemma_before(keyframes: Seq<KeyframePoint>, pts: i64, place: int, count: int)
    requires
        0 <= place <= count <= keyframes.len(),
        forall|i: int| place <= i < count ==> (#[trigger] keyframes[i]).pts >= pts,
        place > 0 ==> keyframes[place - 1].pts < pts,
    ensures
        last_of(keyframes, |k: KeyframePoint| k.pts < pts, count) == (if place > 0 {
            Some(keyframes[place - 1])
        } else {
            None
        }),
    decreases count - place,
{
    if place < count {
        lemma_before(keyframes, pts, place, count - 1);
    }
}

/// The keyframes of `video` at or before and at or after `pts`.
fn around(video: &VideoFacts, pts: i64) -> (both: (Option<KeyframePoint>, Option<KeyframePoint>))
    requires
        video.wf(),
    ensures
        both.0 == at_or_before(video.keyframes@, pts),
        both.1 == after(video.keyframes@, pts),
{
    let keyframes = &video.keyframes;
    let mut low: usize = 0;
    let mut high: usize = keyframes.len();
    while low < high
        invariant
            low <= high <= keyframes@.len(),
            in_order(keyframes@),
            forall|i: int| 0 <= i < low ==> (#[trigger] keyframes@[i]).pts < pts,
            forall|i: int| high <= i < keyframes@.len() ==> (#[trigger] keyframes@[i]).pts >= pts,
        decreases high - low,
    {
        let middle: usize = low + (high - low) / 2;
        if keyframes[middle].pts < pts {
            low = middle + 1;
        } else {
            high = middle;
        }
    }
    proof {
        lemma_after(keyframes@, pts, 0, low as int);
        lemma_before(keyframes@, pts, low as int, keyframes@.len() as int);
    }
    let earlier = if low > 0 {
        Some(keyframes[low - 1])
    } else {
        None
    };
    if low < keyframes.len() {
        let k = keyframes[low];
        if k.pts == pts {
            (Some(k), Some(k))
        } else {
            (earlier, Some(k))
        }
    } else {
        (earlier, None)
    }
}

/// A copy of a stream may end at a tick: at the end of the stream, on a
/// keyframe whose group is closed, or anywhere at all in a stream that never
/// reorders.
pub open spec fn ends_clean(video: VideoFacts, pts: i64) -> bool {
    ||| !video.reorders
    ||| video.end is Some && pts >= video.end->0
    ||| after(video.keyframes@, pts) matches Some(k) && k.pts == pts && !k.open
}

/// Whether a copy of `video` may end at `pts`.
fn clean_end(video: &VideoFacts, pts: i64) -> (yes: bool)
    requires
        video.wf(),
    ensures
        yes == ends_clean(*video, pts),
{
    if !video.reorders {
        return true;
    }
    if let Some(end) = video.end {
        if pts >= end {
            return true;
        }
    }
    match around(video, pts).1 {
        Some(k) => k.pts == pts && !k.open,
        None => false,
    }
}

/// A copy may start at a tick: on a random-access keyframe.
pub open spec fn starts_clean(video: VideoFacts, pts: i64) -> bool {
    at_or_before(video.keyframes@, pts) matches Some(k) && k.pts == pts && k.random_access
}

/// Nothing is known of a keyframe at a tick, and the list is not complete.
pub open spec fn start_unknown(video: VideoFacts, pts: i64) -> bool {
    !video.keyframes_complete && !(at_or_before(video.keyframes@, pts) matches Some(k) && k.pts
        == pts)
}

/// Nothing is known of a keyframe at the tick that a copy ends on, and the
/// list is not complete.
pub open spec fn end_unknown(video: VideoFacts, pts: i64) -> bool {
    !video.keyframes_complete && !(after(video.keyframes@, pts) matches Some(k) && k.pts == pts)
}

/// The seam at an in-point that no copy may start on.
pub open spec fn head_cause(video: VideoFacts, from: i64) -> CauseModel {
    CauseModel::InPointNotKeyframe {
        keyframe_before: shown(start_before(video.keyframes@, from)),
        keyframe_after: shown(next_start(video.keyframes@, from)),
    }
}

/// The pictures re-encoded at an in-point that no copy may start on: up to the
/// next keyframe that one may start on, or to the end.
pub open spec fn head_window(video: VideoFacts, from: i64, to: i64) -> SeamWindow {
    SeamWindow {
        from,
        to: match next_start(video.keyframes@, from) {
            Some(k) => smaller(k.pts as int, to as int) as i64,
            None => to,
        },
    }
}

/// The seam at an out-point that no copy may end on.
pub open spec fn tail_cause(video: VideoFacts, to: i64) -> CauseModel {
    let next = after(video.keyframes@, to);
    if next is Some && next->0.pts == to {
        CauseModel::OpenGopAtOutPoint { keyframe: to }
    } else {
        CauseModel::OutPointNotKeyframe {
            keyframe_before: shown(at_or_before(video.keyframes@, to)),
            keyframe_after: shown(next),
        }
    }
}

/// Where the group that an out-point ends in starts, within the clip.
pub open spec fn tail_from(video: VideoFacts, from: i64, to: i64) -> i64 {
    match before(video.keyframes@, to) {
        Some(k) => larger(k.pts as int, from as int) as i64,
        None => from,
    }
}

/// The seam causes of a copy of `from..to`: its head's, unless a copy may
/// start there, and its tail's, unless one may end there. Where either is not
/// known, only that.
pub open spec fn seam_causes(video: VideoFacts, from: i64, to: i64) -> Seq<CauseModel> {
    if (!starts_clean(video, from) && start_unknown(video, from)) || (!ends_clean(video, to)
        && end_unknown(video, to)) {
        seq![CauseModel::KeyframesUnknown]
    } else {
        (if starts_clean(video, from) {
            Seq::empty()
        } else {
            seq![head_cause(video, from)]
        }) + (if ends_clean(video, to) {
            Seq::empty()
        } else {
            seq![tail_cause(video, to)]
        })
    }
}

/// The windows of the seams of a copy of `from..to`. Two that meet are one.
pub open spec fn seam_windows(video: VideoFacts, from: i64, to: i64) -> Seq<SeamWindow> {
    let head = head_window(video, from, to);
    let start = tail_from(video, from, to);
    if (!starts_clean(video, from) && start_unknown(video, from)) || (!ends_clean(video, to)
        && end_unknown(video, to)) {
        Seq::empty()
    } else if starts_clean(video, from) {
        if ends_clean(video, to) {
            Seq::empty()
        } else {
            seq![SeamWindow { from: start, to }]
        }
    } else if ends_clean(video, to) {
        seq![head]
    } else if head.to >= start {
        seq![SeamWindow { from, to }]
    } else {
        seq![head, SeamWindow { from: start, to }]
    }
}

/// The seam causes and windows of a copy of `from..to` from `video`.
pub fn boundaries(video: &VideoFacts, from: i64, to: i64) -> (seams: (Vec<Cause>, Vec<SeamWindow>))
    requires
        video.wf(),
    ensures
        causes_in(seams.0@) == seam_causes(*video, from, to),
        seams.1@ == seam_windows(*video, from, to),
{
    let mut causes: Vec<Cause> = Vec::new();
    let mut windows: Vec<SeamWindow> = Vec::new();
    let (before_in, _) = around(video, from);
    let (known, aligned) = match before_in {
        Some(k) => (k.pts == from, k.pts == from && k.random_access),
        None => (false, false),
    };
    let clean = clean_end(video, to);
    let (before_out, after_out) = around(video, to);
    let on_keyframe = match after_out {
        Some(k) => k.pts == to,
        None => false,
    };
    if !video.keyframes_complete && ((!aligned && !known) || (!clean && !on_keyframe)) {
        causes.push(Cause::KeyframesUnknown);
        proof {
            assert(causes_in(causes@) =~= seq![CauseModel::KeyframesUnknown]);
        }
        return (causes, windows);
    }
    if !aligned {
        let next = next_random_access(video, from);
        causes.push(
            Cause::InPointNotKeyframe {
                keyframe_before: pts_of(random_access_before(video, from)),
                keyframe_after: pts_of(next),
            },
        );
        let reach = match next {
            Some(k) => min(k.pts, to),
            None => to,
        };
        windows.push(SeamWindow { from, to: reach });
    }
    if !clean {
        causes.push(
            if on_keyframe {
                Cause::OpenGopAtOutPoint { keyframe: to }
            } else {
                Cause::OutPointNotKeyframe {
                    keyframe_before: pts_of(before_out),
                    keyframe_after: pts_of(after_out),
                }
            },
        );
        let start = match keyframe_before(video, to) {
            Some(k) => max(k.pts, from),
            None => from,
        };
        if !aligned && windows[0].to >= start {
            windows.set(0, SeamWindow { from, to });
        } else {
            windows.push(SeamWindow { from: start, to });
        }
    }
    proof {
        assert(causes_in(causes@) =~= seam_causes(*video, from, to));
        assert(windows@ =~= seam_windows(*video, from, to));
    }
    (causes, windows)
}

/// How far two ticks lie apart.
pub open spec fn distance(a: i64, b: i64) -> int {
    if a >= b {
        a - b
    } else {
        b - a
    }
}

/// How far two ticks lie apart.
fn apart(a: i64, b: i64) -> (ticks: u64)
    ensures
        ticks == distance(a, b),
{
    let wide: i128 = a as i128 - b as i128;
    if wide >= 0 {
        wide as u64
    } else {
        (-wide) as u64
    }
}

/// The nearest of the first `count` keyframes that is meant: the earlier of
/// two as near.
pub open spec fn nearest_of(
    keyframes: Seq<KeyframePoint>,
    meant: spec_fn(KeyframePoint) -> bool,
    pts: i64,
    count: int,
) -> Option<i64>
    decreases count,
{
    if count <= 0 {
        None
    } else {
        let best = nearest_of(keyframes, meant, pts, count - 1);
        let k = keyframes[count - 1];
        if meant(k) && (best is None || distance(k.pts, pts) < distance(best->0, pts)) {
            Some(k.pts)
        } else {
            best
        }
    }
}

/// The nearest keyframe that a copy may start on.
pub open spec fn nearest_start(keyframes: Seq<KeyframePoint>, pts: i64) -> Option<i64> {
    nearest_of(keyframes, |k: KeyframePoint| k.random_access, pts, keyframes.len() as int)
}

/// The nearest keyframe behind `start` that a copy may end on.
pub open spec fn nearest_end(keyframes: Seq<KeyframePoint>, pts: i64, start: i64) -> Option<i64> {
    nearest_of(
        keyframes,
        |k: KeyframePoint| !k.open && k.pts > start,
        pts,
        keyframes.len() as int,
    )
}

/// Where a copy that starts at a tick may end: at a keyframe whose group is
/// closed, or the end of the stream.
pub open spec fn may_end(video: VideoFacts, start: i64, at: i64) -> bool {
    &&& at > start
    &&& video.end == Some(at) || exists|i: int|
        0 <= i < video.keyframes@.len() && !(#[trigger] video.keyframes@[i]).open
            && video.keyframes@[i].pts == at
}

/// Where a copy that should end at a tick ends instead: there, if it may; else
/// at the nearest of the keyframes it may end on and the end of the stream, the
/// keyframe where both are as near.
pub open spec fn aligned_end(video: VideoFacts, start: i64, to: i64) -> Option<i64> {
    if ends_clean(video, to) {
        Some(to)
    } else {
        let keyframe = nearest_end(video.keyframes@, to, start);
        match video.end {
            Some(end) => if end > start && (keyframe is None || distance(end, to) < distance(
                keyframe->0,
                to,
            )) {
                Some(end)
            } else {
                keyframe
            },
            None => keyframe,
        }
    }
}

/// The nearest places to `from` and `to` that a copy can start and end.
pub open spec fn aligned(video: VideoFacts, from: i64, to: i64) -> Option<KeyframeAlternative> {
    match nearest_start(video.keyframes@, from) {
        None => None,
        Some(source_in) => match aligned_end(video, source_in, to) {
            None => None,
            Some(source_out) => Some(KeyframeAlternative { source_in, source_out }),
        },
    }
}

/// The nearest place to `from` and `to` a copy can start and end.
pub fn keyframe_alternative(video: &VideoFacts, from: i64, to: i64) -> (alternative: Option<
    KeyframeAlternative,
>)
    requires
        video.wf(),
    ensures
        alternative == aligned(*video, from, to),
{
    let keyframes = &video.keyframes;
    let mut best: Option<i64> = None;
    let ghost meant = |k: KeyframePoint| k.random_access;
    let mut i: usize = 0;
    while i < keyframes.len()
        invariant
            i <= keyframes@.len(),
            meant == (|k: KeyframePoint| k.random_access),
            best == nearest_of(keyframes@, meant, from, i as int),
        decreases keyframes@.len() - i,
    {
        let k = keyframes[i];
        let nearer = match best {
            Some(known) => apart(k.pts, from) < apart(known, from),
            None => true,
        };
        if k.random_access && nearer {
            best = Some(k.pts);
        }
        i += 1;
    }
    let source_in = best?;
    if clean_end(video, to) {
        return Some(KeyframeAlternative { source_in, source_out: to });
    }
    let mut best: Option<i64> = None;
    let ghost meant = |k: KeyframePoint| !k.open && k.pts > source_in;
    let mut i: usize = 0;
    while i < keyframes.len()
        invariant
            i <= keyframes@.len(),
            meant == (|k: KeyframePoint| !k.open && k.pts > source_in),
            best == nearest_of(keyframes@, meant, to, i as int),
        decreases keyframes@.len() - i,
    {
        let k = keyframes[i];
        let nearer = match best {
            Some(known) => apart(k.pts, to) < apart(known, to),
            None => true,
        };
        if !k.open && k.pts > source_in && nearer {
            best = Some(k.pts);
        }
        i += 1;
    }
    if let Some(end) = video.end {
        let nearer = match best {
            Some(known) => apart(end, to) < apart(known, to),
            None => true,
        };
        if end > source_in && nearer {
            best = Some(end);
        }
    }
    let source_out = best?;
    Some(KeyframeAlternative { source_in, source_out })
}

/// What is nearest is one of the keyframes that are meant, and none of them
/// is nearer.
pub proof fn lemma_nearest(
    keyframes: Seq<KeyframePoint>,
    meant: spec_fn(KeyframePoint) -> bool,
    pts: i64,
    count: int,
)
    requires
        0 <= count <= keyframes.len(),
    ensures
        nearest_of(keyframes, meant, pts, count) matches Some(found) ==> {
            &&& exists|i: int|
                0 <= i < count && meant(#[trigger] keyframes[i]) && keyframes[i].pts == found
            &&& forall|i: int|
                0 <= i < count && meant(#[trigger] keyframes[i]) ==> distance(found, pts)
                    <= distance(keyframes[i].pts, pts)
        },
        nearest_of(keyframes, meant, pts, count) is None ==> forall|i: int|
            0 <= i < count ==> !meant(#[trigger] keyframes[i]),
    decreases count,
{
    if count > 0 {
        lemma_nearest(keyframes, meant, pts, count - 1);
        let best = nearest_of(keyframes, meant, pts, count - 1);
        let k = keyframes[count - 1];
        if nearest_of(keyframes, meant, pts, count) == Some(k.pts) && meant(k) {
            assert(meant(keyframes[count - 1]) && keyframes[count - 1].pts == k.pts);
        }
        if best is Some {
            let i = choose|i: int|
                0 <= i < count - 1 && meant(#[trigger] keyframes[i]) && keyframes[i].pts == best->0;
            assert(meant(keyframes[i]));
        }
    }
}

/// The keyframes stand in presentation order, no two at once.
pub open spec fn strictly_in_order(keyframes: Seq<KeyframePoint>) -> bool {
    forall|i: int, j: int|
        #![trigger keyframes[i], keyframes[j]]
        0 <= i < j < keyframes.len() ==> keyframes[i].pts < keyframes[j].pts
}

/// Where no two keyframes are shown at once, the one shown at a tick is found.
proof fn lemma_found(keyframes: Seq<KeyframePoint>, at: int)
    requires
        strictly_in_order(keyframes),
        0 <= at < keyframes.len(),
    ensures
        after(keyframes, keyframes[at].pts) == Some(keyframes[at]),
        at_or_before(keyframes, keyframes[at].pts) == Some(keyframes[at]),
{
    lemma_after(keyframes, keyframes[at].pts, 0, at);
}

/// The keyframe-aligned cut is the way to export with nothing re-encoded: it
/// has no seam at all.
pub proof fn an_aligned_cut_is_a_copy(video: VideoFacts, from: i64, to: i64)
    requires
        strictly_in_order(video.keyframes@),
        aligned(video, from, to) is Some,
    ensures
        ({
            let cut = aligned(video, from, to)->0;
            &&& seam_causes(video, cut.source_in, cut.source_out) == Seq::<CauseModel>::empty()
            &&& seam_windows(video, cut.source_in, cut.source_out) == Seq::<SeamWindow>::empty()
            &&& tier_for(seam_causes(video, cut.source_in, cut.source_out))
                == ExportTier::StreamCopy
        }),
{
    let keyframes = video.keyframes@;
    let cut = aligned(video, from, to)->0;
    let starts = |k: KeyframePoint| k.random_access;
    lemma_nearest(keyframes, starts, from, keyframes.len() as int);
    let i = choose|i: int|
        0 <= i < keyframes.len() && starts(#[trigger] keyframes[i]) && keyframes[i].pts
            == cut.source_in;
    lemma_found(keyframes, i);
    assert(starts_clean(video, cut.source_in));
    if !ends_clean(video, to) {
        let ends = |k: KeyframePoint| !k.open && k.pts > cut.source_in;
        lemma_nearest(keyframes, ends, to, keyframes.len() as int);
        if video.end != Some(cut.source_out) {
            let j = choose|j: int|
                0 <= j < keyframes.len() && ends(#[trigger] keyframes[j]) && keyframes[j].pts
                    == cut.source_out;
            lemma_found(keyframes, j);
        }
    }
    assert(ends_clean(video, cut.source_out));
    assert(seam_causes(video, cut.source_in, cut.source_out) =~= Seq::empty());
}

/// The keyframe-aligned cut moves its ends no further than it must: no place a
/// copy can start lies nearer, and none that it can then end at.
pub proof fn an_aligned_cut_is_the_nearest(video: VideoFacts, from: i64, to: i64)
    requires
        aligned(video, from, to) is Some,
    ensures
        ({
            let cut = aligned(video, from, to)->0;
            &&& forall|i: int|
                0 <= i < video.keyframes@.len() && (#[trigger] video.keyframes@[i]).random_access
                    ==> distance(cut.source_in, from) <= distance(video.keyframes@[i].pts, from)
            &&& cut.source_out == to || may_end(video, cut.source_in, cut.source_out)
            &&& forall|at: i64| #[trigger]
                may_end(video, cut.source_in, at) ==> distance(cut.source_out, to) <= distance(
                    at,
                    to,
                )
        }),
{
    let keyframes = video.keyframes@;
    let cut = aligned(video, from, to)->0;
    let starts = |k: KeyframePoint| k.random_access;
    lemma_nearest(keyframes, starts, from, keyframes.len() as int);
    assert forall|i: int|
        0 <= i < keyframes.len() && (#[trigger] keyframes[i]).random_access implies distance(
        cut.source_in,
        from,
    ) <= distance(keyframes[i].pts, from) by {
        assert(starts(keyframes[i]));
    }
    if !ends_clean(video, to) {
        let ends = |k: KeyframePoint| !k.open && k.pts > cut.source_in;
        lemma_nearest(keyframes, ends, to, keyframes.len() as int);
        if video.end != Some(cut.source_out) {
            let j = choose|j: int|
                0 <= j < keyframes.len() && ends(#[trigger] keyframes[j]) && keyframes[j].pts
                    == cut.source_out;
            assert(ends(keyframes[j]));
        }
        assert forall|at: i64| #[trigger] may_end(video, cut.source_in, at) implies distance(
            cut.source_out,
            to,
        ) <= distance(at, to) by {
            if video.end != Some(at) {
                let j = choose|j: int|
                    0 <= j < keyframes.len() && !(#[trigger] keyframes[j]).open && keyframes[j].pts
                        == at;
                assert(ends(keyframes[j]));
            }
        }
    }
}

/// Where the keyframes around a cut are not all known, nothing is copied on a
/// guess: the cut is a whole re-encode, and says why.
pub proof fn an_unproved_cut_is_not_copied(video: VideoFacts, from: i64, to: i64)
    requires
        !starts_clean(video, from) && start_unknown(video, from) || !ends_clean(video, to)
            && end_unknown(video, to),
    ensures
        tier_for(seam_causes(video, from, to)) == (ExportTier::FullReEncode {
            reason: ReEncodeReason::CopyNotProvable,
        }),
{
    let causes = seam_causes(video, from, to);
    assert(causes.len() == 1 && causes[0].effect() == Effect::Whole(
        ReEncodeReason::CopyNotProvable,
    ));
    assert(first_whole(causes, 0) == Some(ReEncodeReason::CopyNotProvable));
}

/// The first that is found is meant.
proof fn lemma_first_of(
    keyframes: Seq<KeyframePoint>,
    meant: spec_fn(KeyframePoint) -> bool,
    at: int,
)
    requires
        0 <= at,
    ensures
        first_of(keyframes, meant, at) matches Some(k) ==> meant(k),
    decreases keyframes.len() - at,
{
    if at < keyframes.len() && !meant(keyframes[at]) {
        lemma_first_of(keyframes, meant, at + 1);
    }
}

/// The last that is found is meant.
proof fn lemma_last_of(
    keyframes: Seq<KeyframePoint>,
    meant: spec_fn(KeyframePoint) -> bool,
    count: int,
)
    ensures
        last_of(keyframes, meant, count) matches Some(k) ==> meant(k),
    decreases count,
{
    if count > 0 && !meant(keyframes[count - 1]) {
        lemma_last_of(keyframes, meant, count - 1);
    }
}

/// What a smart-cut re-encodes lies within the clip, its windows in order and
/// apart.
pub proof fn seams_lie_within_the_clip(video: VideoFacts, from: i64, to: i64)
    requires
        from <= to,
    ensures
        forall|i: int|
            0 <= i < seam_windows(video, from, to).len() ==> {
                let window = #[trigger] seam_windows(video, from, to)[i];
                from <= window.from <= window.to <= to
            },
        seam_windows(video, from, to).len() <= 2,
        seam_windows(video, from, to).len() == 2 ==> seam_windows(video, from, to)[0].to
            < seam_windows(video, from, to)[1].from,
{
    let keyframes = video.keyframes@;
    lemma_first_of(keyframes, |k: KeyframePoint| k.pts > from && k.random_access, 0);
    lemma_last_of(keyframes, |k: KeyframePoint| k.pts < to, keyframes.len() as int);
}

} // verus!
