//! What a cut costs: which pictures are re-encoded at its ends, and that the
//! rest can be copied.
use crate::export::plan::cut::{
    after, at_or_before, before, ends_clean, first_of, head_window, last_of, next_start,
    seam_causes, seam_windows, start_before, starts_clean, tail_from, tier_for,
};
use crate::export::plan::{CauseModel, Effect, KeyframePoint, VideoFacts};
use crate::tier::{ExportTier, ReEncodeReason, SeamReason};
use vstd::prelude::*;

verus! {

/// The keyframes stand in presentation order, no two at once.
pub open spec fn distinct(keyframes: Seq<KeyframePoint>) -> bool {
    forall|i: int, j: int|
        #![trigger keyframes[i], keyframes[j]]
        0 <= i < j < keyframes.len() ==> keyframes[i].pts < keyframes[j].pts
}

/// The first that is found is meant, and none before it is.
proof fn lemma_first(keyframes: Seq<KeyframePoint>, meant: spec_fn(KeyframePoint) -> bool, at: int)
    requires
        0 <= at,
    ensures
        match first_of(keyframes, meant, at) {
            Some(k) => exists|i: int|
                {
                    &&& at <= i < keyframes.len() && #[trigger] keyframes[i] == k && meant(k)
                    &&& forall|j: int| at <= j < i ==> !meant(#[trigger] keyframes[j])
                },
            None => forall|j: int| at <= j < keyframes.len() ==> !meant(#[trigger] keyframes[j]),
        },
    decreases keyframes.len() - at,
{
    if at < keyframes.len() {
        if meant(keyframes[at]) {
            assert(keyframes[at] == first_of(keyframes, meant, at)->0);
        } else {
            lemma_first(keyframes, meant, at + 1);
            if first_of(keyframes, meant, at) is Some {
                let i = choose|i: int|
                    {
                        &&& at + 1 <= i < keyframes.len() && #[trigger] keyframes[i]
                            == first_of(keyframes, meant, at)->0
                        &&& forall|j: int| at + 1 <= j < i ==> !meant(#[trigger] keyframes[j])
                    };
                assert(keyframes[i] == first_of(keyframes, meant, at)->0);
            }
        }
    }
}

/// The last that is found is meant, and none behind it is.
proof fn lemma_last(keyframes: Seq<KeyframePoint>, meant: spec_fn(KeyframePoint) -> bool, count: int)
    requires
        count <= keyframes.len(),
    ensures
        match last_of(keyframes, meant, count) {
            Some(k) => exists|i: int|
                {
                    &&& 0 <= i < count && #[trigger] keyframes[i] == k && meant(k)
                    &&& forall|j: int| i < j < count ==> !meant(#[trigger] keyframes[j])
                },
            None => forall|j: int| 0 <= j < count ==> !meant(#[trigger] keyframes[j]),
        },
    decreases count,
{
    if count > 0 {
        if meant(keyframes[count - 1]) {
            assert(keyframes[count - 1] == last_of(keyframes, meant, count)->0);
        } else {
            lemma_last(keyframes, meant, count - 1);
            if last_of(keyframes, meant, count) is Some {
                let i = choose|i: int|
                    {
                        &&& 0 <= i < count - 1 && #[trigger] keyframes[i] == last_of(
                            keyframes,
                            meant,
                            count,
                        )->0
                        &&& forall|j: int| i < j < count - 1 ==> !meant(#[trigger] keyframes[j])
                    };
                assert(keyframes[i] == last_of(keyframes, meant, count)->0);
            }
        }
    }
}

/// Where a keyframe is the next that a copy may start on.
proof fn lemma_next_start(keyframes: Seq<KeyframePoint>, pts: i64)
    requires
        distinct(keyframes),
    ensures
        match next_start(keyframes, pts) {
            Some(k) => {
                &&& exists|i: int| 0 <= i < keyframes.len() && #[trigger] keyframes[i] == k
                &&& k.pts > pts && k.random_access
                &&& forall|j: int|
                    0 <= j < keyframes.len() && (#[trigger] keyframes[j]).random_access
                        && keyframes[j].pts > pts ==> k.pts <= keyframes[j].pts
            },
            None => forall|j: int|
                0 <= j < keyframes.len() && (#[trigger] keyframes[j]).random_access
                    ==> keyframes[j].pts <= pts,
        },
{
    let meant = |k: KeyframePoint| k.pts > pts && k.random_access;
    lemma_first(keyframes, meant, 0);
    if let Some(k) = next_start(keyframes, pts) {
        let i = choose|i: int|
            {
                &&& 0 <= i < keyframes.len() && #[trigger] keyframes[i] == k && meant(k)
                &&& forall|j: int| 0 <= j < i ==> !meant(#[trigger] keyframes[j])
            };
        assert forall|j: int|
            0 <= j < keyframes.len() && (#[trigger] keyframes[j]).random_access && keyframes[j].pts
                > pts implies k.pts <= keyframes[j].pts by {
            if j < i {
                assert(!meant(keyframes[j]));
            }
        }
    } else {
        assert forall|j: int|
            0 <= j < keyframes.len() && (#[trigger] keyframes[j]).random_access implies keyframes[j].pts
            <= pts by {
            assert(!meant(keyframes[j]));
        }
    }
}

/// Where a keyframe is the last that a copy may start on.
proof fn lemma_start_before(keyframes: Seq<KeyframePoint>, pts: i64)
    requires
        distinct(keyframes),
    ensures
        match start_before(keyframes, pts) {
            Some(k) => {
                &&& exists|i: int| 0 <= i < keyframes.len() && #[trigger] keyframes[i] == k
                &&& k.pts <= pts && k.random_access
                &&& forall|j: int|
                    0 <= j < keyframes.len() && (#[trigger] keyframes[j]).random_access
                        && keyframes[j].pts <= pts ==> keyframes[j].pts <= k.pts
            },
            None => forall|j: int|
                0 <= j < keyframes.len() && (#[trigger] keyframes[j]).random_access
                    ==> keyframes[j].pts > pts,
        },
{
    let n = keyframes.len() as int;
    let meant = |k: KeyframePoint| k.pts <= pts && k.random_access;
    lemma_last(keyframes, meant, n);
    if let Some(k) = start_before(keyframes, pts) {
        let i = choose|i: int|
            {
                &&& 0 <= i < n && #[trigger] keyframes[i] == k && meant(k)
                &&& forall|j: int| i < j < n ==> !meant(#[trigger] keyframes[j])
            };
        assert forall|j: int|
            0 <= j < n && (#[trigger] keyframes[j]).random_access && keyframes[j].pts
                <= pts implies keyframes[j].pts <= k.pts by {
            if j > i {
                assert(!meant(keyframes[j]));
            }
        }
    } else {
        assert forall|j: int|
            0 <= j < n && (#[trigger] keyframes[j]).random_access implies keyframes[j].pts > pts by {
            assert(!meant(keyframes[j]));
        }
    }
}

/// Where a keyframe is the last before a tick.
proof fn lemma_before(keyframes: Seq<KeyframePoint>, pts: i64)
    requires
        distinct(keyframes),
    ensures
        match before(keyframes, pts) {
            Some(k) => {
                &&& exists|i: int| 0 <= i < keyframes.len() && #[trigger] keyframes[i] == k
                &&& k.pts < pts
                &&& forall|j: int|
                    0 <= j < keyframes.len() && (#[trigger] keyframes[j]).pts < pts
                        ==> keyframes[j].pts <= k.pts
            },
            None => forall|j: int| 0 <= j < keyframes.len() ==> (#[trigger] keyframes[j]).pts >= pts,
        },
{
    let n = keyframes.len() as int;
    let meant = |k: KeyframePoint| k.pts < pts;
    lemma_last(keyframes, meant, n);
    if let Some(k) = before(keyframes, pts) {
        let i = choose|i: int|
            {
                &&& 0 <= i < n && #[trigger] keyframes[i] == k && meant(k)
                &&& forall|j: int| i < j < n ==> !meant(#[trigger] keyframes[j])
            };
        assert forall|j: int| 0 <= j < n && (#[trigger] keyframes[j]).pts < pts implies keyframes[j].pts
            <= k.pts by {
            if j > i {
                assert(!meant(keyframes[j]));
            }
        }
    } else {
        assert forall|j: int| 0 <= j < n implies (#[trigger] keyframes[j]).pts >= pts by {
            assert(!meant(keyframes[j]));
        }
    }
}

/// Where a keyframe is the first at or after a tick.
proof fn lemma_after(keyframes: Seq<KeyframePoint>, pts: i64)
    requires
        distinct(keyframes),
    ensures
        match after(keyframes, pts) {
            Some(k) => {
                &&& exists|i: int| 0 <= i < keyframes.len() && #[trigger] keyframes[i] == k
                &&& k.pts >= pts
                &&& forall|j: int|
                    0 <= j < keyframes.len() && (#[trigger] keyframes[j]).pts >= pts ==> k.pts
                        <= keyframes[j].pts
            },
            None => forall|j: int| 0 <= j < keyframes.len() ==> (#[trigger] keyframes[j]).pts < pts,
        },
        forall|j: int|
            0 <= j < keyframes.len() && (#[trigger] keyframes[j]).pts == pts ==> after(
                keyframes,
                pts,
            ) == Some(keyframes[j]),
{
    let meant = |k: KeyframePoint| k.pts >= pts;
    lemma_first(keyframes, meant, 0);
    if let Some(k) = after(keyframes, pts) {
        let i = choose|i: int|
            {
                &&& 0 <= i < keyframes.len() && #[trigger] keyframes[i] == k && meant(k)
                &&& forall|j: int| 0 <= j < i ==> !meant(#[trigger] keyframes[j])
            };
        assert forall|j: int| 0 <= j < keyframes.len() && (#[trigger] keyframes[j]).pts >= pts implies k.pts
            <= keyframes[j].pts by {
            if j < i {
                assert(!meant(keyframes[j]));
            }
        }
        assert forall|j: int| 0 <= j < keyframes.len() && (#[trigger] keyframes[j]).pts == pts implies after(
            keyframes,
            pts,
        ) == Some(keyframes[j]) by {
            if j < i {
                assert(!meant(keyframes[j]));
            }
        }
    } else {
        assert forall|j: int| 0 <= j < keyframes.len() implies (#[trigger] keyframes[j]).pts < pts by {
            assert(!meant(keyframes[j]));
        }
    }
}

/// A keyframe that a copy may start on is shown at a tick.
pub open spec fn copy_may_start(video: VideoFacts, at: i64) -> bool {
    exists|i: int|
        0 <= i < video.keyframes@.len() && (#[trigger] video.keyframes@[i]).pts == at
            && video.keyframes@[i].random_access
}

/// A copy may end at a tick: nothing shown before it is decoded behind it. So
/// it is in a stream that never reorders, at the end of the stream, and at a
/// keyframe whose group is closed.
pub open spec fn copy_may_end(video: VideoFacts, at: i64) -> bool {
    ||| !video.reorders
    ||| video.end is Some && video.end->0 <= at
    ||| exists|i: int|
        0 <= i < video.keyframes@.len() && (#[trigger] video.keyframes@[i]).pts == at
            && !video.keyframes@[i].open
}

/// A keyframe is shown at a tick.
pub open spec fn keyframe_at(video: VideoFacts, at: i64) -> bool {
    exists|i: int| 0 <= i < video.keyframes@.len() && (#[trigger] video.keyframes@[i]).pts == at
}

/// A keyframe is shown strictly between two ticks.
pub open spec fn keyframe_between(video: VideoFacts, from: i64, to: i64) -> bool {
    exists|i: int|
        0 <= i < video.keyframes@.len() && from < (#[trigger] video.keyframes@[i]).pts < to
}

/// A keyframe that a copy may start on is shown strictly between two ticks.
pub open spec fn start_between(video: VideoFacts, from: i64, to: i64) -> bool {
    exists|i: int|
        0 <= i < video.keyframes@.len() && from < (#[trigger] video.keyframes@[i]).pts < to
            && video.keyframes@[i].random_access
}

/// The tests of a cut's ends mean what they say.
proof fn lemma_clean(video: VideoFacts, at: i64)
    requires
        distinct(video.keyframes@),
    ensures
        starts_clean(video, at) <==> copy_may_start(video, at),
        ends_clean(video, at) <==> copy_may_end(video, at),
        (at_or_before(video.keyframes@, at) matches Some(k) && k.pts == at) <==> keyframe_at(
            video,
            at,
        ),
        (after(video.keyframes@, at) matches Some(k) && k.pts == at) <==> keyframe_at(video, at),
{
    let keyframes = video.keyframes@;
    lemma_after(keyframes, at);
    lemma_before(keyframes, at);
    if let Some(k) = after(keyframes, at) {
        if k.pts == at {
            let i = choose|i: int| 0 <= i < keyframes.len() && #[trigger] keyframes[i] == k;
            assert(keyframes[i].pts == at);
        }
    }
}

/// Only the partial groups at a cut's ends are re-encoded, and all of them:
/// nothing where a copy may start and end; up to the first keyframe that one
/// may start on, and none lies before that; from the last keyframe before the
/// end, and none lies behind it. What lies between is copied, unless it holds
/// no whole group that a copy may start on.
pub proof fn only_partial_groups_are_re_encoded(video: VideoFacts, from: i64, to: i64)
    requires
        distinct(video.keyframes@),
        video.keyframes_complete,
        from < to,
    ensures
        ({
            let windows = seam_windows(video, from, to);
            let (starts, ends) = (copy_may_start(video, from), copy_may_end(video, to));
            let (first, last) = (windows[0], windows[windows.len() - 1]);
            &&& starts && ends <==> windows.len() == 0
            &&& windows.len() <= 2
            // The head alone.
            &&& !starts && ends ==> {
                &&& windows.len() == 1
                &&& first.from == from < first.to <= to
                &&& first.to == to || copy_may_start(video, first.to)
                &&& !start_between(video, from, first.to)
            }
            // The tail alone.
            &&& starts && !ends ==> {
                &&& windows.len() == 1
                &&& from <= last.from < last.to == to
                &&& last.from == from || keyframe_at(video, last.from)
                &&& !keyframe_between(video, last.from, to)
            }
            // Both, with a copy between them.
            &&& !starts && !ends && windows.len() == 2 ==> {
                &&& first.from == from < first.to < last.from < last.to == to
                &&& copy_may_start(video, first.to) && !start_between(video, from, first.to)
                &&& keyframe_at(video, last.from) && !keyframe_between(video, last.from, to)
            }
            // Both, and no whole group between them that a copy may start on.
            &&& !starts && !ends && windows.len() == 1 ==> {
                &&& first.from == from && first.to == to
                &&& forall|i: int, j: int|
                    #![trigger video.keyframes@[i], video.keyframes@[j]]
                    0 <= i < video.keyframes@.len() && 0 <= j < video.keyframes@.len()
                        && video.keyframes@[i].random_access && from < video.keyframes@[i].pts
                        && video.keyframes@[j].pts < to ==> video.keyframes@[j].pts
                        <= video.keyframes@[i].pts
            }
        }),
{
    let keyframes = video.keyframes@;
    lemma_clean(video, from);
    lemma_clean(video, to);
    lemma_next_start(keyframes, from);
    lemma_before(keyframes, to);
    let head = head_window(video, from, to);
    let start = tail_from(video, from, to);
    if let Some(k) = next_start(keyframes, from) {
        let i = choose|i: int| 0 <= i < keyframes.len() && #[trigger] keyframes[i] == k;
        assert(keyframes[i].pts == k.pts);
    }
    if let Some(k) = before(keyframes, to) {
        let i = choose|i: int| 0 <= i < keyframes.len() && #[trigger] keyframes[i] == k;
        assert(keyframes[i].pts == k.pts);
    }
    assert(!start_between(video, from, head.to));
    assert(head.to == to || copy_may_start(video, head.to));
    assert(start == from || keyframe_at(video, start));
    assert(!keyframe_between(video, start, to));
}

/// Every end that a copy may not have is told, and no other: the keyframes
/// named are the nearest on either side, of an in-point those that a copy may
/// start on.
pub proof fn every_seam_names_its_keyframes(video: VideoFacts, from: i64, to: i64)
    requires
        distinct(video.keyframes@),
        video.keyframes_complete,
    ensures
        ({
            let causes = seam_causes(video, from, to);
            let keyframes = video.keyframes@;
            let (starts, ends) = (copy_may_start(video, from), copy_may_end(video, to));
            &&& causes.len() == (if starts {
                0int
            } else {
                1
            }) + (if ends {
                0int
            } else {
                1
            })
            &&& !starts ==> (causes[0] matches CauseModel::InPointNotKeyframe {
                keyframe_before,
                keyframe_after,
            } && {
                &&& keyframe_before matches Some(k) ==> k < from && copy_may_start(video, k)
                    && !start_between(video, k, from)
                &&& keyframe_before is None ==> forall|i: int|
                    0 <= i < keyframes.len() && (#[trigger] keyframes[i]).random_access
                        ==> keyframes[i].pts > from
                &&& keyframe_after matches Some(k) ==> k > from && copy_may_start(video, k)
                    && !start_between(video, from, k)
                &&& keyframe_after is None ==> forall|i: int|
                    0 <= i < keyframes.len() && (#[trigger] keyframes[i]).random_access
                        ==> keyframes[i].pts < from
            })
            &&& !ends && keyframe_at(video, to) ==> causes.last()
                == (CauseModel::OpenGopAtOutPoint { keyframe: to })
            &&& !ends && !keyframe_at(video, to) ==> (
            causes.last() matches CauseModel::OutPointNotKeyframe {
                keyframe_before,
                keyframe_after,
            } && {
                &&& keyframe_before matches Some(k) ==> k < to && keyframe_at(video, k)
                    && !keyframe_between(video, k, to)
                &&& keyframe_before is None ==> forall|i: int|
                    0 <= i < keyframes.len() ==> (#[trigger] keyframes[i]).pts > to
                &&& keyframe_after matches Some(k) ==> k > to && keyframe_at(video, k)
                    && !keyframe_between(video, to, k)
                &&& keyframe_after is None ==> forall|i: int|
                    0 <= i < keyframes.len() ==> (#[trigger] keyframes[i]).pts < to
            })
        }),
{
    let keyframes = video.keyframes@;
    lemma_clean(video, from);
    lemma_clean(video, to);
    lemma_next_start(keyframes, from);
    lemma_start_before(keyframes, from);
    lemma_before(keyframes, to);
    lemma_after(keyframes, to);
    if !copy_may_start(video, from) {
        if let Some(k) = start_before(keyframes, from) {
            let i = choose|i: int| 0 <= i < keyframes.len() && #[trigger] keyframes[i] == k;
            assert(keyframes[i].pts == k.pts);
            assert(!start_between(video, k.pts, from));
        }
        if let Some(k) = next_start(keyframes, from) {
            let i = choose|i: int| 0 <= i < keyframes.len() && #[trigger] keyframes[i] == k;
            assert(keyframes[i].pts == k.pts);
            assert(!start_between(video, from, k.pts));
        }
        assert forall|i: int| 0 <= i < keyframes.len() && (#[trigger] keyframes[i]).random_access implies keyframes[i].pts
            != from by {}
    }
    if !copy_may_end(video, to) && !keyframe_at(video, to) {
        if let Some(k) = before(keyframes, to) {
            let i = choose|i: int| 0 <= i < keyframes.len() && #[trigger] keyframes[i] == k;
            assert(keyframes[i].pts == k.pts);
            assert(!keyframe_between(video, k.pts, to));
        }
        if let Some(k) = after(keyframes, to) {
            let i = choose|i: int| 0 <= i < keyframes.len() && #[trigger] keyframes[i] == k;
            assert(keyframes[i].pts == k.pts);
            assert(!keyframe_between(video, to, k.pts));
        }
        assert forall|i: int| 0 <= i < keyframes.len() implies (#[trigger] keyframes[i]).pts != to by {}
    }
}

/// On a list of keyframes that has gaps nothing is copied on a guess: an end
/// that no listed keyframe is shown at, and that a copy needs one at, makes the
/// clip a whole re-encode and is the only cause. Ends that are listed are
/// judged as if the list were complete.
pub proof fn a_guess_is_no_copy(video: VideoFacts, from: i64, to: i64)
    requires
        distinct(video.keyframes@),
        !video.keyframes_complete,
    ensures
        !keyframe_at(video, from) || !copy_may_end(video, to) && !keyframe_at(video, to) ==> {
            &&& seam_causes(video, from, to) == seq![CauseModel::KeyframesUnknown]
            &&& seam_windows(video, from, to).len() == 0
            &&& tier_for(seam_causes(video, from, to)) == (ExportTier::FullReEncode {
                reason: ReEncodeReason::CopyNotProvable,
            })
        },
        keyframe_at(video, from) && (copy_may_end(video, to) || keyframe_at(video, to)) ==> {
            let known = VideoFacts { keyframes_complete: true, ..video };
            &&& seam_causes(video, from, to) == seam_causes(known, from, to)
            &&& seam_windows(video, from, to) == seam_windows(known, from, to)
        },
{
    lemma_clean(video, from);
    lemma_clean(video, to);
    let known = VideoFacts { keyframes_complete: true, ..video };
    assert(known.keyframes@ == video.keyframes@);
    lemma_clean(known, from);
    lemma_clean(known, to);
    if !keyframe_at(video, from) {
        assert(!copy_may_start(video, from)) by {
            if copy_may_start(video, from) {
                let i = choose|i: int|
                    0 <= i < video.keyframes@.len() && (#[trigger] video.keyframes@[i]).pts == from
                        && video.keyframes@[i].random_access;
                assert(video.keyframes@[i].pts == from);
            }
        }
    }
    if !keyframe_at(video, from) || !copy_may_end(video, to) && !keyframe_at(video, to) {
        let causes = seam_causes(video, from, to);
        assert(causes.len() == 1 && causes[0] == CauseModel::KeyframesUnknown);
        assert(causes =~= seq![CauseModel::KeyframesUnknown]);
        assert(crate::export::plan::cut::first_whole(causes, 0) == Some(
            ReEncodeReason::CopyNotProvable,
        ));
    }
}

/// Only a cut is smart: what is wrong at an end of a clip costs a seam there,
/// everything else the whole segment, and every cause says why in words of its
/// own kind.
pub proof fn only_a_cut_costs_a_seam(cause: CauseModel)
    ensures
        cause.effect() is Seam <==> (cause is InPointNotKeyframe || cause is OutPointNotKeyframe
            || cause is OpenGopAtOutPoint),
        cause.effect() == Effect::Seam(SeamReason::InPointNotKeyframeAligned)
            <==> cause is InPointNotKeyframe,
        cause.effect() == Effect::Seam(SeamReason::OutPointNotKeyframeAligned)
            <==> cause is OutPointNotKeyframe,
        cause.effect() == Effect::Seam(SeamReason::OpenGopBoundary) <==> cause is OpenGopAtOutPoint,
        cause is KeyframesUnknown ==> cause.effect() == Effect::Whole(
            ReEncodeReason::CopyNotProvable,
        ),
        cause matches CauseModel::Operation { reason } ==> cause.effect() == Effect::Whole(reason),
        cause is SpeedOutsideContainer ==> cause.effect() == Effect::Whole(
            ReEncodeReason::SpeedFrameRateOutsideContainer,
        ),
        cause is SequenceMismatch ==> cause.effect() == Effect::Whole(
            ReEncodeReason::SequenceSettingsDiffer,
        ),
        cause is IncompatibleEncoding ==> cause.effect() == Effect::Whole(
            ReEncodeReason::IncompatibleSourceParameters,
        ),
        cause is Gap ==> cause.effect() == Effect::Whole(ReEncodeReason::Gap),
        cause is AudioChain ==> cause.effect() == Effect::Whole(ReEncodeReason::AudioFilter),
        cause is AudioSpeed ==> cause.effect() == Effect::Whole(ReEncodeReason::AudioSpeed),
        cause is AudioMix ==> cause.effect() == Effect::Whole(ReEncodeReason::AudioMix),
{
}

/// A tier is named by the first cause that asks for it: of a whole re-encode
/// the first that re-encodes everything, of a smart-cut the first of all.
pub proof fn the_first_cause_names_the_tier(causes: Seq<CauseModel>, i: int)
    requires
        0 <= i < causes.len(),
    ensures
        causes[i].effect() is Whole && (forall|j: int|
            0 <= j < i ==> (#[trigger] causes[j]).effect() is Seam) ==> tier_for(causes) == (
        ExportTier::FullReEncode { reason: causes[i].effect()->Whole_0 }),
        (forall|j: int| 0 <= j < causes.len() ==> (#[trigger] causes[j]).effect() is Seam)
            ==> tier_for(causes) == (ExportTier::SmartCut { reason: causes[0].effect()->Seam_0 }),
{
    if causes[i].effect() is Whole && (forall|j: int|
        0 <= j < i ==> (#[trigger] causes[j]).effect() is Seam) {
        lemma_whole_at(causes, 0, i);
    }
    if forall|j: int| 0 <= j < causes.len() ==> (#[trigger] causes[j]).effect() is Seam {
        crate::export::plan::cut::a_copy_has_no_cause(causes);
        assert(causes[0].effect() is Seam);
    }
}

/// The first cause that re-encodes everything.
proof fn lemma_whole_at(causes: Seq<CauseModel>, at: int, i: int)
    requires
        0 <= at <= i < causes.len(),
        causes[i].effect() is Whole,
        forall|j: int| at <= j < i ==> (#[trigger] causes[j]).effect() is Seam,
    ensures
        crate::export::plan::cut::first_whole(causes, at) == Some(causes[i].effect()->Whole_0),
    decreases i - at,
{
    if at < i {
        assert(causes[at].effect() is Seam);
        lemma_whole_at(causes, at + 1, i);
    }
}

} // verus!
