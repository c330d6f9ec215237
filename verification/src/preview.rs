//! A preview of one source: which keyframe to decode from.
use crate::keyframes::{Keyframe, Query, StreamIndex};
use crate::num::{clamped, saturating_sub};
use crate::probe::Rational;
use vstd::prelude::*;

verus! {

/// Memory the frame ring may hold. At 1080p that is fifteen frames.
pub const RING_BUDGET_BYTES: usize = 134_217_728;

/// The time base of a stream a preview shows: milliseconds where it has none
/// that is positive.
pub fn time_base(base: Option<Rational>) -> (usable: Rational)
    ensures
        usable == (match base {
            Some(base) => if base.positive() {
                base
            } else {
                Rational { num: 1, den: 1000 }
            },
            None => Rational { num: 1, den: 1000 },
        }),
        usable.positive(),
{
    match base {
        Some(base) => if base.is_positive() {
            base
        } else {
            Rational { num: 1, den: 1000 }
        },
        None => Rational { num: 1, den: 1000 },
    }
}

/// What `index` says of the keyframe to seek to for `pts`: the one at or before
/// it, as long as there is one before that too. Both are looked for only where
/// the index has read: where one of them cannot be told yet, the tick that must
/// be read first.
pub open spec fn seeks_to(index: StreamIndex, pts: i64, query: Query<Option<i64>>) -> bool {
    match query {
        Query::Known(Some(key)) => exists|k: Keyframe| #[trigger]
            index.answers_before(pts, Query::Known(Some(k))) && k.pts == key && exists|b: Keyframe|
                #[trigger] index.answers_before(clamped(k.pts - 1), Query::Known(Some(b))),
        Query::Known(None) => {
            ||| index.answers_before(pts, Query::Known(None))
            ||| exists|k: Keyframe| #[trigger]
                index.answers_before(pts, Query::Known(Some(k))) && index.answers_before(
                    clamped(k.pts - 1),
                    Query::Known(None),
                )
        },
        Query::Unread(from) => {
            ||| index.answers_before(pts, Query::Unread(from))
            ||| exists|k: Keyframe| #[trigger]
                index.answers_before(pts, Query::Known(Some(k))) && index.answers_before(
                    clamped(k.pts - 1),
                    Query::Unread(from),
                )
        },
    }
}

/// The keyframe to seek to for `pts`, or nothing when decoding from the start
/// of the stream reaches it just as well: when there is no keyframe at or
/// before it, or none before that one.
pub fn seek_point(index: &StreamIndex, pts: i64) -> (query: Query<Option<i64>>)
    requires
        index.wf(),
    ensures
        seeks_to(*index, pts, query),
{
    let keyframe: Keyframe = match index.at_or_before(pts) {
        Query::Unread(from) => {
            return Query::Unread(from);
        },
        Query::Known(Some(keyframe)) => keyframe,
        Query::Known(None) => {
            return Query::Known(None);
        },
    };
    let earlier: i64 = saturating_sub(keyframe.pts, 1);
    assert(index.answers_before(pts, Query::Known(Some(keyframe))));
    match index.at_or_before(earlier) {
        Query::Unread(from) => Query::Unread(from),
        Query::Known(Some(before)) => {
            assert(index.answers_before(clamped(keyframe.pts - 1), Query::Known(Some(before))));
            Query::Known(Some(keyframe.pts))
        },
        Query::Known(None) => Query::Known(None),
    }
}

} // verus!
