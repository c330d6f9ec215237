//! A reversed clip's pictures, backwards, in bounded memory.
//!
//! No decoder runs backwards, so the clip is decoded a chunk at a time from its
//! end to its start. A chunk ends where the last one began and reaches back at
//! most [`chunk_frames`] frames, starting at the earliest keyframe within that
//! reach if there is one. The next chunk is decoded while this one plays, so
//! at most the ring and two chunks are held: [`memory_bound`], whatever the
//! clip's length.
use super::step::{newest, newest_in};
use crate::keyframes::table::{FrameTable, KeyTable};
use crate::num::{clamped, saturating_sub};
use vstd::prelude::*;

verus! {

/// Memory one chunk of a reversed clip may hold.
pub const CHUNK_BUDGET_BYTES: usize = 33_554_432;

/// The fewest frames in a chunk.
pub const MIN_CHUNK_FRAMES: usize = 4;

/// The most frames in a chunk: a second at 30 frames a second.
pub const MAX_CHUNK_FRAMES: usize = 30;

/// Frames of `frame_bytes` in one chunk: what the budget holds, within limits.
pub open spec fn chunk_size(frame_bytes: usize) -> int {
    if frame_bytes == 0 {
        MAX_CHUNK_FRAMES as int
    } else {
        let fit = CHUNK_BUDGET_BYTES as int / frame_bytes as int;
        if fit < MIN_CHUNK_FRAMES {
            MIN_CHUNK_FRAMES as int
        } else if fit > MAX_CHUNK_FRAMES {
            MAX_CHUNK_FRAMES as int
        } else {
            fit
        }
    }
}

/// Frames of `frame_bytes` in one chunk.
pub fn chunk_frames(frame_bytes: usize) -> (frames: usize)
    ensures
        frames == chunk_size(frame_bytes),
{
    if frame_bytes == 0 {
        return MAX_CHUNK_FRAMES;
    }
    let fit: usize = CHUNK_BUDGET_BYTES / frame_bytes;
    if fit < MIN_CHUNK_FRAMES {
        MIN_CHUNK_FRAMES
    } else if fit > MAX_CHUNK_FRAMES {
        MAX_CHUNK_FRAMES
    } else {
        fit
    }
}

/// The most bytes of pictures a reversed lane holds at once: its ring of
/// `ring_frames`, the chunk being handed to it and the chunk being decoded.
pub open spec fn most_held(frame_bytes: usize, ring_frames: usize) -> int {
    let frames = if ring_frames + 2 * chunk_size(frame_bytes) > usize::MAX {
        usize::MAX as int
    } else {
        ring_frames + 2 * chunk_size(frame_bytes)
    };
    if frames * frame_bytes > usize::MAX {
        usize::MAX as int
    } else {
        frames * frame_bytes
    }
}

/// The most bytes of pictures a reversed lane holds at once, for frames of
/// `frame_bytes` and a ring of `ring_frames`. Independent of the clip's length.
pub fn memory_bound(frame_bytes: usize, ring_frames: usize) -> (bytes: usize)
    ensures
        bytes == most_held(frame_bytes, ring_frames),
{
    let frames: usize = ring_frames.saturating_add(2 * chunk_frames(frame_bytes));
    match frames.checked_mul(frame_bytes) {
        Some(bytes) => bytes,
        None => usize::MAX,
    }
}

/// A full ring and two full chunks stay within the bound.
pub proof fn a_ring_and_two_chunks_stay_within_the_bound(
    frame_bytes: usize,
    ring_frames: usize,
    in_ring: nat,
    handed_over: nat,
    decoding: nat,
)
    requires
        in_ring <= ring_frames,
        handed_over <= chunk_size(frame_bytes),
        decoding <= chunk_size(frame_bytes),
        (in_ring + handed_over + decoding) * frame_bytes <= usize::MAX,
        ring_frames + 2 * chunk_size(frame_bytes) <= usize::MAX,
    ensures
        (in_ring + handed_over + decoding) * frame_bytes <= most_held(frame_bytes, ring_frames),
{
    let held = in_ring + handed_over + decoding;
    let frames = ring_frames + 2 * chunk_size(frame_bytes);
    assert(held * frame_bytes <= frames * frame_bytes) by (nonlinear_arith)
        requires
            held <= frames,
            frame_bytes >= 0,
    ;
}

/// One chunk: the first and last frame of it, and how many there are.
#[derive(Debug, Clone, Copy, PartialEq, Eq, Structural)]
pub struct ChunkRange {
    pub first: i64,
    pub last: i64,
    pub count: usize,
}

/// `low` is how far back from frame number `end` a chunk reaches: at most
/// `limit` frames, none but the last before `floor`.
pub open spec fn reaches(ticks: Seq<i64>, low: int, end: int, floor: i64, limit: int) -> bool {
    &&& 0 <= low <= end < ticks.len()
    &&& low == end || end - low + 1 <= limit
    &&& forall|j: int| low <= j < end ==> #[trigger] ticks[j] >= floor
    &&& low == 0 || ticks[low - 1] < floor || end - low + 1 >= limit
}

/// `first` is where a chunk that reaches from `low` to `end` starts: at its
/// earliest keyframe, or at `low` where it has none.
pub open spec fn starts(
    ticks: Seq<i64>,
    keys: Map<i64, crate::keyframes::table::Entry>,
    low: int,
    end: int,
    first: int,
) -> bool {
    &&& low <= first <= end
    &&& forall|j: int| low <= j < first ==> !keys.contains_key(#[trigger] ticks[j])
    &&& keys.contains_key(ticks[first]) || (first == low && forall|j: int|
        low <= j <= end ==> !keys.contains_key(#[trigger] ticks[j]))
}

/// The chunk ending at frame `last`: back at most `limit` frames, but no
/// further than `floor`, starting at the earliest keyframe in that reach if
/// there is one.
pub fn chunk_range(frames: &FrameTable, keys: &KeyTable, last: i64, floor: i64, limit: usize) -> (
chunk: ChunkRange)
    requires
        frames.wf(),
        keys.wf(),
        frames.ticks@.contains(last),
    ensures
        chunk.last == last,
        exists|low: int, first: int, end: int|
            #![trigger reaches(frames.ticks@, low, end, floor, limit as int), frames.ticks@[first]]
            reaches(frames.ticks@, low, end, floor, limit as int) && frames.ticks@[end] == last
                && starts(frames.ticks@, keys@, low, end, first) && chunk.first
                == frames.ticks@[first] && chunk.count == end - first + 1,
        1 <= chunk.count,
        chunk.count <= limit || chunk.count == 1,
{
    let end: usize = frames.before(last);
    proof {
        let k = choose|k: int| 0 <= k < frames.ticks@.len() && frames.ticks@[k] == last;
        assert(k >= end);
        if k > end {
            assert(frames.ticks@[end as int] < frames.ticks@[k]);
        }
    }
    let mut low: usize = end;
    while low > 0 && end - low + 1 < limit && frames.ticks[low - 1] >= floor
        invariant
            low <= end < frames.ticks@.len(),
            low == end || end - low + 1 <= limit,
            forall|j: int| low <= j < end ==> #[trigger] frames.ticks@[j] >= floor,
        decreases low,
    {
        low = low - 1;
    }
    assert(reaches(frames.ticks@, low as int, end as int, floor, limit as int));
    let mut first: usize = low;
    let mut found = false;
    let mut at: usize = low;
    while at <= end && !found
        invariant
            low <= at <= end + 1,
            end < frames.ticks.len(),
            keys.wf(),
            found ==> first == at && at <= end && keys@.contains_key(frames.ticks@[at as int]),
            !found ==> first == low,
            forall|j: int| low <= j < at ==> !keys@.contains_key(#[trigger] frames.ticks@[j]),
        decreases end + 1 - at + (if found {
            0int
        } else {
            1int
        }),
    {
        if keys.get(frames.ticks[at]).is_some() {
            first = at;
            found = true;
        } else {
            at = at + 1;
        }
    }
    assert(starts(frames.ticks@, keys@, low as int, end as int, first as int));
    ChunkRange { first: frames.ticks[first], last, count: end - first + 1 }
}

/// A frame no earlier than `floor`.
pub open spec fn not_below(frame: Option<i64>, floor: i64) -> Option<i64> {
    match frame {
        Some(frame) => if frame >= floor {
            Some(frame)
        } else {
            None
        },
        None => None,
    }
}

/// Where the chunk after the one that starts at `first` ends: at the frame
/// before it, or at the frame last asked for if that is earlier, so that a
/// chunk the clock has passed is never decoded. Nothing before `floor`.
pub fn next_chunk_end(frames: &FrameTable, first: i64, floor: i64, asked: Option<i64>) -> (end:
    Option<i64>)
    requires
        frames.wf(),
    ensures
        ({
            let before = not_below(newest_in(frames.ticks@, clamped(first - 1)), floor);
            end == (match (before, asked) {
                (Some(last), Some(asked)) => if asked < last {
                    not_below(newest_in(frames.ticks@, asked), floor)
                } else {
                    before
                },
                _ => before,
            })
        }),
{
    let before: Option<i64> = match newest(frames, saturating_sub(first, 1)) {
        Some(frame) => if frame >= floor {
            Some(frame)
        } else {
            None
        },
        None => None,
    };
    match (before, asked) {
        (Some(last), Some(asked)) => if asked < last {
            match newest(frames, asked) {
                Some(frame) => if frame >= floor {
                    Some(frame)
                } else {
                    None
                },
                None => None,
            }
        } else {
            before
        },
        _ => before,
    }
}

} // verus!
