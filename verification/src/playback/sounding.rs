//! What is heard at a position is what sounds there, and a command does what it
//! says.
use crate::keyframes::table::Entry;
use crate::keyframes::{Query, StreamIndex};
use crate::playback::clock::{position_from, unspent, Anchor};
use crate::playback::feeder::{
    cut, feed_end, frames_of, length_of, prefetched, samples_behind, span_of,
};
use crate::playback::lanes::{far_behind, kept, resync_lead, LaneKey};
use crate::playback::monitor::{toggled, MonitorSettings};
use crate::playback::plan::{boundary_after, playing_at, ProgramTime, Segment};
use crate::playback::reverse::{chunk_size, most_held, not_below, reaches, starts};
use crate::playback::scrub::{
    direction_of, evicted, scrub_tick, shows, window_size, Cached, FrameCache, ScrubSlot, Turn,
};
use crate::playback::transport::{
    kept_loop, on_timeline, Action, Extent, LoopRange, PlaybackState, PreviewSpeed, Transport,
    TransportCommand,
};
use crate::probe::Rational;
use vstd::prelude::*;

verus! {

proof fn lemma_floor(n: int, d: int)
    requires
        d > 0,
    ensures
        n == (n / d) * d + n % d,
        0 <= n % d < d,
        (n / d + 1) * d == (n / d) * d + d,
{
    vstd::arithmetic::div_mod::lemma_fundamental_div_mod(n, d);
    vstd::arithmetic::div_mod::lemma_mod_bound(n, d);
    let f = n / d;
    assert(d * f == f * d && (f + 1) * d == f * d + d) by (nonlinear_arith);
}

/// So many quarters of the normal speed.
pub open spec fn pace(speed: PreviewSpeed) -> int {
    match speed {
        PreviewSpeed::Quarter => 1,
        PreviewSpeed::Half => 2,
        PreviewSpeed::Normal => 4,
        PreviewSpeed::Double => 8,
    }
}

/// A length of sound is the nearest whole number of its samples, and one at
/// least.
pub proof fn a_length_is_as_many_samples(micros: u64, rate: u32)
    requires
        length_of(micros, rate) < u64::MAX,
    ensures
        length_of(micros, rate) >= 1,
        length_of(micros, rate) > 1 ==> -1_000_000 <= 2 * (micros * rate - length_of(micros, rate)
            * 1_000_000) < 1_000_000,
        2 * micros * rate < 3_000_000 ==> length_of(micros, rate) == 1,
{
    lemma_floor(micros * rate, 1_000_000);
    assert(2 * micros * rate == 2 * (micros * rate)) by (nonlinear_arith);
}

/// Samples written move on by as long as they sound, at the preview's speed:
/// at double speed twice as far.
pub proof fn written_samples_move_on(frames: u64, rate: u32, speed: PreviewSpeed)
    requires
        rate > 0,
        span_of(frames, rate, speed) < i64::MAX,
    ensures
        ({
            let span = span_of(frames, rate, speed);
            -(4 * rate) <= 2 * (frames * 1_000_000 * pace(speed) - span * (4 * rate)) < 4 * rate
        }),
{
    let n = frames * 1_000_000 * pace(speed);
    assert(n >= 0) by (nonlinear_arith)
        requires
            n == frames * 1_000_000 * pace(speed),
            frames >= 0,
            pace(speed) >= 0,
    ;
    lemma_floor(n, 4 * rate);
    assert(n / (4 * rate) >= 0) by (nonlinear_arith)
        requires
            n >= 0,
            rate > 0,
    ;
}

/// A stretch is covered by the fewest samples that reach its end.
pub proof fn a_stretch_is_covered(span: ProgramTime, rate: u32, speed: PreviewSpeed)
    requires
        span > 0,
        rate > 0,
        frames_of(span, rate, speed) < u64::MAX,
    ensures
        ({
            let frames = frames_of(span, rate, speed);
            let each = 1_000_000 * pace(speed);
            (frames - 1) * each < span * rate * 4 <= frames * each
        }),
{
    let d = 1_000_000 * pace(speed);
    let n = span * rate * 4;
    lemma_floor(n, d);
    assert(n > 0) by (nonlinear_arith)
        requires
            n == span * rate * 4,
            span > 0,
            rate > 0,
    ;
    let f = n / d;
    assert(f >= 0) by (nonlinear_arith)
        requires
            n > 0,
            n == f * d + n % d,
            0 <= n % d < d,
    ;
    assert((f + 1 - 1) * d == f * d && (f - 1) * d == f * d - d) by (nonlinear_arith);
}

/// Sound is written up to the loop's end, or the timeline's where nothing
/// loops.
pub proof fn sound_is_written_to_the_end(range: Option<LoopRange>, duration: ProgramTime)
    ensures
        range is None ==> feed_end(range, duration) == duration,
        range is Some ==> feed_end(range, duration) == range->0.end,
{
}

/// A chunk ends at the first position behind this one where a chain changes.
pub proof fn a_chunk_stops_where_a_chain_changes(
    starts: Seq<ProgramTime>,
    t: ProgramTime,
    first: ProgramTime,
    i: int,
)
    requires
        0 <= i < starts.len(),
    ensures
        cut(starts, t, first) <= first,
        starts[i] > t ==> cut(starts, t, first) <= starts[i],
        cut(starts, t, first) == first || cut(starts, t, first) > t && starts.contains(
            cut(starts, t, first),
        ),
    decreases starts.len(),
{
    let shorter = starts.drop_last();
    assert(starts[starts.len() - 1] == starts.last());
    if shorter.len() > 0 {
        let j = if i < shorter.len() {
            i
        } else {
            0
        };
        a_chunk_stops_where_a_chain_changes(shorter, t, first, j);
        if cut(shorter, t, first) != first {
            let k = choose|k: int| 0 <= k < shorter.len() && shorter[k] == cut(shorter, t, first);
            assert(starts[k] == shorter[k]);
        }
        if i < shorter.len() {
            assert(shorter[i] == starts[i]);
        }
    } else {
        assert(cut(shorter, t, first) == first);
    }
}

/// What is prepared is what sounds next: at the loop's start where the loop
/// ends within a second and a half and nothing changes before, else the segment
/// that starts at the boundary, where that is as near and not the end.
pub proof fn what_sounds_next_is_prepared(
    segments: Seq<Segment>,
    now: ProgramTime,
    range: Option<LoopRange>,
    end: ProgramTime,
)
    ensures
        ({
            let ahead = boundary_after(segments, now, end);
            let boundary = if ahead < end {
                ahead
            } else {
                end
            };
            let looping = range is Some && range->0.end - now < 1_500_000 && boundary
                >= range->0.end;
            let lane = prefetched(segments, now, range, end);
            &&& looping ==> (match playing_at(segments, range->0.start) {
                Some(i) => lane == Some((i, range->0.start)),
                None => lane is None,
            })
            &&& !looping && (boundary - now >= 1_500_000 || boundary >= end) ==> lane is None
            &&& !looping && boundary - now < 1_500_000 && boundary < end ==> (match playing_at(
                segments,
                boundary,
            ) {
                Some(i) => (segments[i as int].timeline_start == boundary ==> lane == Some(
                    (i, boundary),
                )) && (segments[i as int].timeline_start != boundary ==> lane is None),
                None => lane is None,
            })
        }),
{
}

/// What a new chain drops is what was written since: two samples a frame.
pub proof fn a_new_chain_drops_what_was_written(
    starts_at: ProgramTime,
    t: ProgramTime,
    rate: u32,
    speed: PreviewSpeed,
)
    requires
        0 < t - starts_at <= i64::MAX,
        rate > 0,
        samples_behind(starts_at, t, rate, speed) < u64::MAX,
    ensures
        ({
            let frames = samples_behind(starts_at, t, rate, speed) / 2;
            let each = 1_000_000 * pace(speed);
            &&& samples_behind(starts_at, t, rate, speed) == 2 * frames
            &&& (frames - 1) * each < (t - starts_at) * rate * 4 <= frames * each
        }),
{
    a_stretch_is_covered((t - starts_at) as i64, rate, speed);
}

/// Anchors are spent in order: the one that counts is the last whose frame has
/// been heard, or the first of all.
pub proof fn the_last_anchor_heard_counts(anchors: Seq<Anchor>, heard: u64, i: int)
    requires
        0 <= i < anchors.len(),
        forall|a: int, b: int|
            0 <= a < b < anchors.len() ==> (#[trigger] anchors[a]).frame <= (
            #[trigger] anchors[b]).frame,
        i > 0 ==> anchors[i].frame * 1_000_000 <= heard,
        i + 1 < anchors.len() ==> anchors[i + 1].frame * 1_000_000 > heard,
    ensures
        unspent(anchors, heard) == anchors.skip(i),
    decreases i,
{
    if i > 0 {
        assert(anchors[1].frame <= anchors[i].frame);
        let rest = anchors.skip(1);
        assert forall|a: int, b: int| 0 <= a < b < rest.len() implies (#[trigger] rest[a]).frame <= (
        #[trigger] rest[b]).frame by {
            assert(anchors[a + 1].frame <= anchors[b + 1].frame);
        }
        assert(rest[i - 1] == anchors[i]);
        if i + 1 < anchors.len() {
            assert(rest[i] == anchors[i + 1]);
        }
        the_last_anchor_heard_counts(rest, heard, i - 1);
        assert(rest.skip(i - 1) =~= anchors.skip(i));
    } else {
        assert(anchors.skip(0) =~= anchors);
    }
}

/// The clock runs with what is heard: from an anchor on, at its speed, as many
/// microseconds as whole ones have sounded.
pub proof fn the_clock_runs_at_its_speed(anchor: Anchor, heard: u64, rate: u32)
    requires
        rate > 0,
        heard >= anchor.frame * 1_000_000,
        position_from(anchor, heard, rate) < i64::MAX,
        position_from(anchor, heard, rate) - anchor.at < i64::MAX,
    ensures
        ({
            let micros = position_from(anchor, heard, rate) - anchor.at;
            let parts = (heard - anchor.frame * 1_000_000) * pace(anchor.speed);
            micros * (4 * rate) <= parts < (micros + 1) * (4 * rate)
        }),
{
    let since = heard - anchor.frame * 1_000_000;
    let n = since * pace(anchor.speed);
    lemma_floor(n, 4 * rate);
    assert(n >= 0) by (nonlinear_arith)
        requires
            n == since * pace(anchor.speed),
            since >= 0,
            pace(anchor.speed) >= 0,
    ;
    assert(n / (4 * rate) >= 0) by (nonlinear_arith)
        requires
            n >= 0,
            rate > 0,
    ;
    if since == 0 {
        assert(n == 0) by (nonlinear_arith)
            requires
                n == since * pace(anchor.speed),
                since == 0,
        ;
        assert(n / (4 * rate) == 0) by (nonlinear_arith)
            requires
                n == 0,
                rate > 0,
        ;
    }
}

/// A position is brought onto the timeline: before its end, not before its
/// start, and left where it is on it.
pub proof fn a_position_is_brought_onto_the_timeline(t: ProgramTime, end: ProgramTime)
    ensures
        on_timeline(t, end) >= 0,
        end > 0 ==> on_timeline(t, end) < end,
        0 <= t < end ==> on_timeline(t, end) == t,
        t < 0 || end <= 0 ==> on_timeline(t, end) == 0,
        0 < end <= t ==> on_timeline(t, end) == end - 1,
{
}

/// A loop is kept as it was asked for as far as it lies on the timeline; one
/// that is empty there is not kept.
pub proof fn a_loop_is_kept_as_asked(start: ProgramTime, stop: ProgramTime, end: ProgramTime)
    ensures
        ({
            let kept = kept_loop(Some(LoopRange { start, end: stop }), end);
            &&& 0 <= start < stop <= end ==> kept == Some(LoopRange { start, end: stop })
            &&& start >= stop || start >= end || stop <= 0 ==> kept is None
            &&& start < 0 < stop <= end ==> kept == Some(LoopRange { start: 0, end: stop })
            &&& 0 <= start < end < stop ==> kept == Some(LoopRange { start, end })
        }),
        kept_loop(None, end) is None,
{
}

/// A seek shows the frame there under a new generation, and goes on playing
/// where it played.
pub proof fn a_seek_shows_where_it_lands(transport: Transport, t: ProgramTime, extent: Extent)
    requires
        transport.generations < u64::MAX,
        0 <= t < extent.end,
    ensures
        ({
            let outcome = transport.sought(t, extent);
            let generation = (transport.generations + 1) as u64;
            let playing = transport.state == PlaybackState::Playing;
            &&& outcome.now == (generation, t)
            &&& outcome.transport.generations == generation
            &&& outcome.transport.pending == Some(t)
            &&& outcome.transport.state == PlaybackState::Playing <==> playing
            &&& !playing ==> outcome.transport.state == PlaybackState::Paused
            &&& outcome.transport.speed == transport.speed
            &&& outcome.transport.loop_range == transport.loop_range
            &&& outcome.actions.contains(Action::PauseClock { at: t, generation })
            &&& outcome.actions.contains(Action::ClearLanes)
            &&& outcome.actions.contains(Action::Prepare { at: t, generation })
            &&& playing ==> outcome.actions[0] == Action::StopFeeder && outcome.actions.last()
                == (Action::StartFeeder { at: t, generation, speed: transport.speed })
            &&& !playing ==> outcome.actions.len() == 3
        }),
{
    let outcome = transport.sought(t, extent);
    let generation = (transport.generations + 1) as u64;
    let k: int = if transport.state == PlaybackState::Playing {
        1
    } else {
        0
    };
    assert(outcome.actions[k] == Action::PauseClock { at: t, generation });
    assert(outcome.actions[k + 1] == Action::ClearLanes);
    assert(outcome.actions[k + 2] == Action::Prepare { at: t, generation });
}

/// Pausing stops the sound and holds the clock where it is; playing starts both
/// there, or at the start where the end is reached.
pub proof fn playing_and_pausing_do_what_they_say(
    transport: Transport,
    now: (u64, ProgramTime),
    extent: Extent,
)
    requires
        transport.generations < u64::MAX,
    ensures
        ({
            let paused = transport.paused(now);
            &&& paused.now == now
            &&& transport.state == PlaybackState::Playing ==> paused.transport.state
                == PlaybackState::Paused && paused.actions == seq![
                Action::StopFeeder,
                Action::PauseClock { at: now.1, generation: now.0 },
            ]
            &&& transport.state != PlaybackState::Playing ==> paused.transport == transport
                && paused.actions.len() == 0
        }),
        ({
            let played = transport.started(now, extent);
            let stop = match transport.loop_range {
                Some(range) => range.end,
                None => extent.end,
            };
            let start = match (transport.loop_range, extent.first) {
                (Some(range), _) => range.start,
                (None, Some(first)) => first,
                (None, None) => 0,
            };
            let again = transport.state == PlaybackState::Ended || now.1 >= stop;
            &&& played.transport.state == PlaybackState::Playing
            &&& played.transport.speed == transport.speed
            &&& transport.state == PlaybackState::Playing ==> played.actions.len() == 0
            &&& transport.state != PlaybackState::Playing && !again ==> played.now == now
                && played.actions == seq![
                Action::WaitForVideo { at: now.1, generation: now.0 },
                Action::StartFeeder { at: now.1, generation: now.0, speed: transport.speed },
            ]
            &&& transport.state != PlaybackState::Playing && again && 0 <= start < extent.end
                ==> played.now == ((transport.generations + 1) as u64, start)
                && played.actions.last() == (Action::StartFeeder {
                at: start,
                generation: (transport.generations + 1) as u64,
                speed: transport.speed,
            })
        }),
{
}

/// A command does what it says.
pub proof fn a_command_does_what_it_says(
    transport: Transport,
    now: (u64, ProgramTime),
    extent: Extent,
    position: ProgramTime,
    speed: PreviewSpeed,
    range: Option<LoopRange>,
    frames: i32,
)
    requires
        transport.generations < u64::MAX - 1,
        !transport.scrubbing,
        0 <= position < extent.end,
        0 <= extent.last_frame < extent.end,
    ensures
        ({
            let next = (transport.generations + 1) as u64;
            let start = match (transport.loop_range, extent.first) {
                (Some(range), _) => range.start,
                (None, Some(first)) => first,
                (None, None) => 0,
            };
            let after = |command: TransportCommand| transport.after(command, now, extent);
            &&& after(TransportCommand::Play).transport.state == PlaybackState::Playing
            &&& after(TransportCommand::Pause).transport.state != PlaybackState::Playing
            &&& after(TransportCommand::Toggle).transport.state == PlaybackState::Playing
                <==> transport.state != PlaybackState::Playing
            &&& after(TransportCommand::Stop).transport.state == PlaybackState::Paused
            &&& 0 <= start < extent.end ==> after(TransportCommand::Stop).now == (next, start)
                && after(TransportCommand::JumpToStart).now == (next, start)
            &&& after(TransportCommand::JumpToEnd).now == (next, extent.last_frame)
            &&& after(TransportCommand::Seek { position }).now == (next, position)
            &&& after(TransportCommand::Seek { position }).transport.pending == Some(position)
            &&& after(TransportCommand::Step { frames }).transport.state == PlaybackState::Paused
            &&& after(TransportCommand::Step { frames }).actions.last() == (Action::Step {
                at: now.1,
                generation: now.0,
                frames,
            })
            &&& ({
                let scrubbed = after(TransportCommand::Scrub { position });
                &&& scrubbed.transport.state == PlaybackState::Paused
                &&& scrubbed.transport.scrubbing && scrubbed.transport.pending == Some(position)
                &&& scrubbed.transport.generations == transport.generations
                &&& scrubbed.actions.last() == (Action::Scrub { at: position })
                &&& scrubbed.now == (now.0, position)
            })
            &&& ({
                let paced = after(TransportCommand::SetSpeed { speed });
                &&& paced.transport == (Transport { speed, ..transport })
                &&& paced.now == now
                &&& transport.state == PlaybackState::Playing ==> paced.actions.last() == (
                Action::StartFeeder { at: now.1, generation: now.0, speed })
                &&& transport.state != PlaybackState::Playing ==> paced.actions.len() == 0
            })
            &&& after(TransportCommand::SetLoop { range }).transport == (Transport {
                loop_range: kept_loop(range, extent.end),
                ..transport
            })
            &&& after(TransportCommand::SetLoop { range }).actions.len() == 0
        }),
{
}

/// Leaving a dragged playhead by playing seeks to where it is first.
pub proof fn a_drag_ends_where_the_playhead_is(
    transport: Transport,
    now: (u64, ProgramTime),
    extent: Extent,
)
    requires
        transport.scrubbing,
        transport.state == PlaybackState::Paused,
        transport.generations < u64::MAX - 1,
        0 <= now.1 < extent.end,
    ensures
        ({
            let next = (transport.generations + 1) as u64;
            let paused = transport.after(TransportCommand::Pause, now, extent);
            let stepped = transport.after(TransportCommand::Step { frames: 1 }, now, extent);
            &&& !paused.transport.scrubbing && paused.now == (next, now.1)
            &&& paused.actions.contains(Action::Prepare { at: now.1, generation: next })
            &&& !transport.after(TransportCommand::Play, now, extent).transport.scrubbing
            &&& !stepped.transport.scrubbing && stepped.now == now
        }),
{
    let next = (transport.generations + 1) as u64;
    let paused = transport.after(TransportCommand::Pause, now, extent);
    assert(paused.actions[2] == Action::Prepare { at: now.1, generation: next });
}

/// A decoder is kept for its own generation and for what comes, never for what
/// is behind.
pub proof fn a_decoder_serves_what_comes(lane: LaneKey, generation: u64, segment: usize)
    ensures
        lane.generation < generation ==> !kept(lane, generation, Some(segment)),
        lane.generation > generation ==> kept(lane, generation, Some(segment)),
        lane.generation == generation ==> (kept(lane, generation, Some(segment)) <==> lane.segment
            >= segment),
        lane.generation == generation ==> kept(lane, generation, None),
{
}

/// A decoder is far behind by a second, and restarts three tenths of one ahead.
pub proof fn a_late_decoder_restarts_ahead(now: i64, head: i64, base: Rational)
    requires
        base.num > 0,
        base.den > 0,
        i64::MIN <= now - head <= i64::MAX,
    ensures
        far_behind(now, head, base) <==> (now - head) * base.num >= base.den,
        ({
            let lead = resync_lead(base) * base.num * 10;
            -(10 * base.num) <= 2 * (3 * base.den - lead) < 10 * base.num
        }),
{
    let n = 3 * base.den;
    let d = 10 * base.num;
    lemma_floor(n, d);
    let f = resync_lead(base);
    assert(f * base.num * 10 == f * d) by (nonlinear_arith)
        requires
            d == 10 * base.num,
    ;
}

/// A track is switched on and off by itself.
pub proof fn a_track_is_switched_by_itself(
    tracks: Set<crate::project::TrackId>,
    track: crate::project::TrackId,
    other: crate::project::TrackId,
    on: bool,
)
    ensures
        toggled(tracks, track, on).contains(track) <==> on,
        other != track ==> (toggled(tracks, track, on).contains(other) <==> tracks.contains(other)),
{
}

/// While a track is soloed only soloed ones are heard; none is needed else.
pub proof fn only_soloed_tracks_are_heard(
    settings: MonitorSettings,
    track: crate::project::TrackId,
    solo: crate::project::TrackId,
)
    requires
        !settings.muted_tracks@.contains(track),
    ensures
        settings.soloed@.contains(track) ==> settings.heard(track),
        settings.soloed@.contains(solo) && !settings.soloed@.contains(track) ==> !settings.heard(
            track,
        ),
        settings.soloed@.len() == 0 ==> settings.heard(track),
{
}

/// A chunk played backwards is as long as thirty-two mebibytes hold, between
/// four frames and thirty.
pub proof fn a_backwards_chunk_fits_its_budget(frame_bytes: usize)
    requires
        frame_bytes > 0,
    ensures
        4 <= chunk_size(frame_bytes) <= 30,
        chunk_size(frame_bytes) > 4 ==> chunk_size(frame_bytes) * frame_bytes <= 33_554_432,
        chunk_size(frame_bytes) < 30 ==> (chunk_size(frame_bytes) + 1) * frame_bytes > 33_554_432,
{
    lemma_floor(33_554_432, frame_bytes as int);
    let (f, b) = (33_554_432int / frame_bytes as int, frame_bytes as int);
    let c = chunk_size(frame_bytes);
    if f < 4 {
        assert((c + 1) * b >= (f + 1) * b) by (nonlinear_arith)
            requires
                c >= f,
                b > 0,
        ;
    }
    if f > 30 {
        assert(c * b <= f * b) by (nonlinear_arith)
            requires
                c <= f,
                b > 0,
        ;
    }
}

/// What is held while playing backwards: the ring and two chunks.
pub proof fn two_chunks_and_the_ring_are_held(frame_bytes: usize, ring: usize)
    requires
        ring + 2 * chunk_size(frame_bytes) <= usize::MAX,
        (ring + 2 * chunk_size(frame_bytes)) * frame_bytes <= usize::MAX,
    ensures
        most_held(frame_bytes, ring) == (ring + 2 * chunk_size(frame_bytes)) * frame_bytes,
{
}

/// A chunk backwards starts on a keyframe where it holds one, the first; it
/// holds every frame from there to its end, none below the floor but its last,
/// and is no longer than it may be.
pub proof fn a_backwards_chunk_starts_on_a_keyframe(
    ticks: Seq<i64>,
    keys: Map<i64, Entry>,
    low: int,
    end: int,
    first: int,
    floor: i64,
    limit: int,
    i: int,
)
    requires
        reaches(ticks, low, end, floor, limit),
        starts(ticks, keys, low, end, first),
        low <= i <= end,
        limit >= 1,
    ensures
        keys.contains_key(ticks[i]) ==> first <= i && keys.contains_key(ticks[first]),
        first <= i < end ==> ticks[i] >= floor,
        end - first + 1 <= limit,
        low > 0 && end - low + 1 < limit ==> ticks[low - 1] < floor,
{
}

/// A frame that lies below the floor is none.
pub proof fn a_frame_below_the_floor_is_none(frame: i64, floor: i64)
    ensures
        frame >= floor ==> not_below(Some(frame), floor) == Some(frame),
        frame < floor ==> not_below(Some(frame), floor) is None,
        not_below(None, floor) is None,
{
}

/// A dragged playhead goes where it went: forwards, backwards or neither.
pub proof fn a_drag_has_its_direction(previous: ProgramTime, t: ProgramTime)
    ensures
        t > previous <==> direction_of(previous, t) > 0,
        t < previous <==> direction_of(previous, t) < 0,
        direction_of(previous, t) == -direction_of(t, previous),
{
}

/// A position is served once, and nothing is once the worker stopped.
pub proof fn a_position_is_served_once(slot: ScrubSlot, served: Option<ProgramTime>)
    ensures
        slot.stopped ==> slot.turn(served) == Turn::Stopped,
        !slot.stopped && slot.target is None ==> slot.turn(served) == Turn::Wait,
        !slot.stopped && slot.target is Some && served == slot.target ==> slot.turn(served)
            == Turn::Wait,
        !slot.stopped && slot.target is Some && served != slot.target ==> slot.turn(served)
            == Turn::Serve(slot.target->0, slot.direction),
{
}

/// A window holds as many frames as its budget, between two and forty-eight.
pub proof fn a_window_fits_its_budget(budget: usize, frame_bytes: usize)
    requires
        frame_bytes > 0,
    ensures
        2 <= window_size(budget, frame_bytes) <= 48,
        window_size(budget, frame_bytes) > 2 ==> window_size(budget, frame_bytes) * frame_bytes
            <= budget,
        window_size(budget, frame_bytes) < 48 ==> (window_size(budget, frame_bytes) + 1)
            * frame_bytes > budget,
{
    lemma_floor(budget as int, frame_bytes as int);
    let (f, b) = (budget as int / frame_bytes as int, frame_bytes as int);
    let c = window_size(budget, frame_bytes);
    if f < 2 {
        assert((c + 1) * b >= (f + 1) * b) by (nonlinear_arith)
            requires
                c >= f,
                b > 0,
        ;
    }
    if f > 48 {
        assert(c * b <= f * b) by (nonlinear_arith)
            requires
                c <= f,
                b > 0,
        ;
    }
}

/// A frame that is put into a cache takes the place of the one it is, or goes
/// behind all others; no other is touched.
pub proof fn a_frame_takes_its_own_place(cache: FrameCache, cached: Cached, i: int)
    requires
        cache.wf(),
        0 <= i < cache.frames@.len(),
    ensures
        ({
            let after = cache.placed(cached);
            let same = |k: int|
                cache.frames@[k].segment == cached.segment && cache.frames@[k].frame.pts
                    == cached.frame.pts;
            &&& same(i) ==> after.len() == cache.frames@.len() && after[i] == cached
            &&& !same(i) ==> after[i] == cache.frames@[i]
            &&& (forall|k: int| 0 <= k < cache.frames@.len() ==> !#[trigger] same(k)) ==> after
                == cache.frames@.push(cached)
        }),
{
    let same = |k: int|
        cache.frames@[k].segment == cached.segment && cache.frames@[k].frame.pts
            == cached.frame.pts;
    if exists|k: int|
        0 <= k < cache.frames@.len() && crate::playback::scrub::is_frame(
            #[trigger] cache.frames@[k],
            cached.segment,
            cached.frame.pts,
        ) {
        let k = choose|k: int|
            0 <= k < cache.frames@.len() && crate::playback::scrub::is_frame(
                #[trigger] cache.frames@[k],
                cached.segment,
                cached.frame.pts,
            );
        assert(same(k));
        if same(i) && i < k {
            assert(!crate::playback::scrub::is_frame(
                cache.frames@[i],
                cache.frames@[k].segment,
                cache.frames@[k].frame.pts,
            ));
        }
        if same(i) && k < i {
            assert(!crate::playback::scrub::is_frame(
                cache.frames@[k],
                cache.frames@[i].segment,
                cache.frames@[i].frame.pts,
            ));
        }
    } else {
        assert(!crate::playback::scrub::is_frame(
            cache.frames@[i],
            cached.segment,
            cached.frame.pts,
        ));
    }
}

/// The oldest frames leave first, and none that need not: what stays are the
/// last of those that were there, and one more would be too many.
pub proof fn the_oldest_frames_leave_first(frames: Seq<Cached>, budget: int)
    requires
        budget >= 0,
    ensures
        ({
            let after = evicted(frames, budget);
            let gone = frames.len() - after.len();
            &&& gone >= 0 && after == frames.skip(gone)
            &&& gone > 0 ==> crate::playback::scrub::total_bytes(frames.skip(gone - 1)) > budget
        }),
    decreases frames.len(),
{
    if frames.len() > 0 && crate::playback::scrub::total_bytes(frames) > budget {
        let rest = frames.skip(1);
        the_oldest_frames_leave_first(rest, budget);
        let gone = rest.len() - evicted(rest, budget).len();
        assert(rest.skip(gone) =~= frames.skip(gone + 1));
        if gone > 0 {
            assert(rest.skip(gone - 1) =~= frames.skip(gone));
        } else {
            assert(frames.skip(0) =~= frames);
        }
    } else {
        assert(frames.skip(0) =~= frames);
    }
}

/// A dragged playhead shows the newest frame that has begun where it is, never
/// one that the out point cuts off; before all of them the first.
pub proof fn a_drag_shows_the_frame_there(
    index: StreamIndex,
    segment: Segment,
    t: ProgramTime,
    frame: i64,
    other: i64,
)
    requires
        shows(index, segment, t, Query::Known(frame)),
        index.frames@.contains(other),
        i64::MIN < segment.source_out,
    ensures
        ({
            let there = segment.tick_at(t);
            let last = segment.source_out - 1;
            let tick = if there < last {
                there as int
            } else {
                last
            };
            &&& scrub_tick(segment, t) == tick
            &&& other <= tick ==> index.frames@.contains(frame) && other <= frame <= tick
            &&& frame > tick ==> index.frames@.contains(frame) && (other > tick ==> frame <= other)
        }),
{
    let tick = scrub_tick(segment, t);
    if index.answers_frame(tick, Query::Known(Some(frame))) {
        crate::keyframes::witness::the_frame_before_is_the_nearest(
            index,
            tick,
            Query::Known(Some(frame)),
            Query::Known(Some(frame)),
        );
    } else {
        crate::keyframes::witness::the_frame_before_is_the_nearest(
            index,
            tick,
            Query::Known(None),
            Query::Known(None),
        );
        if tick < i64::MAX && index.answers_frame_after(tick, Query::Known(Some(frame))) {
            crate::keyframes::witness::the_frame_after_is_the_nearest(
                index,
                tick,
                Query::Known(Some(frame)),
            );
        }
    }
}

} // verus!
