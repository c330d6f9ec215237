//! Playback: the clock, the transport, the plan and what is shown.
use blinkify_engine::project::AudioOperation;
use blinkify_engine::keyframes::table::FrameTable;
use blinkify_engine::playback::clock::{Anchor, PlaybackClock, FRAME_PARTS};
use blinkify_engine::playback::feeder::{
    chain_rendered,
    chunk_end, chunk_size, frames_covering, lane_for, micros, prefetch, turn, Feed, LaneChoice,
};
use blinkify_engine::playback::frame::{
    ShownFrame, VideoFrame, WIRE_FLAG_BLACK, WIRE_HEADER_BYTES, WIRE_MAGIC,
};
use blinkify_engine::playback::lanes::{keep_up, KeepUp, LANE_BUDGET_BYTES};
use blinkify_engine::playback::monitor::{MonitorCommand, MonitorSettings};
use blinkify_engine::playback::plan::{
    AudioStream, AudioTrack, PlanError, PlaybackPlan, Segment, SourceMedia, StreamInfo, VideoStream, MAIN_TRACK,
};
use blinkify_engine::playback::reverse::{
    chunk_frames, memory_bound, MAX_CHUNK_FRAMES, MIN_CHUNK_FRAMES,
};
use blinkify_engine::playback::scrub::{gives_up, window, FrameCache, ScrubSlot, Turn, WINDOW_MAX};
use blinkify_engine::playback::step::{last_frame_position, present, step, Presentation};
use blinkify_engine::playback::timecode::frame_number;
use blinkify_engine::playback::transport::{
    Action, Extent, LoopRange, PlaybackState, PreviewSpeed, Transport, TransportCommand,
};
use blinkify_engine::probe::Rational;
use std::sync::Arc;

#[test]
fn a_bypassed_step_is_not_rendered() {
    assert!(chain_rendered(&AudioOperation::Gain { db: "3".to_owned() }));
    assert!(chain_rendered(&AudioOperation::Denoise { bypassed: false }));
    assert!(!chain_rendered(&AudioOperation::Denoise { bypassed: true }));
}

#[test]
fn a_black_frame_on_the_wire_has_no_pixels_and_says_so() {
    let frame = ShownFrame {
        seq: 3,
        picture: None,
        rotation: 0,
        position: 1_000_000,
        chosen_at: 1_000_000,
        frame_number: 30,
    };
    let bytes = frame.wire();
    assert_eq!(bytes.len(), WIRE_HEADER_BYTES);
    assert_eq!(bytes.get(..4), Some(&WIRE_MAGIC[..]));
    assert_eq!(bytes.get(12..16), Some(&WIRE_FLAG_BLACK.to_le_bytes()[..]));
    assert_eq!(bytes.get(32..40), Some(&1_000_000_i64.to_le_bytes()[..]));
}

#[test]
fn rotation_travels_as_quarter_turns() {
    let frame = ShownFrame {
        seq: 1,
        picture: Some(Arc::new(VideoFrame {
            pts: 7,
            width: 1,
            height: 1,
            pixels: vec![1, 2, 3, 4],
        })),
        rotation: 270,
        position: 0,
        chosen_at: 0,
        frame_number: 0,
    };
    let bytes = frame.wire();
    assert_eq!(bytes.get(12..16), Some(&3_u32.to_le_bytes()[..]));
    assert_eq!(bytes.get(48..), Some(&[1_u8, 2, 3, 4][..]));
}

#[test]
fn a_chunk_holds_a_second_at_most_and_a_few_frames_at_least() {
    assert_eq!(chunk_frames(160 * 90 * 4), MAX_CHUNK_FRAMES);
    assert_eq!(chunk_frames(3840 * 2160 * 4), MIN_CHUNK_FRAMES);
    assert_eq!(chunk_frames(0), MAX_CHUNK_FRAMES);
}

#[test]
fn the_bound_is_the_ring_and_two_chunks_whatever_the_clip() {
    let frame = 320 * 180 * 4;
    let ring = LANE_BUDGET_BYTES / frame;
    assert_eq!(
        memory_bound(frame, ring),
        (ring + 2 * MAX_CHUNK_FRAMES) * frame
    );
}

fn frame(pts: i64, bytes: usize) -> Arc<VideoFrame> {
    Arc::new(VideoFrame {
        pts,
        width: 1,
        height: 1,
        pixels: vec![0; bytes],
    })
}

#[test]
fn the_cache_never_holds_more_than_its_budget() {
    let mut cache = FrameCache::new(100);
    for pts in 0..20 {
        cache.insert(0, frame(pts, 30));
        assert!(cache.bytes <= 100, "{} bytes", cache.bytes);
    }
    // The newest survive; the oldest went first.
    assert!(cache.get(0, 19).is_some());
    assert!(cache.get(0, 0).is_none());
    // A frame larger than the whole budget is not kept at all.
    cache.insert(1, frame(0, 500));
    assert!(cache.get(1, 0).is_none());
}

#[test]
fn a_new_position_replaces_the_one_waiting() {
    let mut slot = ScrubSlot::default();
    slot.request(1_000);
    slot.request(2_000);
    slot.request(500);
    assert_eq!(slot.next(None), Turn::Serve(500, -1));
    assert_eq!(slot.counts(), (3, 0));
}

#[test]
fn a_slot_waits_once_served_and_ends_when_stopped() {
    let mut slot = ScrubSlot::default();
    assert_eq!(slot.next(None), Turn::Wait);
    slot.request(1_000);
    assert_eq!(slot.next(Some(1_000)), Turn::Wait);
    slot.decoded_a_window();
    assert_eq!(slot.counts(), (1, 1));
    slot.stop();
    assert_eq!(slot.next(None), Turn::Stopped);
}

#[test]
fn a_window_leans_where_the_scrub_goes() {
    assert_eq!(window(1_000_000_000, 100, 1), (WINDOW_MAX, WINDOW_MAX / 4));
    assert_eq!(
        window(1_000_000_000, 100, -1),
        (WINDOW_MAX, WINDOW_MAX - WINDOW_MAX / 4)
    );
    assert!(gives_up(true, Some(0), 5_000_000, -1));
    assert!(!gives_up(true, Some(5_500_000), 5_000_000, 1));
    assert!(!gives_up(false, Some(0), 5_000_000, -1));
}

const THIRTY: Rational = Rational { num: 30, den: 1 };
const NTSC: Rational = Rational {
    num: 30000,
    den: 1001,
};

#[test]
fn a_frame_starts_count_as_that_frame() {
    assert_eq!(frame_number(0, THIRTY), 0);
    assert_eq!(
        frame_number(33_333, THIRTY),
        0,
        "a microsecond before frame 1"
    );
    assert_eq!(frame_number(50_000, THIRTY), 1, "the middle of frame 1");
    assert_eq!(frame_number(33_334, THIRTY), 1);
    assert_eq!(frame_number(3_966_667, THIRTY), 119);
    // 1001/30000 s per frame: frame 1 starts at 33366.67 µs.
    assert_eq!(frame_number(33_367, NTSC), 1);
    assert_eq!(frame_number(1_001_000, NTSC), 30);
}

#[test]
fn timecode_is_hours_minutes_seconds_frames() {
    assert_eq!(blinkify_engine::playback::timecode::format(0, THIRTY), "00:00:00:00");
    assert_eq!(blinkify_engine::playback::timecode::format(119, THIRTY), "00:00:03:29");
    assert_eq!(blinkify_engine::playback::timecode::format(120, THIRTY), "00:00:04:00");
    assert_eq!(blinkify_engine::playback::timecode::format(30 * 3661 + 7, THIRTY), "01:01:01:07");
    assert_eq!(blinkify_engine::playback::timecode::format(30, NTSC), "00:00:01:00");
    assert_eq!(blinkify_engine::playback::timecode::format(-5, THIRTY), "00:00:00:00");
}

fn anchor(frame: u64, at: i64, speed: PreviewSpeed, generation: u64) -> Anchor {
    Anchor {
        frame,
        at,
        speed,
        generation,
    }
}

#[test]
fn a_paused_clock_stays_where_it_was_put() {
    let mut clock = PlaybackClock::new(5_000, 1);
    assert_eq!(
        clock.position(1_000_000_000 * FRAME_PARTS, 48_000),
        (1, 5_000)
    );
}

#[test]
fn a_running_clock_follows_the_frames_heard_at_its_speed() {
    let mut clock = PlaybackClock::new(0, 0);
    clock.run(anchor(1_000, 2_000_000, PreviewSpeed::Normal, 1));
    // Before the anchor's first frame is heard: pre-roll, at the anchor.
    assert_eq!(clock.position(500 * FRAME_PARTS, 1_000), (1, 2_000_000));
    assert_eq!(clock.position(1_500 * FRAME_PARTS, 1_000), (1, 2_500_000));
    clock.run(anchor(0, 0, PreviewSpeed::Double, 2));
    assert_eq!(clock.position(1_000 * FRAME_PARTS, 1_000), (2, 2_000_000));
    clock.run(anchor(0, 0, PreviewSpeed::Quarter, 3));
    assert_eq!(clock.position(1_000 * FRAME_PARTS, 1_000), (3, 250_000));
}

#[test]
fn a_loop_anchor_takes_over_once_its_frame_is_heard() {
    let mut clock = PlaybackClock::new(0, 0);
    clock.run(anchor(0, 9_000_000, PreviewSpeed::Normal, 1));
    clock.anchor(anchor(1_000, 0, PreviewSpeed::Normal, 2));
    assert_eq!(clock.position(999 * FRAME_PARTS, 1_000), (1, 9_999_000));
    assert_eq!(clock.position(1_250 * FRAME_PARTS, 1_000), (2, 250_000));
}

#[test]
fn the_clock_never_moves_backwards_within_a_generation() {
    let mut clock = PlaybackClock::new(0, 0);
    clock.run(anchor(0, 0, PreviewSpeed::Normal, 1));
    assert_eq!(clock.position(2_000 * FRAME_PARTS, 1_000), (1, 2_000_000));
    assert_eq!(clock.position(1_000 * FRAME_PARTS, 1_000), (1, 2_000_000));
}

#[test]
fn timeline_and_sample_counts_convert_both_ways() {
    assert_eq!(micros(48_000, 48_000, PreviewSpeed::Normal), 1_000_000);
    assert_eq!(micros(48_000, 48_000, PreviewSpeed::Double), 2_000_000);
    assert_eq!(micros(441, 44_100, PreviewSpeed::Normal), 10_000);
    assert_eq!(
        frames_covering(1_000_000, 48_000, PreviewSpeed::Normal),
        48_000
    );
    assert_eq!(
        frames_covering(1_000_000, 48_000, PreviewSpeed::Half),
        96_000
    );
    assert_eq!(frames_covering(1, 48_000, PreviewSpeed::Normal), 1);
}

#[test]
fn solo_and_mute_decide_which_tracks_are_heard() {
    let mut settings = MonitorSettings::default();
    assert!(settings.audible(0) && settings.audible(1));
    settings.apply(MonitorCommand::MuteTrack { track: 1, on: true });
    assert!(settings.audible(0) && !settings.audible(1));
    settings.apply(MonitorCommand::Solo { track: 1, on: true });
    // Soloed but muted: mute wins, and the solo silences the rest.
    assert!(!settings.audible(0) && !settings.audible(1));
    settings.apply(MonitorCommand::MuteTrack {
        track: 1,
        on: false,
    });
    assert!(!settings.audible(0) && settings.audible(1));
    settings.apply(MonitorCommand::Solo { track: 0, on: true });
    assert!(settings.audible(0) && settings.audible(1));
}

fn source(id: u64) -> SourceMedia {
    SourceMedia {
        id,
        video: Some(VideoStream {
            index: 0,
            time_base: Rational { num: 1, den: 1000 },
            rotation: 0,
            average_frame_rate: Some(Rational { num: 25, den: 1 }),
            base_frame_rate: Some(Rational { num: 25, den: 1 }),
        }),
        audio: Some(AudioStream {
            index: 1,
            time_base: Rational { num: 1, den: 1000 },
        }),
        proxy: false,
    }
}

fn two_clips() -> PlaybackPlan {
    PlaybackPlan::new(vec![
        Segment::new(source(1), 1_000, 3_000, 0),
        Segment::new(source(2), 0, 1_000, 2_500_000),
    ])
    .expect("plan")
}

/// The same clips without the gap.
fn joined() -> PlaybackPlan {
    PlaybackPlan::new(vec![
        Segment::new(source(1), 1_000, 3_000, 0),
        Segment::new(source(2), 0, 1_000, 2_000_000),
    ])
    .expect("plan")
}

#[test]
fn a_plan_places_its_segments() {
    let plan = two_clips();
    assert_eq!(plan.duration(), 3_500_000);
    assert_eq!(plan.segment_at(1_999_999), Some(0));
    assert_eq!(plan.segment_at(2_200_000), None);
    assert_eq!(plan.next_segment_after(2_200_000), Some(1));
    assert_eq!(plan.segments[0].source_at(500_000), 1_500);
    assert_eq!(plan.segments[0].program_at(1_500), 500_000);
    assert_eq!(plan.next_boundary(0), 2_000_000);
    assert_eq!(plan.frame_rate, Rational { num: 25, den: 1 });
}

#[test]
fn a_plan_that_cannot_be_played_is_refused() {
    assert!(matches!(
        PlaybackPlan::new(Vec::new()),
        Err(PlanError::Empty)
    ));
    assert!(matches!(
        PlaybackPlan::new(vec![Segment::new(source(1), 1_000, 1_000, 0)]),
        Err(PlanError::Inverted(0))
    ));
    assert!(matches!(
        PlaybackPlan::new(vec![
            Segment::new(source(1), 0, 1_000, 0),
            Segment::new(source(1), 0, 1_000, 500_000),
        ]),
        Err(PlanError::Overlap(1))
    ));
    let track = |id| AudioTrack {
        id,
        segments: vec![Segment::new(source(1), 0, 1_000, 0)],
    };
    assert!(matches!(
        two_clips().with_audio_track(track(MAIN_TRACK)),
        Err(PlanError::DuplicateTrack(0))
    ));
    assert_eq!(
        two_clips()
            .with_audio_track(track(3))
            .expect("plan")
            .sound_tracks()
            .len(),
        2
    );
    let none: Vec<StreamInfo> = Vec::new();
    assert_eq!(
        SourceMedia::new(1, "a.txt", &none, &none),
        Err(PlanError::NothingToPlay("a.txt".to_owned()))
    );
}

#[test]
fn the_preview_shows_black_in_a_gap_and_a_frame_elsewhere() {
    let plan = two_clips();
    assert_eq!(
        present(&plan, 2_200_000, false, None),
        Presentation::Black
    );
    match present(&joined(), 1_200_000, false, None) {
        Presentation::Frame {
            segment,
            pts,
            next,
            looped,
        } => {
            assert_eq!((segment, pts), (0, 2_200));
            assert_eq!(next, Some((1, 0)));
            assert_eq!(looped, None);
        }
        other => panic!("{other:?}"),
    }
}

fn table(ticks: &[i64]) -> FrameTable {
    let mut table = FrameTable::new();
    for tick in ticks {
        table.insert(*tick);
    }
    table
}

#[test]
fn a_step_crosses_the_gap_and_stops_at_the_ends() {
    let plan = two_clips();
    let tables = vec![table(&[960, 1_000, 1_040, 2_960]), table(&[0, 40])];
    assert_eq!(step(&plan, &tables, 0, 1), Some((0, 1_040)));
    assert_eq!(step(&plan, &tables, 0, 3), Some((1, 0)));
    assert_eq!(step(&plan, &tables, 2_500_000, -1), Some((0, 2_960)));
    assert_eq!(step(&plan, &tables, 0, -1), Some((0, 1_000)));
    assert_eq!(last_frame_position(&plan, &tables), 2_540_000);
}

#[test]
fn the_transport_answers_each_command() {
    let extent = Extent {
        end: 4_000_000,
        first: Some(0),
        last_frame: 3_960_000,
    };
    let mut transport = Transport::new();
    let actions = transport.command(TransportCommand::Play, (0, 1_000_000), extent);
    assert_eq!(transport.state, PlaybackState::Playing);
    assert!(actions
        .iter()
        .any(|action| matches!(action, Action::StartFeeder { at: 1_000_000, .. })));
    let actions = transport.command(TransportCommand::Toggle, (1, 1_500_000), extent);
    assert_eq!(transport.state, PlaybackState::Paused);
    assert!(actions
        .iter()
        .any(|action| matches!(action, Action::PauseClock { at: 1_500_000, .. })));
    transport.command(
        TransportCommand::SetLoop {
            range: Some(LoopRange {
                start: 2_000_000,
                end: 1_000_000,
            }),
        },
        (2, 0),
        extent,
    );
    assert_eq!(transport.loop_range, None);
    let actions = transport.command(
        TransportCommand::Scrub {
            position: 9_000_000,
        },
        (2, 0),
        extent,
    );
    assert!(transport.scrubbing);
    assert!(actions
        .iter()
        .any(|action| matches!(action, Action::Scrub { at: 3_999_999 })));
}

#[test]
fn the_feeder_finds_its_lane_and_the_next_one() {
    let plan = two_clips();
    assert_eq!(
        lane_for(&plan.segments, 2_200_000, Some(0), None),
        LaneChoice::Silence
    );
    assert_eq!(
        lane_for(&plan.segments, 1_000_000, Some(0), None),
        LaneChoice::Keep
    );
    assert_eq!(
        lane_for(&plan.segments, 2_600_000, Some(0), Some(1)),
        LaneChoice::TakeUpcoming
    );
    assert_eq!(
        lane_for(&plan.segments, 2_600_000, None, None),
        LaneChoice::Start(1)
    );
    assert_eq!(
        prefetch(&joined().segments, 1_200_000, None, 3_000_000),
        Some((1, 2_000_000))
    );
    assert_eq!(prefetch(&plan.segments, 0, None, 3_500_000), None);
    assert_eq!(chunk_end(&vec![700], 500, 1_000), 700);
    assert_eq!(chunk_end(&vec![400], 500, 1_000), 1_000);
}

#[test]
fn a_lane_far_behind_restarts_ahead() {
    let base = Rational { num: 1, den: 1000 };
    assert_eq!(
        keep_up(5_000, Some(4_990), false, false, base),
        KeepUp::Nothing
    );
    assert!(matches!(
        keep_up(5_000, Some(1_000), false, false, base),
        KeepUp::RestartAfter(at) if at > 5_000
    ));
    assert_eq!(
        keep_up(5_000, Some(1_000), true, false, base),
        KeepUp::Nothing
    );
    assert_eq!(keep_up(5_000, None, false, false, base), KeepUp::Nothing);
}

#[test]
fn the_feeder_writes_ahead_wraps_and_drains() {
    let range = Some(LoopRange {
        start: 1_000_000,
        end: 2_000_000,
    });
    assert_eq!(turn(0, None, 4_000_000, 0, 48_000), Feed::Write);
    // A fifth of a second is written ahead.
    assert_eq!(turn(0, None, 4_000_000, 9_600, 48_000), Feed::WaitForRoom);
    assert_eq!(turn(4_000_000, None, 4_000_000, 0, 48_000), Feed::Drain);
    assert_eq!(
        turn(2_000_000, range, 4_000_000, 0, 48_000),
        Feed::Wrap(1_000_000)
    );
    assert_eq!(chunk_size(0, 1_000_000, 48_000, PreviewSpeed::Normal), 480);
    assert_eq!(chunk_size(999_000, 1_000_000, 48_000, PreviewSpeed::Normal), 48);
}

#[test]
fn a_cache_may_have_any_budget() {
    let mut cache = FrameCache::new(usize::MAX);
    cache.insert(0, frame(0, 30));
    cache.insert(0, frame(0, 40));
    cache.insert(0, frame(1, 5));
    assert_eq!(cache.bytes, 45);
    assert_eq!(cache.frames.len(), 2);
}

#[test]
fn a_step_pauses_and_is_looked_up() {
    let extent = Extent {
        end: 4_000_000,
        first: Some(0),
        last_frame: 3_960_000,
    };
    let mut transport = Transport::new();
    transport.command(TransportCommand::Play, (0, 1_000_000), extent);
    let actions = transport.command(
        TransportCommand::Step { frames: -2 },
        (1, 1_500_000),
        extent,
    );
    assert_eq!(transport.state, PlaybackState::Paused);
    assert_eq!(
        actions,
        vec![
            Action::StopFeeder,
            Action::PauseClock {
                at: 1_500_000,
                generation: 1
            },
            Action::Step {
                at: 1_500_000,
                generation: 1,
                frames: -2
            },
        ]
    );
    let actions = transport.finish_step(1_420_000, true, 1, extent);
    assert_eq!(
        actions,
        vec![Action::PauseClock {
            at: 1_420_000,
            generation: 1
        }]
    );
    assert_eq!(transport.pending, Some(1_420_000));
}

#[test]
fn a_whole_file_plays_at_its_own_rate() {
    let plan = PlaybackPlan::whole(source(1), 0, 4_000).expect("plan");
    assert_eq!(plan.frame_rate, Rational { num: 25, den: 1 });
}
