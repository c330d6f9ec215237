//! Planning an export and carrying the plan out.
use blinkify_engine::capability::{EncoderSource, VideoCodec};
use blinkify_engine::export::audio::{encoding_for, AudioTarget};
use blinkify_engine::export::encode::{encoder_job, Cue};
use blinkify_engine::export::estimate::{
    all_measured, basis_of, load_of, reference_source, Basis, Load,
};
use blinkify_engine::export::execute::chapters::{chapters, SourceChapter};
use blinkify_engine::export::execute::check::{
    check, preflight, producer, routes_of, runnable, take_place, Target, Work,
};
use blinkify_engine::export::execute::command::{muxer_command, reader_command, seam_command};
use blinkify_engine::export::execute::gather::{collect_headers, conclude};
use blinkify_engine::export::execute::interleave::{next_stream, Interleave};
use blinkify_engine::export::execute::place::{retime, Place};
use blinkify_engine::export::execute::route::{without_tag, Announcement, Output};
use blinkify_engine::export::execute::select::{CopyRun, Copying, RenderRun, Routed, SeamRun, Step, Take};
use blinkify_engine::export::execute::{partial_path, Container, ExportError, ExportInput};
use blinkify_engine::export::facts::source_facts;
use blinkify_engine::export::inspect::{decode_command, hash_command};
use blinkify_engine::export::loudness::{
    aim, gain_of, measure_error, order_of, with_gain, MeasureError, Samples, Unresolved,
};
use blinkify_engine::export::nut::read::Reader;
use blinkify_engine::export::nut::{Chapter, Class, Header, Packet, StreamHeader};
use blinkify_engine::export::overview::{
    claim, explain, overview, reasons_of, snap_offer, Reckoning, Wording,
};
use blinkify_engine::export::plan::cut::{boundaries, keyframe_alternative};
use blinkify_engine::export::plan::{
    plan, AudioFacts, Cause, Decline, EncodingField, EncodingSignature, ExportPlan,
    KeyframeAlternative, KeyframePoint, Media, PlanError, SeamWindow, SourceFacts, VideoFacts,
};
use blinkify_engine::export::profile::{EncoderChoice, Unmatched};
use blinkify_engine::export::render::{render_job, reverse_chunks, RenderJob};
use blinkify_engine::export::report::measure::{Execution, Measured};
use blinkify_engine::export::report::segment::report_segment;
use blinkify_engine::export::seam::Stitch;
use blinkify_engine::export::verify::hash;
use blinkify_engine::orchestrator::command::{SidecarCommand, Stdout, Tool};
use blinkify_engine::probe::{
    AudioInfo, ColorInfo, MediaInfo, Rational, StreamGeometry, StreamInfo, StreamKind, VideoInfo,
};
use blinkify_engine::playback::plan::{AudioStream, PlaybackPlan, SourceMedia, VideoStream};
use blinkify_engine::project::{
    AudioOperation, Mismatch, Motion, Picture, Placement, SequenceSettings, SourceId, Timeline, Track,
    TrackKind,
};
use blinkify_engine::tier::{ExportTier, ReEncodeReason, SeamReason};
use std::collections::BTreeMap;

const MILLIS: Rational = Rational { num: 1, den: 1000 };
const FRAMES: Rational = Rational { num: 1, den: 25 };
const RATE: Rational = Rational { num: 25, den: 1 };
const ONE: Rational = Rational { num: 1, den: 1 };

fn geometry() -> StreamGeometry {
    StreamGeometry {
        width: 1920,
        height: 1080,
        frame_rate: RATE,
        pixel_aspect: ONE,
        hdr: false,
    }
}

fn encoding(codec: &str, configuration: &str) -> EncodingSignature {
    EncodingSignature {
        codec: Some(codec.to_owned()),
        profile: Some("High".to_owned()),
        level: Some(40),
        pixel_format: Some("yuv420p".to_owned()),
        width: 1920,
        height: 1080,
        colour: [None, None, None, None],
        sample_rate: None,
        channels: None,
        configuration: Some(configuration.to_owned()),
    }
}

fn choice() -> EncoderChoice {
    EncoderChoice {
        codec: VideoCodec::H264,
        encoder: "h264_nvenc".to_owned(),
        source: EncoderSource::Nvidia,
        profile: "high".to_owned(),
        pixel_format: "yuv420p".to_owned(),
        bit_depth: 8,
        level: Some(40),
        colour: [None, None, None, None],
    }
}

/// A source with a keyframe every second for ten seconds.
fn facts(configuration: &str) -> SourceFacts {
    let mut audio = BTreeMap::new();
    audio.insert(
        1,
        AudioFacts {
            stream: 1,
            time_base: Rational {
                num: 1,
                den: 48_000,
            },
            encoding: EncodingSignature {
                codec: Some("aac".to_owned()),
                profile: Some("LC".to_owned()),
                level: None,
                pixel_format: None,
                width: 0,
                height: 0,
                colour: [None, None, None, None],
                sample_rate: Some(48_000),
                channels: Some(2),
                configuration: None,
            },
        },
    );
    SourceFacts {
        video: Some(VideoFacts {
            stream: 0,
            time_base: MILLIS,
            geometry: geometry(),
            encoding: encoding("h264", configuration),
            keyframes: (0..10)
                .map(|n| KeyframePoint {
                    pts: n * 1000,
                    open: false,
                    random_access: true,
                })
                .collect(),
            keyframes_complete: true,
            end: Some(10_000),
            reorders: true,
            encoder: Ok(choice()),
        }),
        audio,
        default_audio: Some(1),
    }
}

fn placement(clip: u64, source: SourceId, start: i64, from: i64, to: i64) -> Placement {
    Placement {
        track: 0,
        clip,
        source,
        stream: 0,
        start,
        length: (to - from) / 40,
        source_in: from,
        source_out: to,
        time_base: MILLIS,
        speed: ONE,
        motion: None,
        forced: None,
        silent: false,
        audio: Vec::new(),
        chain: 0,
    }
}

fn piece(placement: Placement) -> Picture {
    Picture {
        placement,
        rate_outside_container: None,
        mismatches: Vec::new(),
    }
}

fn again(of: &Placement) -> Placement {
    Placement {
        motion: of.motion,
        forced: of.forced,
        time_base: of.time_base,
        ..placement(of.clip, of.source, of.start, of.source_in, of.source_out)
    }
}

fn timeline(picture: Vec<Picture>, length: i64) -> Timeline {
    let placements = picture.iter().map(|piece| again(&piece.placement)).collect();
    Timeline {
        time_base: FRAMES,
        frame_rate: RATE,
        length,
        picture,
        tracks: vec![Track {
            id: 0,
            kind: TrackKind::Video,
            audible: false,
            placements,
        }],
    }
}

fn settings() -> SequenceSettings {
    SequenceSettings {
        width: 1920,
        height: 1080,
        frame_rate: RATE,
        pixel_aspect: ONE,
    }
}

fn sources() -> BTreeMap<SourceId, SourceFacts> {
    let mut sources = BTreeMap::new();
    sources.insert(1, facts("a"));
    sources.insert(2, facts("b"));
    sources
}

fn planned(timeline: &Timeline) -> ExportPlan {
    plan(timeline, &settings(), &sources(), &Vec::new()).expect("plan")
}

#[test]
fn an_aligned_clip_is_copied() {
    let plan = planned(&timeline(
        vec![piece(placement(1, 1, 0, 2_000, 4_000))],
        50,
    ));
    assert_eq!(plan.segments.len(), 1);
    assert_eq!(plan.segments[0].tier, ExportTier::StreamCopy);
    assert!(plan.segments[0].causes.is_empty());
    assert_eq!(plan.reference, Some(1));
    assert!(plan.summary.lossless && plan.summary.exportable);
    assert_eq!(plan.summary.video.copied, 50);
    assert_eq!(
        claim(&plan, Media::Video).map(|claim| (claim.lossless, claim.copied, claim.re_encoded)),
        Some((true, 50, 0))
    );
    assert!(claim(&plan, Media::Audio).is_none());
}

#[test]
fn a_cut_off_its_keyframe_re_encodes_the_window_alone() {
    let plan = planned(&timeline(
        vec![piece(placement(1, 1, 0, 2_400, 4_000))],
        40,
    ));
    let segment = &plan.segments[0];
    assert_eq!(
        segment.tier,
        ExportTier::SmartCut {
            reason: SeamReason::InPointNotKeyframeAligned
        }
    );
    assert_eq!(
        segment.causes,
        vec![Cause::InPointNotKeyframe {
            keyframe_before: Some(2_000),
            keyframe_after: Some(3_000),
        }]
    );
    assert_eq!(
        segment.windows,
        vec![SeamWindow {
            from: 2_400,
            to: 3_000
        }]
    );
    assert_eq!(
        segment.encoder.as_ref().map(|choice| choice.encoder.clone()),
        Some("h264_nvenc".to_owned())
    );
    assert_eq!(plan.summary.video.re_encoded, 15);
    assert_eq!(plan.summary.video.copied, 25);
    assert!(!plan.summary.lossless);
}

#[test]
fn a_gap_is_a_segment_and_the_pictures_tile_the_sequence() {
    let plan = planned(&timeline(
        vec![
            piece(placement(1, 1, 0, 0, 1_000)),
            piece(placement(2, 1, 50, 1_000, 2_000)),
        ],
        80,
    ));
    let spans: Vec<(i64, i64)> = plan
        .segments
        .iter()
        .map(|segment| (segment.start, segment.end()))
        .collect();
    assert_eq!(spans, vec![(0, 25), (25, 50), (50, 75), (75, 80)]);
    assert_eq!(plan.segments[1].causes, vec![Cause::Gap]);
}

#[test]
fn what_differs_from_the_first_copied_source_is_re_encoded() {
    let plan = planned(&timeline(
        vec![
            piece(placement(1, 1, 0, 0, 1_000)),
            piece(placement(2, 2, 25, 0, 1_000)),
        ],
        50,
    ));
    assert_eq!(plan.reference, Some(1));
    assert_eq!(
        plan.segments[1].causes,
        vec![Cause::IncompatibleEncoding {
            reference: 1,
            fields: vec![EncodingField::Configuration],
        }]
    );
}

#[test]
fn hdr_and_a_missing_encoder_decline_the_export() {
    let mut held = placement(1, 1, 0, 0, 1_000);
    held.forced = Some(ReEncodeReason::FreezeFrame);
    held.motion = Some(Motion::Hold);
    let timeline = timeline(vec![piece(held)], 25);
    let mut hdr = sources();
    if let Some(video) = hdr.get_mut(&1).and_then(|facts| facts.video.as_mut()) {
        video.geometry.hdr = true;
    }
    let declined = plan(&timeline, &settings(), &hdr, &Vec::new()).expect("plan");
    assert_eq!(
        declined.segments[0].decline,
        Some(Decline::HdrWouldBeRendered)
    );
    assert!(!declined.summary.exportable);
    let mut bare = sources();
    if let Some(video) = bare.get_mut(&1).and_then(|facts| facts.video.as_mut()) {
        video.encoder = Err(Unmatched::EncodersUnknown);
    }
    let declined = plan(&timeline, &settings(), &bare, &Vec::new()).expect("plan");
    assert_eq!(
        declined.segments[0].decline,
        Some(Decline::NoEncoder {
            unmatched: Unmatched::EncodersUnknown
        })
    );
}

#[test]
fn a_plan_names_what_is_missing() {
    let none = timeline(Vec::new(), 0);
    assert_eq!(
        plan(&none, &settings(), &sources(), &Vec::new()),
        Err(PlanError::Empty)
    );
    let unknown = timeline(vec![piece(placement(1, 9, 0, 0, 1_000))], 25);
    assert_eq!(
        plan(&unknown, &settings(), &sources(), &Vec::new()),
        Err(PlanError::UnknownSource(9))
    );
    let mut silent = sources();
    if let Some(facts) = silent.get_mut(&1) {
        facts.video = None;
    }
    let unseen = timeline(vec![piece(placement(1, 1, 0, 0, 1_000))], 25);
    assert_eq!(
        plan(&unseen, &settings(), &silent, &Vec::new()),
        Err(PlanError::NoVideo(1))
    );
    let mut far = placement(1, 1, 0, 0, 1_000);
    far.time_base = Rational {
        num: i64::MAX,
        den: 1,
    };
    let far = timeline(vec![piece(far)], 25);
    assert_eq!(
        plan(&far, &settings(), &sources(), &Vec::new()),
        Err(PlanError::Overflow(1))
    );
}

#[test]
fn an_unread_boundary_is_not_copied() {
    let mut facts = facts("a");
    let video = facts.video.as_mut().expect("video");
    video.keyframes_complete = false;
    video.keyframes.truncate(3);
    assert_eq!(
        boundaries(video, 2_000, 5_500),
        (vec![Cause::KeyframesUnknown], Vec::new())
    );
    assert_eq!(
        boundaries(video, 1_000, 2_000),
        (Vec::new(), Vec::new())
    );
}

#[test]
fn a_segment_carries_every_precondition_that_failed() {
    let mismatch = Mismatch::Resolution {
        sequence_width: 1280,
        sequence_height: 720,
        source_width: 1920,
        source_height: 1080,
    };
    let mut off = piece(placement(1, 1, 0, 2_400, 4_000));
    off.mismatches.push(mismatch);
    let plan = planned(&timeline(vec![off], 40));
    let segment = &plan.segments[0];
    assert_eq!(
        segment.causes,
        vec![
            Cause::SequenceMismatch { mismatch },
            Cause::InPointNotKeyframe {
                keyframe_before: Some(2_000),
                keyframe_after: Some(3_000),
            },
        ]
    );
    assert_eq!(
        segment.tier,
        ExportTier::FullReEncode {
            reason: ReEncodeReason::SequenceSettingsDiffer
        }
    );
    assert!(segment.windows.is_empty());
    assert_eq!(plan.summary.video.re_encoded, 40);
}

#[test]
fn a_planned_segment_says_one_thing() {
    let mut slow = sound(7, 10, 0, 1_000);
    slow.speed = Rational { num: 1, den: 2 };
    let mut made = with_sound(vec![slow]);
    made.picture = vec![
        piece(placement(1, 1, 0, 2_400, 4_000)),
        piece(placement(2, 1, 60, 0, 1_000)),
    ];
    made.length = 90;
    let plan = plan(
        &made,
        &settings(),
        &sources(),
        &vec![vec![], vec![Some(sound(7, 10, 0, 1_000))], vec![]],
    )
    .expect("plan");
    for segment in &plan.segments {
        let copied = segment.tier == ExportTier::StreamCopy;
        let cut = matches!(segment.tier, ExportTier::SmartCut { .. });
        assert_eq!(segment.causes.is_empty(), copied);
        assert_eq!(!segment.windows.is_empty(), cut);
        assert!(!cut || segment.media == Media::Video);
        assert_eq!(segment.sources.is_empty(), segment.causes == vec![Cause::Gap]);
    }
}

#[test]
fn differences_are_told_in_order() {
    let one = encoding("h264", "a");
    let mut other = encoding("hevc", "b");
    other.level = Some(50);
    other.width = 1280;
    assert_eq!(
        one.differences(&other),
        vec![
            EncodingField::Codec,
            EncodingField::Level,
            EncodingField::Resolution
        ]
    );
    assert_eq!(
        one.differences(&encoding("h264", "b")),
        vec![EncodingField::Configuration]
    );
}

#[test]
fn the_end_of_the_stream_is_a_place_to_end() {
    let mut facts = facts("a");
    let video = facts.video.as_mut().expect("video");
    video.keyframes.truncate(2);
    video.keyframes[1].pts = 30;
    video.end = Some(60);
    assert_eq!(
        keyframe_alternative(video, 0, 59),
        Some(KeyframeAlternative {
            source_in: 0,
            source_out: 60
        })
    );
    assert_eq!(
        keyframe_alternative(video, 0, 40).map(|cut| cut.source_out),
        Some(30)
    );
    // As near to both, the keyframe.
    assert_eq!(
        keyframe_alternative(video, 0, 45).map(|cut| cut.source_out),
        Some(30)
    );
}

#[test]
fn the_alternative_lies_on_keyframes() {
    let facts = facts("a");
    let video = facts.video.as_ref().expect("video");
    let alternative = keyframe_alternative(video, 2_400, 4_600).expect("alternative");
    assert_eq!(alternative.source_in % 1_000, 0);
    assert_eq!(alternative.source_out % 1_000, 0);
}

fn sound(clip: u64, start: i64, from: i64, to: i64) -> Placement {
    let mut placed = placement(clip, 1, start, from, to);
    placed.track = 1;
    placed.stream = 1;
    placed
}

fn with_sound(placements: Vec<Placement>) -> Timeline {
    let mut timeline = timeline(vec![piece(placement(1, 1, 0, 0, 2_000))], 50);
    timeline.tracks = vec![Track {
        id: 1,
        kind: TrackKind::Audio,
        audible: true,
        placements,
    }];
    timeline
}

#[test]
fn sound_is_copied_mixed_or_filtered() {
    let copied = with_sound(vec![sound(2, 0, 0, 2_000)]);
    let cuts: Vec<Vec<Option<Placement>>> = vec![vec![Some(sound(2, 0, 0, 2_000))]];
    let made = plan(&copied, &settings(), &sources(), &cuts).expect("plan");
    let heard: Vec<ExportTier> = made
        .segments
        .iter()
        .filter(|segment| segment.media == Media::Audio)
        .map(|segment| segment.tier)
        .collect();
    assert_eq!(heard, vec![ExportTier::StreamCopy]);

    let mut filtered = sound(2, 0, 0, 2_000);
    filtered.audio = vec![AudioOperation::Denoise { bypassed: false }];
    let mut cut = sound(2, 0, 0, 2_000);
    cut.audio = vec![AudioOperation::Denoise { bypassed: false }];
    let made = plan(
        &with_sound(vec![filtered]),
        &settings(),
        &sources(),
        &vec![vec![Some(cut)]],
    )
    .expect("plan");
    assert_eq!(
        made.segments.last().map(|segment| segment.tier),
        Some(ExportTier::FullReEncode {
            reason: ReEncodeReason::AudioFilter
        })
    );
}

fn media(codec: &str) -> MediaInfo {
    MediaInfo {
        streams: vec![
            StreamInfo {
                index: 0,
                is_default: true,
                codec: Some(codec.to_owned()),
                profile: Some("High".to_owned()),
                level: Some(40),
                time_base: Some(MILLIS),
                extradata_hash: Some("CRC32:0".to_owned()),
                end: Some(10_000),
                kilobits: Some(8_000),
                kind: StreamKind::Video(VideoInfo {
                    width: 1920,
                    height: 1080,
                    pixel_format: Some("yuv420p".to_owned()),
                    bit_depth: Some(8),
                    chroma_subsampling: None,
                    field_order: None,
                    hdr: false,
                    color: ColorInfo {
                        primaries: None,
                        transfer: None,
                        matrix: None,
                        range: None,
                    },
                    average_frame_rate: Some(RATE),
                    base_frame_rate: Some(RATE),
                    geometry: Some(geometry()),
                    rotation: 0,
                    has_b_frames: true,
                    is_attached_picture: false,
                }),
            },
            StreamInfo {
                index: 1,
                is_default: true,
                codec: Some("aac".to_owned()),
                profile: Some("LC".to_owned()),
                level: None,
                time_base: Some(Rational {
                    num: 1,
                    den: 48_000,
                }),
                extradata_hash: None,
                end: None,
                kilobits: Some(192),
                kind: StreamKind::Audio(AudioInfo {
                    sample_rate: Some(48_000),
                    channels: Some(2),
                    sample_format: Some("fltp".to_owned()),
                }),
            },
        ],
    }
}

fn inputs() -> BTreeMap<SourceId, ExportInput> {
    let mut inputs = BTreeMap::new();
    inputs.insert(
        1,
        ExportInput {
            path: "one.mp4".to_owned(),
            info: media("h264"),
        },
    );
    inputs
}

fn target(extension: &str) -> Target {
    Target {
        path: format!("out.{extension}"),
        extension: extension.to_owned(),
        exists: false,
        source: None,
    }
}

#[test]
fn facts_come_from_what_was_probed() {
    let facts = source_facts(&media("h264"), None, None);
    let video = facts.video.expect("video");
    assert_eq!(video.stream, 0);
    assert_eq!(video.encoding.codec, Some("h264".to_owned()));
    assert!(video.keyframes.is_empty() && !video.keyframes_complete);
    assert_eq!(video.encoder, Err(Unmatched::EncodersUnknown));
    assert_eq!(facts.default_audio, Some(1));
    assert!(facts.audio.contains_key(&1));
}

fn copied() -> ExportPlan {
    planned(&timeline(
        vec![piece(placement(1, 1, 0, 2_000, 4_000))],
        50,
    ))
}

#[test]
fn a_target_is_checked_before_anything_runs() {
    let plan = copied();
    let audio = AudioTarget::default();
    assert_eq!(
        preflight(&plan, &inputs(), &target("mp4"), false, audio),
        Ok((Container::Mp4, None))
    );
    assert_eq!(
        preflight(&plan, &inputs(), &target("avi"), false, audio),
        Err(ExportError::Container("avi".to_owned()))
    );
    assert!(matches!(
        preflight(&plan, &inputs(), &target("webm"), false, audio),
        Err(ExportError::CodecNotInContainer { .. })
    ));
    let mut there = target("mp4");
    there.exists = true;
    assert_eq!(
        check(&plan, &inputs(), &there, false, audio),
        Err(ExportError::TargetExists("out.mp4".to_owned()))
    );
    assert_eq!(check(&plan, &inputs(), &there, true, audio), Ok(None));
    let mut own = target("mp4");
    own.source = Some("one.mp4".to_owned());
    assert_eq!(
        check(&plan, &inputs(), &own, true, audio),
        Err(ExportError::TargetIsSource("one.mp4".to_owned()))
    );
    assert_eq!(
        check(&plan, &BTreeMap::new(), &target("mp4"), false, audio),
        Err(ExportError::MissingSource(1))
    );
}

#[test]
fn a_declined_segment_is_not_run() {
    let mut plan = copied();
    assert_eq!(runnable(&plan.segments[0], false), Ok(()));
    assert_eq!(producer(&plan.segments[0], false), Ok(Work::Copy));
    plan.segments[0].decline = Some(Decline::HdrWouldBeRendered);
    assert!(matches!(
        check(&plan, &inputs(), &target("mp4"), false, AudioTarget::default()),
        Err(ExportError::Declined(_))
    ));
    plan.segments[0].tier = ExportTier::FullReEncode {
        reason: ReEncodeReason::Gap,
    };
    assert_eq!(
        runnable(&plan.segments[0], false),
        Err(ExportError::Unsupported(
            "the Video segment at frame 0 (FullReEncode { reason: Gap })".to_owned()
        ))
    );
    let routes = routes_of(&copied()).expect("routes");
    assert_eq!(routes.len(), 1);
    assert_eq!(routes[0].segments, vec![0]);
}

#[test]
fn what_appeared_at_the_target_is_not_replaced_unconfirmed() {
    assert_eq!(
        take_place("out.mp4", true, false),
        Err(ExportError::TargetExists("out.mp4".to_owned()))
    );
    assert_eq!(take_place("out.mp4", true, true), Ok(true));
    assert_eq!(take_place("out.mp4", false, false), Ok(false));
}

#[test]
fn chapters_come_out_where_their_segments_play() {
    let chapter = |start: i64, end: i64, title: &str| SourceChapter {
        start,
        end,
        title: Some(title.to_owned()),
    };
    let mut of_source = BTreeMap::new();
    of_source.insert(
        1,
        vec![
            chapter(0, 2_000_000, "before"),
            chapter(3_000_000, 9_000_000, "inside"),
            chapter(3_000_000, 4_000_000, "again"),
            chapter(1_000_000, 2_500_000, "running"),
        ],
    );
    let mut made = planned(&timeline(
        vec![piece(placement(1, 1, 25, 2_000, 4_000))],
        75,
    ));
    let told = |found: Vec<Chapter>| -> Vec<(u64, u64, String)> {
        found
            .into_iter()
            .map(|chapter| (chapter.start, chapter.length, chapter.metadata[0].1.clone()))
            .collect()
    };
    assert_eq!(
        told(chapters(&made.segments, &of_source, Media::Video, made.time_base)),
        vec![
            (1_000, 500, "running".to_owned()),
            (2_000, 1_000, "inside".to_owned())
        ]
    );
    for segment in &mut made.segments {
        for source in &mut segment.sources {
            source.speed = Rational { num: 2, den: 1 };
        }
    }
    assert_eq!(
        told(chapters(&made.segments, &of_source, Media::Video, made.time_base)),
        vec![
            (1_000, 250, "running".to_owned()),
            (1_500, 500, "inside".to_owned())
        ]
    );
    assert!(chapters(&made.segments, &of_source, Media::Audio, made.time_base).is_empty());
}

#[test]
fn containers_and_names() {
    assert_eq!(Container::of("MKV"), Ok(Container::Matroska));
    assert_eq!(Container::Mov.muxer(), "mov");
    assert!(Container::WebM.accepts("opus") && !Container::WebM.accepts("aac"));
    assert_eq!(partial_path("film.mp4"), "film.mp4.blinkify-partial");
}

#[test]
fn commands_name_the_stream_they_read() {
    let reader = reader_command("one.mp4", 2, Some("1.5"));
    let map = reader.args.iter().position(|arg| arg == "-map").expect("map");
    assert_eq!(reader.args[map + 1], "0:2");
    assert!(reader.args.contains(&"file:one.mp4".to_owned()));
    let seam = seam_command("one.mp4", 0, None, 2_400, 3_000, &choice());
    assert!(seam.args.contains(&"h264_nvenc".to_owned()));
    let muxer = muxer_command(
        &copied(),
        &inputs(),
        &vec![stream()],
        Container::Mp4,
        "out.partial",
        2_000_000,
    );
    assert_eq!(
        muxer.args.last().map(String::as_str),
        Some("file:out.partial")
    );
    assert!(muxer.args.contains(&"pipe:0".to_owned()));
}

fn place() -> Place {
    Place::of(1, MILLIS, MILLIS, 2_000, ONE, 50, FRAMES, MILLIS).expect("place")
}

#[test]
fn the_in_point_comes_out_at_the_start_of_the_clip() {
    let place = place();
    let piped = place.nut(2_000).expect("piped");
    assert_eq!(place.source_ticks(piped), Ok(2_000));
    assert_eq!(place.output(piped, MILLIS), Ok(2_000));
    assert_eq!(
        retime(
            1_000,
            MILLIS,
            MILLIS,
            Rational { num: 2, den: 1 }
        ),
        Ok(500)
    );
}

fn packet(pts: i64, key: bool) -> Packet {
    Packet {
        stream: 0,
        pts,
        key,
        data: vec![0, 0, 0, 1, 0x65],
    }
}

#[test]
fn a_copy_starts_on_its_keyframe_and_stops_at_the_next() {
    let place = place();
    let at = |ticks: i64, key: bool| packet(place.nut(ticks).expect("piped"), key);
    let mut run = CopyRun::new(Media::Video, place, 2_000, 4_000).expect("run");
    assert_eq!(run.take(at(1_960, false)), Ok(Step::Next));
    match run.take(at(2_000, true)) {
        Ok(Step::Send(routed)) => assert_eq!(routed.pts, 2_000),
        other => panic!("{other:?}"),
    }
    // A leading picture of the next group is still sent.
    assert!(matches!(run.take(at(3_960, false)), Ok(Step::Send(_))));
    assert_eq!(run.take(at(4_000, true)), Ok(Step::Stop));
    assert!(run.finish().is_ok());
    let mut late = Copying::new(Media::Video, 2_000, 4_000);
    assert_eq!(late.take(2_500, true), Take::NoKeyframe);
}

#[test]
fn a_copy_after_a_seam_hashes_as_its_source() {
    let place = place();
    let source = packet(place.nut(2_000).expect("piped"), true);
    let before = source.data.clone();
    let mut run = CopyRun::new(Media::Video, place, 2_000, 4_000).expect("run");
    let sets = [0, 0, 0, 1, 0x67, 0x64, 0x00, 0x1E, 0xAC, 0, 0, 0, 1, 0x68, 0xEB];
    let mut stitch = Stitch::new(VideoCodec::H264, &sets);
    stitch.begin_seam(&sets);
    let _ = stitch.seam(&[0, 0, 0, 1, 0x65, 0x11]);
    let sent = match run.take_stitched(source, &mut stitch) {
        Ok(Step::Send(routed)) => routed.data,
        other => panic!("{other:?}"),
    };
    assert_ne!(sent, before);
    let codec = Some(VideoCodec::H264);
    assert_eq!(hash(codec, None, &sent), hash(codec, None, &before));
}

#[test]
fn a_seam_sends_its_window() {
    let place = place();
    let mut stitch = Stitch::new(VideoCodec::H264, &[]);
    let mut run = SeamRun::new(&place, MILLIS, 2_400, 3_000).expect("run");
    let mut sent = 0;
    for ticks in [2_360, 2_400, 2_960, 3_000] {
        let pts = run.place.nut(ticks).expect("piped");
        if let Ok(Step::Send(_)) = run.take(packet(pts, true), &mut stitch) {
            sent += 1;
        }
    }
    assert_eq!(sent, 2);
    assert_eq!(run.finish(2_400, 3_000), Ok(2));
}

#[test]
fn a_rendered_segment_starts_where_it_is_placed() {
    let mut stitch = Stitch::new(VideoCodec::H264, &[]);
    let mut run = RenderRun::new(MILLIS, 50, FRAMES, MILLIS).expect("run");
    let routed = run
        .take(packet(100_000, true), &mut stitch)
        .expect("routed");
    assert_eq!(routed.pts, 2_000);
    assert_eq!(run.finish(1), Ok(1));
}

fn stream() -> StreamHeader {
    StreamHeader {
        class: Class::Video,
        fourcc: b"H264".to_vec(),
        time_base: MILLIS,
        msb_pts_shift: 7,
        max_pts_distance: 1_000,
        decode_delay: 2,
        flags: 0,
        extradata: vec![1, 2, 3],
        video: Some([1920, 1080, 1, 1, 0]),
        audio: None,
        metadata: vec![("language".to_owned(), "aze".to_owned())],
    }
}

fn header() -> Header {
    Header {
        streams: vec![stream()],
        metadata: vec![
            ("title".to_owned(), "Film".to_owned()),
            ("encoder".to_owned(), "Lavf".to_owned()),
        ],
        chapters: Vec::new(),
    }
}

#[test]
fn the_first_source_names_the_stream() {
    let mut output = Output::new();
    let (base, announced) = output
        .open(&header(), Media::Video, Some(VideoCodec::H264))
        .expect("opened");
    assert_eq!(base, MILLIS);
    assert!(announced.is_some());
    let (_, again) = output
        .open(&header(), Media::Video, Some(VideoCodec::H264))
        .expect("opened");
    assert!(again.is_none());
    assert_eq!(
        without_tag(&header().metadata, "encoder"),
        vec![("title".to_owned(), "Film".to_owned())]
    );
    let (streams, metadata) = collect_headers(vec![Announcement {
        stream: stream(),
        metadata: vec![("title".to_owned(), "Film".to_owned())],
    }]);
    assert_eq!(streams, vec![stream()]);
    assert_eq!(metadata.len(), 1);
}

#[test]
fn streams_are_written_in_the_order_of_their_times() {
    let sound = Rational {
        num: 1,
        den: 48_000,
    };
    assert_eq!(
        next_stream(&vec![Some(40), Some(960)], &vec![MILLIS, sound]),
        Some(1)
    );
    assert_eq!(
        next_stream(&vec![Some(20), None], &vec![MILLIS, sound]),
        Some(0)
    );
    assert_eq!(next_stream(&vec![None], &vec![MILLIS]), None);
    let routed = |pts| Routed {
        pts,
        key: true,
        data: vec![1],
    };
    let mut interleave = Interleave::new(&header(), vec![Some(routed(0))]).expect("opened");
    assert_eq!(interleave.next(), Some(0));
    interleave.write(0, Some(routed(40))).expect("written");
    interleave.write(0, None).expect("written");
    assert_eq!(interleave.next(), None);
    assert_eq!(interleave.written, vec![2]);
    let mut reader = Reader::open(interleave.writer.finish()).expect("open");
    assert_eq!(
        reader.next_packet().map(|packet| packet.map(|p| p.pts)),
        Ok(Some(0))
    );
}

#[test]
fn runs_are_concluded() {
    assert_eq!(conclude(false, vec![Ok(3)], Ok(vec![3]), Ok(())), Ok(vec![3]));
    assert_eq!(
        conclude(true, vec![Ok(3)], Ok(vec![3]), Ok(())),
        Err(ExportError::Cancelled)
    );
    assert_eq!(
        conclude(
            false,
            vec![Err(ExportError::Mismatch("profile".to_owned()))],
            Ok(vec![3]),
            Ok(())
        ),
        Err(ExportError::Mismatch("profile".to_owned()))
    );
}

#[test]
fn encoded_sound_takes_the_shape_of_what_is_copied() {
    assert_eq!(
        encoding_for(&copied(), &inputs(), AudioTarget::Flac, Container::Matroska),
        Ok(None)
    );
    let gain = || AudioOperation::Gain {
        db: "-3".to_owned(),
    };
    let mut filtered = sound(2, 0, 0, 2_000);
    filtered.audio = vec![gain()];
    let mut cut = sound(2, 0, 0, 2_000);
    cut.audio = vec![gain()];
    let made = plan(
        &with_sound(vec![filtered]),
        &settings(),
        &sources(),
        &vec![vec![Some(cut)]],
    )
    .expect("plan");
    let encoding = encoding_for(&made, &inputs(), AudioTarget::default(), Container::Mp4)
        .expect("encoding")
        .expect("some");
    assert_eq!(encoding.codec, "aac");
    assert_eq!((encoding.sample_rate, encoding.channels), (48_000, 2));
    assert_eq!(encoding.kilobits, Some(256));
    let heard = made.segments.last().expect("sound");
    let cue = Cue {
        from: "0".to_owned(),
        end: "2".to_owned(),
        delay: None,
        seek: None,
        tempo: Vec::new(),
    };
    let job = encoder_job(heard, &inputs(), &vec![cue], &encoding, FRAMES).expect("job");
    assert_eq!(job.samples, 96_000);
    assert!(job.command.args.contains(&"aac".to_owned()));
    assert_eq!(order_of(&made), vec![1]);
}

#[test]
fn a_reversed_clip_is_rendered_in_chunks_from_its_end() {
    let mut turned = placement(1, 1, 0, 0, 2_000);
    turned.motion = Some(Motion::Reverse);
    turned.forced = Some(ReEncodeReason::Reverse);
    let made = planned(&timeline(vec![piece(turned)], 50));
    let chunks = reverse_chunks(&inputs(), &made.segments[0].sources[0]);
    assert!(chunks.len() > 1);
    let seeks = vec![None; chunks.len()];
    match render_job(&made.segments[0], &settings(), &inputs(), &seeks, &choice()) {
        Ok(RenderJob::Reverse { decoders, .. }) => assert_eq!(decoders.len(), chunks.len()),
        other => panic!("{other:?}"),
    }
}

#[test]
fn a_reversed_clip_of_long_ticks_is_rendered_a_tick_at_a_time() {
    let mut turned = placement(1, 1, 0, 0, 2_000);
    turned.motion = Some(Motion::Reverse);
    let mut made = planned(&timeline(vec![piece(turned)], 50));
    let source = &mut made.segments[0].sources[0];
    source.time_base = Rational { num: 10, den: 1 };
    source.source_out = 3;
    assert_eq!(
        reverse_chunks(&inputs(), source),
        vec![(2, 3), (1, 2), (0, 1)]
    );
}

#[test]
fn samples_are_the_same_however_the_pipe_cuts_them() {
    let bytes: Vec<u8> = (0..16).collect();
    let mut whole = Samples::new();
    let mut parts = Samples::new();
    let mut taken = Vec::new();
    for byte in &bytes {
        taken.extend(parts.take(&[*byte]));
    }
    assert_eq!(whole.take(&bytes), taken);
    assert_eq!(
        measure_error(MeasureError::Cancelled),
        ExportError::Cancelled
    );
}

fn normalise(gain: Option<&str>, bypassed: bool) -> AudioOperation {
    AudioOperation::Normalise {
        target: "-14".to_owned(),
        ceiling: "-1".to_owned(),
        gain: gain.map(str::to_owned),
        bypassed,
    }
}

#[test]
fn a_measured_gain_resolves_what_was_not_measured() {
    let chain = vec![
        normalise(None, true),
        AudioOperation::Gain { db: "3".to_owned() },
        normalise(None, false),
        normalise(Some("2.5"), false),
    ];
    let after = with_gain(&chain, &"-4.2".to_owned());
    assert_eq!(
        after,
        vec![
            normalise(None, true),
            AudioOperation::Gain { db: "3".to_owned() },
            normalise(Some("-4.2"), false),
            normalise(Some("2.5"), false),
        ]
    );
    assert_eq!(with_gain(&after, &"9".to_owned()), after);
    assert_eq!(aim(&chain), Some(("-14".to_owned(), "-1".to_owned())));
    assert_eq!(aim(&vec![normalise(None, true)]), None);
    assert_eq!(gain_of(Err(Unresolved::NotMeasured), true), Ok(None));
    assert_eq!(
        gain_of(Err(Unresolved::NotMeasured), false),
        Err(Unresolved::NotMeasured)
    );
    assert_eq!(
        gain_of(Err(Unresolved::Failed(ExportError::Cancelled)), true),
        Err(Unresolved::Failed(ExportError::Cancelled))
    );
    assert_eq!(gain_of(Ok(Some("1".to_owned())), true), Ok(Some("1".to_owned())));
}

fn wording() -> Wording {
    Wording {
        gap: Some("0.4 s".to_owned()),
        first: String::new(),
        second: String::new(),
    }
}

#[test]
fn an_overview_tells_what_is_re_encoded_and_offers_the_snap() {
    let timeline = timeline(vec![piece(placement(1, 1, 0, 2_400, 4_000))], 40);
    let made = planned(&timeline);
    let offer = snap_offer(&made, &timeline).expect("offer");
    assert_eq!(offer.snaps.len(), 1);
    assert_eq!(offer.snaps[0].clip, 1);
    assert_eq!(offer.unsnappable, 0);
    let told = explain(&made.segments[0].causes[0], Some("0.4 s"), "", "");
    assert!(told.contains("0.4 s"));
    let told = overview(
        &made,
        &timeline,
        &inputs(),
        &target("mp4"),
        AudioTarget::default(),
        &vec![vec![wording()]],
        &Reckoning {
            bytes: 1_000_000,
            recorded: true,
            needed: "1.0 MB".to_owned(),
            available: Some(100),
            free: "100 bytes".to_owned(),
        },
    );
    assert!(!told.lossless);
    assert_eq!(told.length, 40);
    assert_eq!(told.reasons.len(), made.segments[0].causes.len());
    assert!(told.reasons[0].sentence.contains("0.4 s"));
    assert_eq!(told.space.map(|space| space.enough), Some(false));
    assert_eq!(told.problems.len(), 1);
}

#[test]
fn the_report_repeats_the_reasons_of_the_overview() {
    let made = planned(&timeline(
        vec![piece(placement(1, 1, 0, 2_400, 4_000))],
        40,
    ));
    let segment = &made.segments[0];
    let told = reasons_of(segment, &vec![wording()]);
    let reported = report_segment(
        segment,
        &vec![wording()],
        0,
        1_600,
        Measured {
            execution: Execution::Copied,
            as_planned: false,
            packets: 40,
            identical: 40,
        },
        &None,
        false,
    );
    assert_eq!(reported.reasons.len(), told.len() + 1);
    assert_eq!(reported.reasons[0], told[0].sentence);
    assert_eq!(reported.encoder, None);
}

#[test]
fn the_preview_plays_the_range_that_is_exported() {
    let mut media = BTreeMap::new();
    media.insert(
        1,
        SourceMedia {
            id: 1,
            video: Some(VideoStream {
                index: 0,
                time_base: MILLIS,
                rotation: 0,
                average_frame_rate: Some(RATE),
                base_frame_rate: Some(RATE),
            }),
            audio: Some(AudioStream {
                index: 1,
                time_base: Rational {
                    num: 1,
                    den: 48_000,
                },
            }),
            proxy: false,
        },
    );
    let timeline = timeline(vec![piece(placement(1, 1, 0, 2_400, 4_000))], 40);
    let played = PlaybackPlan::from_timeline(&timeline, &media).expect("plan");
    assert_eq!(played.segments.len(), 1);
    assert_eq!(played.segments[0].source_in, 2_400);
    assert_eq!(played.segments[0].source_out, 4_000);
    let made = planned(&timeline);
    assert_eq!(made.segments[0].sources[0].source_in, 2_400);
    assert_eq!(made.segments[0].sources[0].source_out, 4_000);
}

#[test]
fn a_size_is_reckoned_from_measured_rates_where_there_are_any() {
    let mut info = media("h264");
    assert_eq!(basis_of(&info, 0, true), Some(Basis::Recorded));
    info.streams[0].kilobits = None;
    assert_eq!(basis_of(&info, 0, true), Some(Basis::Remaining));
    assert_eq!(basis_of(&info, 0, false), None);
    info.streams[1].kilobits = None;
    assert_eq!(
        basis_of(&info, 0, true),
        Some(Basis::Shared {
            pictures: 1,
            channels: 2
        })
    );
    assert_eq!(
        basis_of(&info, 1, true),
        Some(Basis::Assumed { channels: 2 })
    );
    assert_eq!(basis_of(&info, 7, true), None);
    let plan = copied();
    assert_eq!(load_of(&plan.segments[0]), Load::Source);
    assert!(all_measured(&plan.segments, &vec![Some(Basis::Remaining)]));
    assert!(!all_measured(
        &plan.segments,
        &vec![Some(Basis::Assumed { channels: 2 })]
    ));
    assert_eq!(
        reference_source(&plan.segments, 1).map(|source| source.clip),
        Some(1)
    );
    assert!(reference_source(&plan.segments, 2).is_none());
}

#[test]
fn a_file_is_read_back_whole_or_in_part() {
    let whole = hash_command("out.mp4", "v:0", None);
    assert!(whole.args.contains(&"0:v:0".to_owned()));
    assert!(!whole.args.contains(&"-ss".to_owned()));
    let part = hash_command("out.mp4", "v:0", Some(("1.5", "2.5")));
    let at = part.args.iter().position(|arg| arg == "-to").expect("to");
    assert_eq!(part.args[at + 1], "2.5");
    let decode = decode_command("out.mp4");
    assert_eq!(decode.args.last().map(String::as_str), Some("-"));
}

#[test]
fn a_chapter_is_rounded_once() {
    let mut of_source = BTreeMap::new();
    of_source.insert(
        1,
        vec![SourceChapter {
            start: 1_000_000,
            end: 1_500_000,
            title: Some("close".to_owned()),
        }],
    );
    let mut made = planned(&timeline(vec![piece(placement(1, 1, 0, 0, 2_000))], 50));
    for segment in &mut made.segments {
        for source in &mut segment.sources {
            // 999.4997 milliseconds lie between the clip's start and the chapter's.
            source.time_base = Rational {
                num: 1,
                den: 1_000_000_000,
            };
            source.source_in = 500_300;
            source.source_out = 2_000_000_000;
        }
    }
    let found = chapters(&made.segments, &of_source, Media::Video, made.time_base);
    assert_eq!(found.len(), 1);
    assert_eq!((found[0].start, found[0].length), (999, 500));
}

#[test]
fn the_processes_of_an_export_stream_their_output() {
    let streams = |command: &SidecarCommand| {
        command.tool == Tool::Ffmpeg
            && command.stdout == Stdout::Stream
            && command.progress_total.is_none()
    };
    let mut turned = placement(1, 1, 0, 0, 2_000);
    turned.motion = Some(Motion::Reverse);
    turned.forced = Some(ReEncodeReason::Reverse);
    let made = planned(&timeline(vec![piece(turned)], 50));
    let chunks = reverse_chunks(&inputs(), &made.segments[0].sources[0]);
    let seeks = vec![None; chunks.len()];
    match render_job(&made.segments[0], &settings(), &inputs(), &seeks, &choice()) {
        Ok(RenderJob::Reverse { decoders, encoder }) => {
            assert!(decoders.iter().all(streams) && streams(&encoder));
        }
        other => panic!("{other:?}"),
    }
    assert!(streams(&reader_command("one.mp4", 2, None)));
    assert!(streams(&seam_command("one.mp4", 0, None, 0, 10, &choice())));
    assert!(streams(&hash_command("one.mp4", "v:0", None)));
    let decode = decode_command("one.mp4");
    assert_eq!(decode.stdout, Stdout::Collect);
    assert_eq!(decode.progress_total, None);
}

#[test]
fn a_seam_of_no_known_codec_goes_out_as_it_is() {
    let mut run = SeamRun::new(&place(), MILLIS, 2_400, 3_000).expect("run");
    let pts = run.place.nut(2_400).expect("piped");
    let given = packet(pts, true);
    let data = given.data.clone();
    match run.take_plain(given) {
        Ok(Step::Send(routed)) => assert_eq!(routed.data, data),
        other => panic!("{other:?}"),
    }
    assert_eq!(run.finish(2_400, 3_000), Ok(1));
    let mut run = RenderRun::new(MILLIS, 50, FRAMES, MILLIS).expect("run");
    let given = packet(100_000, true);
    let data = given.data.clone();
    let routed = run.take_plain(given).expect("routed");
    assert_eq!((routed.pts, routed.data), (2_000, data));
}

#[test]
fn interleaved_queues_come_back_from_the_stream() {
    let sound = Rational {
        num: 1,
        den: 48_000,
    };
    let mut header = header();
    header.streams.push(StreamHeader {
        class: Class::Audio,
        time_base: sound,
        msb_pts_shift: 14,
        video: None,
        audio: Some([48_000, 1, 2]),
        metadata: Vec::new(),
        ..stream()
    });
    let queues: Vec<Vec<(i64, bool, Vec<u8>)>> = vec![
        vec![
            (0, true, vec![1]),
            (40, false, vec![2, 2]),
            (200, false, vec![3]),
        ],
        vec![
            (0, true, vec![4]),
            (960, true, vec![5]),
            (1_920, true, Vec::new()),
            (9_601, true, vec![7; 300]),
        ],
    ];
    let mut left: Vec<std::vec::IntoIter<(i64, bool, Vec<u8>)>> =
        queues.iter().map(|queue| queue.clone().into_iter()).collect();
    let mut following = |stream: usize| {
        left[stream]
            .next()
            .map(|(pts, key, data)| Routed { pts, key, data })
    };
    let heads = vec![following(0), following(1)];
    let mut interleave = Interleave::new(&header, heads).expect("opened");
    let mut bytes = interleave.take();
    let mut order = Vec::new();
    while let Some(stream) = interleave.next() {
        order.push(stream);
        let next = following(stream);
        interleave.write(stream, next).expect("written");
        if order.len() == 3 {
            bytes.extend(interleave.take());
        }
    }
    bytes.extend(interleave.take());
    // Of two that are shown at once, the first stream's comes first.
    assert_eq!(order, vec![0, 1, 1, 0, 1, 0, 1]);
    assert_eq!(interleave.written, vec![3, 4]);
    let mut reader = Reader::open(bytes).expect("open");
    let mut back: Vec<Vec<(i64, bool, Vec<u8>)>> = vec![Vec::new(), Vec::new()];
    while let Some(packet) = reader.next_packet().expect("read") {
        back[packet.stream].push((packet.pts, packet.key, packet.data));
    }
    assert_eq!(back, queues);
}

#[test]
fn a_refused_packet_leaves_what_was_written() {
    let routed = |pts| Routed {
        pts,
        key: true,
        data: vec![1],
    };
    let mut interleave = Interleave::new(&header(), vec![Some(routed(-1))]).expect("opened");
    let before = interleave.writer.output.clone();
    assert!(interleave.write(0, Some(routed(40))).is_err());
    assert_eq!(interleave.writer.output, before);
    assert_eq!(interleave.written, vec![0]);
    interleave.write(0, None).expect("written");
    assert_eq!(interleave.written, vec![1]);
}
