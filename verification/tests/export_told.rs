//! What an export is told to do and what is told of it: targets, space, the
//! queue and the report.
use blinkify_engine::export::audio::{AudioEncoding, AudioTarget};
use blinkify_engine::export::overview::enough_space;
use blinkify_engine::export::plan::{Cause, Media};
use blinkify_engine::export::queue::{
    Cancelling, Entry, ExportQueue, ExportSpec, ExportState, Fraction, Meter, Next, QueueError,
    RunOutcome, Stage, HISTORY_LIMIT,
};
use blinkify_engine::export::render::exact;
use blinkify_engine::export::report::calendar::{clock, date_of, utc, Date};
use blinkify_engine::export::report::measure::{measure, Execution, Measured};
use blinkify_engine::export::report::segment::{suggest, ReportSegment};
use blinkify_engine::export::report::{build, summary, FileFacts, StreamSeconds};
use blinkify_engine::export::verify::PacketHash;
use blinkify_engine::probe::Rational;
use blinkify_engine::tier::{ExportTier, ReEncodeReason};

#[test]
fn the_default_target_is_high_bitrate_aac() {
    assert_eq!(AudioTarget::default(), AudioTarget::Aac { kilobits: 256 });
}

#[test]
fn a_lossy_codec_is_primed_with_whole_frames_and_a_lossless_one_is_not() {
    let encoding = |codec: &str| AudioEncoding {
        codec: codec.to_owned(),
        encoder: codec.to_owned(),
        kilobits: None,
        sample_rate: 48_000,
        channels: 2,
        matches_copied: false,
        lossless: false,
    };
    assert_eq!(encoding("aac").frame(), 1024);
    assert_eq!(encoding("flac").frame(), 0);
    assert_eq!(encoding("pcm_s16le").frame(), 0);
    assert_eq!(encoding("aac").layout(), "stereo");
}

#[test]
fn space_needs_a_margin_over_the_estimate() {
    let gigabyte: u64 = 1_000_000_000;
    assert!(enough_space(gigabyte, 2 * gigabyte));
    assert!(!enough_space(gigabyte, gigabyte));
    // Five percent and 64 MiB over.
    let twentieth = gigabyte.div_ceil(20);
    assert!(!enough_space(gigabyte, gigabyte + twentieth));
    assert!(enough_space(
        gigabyte,
        gigabyte + twentieth + 64 * 1024 * 1024
    ));
    assert!(!enough_space(0, 1024));
}

#[test]
fn exactly_the_planned_frames_whatever_the_input_gives() {
    assert_eq!(
        exact(
            90,
            Rational {
                num: 30_000,
                den: 1001
            }
        ),
        "tpad=stop_mode=clone:stop=-1,trim=end_frame=90,setpts=N*1001/30000/TB"
    );
}

#[test]
fn a_time_reads_as_a_utc_date() {
    assert_eq!(utc(0), "1970-01-01 00:00 UTC");
    // 2026-09-26 21:40 UTC.
    assert_eq!(utc(1_790_458_800_000), "2026-09-26 21:40 UTC");
    assert_eq!(utc(951_782_400_000), "2000-02-29 00:00 UTC");
}

#[test]
fn days_are_counted_over_leap_years() {
    let date = |year, month, day| Date { year, month, day };
    assert_eq!(date_of(0), date(1970, 1, 1));
    assert_eq!(date_of(58), date(1970, 2, 28));
    assert_eq!(date_of(59), date(1970, 3, 1));
    assert_eq!(date_of(789), date(1972, 2, 29));
}

#[test]
fn every_day_has_a_date_of_its_own() {
    let mut before = date_of(0);
    for day in 1..1_500 {
        let date = date_of(day);
        assert!((before.year, before.month, before.day) < (date.year, date.month, date.day));
        before = date;
    }
}

#[test]
fn times_read_plainly() {
    assert_eq!(clock(65_400), "1:05.400");
    assert_eq!(clock(3_725_000), "1:02:05.000");
}

#[test]
fn every_cut_cause_suggests_the_snap_and_a_hold_suggests_nothing() {
    let cut = Cause::InPointNotKeyframe {
        keyframe_before: Some(0),
        keyframe_after: Some(30),
    };
    assert!(suggest(&cut, true).is_some_and(|s| s.contains("Snap the cut")));
    assert!(suggest(
        &Cause::Operation {
            reason: ReEncodeReason::FreezeFrame
        },
        false
    )
    .is_none());
    // Lossless sound is suggested only where the target was not.
    assert!(suggest(&Cause::AudioChain, false).is_some());
    assert!(suggest(&Cause::AudioChain, true).is_none());
}

fn part(part: u64, whole: u64) -> Fraction {
    Fraction { part, whole }
}

fn value(fraction: Fraction) -> f64 {
    fraction.part as f64 / fraction.whole as f64
}

#[test]
fn progress_never_moves_backwards() {
    let mut meter = Meter::default();
    let t: u64 = 7_000_000;
    let fraction = |state: ExportState| match state {
        ExportState::Running { fraction, .. } => value(fraction),
        _ => f64::NAN,
    };
    assert!(
        (fraction(meter.update(Stage::Exporting, part(4, 10), t)) - 0.4).abs() < f64::EPSILON
    );
    assert!(
        (fraction(meter.update(Stage::Exporting, part(2, 10), t)) - 0.4).abs() < f64::EPSILON
    );
    // A late report of an earlier stage changes nothing.
    let state = meter.update(Stage::Preparing, part(9, 10), t);
    assert!(
        matches!(state, ExportState::Running { stage: Stage::Exporting, fraction, .. } if (value(fraction) - 0.4).abs() < f64::EPSILON)
    );
}

#[test]
fn time_left_comes_from_measured_throughput() {
    let mut meter = Meter::default();
    let t: u64 = 7_000_000;
    meter.update(Stage::Exporting, part(0, 1), t);
    // Too early to say.
    let early = meter.update(Stage::Exporting, part(1, 1000), t + 2_000_000);
    assert!(matches!(
        early,
        ExportState::Running {
            remaining: None,
            ..
        }
    ));
    // A quarter in ten seconds: thirty more.
    let state = meter.update(Stage::Exporting, part(1, 4), t + 10_000_000);
    let ExportState::Running {
        remaining: Some(left),
        ..
    } = state
    else {
        panic!("no estimate");
    };
    assert_eq!(left, 30_000_000);
}

#[test]
fn a_later_stage_starts_from_nothing() {
    let mut meter = Meter::default();
    let t: u64 = 7_000_000;
    meter.update(Stage::Preparing, part(8, 10), t);
    let state = meter.update(Stage::Exporting, part(0, 1), t);
    assert!(matches!(
        state,
        ExportState::Running {
            stage: Stage::Exporting,
            fraction,
            ..
        } if value(fraction).abs() < f64::EPSILON
    ));
}

fn spec(name: &str) -> ExportSpec<u8> {
    ExportSpec {
        project: 7,
        name: name.to_owned(),
        target: format!("{name}.mp4"),
        overwrite: false,
        audio: AudioTarget::default(),
    }
}

fn queue() -> ExportQueue<u8> {
    ExportQueue::open(1, Vec::new())
}

#[test]
fn jobs_run_one_at_a_time_in_the_order_they_came() {
    let mut queue = queue();
    let first = queue.submit(spec("a"), None, 10).expect("submitted");
    let second = queue.submit(spec("b"), None, 20).expect("submitted");
    assert_ne!(first.id, second.id);
    match queue.next_job(30) {
        Next::Run(job) => assert_eq!(job.id, first.id),
        other => panic!("{other:?}"),
    }
    assert_eq!(queue.next_job(31), Next::Wait);
    assert_eq!(
        queue.spec(first.id).map(|spec| spec.name.clone()),
        Some("a".to_owned())
    );
    let told = queue
        .ended(first.id, Ok(RunOutcome { bytes: 5 }), 40)
        .expect("told");
    assert_eq!(told.state, ExportState::Completed { bytes: 5 });
    assert_eq!(told.finished, Some(40));
    match queue.next_job(50) {
        Next::Run(job) => assert_eq!(job.id, second.id),
        other => panic!("{other:?}"),
    }
}

#[test]
fn a_job_onto_its_own_source_is_refused() {
    let mut queue = queue();
    assert_eq!(
        queue.submit(spec("a"), Some("a.mp4".to_owned()), 10),
        Err(QueueError::TargetIsSource("a.mp4".to_owned()))
    );
    assert!(queue.jobs().is_empty());
}

#[test]
fn a_waiting_job_is_cancelled_and_a_running_one_is_stopped() {
    let mut queue = queue();
    let running = queue.submit(spec("a"), None, 10).expect("submitted");
    let waiting = queue.submit(spec("b"), None, 20).expect("submitted");
    assert!(matches!(queue.next_job(30), Next::Run(_)));
    match queue.cancel(waiting.id, 40).expect("known") {
        Cancelling::Settled(job) => assert_eq!(job.state, ExportState::Cancelled),
        other => panic!("{other:?}"),
    }
    assert_eq!(queue.cancel(running.id, 41), Ok(Cancelling::Stop));
    assert_eq!(queue.cancel(99, 42), Err(QueueError::NoSuchJob(99)));
    let told = queue
        .ended(running.id, Err("killed".to_owned()), 50)
        .expect("told");
    assert_eq!(told.state, ExportState::Cancelled);
}

#[test]
fn what_was_running_when_the_program_ended_is_interrupted() {
    let mut queue = queue();
    let job = queue.submit(spec("a"), None, 10).expect("submitted");
    assert!(matches!(queue.next_job(20), Next::Run(_)));
    let entries: Vec<Entry<u8>> = std::mem::take(&mut queue.entries);
    let mut reopened = ExportQueue::open(queue.next, entries);
    assert_eq!(reopened.jobs()[0].state, ExportState::Interrupted);
    assert_eq!(reopened.next_job(30), Next::Wait);
    assert_eq!(
        reopened.resume(99).err(),
        Some(QueueError::NoSuchJob(99))
    );
    let resumed = reopened.resume(job.id).expect("resumed");
    assert_eq!(resumed.state, ExportState::Queued);
    assert_eq!(
        reopened.resume(job.id).err(),
        Some(QueueError::NotInterrupted(job.id))
    );
}

#[test]
fn the_queue_is_listed_before_the_history() {
    let mut queue = queue();
    for (at, name) in ["a", "b", "c"].iter().enumerate() {
        queue.submit(spec(name), None, at as u64).expect("submitted");
    }
    for at in [10, 20] {
        match queue.next_job(at) {
            Next::Run(job) => {
                let ended = queue.ended(job.id, Ok(RunOutcome { bytes: 1 }), at + 1);
                assert!(ended.is_some());
            }
            other => panic!("{other:?}"),
        }
    }
    queue.submit(spec("d"), None, 30).expect("submitted");
    let names: Vec<String> = queue.jobs().into_iter().map(|job| job.name).collect();
    assert_eq!(names, ["c", "d", "a", "b"]);
}

#[test]
fn the_history_is_pruned_to_its_limit() {
    let mut queue = queue();
    for n in 0..HISTORY_LIMIT + 3 {
        let job = queue
            .submit(spec(&format!("{n}")), None, n as u64)
            .expect("submitted");
        assert!(matches!(queue.next_job(n as u64), Next::Run(_)));
        queue.ended(job.id, Ok(RunOutcome { bytes: 1 }), n as u64);
    }
    assert_eq!(queue.jobs().len(), HISTORY_LIMIT);
    queue.clear_history();
    assert!(queue.jobs().is_empty());
    queue.shutdown();
    assert_eq!(queue.next_job(0), Next::Close);
}

fn packet(micros: i64, of: u8) -> PacketHash {
    PacketHash {
        micros,
        key: true,
        sha256: [of; 32],
    }
}

#[test]
fn what_was_copied_is_measured_and_a_false_copy_is_told() {
    let output = [packet(0, 1), packet(40, 2), packet(80, 3)];
    let all = measure(
        ExportTier::StreamCopy,
        0,
        100,
        &output,
        &[[1; 32], [2; 32], [3; 32]],
    );
    assert_eq!(
        all,
        Measured {
            execution: Execution::Copied,
            as_planned: true,
            packets: 3,
            identical: 3
        }
    );
    let part = measure(
        ExportTier::StreamCopy,
        0,
        100,
        &output,
        &[[1; 32], [2; 32]],
    );
    assert_eq!(part.execution, Execution::PartlyReEncoded);
    assert!(!part.as_planned);
}

fn file(name: &str) -> FileFacts {
    FileFacts {
        name: name.to_owned(),
        path: format!("/home/someone/{name}"),
        container: "QuickTime / MOV".to_owned(),
        codecs: vec!["h264".to_owned()],
        size: "12.3 MB".to_owned(),
        length: Some(4_000),
    }
}

#[test]
fn a_report_tells_no_path_unless_asked() {
    let segment = ReportSegment {
        media: Media::Video,
        start: 0,
        end: 4_000,
        planned: ExportTier::StreamCopy,
        measured: Measured {
            execution: Execution::Copied,
            as_planned: true,
            packets: 100,
            identical: 100,
        },
        reasons: Vec::new(),
        suggestions: Vec::new(),
        encoder: None,
    };
    let seconds = |copied: &str| StreamSeconds {
        copied: copied.to_owned(),
        re_encoded: "0.0".to_owned(),
        re_encodes: false,
    };
    let report = build(
        1_790_458_800_000,
        "Holiday".to_owned(),
        vec![file("in.mp4")],
        file("out.mp4"),
        vec![segment],
        seconds("4.0"),
        seconds("0.0"),
        "100.0".to_owned(),
        None,
        vec!["ffmpeg -i in.mp4".to_owned()],
    );
    assert!(report.lossless);
    assert!(report.audio.is_none());
    assert_eq!(
        report.summary,
        summary(true, "100.0", &report.video, &report.audio)
    );
    let text = report.to_text(false);
    assert!(text.contains("2026-09-26 21:40 UTC"));
    assert!(text.contains("in.mp4"));
    assert!(!text.contains("/home/someone"));
    assert!(report.to_text(true).contains("/home/someone/in.mp4"));
}
