//! Sidecar commands, admission and progress.
use blinkify_engine::orchestrator::command::{SidecarCommand, Stdout};
use blinkify_engine::orchestrator::progress::{
    Progress, ProgressBlock, ProgressParser, ProgressReporter,
};
use blinkify_engine::orchestrator::{
    outcome, watch, Admission, Counts, Exit, Flow, JobError, Limits, Look, Priority, State, Tail,
    Watch, STDERR_TAIL,
};

#[test]
fn a_path_that_looks_like_an_option_or_a_url_stays_a_file() {
    let command = SidecarCommand::ffmpeg()
        .input("-y.mp4")
        .output_file("concat:a.mp4|b.mp4");
    let args = command.args;
    assert!(args.contains(&"file:-y.mp4".to_owned()));
    assert_eq!(
        args.last().map(String::as_str),
        Some("file:concat:a.mp4|b.mp4")
    );
}

#[test]
fn a_filename_with_quotes_and_emoji_is_one_argument_unescaped() {
    let name = r#"C:\Users\Işıq\it's "fine" 🎬.mp4"#;
    let command = SidecarCommand::ffprobe().input(name);
    assert!(command.args.contains(&format!("file:{name}")));
}

#[test]
fn progress_is_requested_before_the_first_input() {
    let command = SidecarCommand::ffmpeg()
        .input("in.mp4")
        .output_null()
        .report_progress(10_000_000);
    let progress = command.args.iter().position(|a| a == "-progress");
    let input = command.args.iter().position(|a| a == "-i");
    assert!(progress < input);
    assert_eq!(command.stdout, Stdout::Progress);
}

#[test]
fn ffmpeg_never_overwrites_by_default() {
    assert!(SidecarCommand::ffmpeg().args.contains(&"-n".to_owned()));
}

fn counts(of: &[(Priority, usize)]) -> Counts {
    let mut counts = Counts::default();
    for (priority, count) in of {
        counts.set(*priority, *count);
    }
    counts
}

fn state(running: &[(Priority, usize)], waiting: &[(Priority, usize)]) -> State {
    State {
        running: counts(running),
        waiting: counts(waiting),
        ..State::default()
    }
}

const LIMITS: Limits = Limits {
    interactive: 2,
    playback: 2,
    shared: 2,
    background: 1,
    export: 8,
};

#[test]
fn interactive_work_never_queues_behind_background_work() {
    let busy = state(
        &[(Priority::Background, 1), (Priority::Foreground, 1)],
        &[(Priority::Background, 50)],
    );
    assert!(busy.may_start(Priority::Interactive, &LIMITS));
}

#[test]
fn background_work_cannot_take_every_shared_slot() {
    let one_background = state(&[(Priority::Background, 1)], &[]);
    assert!(!one_background.may_start(Priority::Background, &LIMITS));
    assert!(one_background.may_start(Priority::Foreground, &LIMITS));
}

#[test]
fn background_work_yields_while_anything_more_urgent_waits() {
    let export_waiting = state(&[], &[(Priority::Foreground, 1)]);
    assert!(!export_waiting.may_start(Priority::Background, &LIMITS));
    let seek_waiting = state(&[], &[(Priority::Interactive, 1)]);
    assert!(!seek_waiting.may_start(Priority::Background, &LIMITS));
}

#[test]
fn the_interactive_limit_still_holds() {
    // An export's processes never queue behind shared work (#110): with
    // every shared slot taken, the next process of a pipeline still runs.
    let shared_full = state(&[(Priority::Foreground, 2), (Priority::Export, 3)], &[]);
    assert!(!shared_full.may_start(Priority::Foreground, &LIMITS));
    assert!(shared_full.may_start(Priority::Export, &LIMITS));
    let export_waiting = state(&[], &[(Priority::Export, 1)]);
    assert!(!export_waiting.may_start(Priority::Background, &LIMITS));

    let full = state(&[(Priority::Interactive, 2)], &[]);
    assert!(!full.may_start(Priority::Interactive, &LIMITS));
}

#[test]
fn a_waiting_job_takes_its_turn_and_gives_its_place_back() {
    let mut state = State::default();
    let first = state.enter();
    let second = state.enter();
    state.queue(Priority::Foreground);
    assert_eq!(
        state.turn(Priority::Foreground, false, &LIMITS),
        Admission::Start
    );
    assert_eq!(state.running.get(Priority::Foreground), 1);
    assert_eq!(state.waiting.get(Priority::Foreground), 0);
    state.release(Priority::Foreground, &LIMITS);
    assert_eq!(state.running.get(Priority::Foreground), 0);
    assert_eq!(state.peak.get(Priority::Foreground), 1);
    assert_eq!(state.live, vec![first, second]);
    state.leave(first);
    assert_eq!(state.live, vec![second]);
}

#[test]
fn nothing_starts_once_cancelled_or_shutting_down() {
    let mut state = State::default();
    state.queue(Priority::Export);
    assert_eq!(
        state.turn(Priority::Export, true, &LIMITS),
        Admission::Cancelled
    );
    state.queue(Priority::Export);
    state.shut_down();
    assert_eq!(
        state.turn(Priority::Export, false, &LIMITS),
        Admission::ShuttingDown
    );
}

#[test]
fn limits_follow_the_cores() {
    let one = Limits::for_cores(1);
    let many = Limits::for_cores(16);
    assert!(one.shared >= 1 && one.background >= 1);
    assert!(many.shared > one.shared);
    assert!(many.background < many.shared);
}

#[test]
fn a_run_ends_as_its_exit_its_consumer_and_its_token_say() {
    let ran = |exit: Exit, verdict: Option<Flow>, cancelled: bool| {
        outcome(
            "ffmpeg".to_owned(),
            exit,
            verdict,
            cancelled,
            vec![1],
            vec!["last".to_owned()],
        )
    };
    assert_eq!(
        ran(Exit::Success, None, false).map(|output| output.stdout),
        Ok(vec![1])
    );
    assert!(matches!(
        ran(Exit::Failure(Some(1)), None, false),
        Err(JobError::Failed { exit_code: Some(1), .. })
    ));
    assert!(matches!(
        ran(Exit::Failure(None), None, true),
        Err(JobError::Cancelled)
    ));
    assert!(matches!(
        ran(Exit::Failure(None), Some(Flow::Fail("no".to_owned())), false),
        Err(JobError::Consumer { .. })
    ));
    assert!(matches!(
        ran(Exit::Stuck, None, false),
        Err(JobError::Unkillable { .. })
    ));
}

#[test]
fn a_process_is_killed_once_and_given_up_at_its_deadline() {
    assert_eq!(watch(Look::Exited, false, true, true), Watch::Done);
    assert_eq!(watch(Look::Running, false, false, true), Watch::Sleep);
    assert_eq!(watch(Look::Running, false, true, true), Watch::Kill);
    assert_eq!(watch(Look::Running, true, true, true), Watch::Sleep);
    assert_eq!(watch(Look::Running, true, true, false), Watch::GiveUp);
}

#[test]
fn the_tail_keeps_the_last_lines() {
    let mut tail = Tail::new();
    for n in 0..STDERR_TAIL + 3 {
        tail.push(format!("{n}"));
    }
    assert_eq!(tail.lines.len(), STDERR_TAIL);
    assert_eq!(tail.lines[0], "3");
}

#[test]
fn job_errors_read_plainly() {
    assert_eq!(JobError::Cancelled.message(), "cancelled");
    let failed = JobError::Failed {
        command: "ffmpeg".to_owned(),
        exit_code: Some(1),
        stderr_tail: vec!["No such file".to_owned()],
    };
    assert!(failed.message().contains("No such file"));
}

fn feed(parser: &mut ProgressParser, text: &str) -> Vec<ProgressBlock> {
    text.lines().filter_map(|line| parser.line(line)).collect()
}

fn fraction(update: &Progress) -> f64 {
    update.part as f64 / update.whole as f64
}

#[test]
fn a_block_ends_at_the_progress_key() {
    let mut parser = ProgressParser::default();
    let blocks = feed(
        &mut parser,
        "frame=10\nout_time_us=2500000\nspeed=2.5x\nprogress=continue\nout_time_us=5000000\nprogress=end\n",
    );
    assert_eq!(blocks.len(), 2);
    assert_eq!(blocks[0].out_time, Some(2_500_000));
    assert_eq!(blocks[0].speed, Some("2.5".chars().collect()));
    assert!(!blocks[0].end);
    assert!(blocks[1].end);
}

#[test]
fn negative_and_na_times_mean_nothing_yet() {
    let mut parser = ProgressParser::default();
    let blocks = feed(
        &mut parser,
        "out_time_us=-9223372036854775807\nspeed=N/A\nprogress=continue\n",
    );
    assert_eq!(blocks[0].out_time, None);
    assert_eq!(blocks[0].speed, None);
}

#[test]
fn one_hundred_percent_arrives_once_and_only_from_finish() {
    let start: u64 = 5_000_000;
    let mut reporter = ProgressReporter::new(10_000_000);
    let past_the_end = ProgressBlock {
        out_time: Some(11_000_000),
        speed: None,
        end: true,
    };
    let update = reporter.block(&past_the_end, start).expect("first update");
    assert!(fraction(&update) < 1.0);

    assert_eq!(reporter.finish().map(|p| fraction(&p)), Some(1.0));
    assert!(reporter.finish().is_none());
    assert!(reporter.block(&past_the_end, start + 1_000_000).is_none());
}

#[test]
fn updates_are_throttled_and_never_go_backwards() {
    let start: u64 = 5_000_000;
    let mut reporter = ProgressReporter::new(100_000_000);
    let at = |secs: u64| ProgressBlock {
        out_time: Some(secs * 1_000_000),
        speed: None,
        end: false,
    };
    assert!(reporter.block(&at(10), start).is_some());
    assert!(reporter.block(&at(20), start + 10_000).is_none());
    assert!(reporter.block(&at(5), start + 500_000).is_none());
    let later = reporter.block(&at(30), start + 600_000).expect("due");
    assert!((fraction(&later) - 0.3).abs() < 1e-9);
}
