//! Running the FFmpeg sidecar: which job may start, and how one ended.
//!
//! - **Commands are typed** ([`SidecarCommand`]); a filename is never parsed as
//!   an option, a URL or a shell token.
//! - **Work has a priority.** Interactive work has its own slots and never
//!   queues behind a background index; background work is admitted only when
//!   nothing more urgent is waiting.
//! - **A cancelled job's process is gone** before the job ends.
pub mod command;
pub mod progress;

pub use command::{SidecarCommand, Stdout, Tool};
pub use progress::Progress;
use crate::text::{push_signed, signed_decimal};
use vstd::prelude::*;

verus! {

/// How many trailing stderr lines an error carries.
pub const STDERR_TAIL: usize = 20;

/// How urgently a job needs to run.
#[derive(Debug, Clone, Copy, PartialEq, Eq, Structural)]
pub enum Priority {
    /// The user is waiting on it right now: a probe, a single-frame seek.
    Interactive,
    /// A decode that runs for as long as playback does. Long-lived, so it has
    /// its own slots.
    Playback,
    /// The user asked for it and is watching it.
    Foreground,
    /// A process of an export pipeline. They are coupled by pipes and must all
    /// run at once, so they have slots of their own.
    Export,
    /// Nobody is waiting: keyframe indexing, waveforms, thumbnails, proxies.
    Background,
}

/// How many processes may run at once.
#[derive(Debug, Clone, Copy, PartialEq, Eq, Structural)]
pub struct Limits {
    /// Slots reserved for interactive work, which nothing else may take.
    pub interactive: usize,
    /// Slots for playback decodes.
    pub playback: usize,
    /// Slots shared by foreground and background work.
    pub shared: usize,
    /// The most of the shared slots background work may hold.
    pub background: usize,
    /// Slots for the processes of export pipelines.
    pub export: usize,
}

impl Limits {
    /// Sized for a machine with `cores` cores: a quarter of the cores for
    /// shared work, between two and four, background work holding all of them
    /// but one.
    pub fn for_cores(cores: usize) -> (limits: Limits)
        ensures
            limits.shared == (if cores / 4 < 2 {
                2
            } else if cores / 4 > 4 {
                4
            } else {
                (cores / 4) as int
            }),
            limits.background == limits.shared - 1,
            limits.interactive == 2,
            limits.playback == 4,
            limits.export == 8,
    {
        let quarter: usize = cores / 4;
        let shared: usize = if quarter < 2 {
            2
        } else if quarter > 4 {
            4
        } else {
            quarter
        };
        Limits { interactive: 2, playback: 4, shared, background: shared - 1, export: 8 }
    }
}

/// A job's identity.
#[derive(Debug, Clone, Copy, PartialEq, Eq, Structural)]
pub struct JobId(pub u32);

/// A count per priority.
#[derive(Debug, Clone, Copy, PartialEq, Eq, Structural)]
pub struct Counts {
    pub interactive: usize,
    pub playback: usize,
    pub foreground: usize,
    pub export: usize,
    pub background: usize,
}

impl Default for Counts {
    fn default() -> (counts: Self)
        ensures
            forall|p: Priority| counts.at(p) == 0,
    {
        Counts { interactive: 0, playback: 0, foreground: 0, export: 0, background: 0 }
    }
}

impl Counts {
    /// The count of one priority.
    pub open spec fn at(&self, priority: Priority) -> usize {
        match priority {
            Priority::Interactive => self.interactive,
            Priority::Playback => self.playback,
            Priority::Foreground => self.foreground,
            Priority::Export => self.export,
            Priority::Background => self.background,
        }
    }

    /// The count of one priority.
    pub fn get(&self, priority: Priority) -> (count: usize)
        ensures
            count == self.at(priority),
    {
        match priority {
            Priority::Interactive => self.interactive,
            Priority::Playback => self.playback,
            Priority::Foreground => self.foreground,
            Priority::Export => self.export,
            Priority::Background => self.background,
        }
    }

    /// Set the count of one priority.
    pub fn set(&mut self, priority: Priority, count: usize)
        ensures
            final(self).at(priority) == count,
            forall|p: Priority| p != priority ==> final(self).at(p) == old(self).at(p),
    {
        match priority {
            Priority::Interactive => self.interactive = count,
            Priority::Playback => self.playback = count,
            Priority::Foreground => self.foreground = count,
            Priority::Export => self.export = count,
            Priority::Background => self.background = count,
        }
    }
}

/// What running and waiting jobs there are.
#[derive(Debug)]
pub struct State {
    pub running: Counts,
    pub waiting: Counts,
    /// The jobs that have not ended.
    pub live: Vec<JobId>,
    pub next_id: u32,
    pub shutting_down: bool,
    /// The most jobs ever running at once, per priority.
    pub peak: Counts,
}

/// The jobs without one of them.
pub open spec fn others(jobs: Seq<JobId>, id: JobId) -> Seq<JobId>
    decreases jobs.len(),
{
    if jobs.len() == 0 {
        Seq::empty()
    } else if jobs.last() == id {
        others(jobs.drop_last(), id)
    } else {
        others(jobs.drop_last(), id).push(jobs.last())
    }
}

impl Default for State {
    fn default() -> (state: Self)
        ensures
            forall|p: Priority|
                state.running.at(p) == 0 && state.waiting.at(p) == 0 && state.peak.at(p) == 0,
            state.live@.len() == 0,
            state.next_id == 0,
            !state.shutting_down,
    {
        State {
            running: Counts::default(),
            waiting: Counts::default(),
            live: Vec::new(),
            next_id: 0,
            shutting_down: false,
            peak: Counts::default(),
        }
    }
}

/// What came of a job's turn in the queue.
#[derive(Debug, Clone, Copy, PartialEq, Eq, Structural)]
pub enum Admission {
    /// It holds a slot now.
    Start,
    /// It has to wait on.
    Wait,
    /// It was cancelled while queued; no process was ever started.
    Cancelled,
    /// No new work is accepted.
    ShuttingDown,
}

impl State {
    /// A slot is free for a job of `priority`. Background work also yields to
    /// anything more urgent that is waiting.
    pub open spec fn free_slot(&self, priority: Priority, limits: &Limits) -> bool {
        let shared_in_use = self.running.foreground + self.running.background;
        match priority {
            Priority::Interactive => self.running.interactive < limits.interactive,
            Priority::Playback => self.running.playback < limits.playback,
            Priority::Foreground => shared_in_use < limits.shared,
            Priority::Export => self.running.export < limits.export,
            Priority::Background => {
                &&& shared_in_use < limits.shared
                &&& self.running.background < limits.background
                &&& forall|p: Priority| p != Priority::Background ==> self.waiting.at(p) == 0
            },
        }
    }

    /// No more jobs run than the limits allow.
    pub open spec fn within(&self, limits: &Limits) -> bool {
        &&& self.running.interactive <= limits.interactive
        &&& self.running.playback <= limits.playback
        &&& self.running.foreground + self.running.background <= limits.shared
        &&& self.running.background <= limits.background
        &&& self.running.export <= limits.export
    }

    /// Whether a job of `priority` may start now.
    pub fn may_start(&self, priority: Priority, limits: &Limits) -> (yes: bool)
        ensures
            yes == self.free_slot(priority, limits),
    {
        let shared_in_use: usize = self.running.foreground.saturating_add(self.running.background);
        let shared = shared_in_use < limits.shared;
        match priority {
            Priority::Interactive => self.running.interactive < limits.interactive,
            Priority::Playback => self.running.playback < limits.playback,
            Priority::Foreground => shared,
            Priority::Export => self.running.export < limits.export,
            Priority::Background => {
                let idle = self.waiting.foreground == 0 && self.waiting.export == 0
                    && self.waiting.interactive == 0 && self.waiting.playback == 0;
                proof {
                    assert(self.waiting.at(Priority::Foreground) == self.waiting.foreground);
                    assert(self.waiting.at(Priority::Export) == self.waiting.export);
                    assert(self.waiting.at(Priority::Interactive) == self.waiting.interactive);
                    assert(self.waiting.at(Priority::Playback) == self.waiting.playback);
                }
                shared && self.running.background < limits.background && idle
            },
        }
    }

    /// Take in a new job: give it the next number.
    pub fn enter(&mut self) -> (id: JobId)
        ensures
            id == JobId(old(self).next_id),
            final(self).next_id == (if old(self).next_id == u32::MAX {
                0
            } else {
                (old(self).next_id + 1) as int
            }),
            final(self).live@ == old(self).live@.push(id),
            final(self).running == old(self).running,
            final(self).waiting == old(self).waiting,
            final(self).peak == old(self).peak,
            final(self).shutting_down == old(self).shutting_down,
    {
        let id = JobId(self.next_id);
        self.next_id = if self.next_id == u32::MAX {
            0
        } else {
            self.next_id + 1
        };
        self.live.push(id);
        id
    }

    /// A job is over: it is no longer among the live ones.
    pub fn leave(&mut self, id: JobId)
        ensures
            final(self).live@ == others(old(self).live@, id),
            final(self).next_id == old(self).next_id,
            final(self).running == old(self).running,
            final(self).waiting == old(self).waiting,
            final(self).peak == old(self).peak,
            final(self).shutting_down == old(self).shutting_down,
    {
        let ghost all = self.live@;
        let mut kept: Vec<JobId> = Vec::new();
        let mut i: usize = 0;
        assert(all.take(0).len() == 0);
        while i < self.live.len()
            invariant
                i <= self.live@.len(),
                *self == *old(self),
                all == self.live@,
                kept@ == others(all.take(i as int), id),
            decreases self.live@.len() - i,
        {
            assert(all.take(i + 1).drop_last() =~= all.take(i as int));
            if self.live[i] != id {
                kept.push(self.live[i]);
            }
            i += 1;
        }
        assert(all.take(i as int) =~= all);
        self.live = kept;
    }

    /// A job joins the queue of its priority.
    pub fn queue(&mut self, priority: Priority)
        requires
            old(self).waiting.at(priority) < usize::MAX,
        ensures
            final(self).waiting.at(priority) == old(self).waiting.at(priority) + 1,
            forall|p: Priority|
                p != priority ==> final(self).waiting.at(p) == old(self).waiting.at(p),
            final(self).running == old(self).running,
            final(self).peak == old(self).peak,
            final(self).live == old(self).live,
            final(self).next_id == old(self).next_id,
            final(self).shutting_down == old(self).shutting_down,
    {
        let count: usize = self.waiting.get(priority);
        self.waiting.set(priority, count + 1);
    }

    /// Give a queued job its turn. Shutting down comes before a cancel, and a
    /// cancel before a free slot. Whatever the answer but to wait, the job
    /// leaves the queue; if it starts, it takes a slot, and the peak follows.
    pub fn turn(&mut self, priority: Priority, cancelled: bool, limits: &Limits) -> (answer:
        Admission)
        requires
            old(self).within(limits),
        ensures
            answer == (if old(self).shutting_down {
                Admission::ShuttingDown
            } else if cancelled {
                Admission::Cancelled
            } else if old(self).free_slot(priority, limits) {
                Admission::Start
            } else {
                Admission::Wait
            }),
            final(self).within(limits),
            answer == Admission::Wait ==> *final(self) == *old(self),
            answer != Admission::Wait ==> {
                &&& final(self).waiting.at(priority) == (if old(self).waiting.at(priority) > 0 {
                    old(self).waiting.at(priority) - 1
                } else {
                    0
                })
                &&& forall|p: Priority|
                    p != priority ==> final(self).waiting.at(p) == old(self).waiting.at(p)
            },
            answer == Admission::Start ==> {
                let now = final(self).running.at(priority);
                &&& now == old(self).running.at(priority) + 1
                &&& final(self).peak.at(priority) == (if old(self).peak.at(priority) > now {
                    old(self).peak.at(priority)
                } else {
                    now
                })
            },
            answer != Admission::Start ==> final(self).running == old(self).running
                && final(self).peak == old(self).peak,
            forall|p: Priority|
                p != priority ==> final(self).running.at(p) == old(self).running.at(p)
                    && final(self).peak.at(p) == old(self).peak.at(p),
            final(self).live == old(self).live,
            final(self).next_id == old(self).next_id,
            final(self).shutting_down == old(self).shutting_down,
    {
        let answer = if self.shutting_down {
            Admission::ShuttingDown
        } else if cancelled {
            Admission::Cancelled
        } else if self.may_start(priority, limits) {
            Admission::Start
        } else {
            return Admission::Wait;
        };
        let waiting: usize = self.waiting.get(priority);
        self.waiting.set(priority, waiting.saturating_sub(1));
        if answer == Admission::Start {
            let now: usize = self.running.get(priority) + 1;
            self.running.set(priority, now);
            if now > self.peak.get(priority) {
                self.peak.set(priority, now);
            }
            proof {
                let (a, b) = (old(self).running, self.running);
                assert(b.at(Priority::Interactive) == b.interactive);
                assert(b.at(Priority::Playback) == b.playback);
                assert(b.at(Priority::Foreground) == b.foreground);
                assert(b.at(Priority::Export) == b.export);
                assert(b.at(Priority::Background) == b.background);
                assert(a.at(Priority::Interactive) == a.interactive);
                assert(a.at(Priority::Playback) == a.playback);
                assert(a.at(Priority::Foreground) == a.foreground);
                assert(a.at(Priority::Export) == a.export);
                assert(a.at(Priority::Background) == a.background);
            }
        }
        answer
    }

    /// A job gives its slot back.
    pub fn release(&mut self, priority: Priority, limits: &Limits)
        requires
            old(self).within(limits),
        ensures
            final(self).within(limits),
            final(self).running.at(priority) == (if old(self).running.at(priority) > 0 {
                old(self).running.at(priority) - 1
            } else {
                0
            }),
            forall|p: Priority|
                p != priority ==> final(self).running.at(p) == old(self).running.at(p),
            final(self).waiting == old(self).waiting,
            final(self).peak == old(self).peak,
            final(self).live == old(self).live,
            final(self).next_id == old(self).next_id,
            final(self).shutting_down == old(self).shutting_down,
    {
        let running: usize = self.running.get(priority);
        self.running.set(priority, running.saturating_sub(1));
        proof {
            let (a, b) = (old(self).running, self.running);
            assert(b.at(Priority::Interactive) == b.interactive);
            assert(b.at(Priority::Playback) == b.playback);
            assert(b.at(Priority::Foreground) == b.foreground);
            assert(b.at(Priority::Export) == b.export);
            assert(b.at(Priority::Background) == b.background);
            assert(a.at(Priority::Interactive) == a.interactive);
            assert(a.at(Priority::Playback) == a.playback);
            assert(a.at(Priority::Foreground) == a.foreground);
            assert(a.at(Priority::Export) == a.export);
            assert(a.at(Priority::Background) == a.background);
        }
    }

    /// Accept no new work from here on.
    pub fn shut_down(&mut self)
        ensures
            final(self).shutting_down,
            final(self).running == old(self).running,
            final(self).waiting == old(self).waiting,
            final(self).peak == old(self).peak,
            final(self).live == old(self).live,
            final(self).next_id == old(self).next_id,
    {
        self.shutting_down = true;
    }
}

/// Interactive work never queues behind background work: how much of it runs
/// or waits decides nothing for an interactive job.
pub proof fn interactive_work_never_waits_for_other_work(
    a: &State,
    b: &State,
    limits: &Limits,
)
    requires
        a.running.interactive == b.running.interactive,
    ensures
        a.free_slot(Priority::Interactive, limits) == b.free_slot(Priority::Interactive, limits),
{
}

/// While anything more urgent waits, background work does not start.
pub proof fn background_work_yields(state: &State, limits: &Limits, waiting: Priority)
    requires
        waiting != Priority::Background,
        state.waiting.at(waiting) > 0,
    ensures
        !state.free_slot(Priority::Background, limits),
{
}

/// Background work cannot take every shared slot: with fewer background slots
/// than shared ones, and no foreground work running, one is always left for
/// foreground work.
pub proof fn background_work_leaves_a_shared_slot(state: &State, limits: &Limits)
    requires
        state.within(limits),
        limits.background < limits.shared,
        state.running.foreground == 0,
    ensures
        state.free_slot(Priority::Foreground, limits),
{
}

/// What a streaming consumer tells the job after each chunk.
#[derive(Debug, PartialEq, Eq)]
pub enum Flow {
    /// Keep going.
    Continue,
    /// The consumer has what it needs; stop the process. The job succeeds.
    Stop,
    /// The output is unusable.
    Fail(String),
}

/// Why a job did not produce its result.
#[derive(Debug, PartialEq, Eq)]
pub enum JobError {
    /// The sidecar could not be started at all.
    Spawn { command: String, reason: String },
    /// The sidecar ran and failed.
    Failed {
        command: String,
        exit_code: Option<i32>,
        /// The last lines FFmpeg wrote to stderr, usually the actual reason.
        stderr_tail: Vec<String>,
    },
    /// The job was cancelled, and its process is gone.
    Cancelled,
    /// The consumer of the job's output rejected it.
    Consumer { command: String, message: String },
    /// The process was killed but did not exit.
    Unkillable { command: String },
    /// The application is shutting down and accepts no new work.
    ShuttingDown,
}

/// What a finished job leaves behind.
#[derive(Debug, PartialEq, Eq)]
pub struct JobOutput {
    /// Standard output, for jobs that collect it; empty otherwise.
    pub stdout: Vec<u8>,
    /// The last lines of stderr, for diagnostics.
    pub stderr_tail: Vec<String>,
}

/// How a process ended.
#[derive(Debug, Clone, Copy, PartialEq, Eq, Structural)]
pub enum Exit {
    /// It exited and reported success.
    Success,
    /// It exited with a code, or without one when it was killed.
    Failure(Option<i32>),
    /// It was killed and still would not go.
    Stuck,
}

/// What a job's end amounts to. A process that would not go is reported before
/// anything else; then what the consumer said; then a cancel, if the process
/// did not succeed in spite of it; then the process's own failure.
pub fn outcome(
    command: String,
    exit: Exit,
    verdict: Option<Flow>,
    cancelled: bool,
    stdout: Vec<u8>,
    stderr_tail: Vec<String>,
) -> (result: Result<JobOutput, JobError>)
    ensures
        match exit {
            Exit::Stuck => result == Err::<JobOutput, JobError>(JobError::Unkillable { command }),
            _ => match verdict {
                Some(Flow::Fail(message)) => result == Err::<JobOutput, JobError>(
                    JobError::Consumer { command, message },
                ),
                Some(Flow::Stop) => result matches Ok(output) && output.stdout@.len() == 0
                    && output.stderr_tail == stderr_tail,
                _ => match exit {
                    Exit::Failure(exit_code) => if cancelled {
                        result == Err::<JobOutput, JobError>(JobError::Cancelled)
                    } else {
                        result == Err::<JobOutput, JobError>(
                            JobError::Failed { command, exit_code, stderr_tail },
                        )
                    },
                    _ => result == Ok::<JobOutput, JobError>(JobOutput { stdout, stderr_tail }),
                },
            },
        },
{
    if let Exit::Stuck = exit {
        return Err(JobError::Unkillable { command });
    }
    match verdict {
        Some(Flow::Fail(message)) => {
            return Err(JobError::Consumer { command, message });
        },
        // The consumer had what it needed and stopped the process on purpose.
        Some(Flow::Stop) => {
            return Ok(JobOutput { stdout: Vec::new(), stderr_tail });
        },
        Some(Flow::Continue) | None => {},
    }
    match exit {
        Exit::Failure(exit_code) => if cancelled {
            Err(JobError::Cancelled)
        } else {
            Err(JobError::Failed { command, exit_code, stderr_tail })
        },
        _ => Ok(JobOutput { stdout, stderr_tail }),
    }
}

/// What the supervisor of a process does next.
#[derive(Debug, Clone, Copy, PartialEq, Eq, Structural)]
pub enum Watch {
    /// The process has exited.
    Done,
    /// Look again in a moment.
    Sleep,
    /// Terminate the process.
    Kill,
    /// It was killed and is still there at the deadline.
    GiveUp,
}

/// What a look at the process found.
#[derive(Debug, Clone, Copy, PartialEq, Eq, Structural)]
pub enum Look {
    Exited,
    Running,
    /// The system would not say.
    Unknown,
}

/// What to do after a look at the process: an exit is taken at once; before a
/// kill, a process the system will not speak of or a cancelled job is killed;
/// after one, it is waited for until the deadline.
pub fn watch(look: Look, killed: bool, cancelled: bool, before_deadline: bool) -> (next: Watch)
    ensures
        next == (if look == Look::Exited {
            Watch::Done
        } else if killed {
            if look == Look::Running && before_deadline {
                Watch::Sleep
            } else {
                Watch::GiveUp
            }
        } else if cancelled || look == Look::Unknown {
            Watch::Kill
        } else {
            Watch::Sleep
        }),
{
    match look {
        Look::Exited => Watch::Done,
        Look::Running => if killed {
            if before_deadline {
                Watch::Sleep
            } else {
                Watch::GiveUp
            }
        } else if cancelled {
            Watch::Kill
        } else {
            Watch::Sleep
        },
        Look::Unknown => if killed {
            Watch::GiveUp
        } else {
            Watch::Kill
        },
    }
}

/// The last lines a process wrote to stderr, the oldest first.
#[derive(Debug)]
pub struct Tail {
    pub lines: Vec<String>,
}

impl Tail {
    /// No more lines than an error carries.
    pub open spec fn wf(&self) -> bool {
        self.lines@.len() <= STDERR_TAIL
    }

    pub fn new() -> (tail: Tail)
        ensures
            tail.wf(),
            tail.lines@.len() == 0,
    {
        Tail { lines: Vec::new() }
    }

    /// Add a line, dropping the oldest when full. Empty lines are not kept.
    pub fn push(&mut self, line: String)
        requires
            old(self).wf(),
        ensures
            final(self).wf(),
            final(self).lines@ == (if line@.len() == 0 {
                old(self).lines@
            } else if old(self).lines@.len() == STDERR_TAIL {
                old(self).lines@.skip(1).push(line)
            } else {
                old(self).lines@.push(line)
            }),
    {
        if line.as_str().is_empty() {
            return;
        }
        if self.lines.len() == STDERR_TAIL {
            let ghost before = self.lines@;
            let _ = self.lines.remove(0);
            assert(self.lines@ =~= before.skip(1));
        }
        self.lines.push(line);
    }
}

/// Lines joined by bars.
pub open spec fn joined(lines: Seq<String>) -> Seq<char>
    decreases lines.len(),
{
    if lines.len() == 0 {
        Seq::empty()
    } else if lines.len() == 1 {
        lines[0]@
    } else {
        joined(lines.drop_last()) + " | "@ + lines.last()@
    }
}

/// Lines joined by bars.
fn join(lines: &Vec<String>) -> (text: String)
    ensures
        text@ == joined(lines@),
{
    let mut text: String = String::new();
    let mut i: usize = 0;
    assert(lines@.take(0).len() == 0);
    while i < lines.len()
        invariant
            i <= lines.len(),
            text@ == joined(lines@.take(i as int)),
        decreases lines.len() - i,
    {
        let ghost before = text@;
        assert(lines@.take(i + 1).drop_last() =~= lines@.take(i as int));
        if i > 0 {
            text.append(" | ");
        }
        text.append(lines[i].as_str());
        if i > 0 {
            assert(text@ =~= before + " | "@ + lines@[i as int]@);
        } else {
            assert(text@ =~= lines@[0]@);
        }
        i = i + 1;
    }
    assert(lines@.take(i as int) =~= lines@);
    text
}

impl JobError {
    /// The error as a person reads it.
    pub open spec fn words(&self) -> Seq<char> {
        match self {
            JobError::Spawn { command, reason } => "could not start "@ + command@ + ": "@ + reason@,
            JobError::Failed { command, exit_code, stderr_tail } => command@ + " failed with "@ + (
            match exit_code {
                Some(code) => "exit code "@ + signed_decimal(*code as int),
                None => "no exit code"@,
            }) + ": "@ + joined(stderr_tail@),
            JobError::Cancelled => "cancelled"@,
            JobError::Consumer { command, message } => command@ + ": "@ + message@,
            JobError::Unkillable { command } => command@ + " did not exit after being terminated"@,
            JobError::ShuttingDown => "the media engine is shutting down"@,
        }
    }

    /// The error as a person reads it.
    pub fn message(&self) -> (text: String)
        ensures
            text@ == self.words(),
    {
        match self {
            JobError::Spawn { command, reason } => "could not start ".to_owned().concat(
                command.as_str(),
            ).concat(": ").concat(reason.as_str()),
            JobError::Failed { command, exit_code, stderr_tail } => {
                let mut text: String = command.clone().concat(" failed with ");
                let ghost lead = text@;
                match exit_code {
                    Some(code) => {
                        text.append("exit code ");
                        push_signed(&mut text, *code as i64);
                        assert(text@ =~= lead + ("exit code "@ + signed_decimal(*code as int)));
                    },
                    None => {
                        text.append("no exit code");
                    },
                }
                text.append(": ");
                let tail: String = join(stderr_tail);
                text.append(tail.as_str());
                text
            },
            JobError::Cancelled => "cancelled".to_owned(),
            JobError::Consumer { command, message } => command.clone().concat(": ").concat(
                message.as_str(),
            ),
            JobError::Unkillable { command } => command.clone().concat(
                " did not exit after being terminated",
            ),
            JobError::ShuttingDown => "the media engine is shutting down".to_owned(),
        }
    }
}

/// Only the job that ended leaves: every other stays, in its order.
pub proof fn only_the_job_that_ended_leaves(jobs: Seq<JobId>, id: JobId, other: JobId)
    ensures
        others(jobs, id).contains(other) <==> jobs.contains(other) && other != id,
        !jobs.contains(id) ==> others(jobs, id) == jobs,
        others(jobs, id).len() <= jobs.len(),
    decreases jobs.len(),
{
    if jobs.len() > 0 {
        let shorter = jobs.drop_last();
        only_the_job_that_ended_leaves(shorter, id, other);
        let n = jobs.len() - 1;
        assert(jobs[n] == jobs.last());
        if jobs.contains(other) {
            let k = choose|k: int| 0 <= k < jobs.len() && jobs[k] == other;
            if k < n {
                assert(shorter[k] == other);
            }
        }
        if shorter.contains(other) {
            let k = choose|k: int| 0 <= k < shorter.len() && shorter[k] == other;
            assert(jobs[k] == other);
        }
        if shorter.contains(id) {
            let k = choose|k: int| 0 <= k < shorter.len() && shorter[k] == id;
            assert(jobs[k] == id);
        }
        let after = others(jobs, id);
        let before = others(shorter, id);
        if jobs.last() != id {
            assert(after =~= before.push(jobs.last()));
            assert(after[after.len() - 1] == jobs.last());
            if before.contains(other) {
                let k = choose|k: int| 0 <= k < before.len() && before[k] == other;
                assert(after[k] == other);
            }
            if after.contains(other) {
                let k = choose|k: int| 0 <= k < after.len() && after[k] == other;
                if k < before.len() {
                    assert(before[k] == other);
                }
            }
            if !jobs.contains(id) {
                assert(after =~= jobs);
            }
        }
    }
}

/// A slot is free below its limit: of its own kind, or of what foreground and
/// background work share; background work starts only where nothing waits.
pub proof fn a_slot_is_free_below_its_limit(state: State, limits: Limits)
    ensures
        ({
            let free = |priority: Priority| state.free_slot(priority, &limits);
            let shared = state.running.foreground + state.running.background;
            let idle = state.waiting.interactive == 0 && state.waiting.playback == 0
                && state.waiting.foreground == 0 && state.waiting.export == 0;
            &&& free(Priority::Interactive) <==> state.running.interactive < limits.interactive
            &&& free(Priority::Playback) <==> state.running.playback < limits.playback
            &&& free(Priority::Export) <==> state.running.export < limits.export
            &&& free(Priority::Foreground) <==> shared < limits.shared
            &&& free(Priority::Background) <==> shared < limits.shared && state.running.background
                < limits.background && idle
        }),
{
    assert(state.waiting.at(Priority::Interactive) == state.waiting.interactive);
    assert(state.waiting.at(Priority::Playback) == state.waiting.playback);
    assert(state.waiting.at(Priority::Foreground) == state.waiting.foreground);
    assert(state.waiting.at(Priority::Export) == state.waiting.export);
}

/// Lines are told one behind another with a bar between.
pub proof fn lines_are_told_one_behind_another(lines: Seq<String>, line: String)
    ensures
        lines.len() == 0 ==> joined(lines.push(line)) == line@,
        lines.len() > 0 ==> joined(lines.push(line)) == joined(lines) + " | "@ + line@,
{
    assert(lines.push(line).drop_last() =~= lines);
}

} // verus!
