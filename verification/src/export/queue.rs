//! The export queue's decisions: exports run one after another, report real
//! progress, can be cancelled, and survive the application stopping underneath
//! them.
//!
//! - **One export at a time, in order.** Later jobs wait in the order they
//!   were asked for.
//! - **Progress only moves forward**, and the time left is derived from the
//!   throughput measured so far.
//! - **A job found queued or running when the queue is opened was
//!   interrupted**, and is offered to be exported again from the start or
//!   discarded. It is never continued.
//!
//! The queue knows nothing about how an export is made, nor what is exported:
//! each job carries what it needs as it was when the export was asked for.
use crate::export::audio::AudioTarget;
use crate::text::{decimal, push_decimal};
use vstd::prelude::*;

verus! {

/// Finished jobs kept in the history; the oldest are forgotten first.
pub const HISTORY_LIMIT: usize = 50;

/// The version of the file the queue is kept in.
pub const STORE_VERSION: u32 = 1;

/// Microseconds that have to be measured before a time left is offered.
pub const ESTIMATE_AFTER: u64 = 1_000_000;

/// The two stages of a running export.
#[derive(Debug, Clone, Copy, PartialEq, Eq, Structural)]
pub enum Stage {
    /// Measuring loudness and planning, before anything is written.
    Preparing,
    /// Writing the output file, with progress from the muxer.
    Exporting,
}

/// How far a stage has got: `part` of `whole`.
#[derive(Debug, Clone, Copy, PartialEq, Eq, Structural)]
pub struct Fraction {
    pub part: u64,
    pub whole: u64,
}

impl Fraction {
    /// A fraction is one: not more than all of something.
    pub open spec fn proper(self) -> bool {
        0 < self.whole && self.part <= self.whole
    }

    /// One fraction is less than another.
    pub open spec fn less(self, other: Fraction) -> bool {
        self.part * other.whole < other.part * self.whole
    }
}

/// Where a job is.
#[derive(Debug, PartialEq, Eq)]
pub enum ExportState {
    /// Waiting for the jobs before it.
    Queued,
    Running {
        stage: Stage,
        /// Of the stage; never less than the last reported.
        fraction: Fraction,
        /// Microseconds, derived from the throughput so far, once there is
        /// enough of it.
        remaining: Option<u64>,
    },
    /// The output file is complete at the target.
    Completed { bytes: u64 },
    /// Nothing was left at the target.
    Failed { message: String },
    /// Cancelled, or discarded after an interruption. Nothing was left at the
    /// target.
    Cancelled,
    /// Queued or running when the application stopped: offered to be exported
    /// again or discarded.
    Interrupted,
}

impl ExportState {
    /// The job has reached an end, and belongs to the history.
    pub open spec fn finished(self) -> bool {
        self is Completed || self is Failed || self is Cancelled
    }

    /// Whether the job has reached an end, and belongs to the history.
    pub fn is_finished(&self) -> (yes: bool)
        ensures
            yes == self.finished(),
    {
        match self {
            ExportState::Completed { .. } | ExportState::Failed { .. } | ExportState::Cancelled => {
                true
            },
            _ => false,
        }
    }

    /// The same state once more.
    pub fn copy(&self) -> (same: ExportState)
        ensures
            same == *self,
    {
        match self {
            ExportState::Queued => ExportState::Queued,
            ExportState::Running { stage, fraction, remaining } => ExportState::Running {
                stage: *stage,
                fraction: *fraction,
                remaining: *remaining,
            },
            ExportState::Completed { bytes } => ExportState::Completed { bytes: *bytes },
            ExportState::Failed { message } => ExportState::Failed { message: message.clone() },
            ExportState::Cancelled => ExportState::Cancelled,
            ExportState::Interrupted => ExportState::Interrupted,
        }
    }
}

/// One export, as the queue and its history show it.
#[derive(Debug, PartialEq, Eq)]
pub struct ExportJob {
    pub id: u64,
    pub name: String,
    pub target: String,
    pub audio: AudioTarget,
    /// Milliseconds since the Unix epoch.
    pub submitted: u64,
    pub started: Option<u64>,
    pub finished: Option<u64>,
    pub state: ExportState,
}

impl ExportJob {
    /// The same job once more.
    pub fn copy(&self) -> (same: ExportJob)
        ensures
            same == *self,
    {
        ExportJob {
            id: self.id,
            name: self.name.clone(),
            target: self.target.clone(),
            audio: self.audio,
            submitted: self.submitted,
            started: self.started,
            finished: self.finished,
            state: self.state.copy(),
        }
    }
}

/// What a finished export produced.
#[derive(Debug, Clone, Copy, PartialEq, Eq, Structural)]
pub struct RunOutcome {
    /// The size of the output file.
    pub bytes: u64,
}

/// Why the queue refused a request.
#[derive(Debug, PartialEq, Eq)]
pub enum QueueError {
    NoSuchJob(u64),
    NotInterrupted(u64),
    TargetIsSource(String),
}

impl QueueError {
    /// The error in words.
    pub open spec fn words(&self) -> Seq<char> {
        match *self {
            QueueError::NoSuchJob(id) => "there is no export "@ + decimal(id as nat),
            QueueError::NotInterrupted(id) => "export "@ + decimal(id as nat)
                + " was not interrupted"@,
            QueueError::TargetIsSource(path) => path@
                + " is one of the project's sources, and a source is never written to"@,
        }
    }

    /// The error in words.
    pub fn message(&self) -> (text: String)
        ensures
            text@ == self.words(),
    {
        match self {
            QueueError::NoSuchJob(id) => {
                let mut text = "there is no export ".to_owned();
                push_decimal(&mut text, *id);
                text
            },
            QueueError::NotInterrupted(id) => {
                let mut text = "export ".to_owned();
                push_decimal(&mut text, *id);
                text.concat(" was not interrupted")
            },
            QueueError::TargetIsSource(path) => {
                path.clone().concat(
                    " is one of the project's sources, and a source is never written to",
                )
            },
        }
    }
}

/// What is to be exported, fixed when the export is asked for.
#[derive(Debug)]
pub struct ExportSpec<S> {
    /// The project as it was: planned from when the job starts.
    pub project: S,
    /// What the job is called in the queue: the project's name.
    pub name: String,
    pub target: String,
    /// The user confirmed replacing an existing target.
    pub overwrite: bool,
    pub audio: AudioTarget,
}

/// A job, and what it needs to run while it may still run.
#[derive(Debug)]
pub struct Entry<S> {
    pub job: ExportJob,
    /// Dropped when the job finishes: the history needs the outcome, not a
    /// copy of the project.
    pub spec: Option<ExportSpec<S>>,
}

/// The job being exported.
#[derive(Debug, Clone, Copy, PartialEq, Eq, Structural)]
pub struct Running {
    pub id: u64,
    /// The user asked for it to stop.
    pub cancelled: bool,
}

/// The export queue: submit, watch, cancel, and pick up after a crash.
#[derive(Debug)]
pub struct ExportQueue<S> {
    pub next: u64,
    pub entries: Vec<Entry<S>>,
    pub running: Option<Running>,
    pub stopping: bool,
}

/// The place of the job `id` at `at` or behind; the number of jobs where there
/// is none.
pub open spec fn place_of<S>(entries: Seq<Entry<S>>, id: u64, at: int) -> int
    decreases entries.len() - at,
{
    if at >= entries.len() || entries[at].job.id == id {
        at
    } else {
        place_of(entries, id, at + 1)
    }
}

/// The place of the first queued job at `at` or behind.
pub open spec fn first_queued<S>(entries: Seq<Entry<S>>, at: int) -> int
    decreases entries.len() - at,
{
    if at >= entries.len() || entries[at].job.state is Queued {
        at
    } else {
        first_queued(entries, at + 1)
    }
}

/// Jobs start in the order they wait in: no job is queued in front of the one
/// that is started next.
pub proof fn jobs_start_in_order<S>(entries: Seq<Entry<S>>, i: int)
    requires
        0 <= i < entries.len(),
        i < first_queued(entries, 0),
    ensures
        !(entries[i].job.state is Queued),
{
    lemma_first_queued(entries, 0, i);
}

/// No job is queued between `at` and the first that is.
proof fn lemma_first_queued<S>(entries: Seq<Entry<S>>, at: int, i: int)
    requires
        0 <= at <= i < entries.len(),
        i < first_queued(entries, at),
    ensures
        !(entries[i].job.state is Queued),
    decreases entries.len() - at,
{
    if at < i {
        lemma_first_queued(entries, at + 1, i);
    }
}

/// How many jobs are finished.
pub open spec fn finished_in<S>(entries: Seq<Entry<S>>) -> nat
    decreases entries.len(),
{
    if entries.len() == 0 {
        0
    } else {
        finished_in(entries.skip(1)) + (if entries[0].job.state.finished() {
            1nat
        } else {
            0
        })
    }
}

/// The jobs without the first `excess` that are finished.
pub open spec fn forgotten<S>(entries: Seq<Entry<S>>, excess: int) -> Seq<Entry<S>>
    decreases entries.len(),
{
    if entries.len() == 0 {
        Seq::empty()
    } else if excess > 0 && entries[0].job.state.finished() {
        forgotten(entries.skip(1), excess - 1)
    } else {
        seq![entries[0]] + forgotten(entries.skip(1), excess)
    }
}

/// The jobs with a history that is not too long: the oldest finished ones are
/// forgotten first.
pub open spec fn trimmed<S>(entries: Seq<Entry<S>>) -> Seq<Entry<S>> {
    forgotten(entries, finished_in(entries) - HISTORY_LIMIT)
}

/// The jobs that are not finished.
pub open spec fn unfinished<S>(entries: Seq<Entry<S>>) -> Seq<Entry<S>>
    decreases entries.len(),
{
    if entries.len() == 0 {
        Seq::empty()
    } else if entries[0].job.state.finished() {
        unfinished(entries.skip(1))
    } else {
        seq![entries[0]] + unfinished(entries.skip(1))
    }
}

/// The jobs that are finished, the oldest first.
pub open spec fn history<S>(entries: Seq<Entry<S>>) -> Seq<Entry<S>>
    decreases entries.len(),
{
    if entries.len() == 0 {
        Seq::empty()
    } else if entries[0].job.state.finished() {
        seq![entries[0]] + history(entries.skip(1))
    } else {
        history(entries.skip(1))
    }
}

/// What is shown of the jobs.
pub open spec fn jobs_in<S>(entries: Seq<Entry<S>>) -> Seq<ExportJob> {
    entries.map_values(|entry: Entry<S>| entry.job)
}

/// Every job is shown: the queue and the history together hold what there is,
/// in the queue what is not finished, in the history what is.
pub proof fn every_job_is_shown_once<S>(entries: Seq<Entry<S>>)
    ensures
        unfinished(entries).len() + history(entries).len() == entries.len(),
        (unfinished(entries) + history(entries)).to_multiset() == entries.to_multiset(),
        forall|i: int|
            0 <= i < unfinished(entries).len() ==> !(#[trigger] unfinished(
                entries,
            )[i]).job.state.finished(),
        forall|i: int|
            0 <= i < history(entries).len() ==> (#[trigger] history(
                entries,
            )[i]).job.state.finished(),
    decreases entries.len(),
{
    broadcast use vstd::seq_lib::group_to_multiset_ensures;

    if entries.len() > 0 {
        let rest = entries.skip(1);
        let first = seq![entries[0]];
        every_job_is_shown_once(rest);
        vstd::seq_lib::lemma_multiset_commutative(first, rest);
        assert(first + rest =~= entries);
        vstd::seq_lib::lemma_multiset_commutative(unfinished(rest), history(rest));
        if entries[0].job.state.finished() {
            vstd::seq_lib::lemma_multiset_commutative(first, history(rest));
            vstd::seq_lib::lemma_multiset_commutative(unfinished(entries), history(entries));
            assert((unfinished(entries) + history(entries)).to_multiset() =~= entries.to_multiset());
        } else {
            vstd::seq_lib::lemma_multiset_commutative(first, unfinished(rest));
            vstd::seq_lib::lemma_multiset_commutative(unfinished(entries), history(entries));
            assert((unfinished(entries) + history(entries)).to_multiset() =~= entries.to_multiset());
        }
    } else {
        assert(unfinished(entries) + history(entries) =~= entries);
    }
}

/// Forgetting takes away as many finished jobs as it is told, and no other.
proof fn lemma_forgotten<S>(entries: Seq<Entry<S>>, excess: int)
    ensures
        unfinished(forgotten(entries, excess)) == unfinished(entries),
        finished_in(forgotten(entries, excess)) == (if excess <= 0 {
            finished_in(entries) as int
        } else if finished_in(entries) >= excess {
            finished_in(entries) - excess
        } else {
            0
        }),
    decreases entries.len(),
{
    if entries.len() > 0 {
        let rest = entries.skip(1);
        let kept = forgotten(entries, excess);
        if excess > 0 && entries[0].job.state.finished() {
            lemma_forgotten(rest, excess - 1);
        } else {
            lemma_forgotten(rest, excess);
            assert(kept[0] == entries[0]);
            assert(kept.skip(1) =~= forgotten(rest, excess));
        }
    }
}

/// The history stays short, and nothing that may still run is forgotten.
pub proof fn the_history_stays_short<S>(entries: Seq<Entry<S>>)
    ensures
        finished_in(trimmed(entries)) <= HISTORY_LIMIT,
        unfinished(trimmed(entries)) == unfinished(entries),
{
    lemma_forgotten(entries, finished_in(entries) - HISTORY_LIMIT);
}

/// How many jobs are finished.
fn count_finished<S>(entries: &Vec<Entry<S>>) -> (count: usize)
    ensures
        count == finished_in(entries@),
{
    let mut count: usize = 0;
    let mut i: usize = entries.len();
    proof {
        assert(entries@.skip(entries@.len() as int) =~= Seq::empty());
    }
    while i > 0
        invariant
            i <= entries@.len(),
            count == finished_in(entries@.skip(i as int)),
            count <= entries@.len() - i,
        decreases i,
    {
        i -= 1;
        proof {
            let here = entries@.skip(i as int);
            assert(here[0] == entries@[i as int]);
            assert(here.skip(1) =~= entries@.skip(i + 1));
        }
        if entries[i].job.state.is_finished() {
            assert(count < entries.len());
            count += 1;
        }
    }
    proof {
        assert(entries@.skip(0) =~= entries@);
    }
    count
}

/// Keep at most [`HISTORY_LIMIT`] finished jobs.
fn trim<S>(entries: &mut Vec<Entry<S>>)
    ensures
        final(entries)@ == trimmed(old(entries)@),
        forall|next: u64| #[trigger]
            numbered(old(entries)@, next) ==> numbered(final(entries)@, next),
        forall|running: Option<Running>| #[trigger]
            alone(old(entries)@, running) ==> alone(final(entries)@, running),
{
    let finished = count_finished(entries);
    let mut excess: usize = if finished > HISTORY_LIMIT {
        finished - HISTORY_LIMIT
    } else {
        0
    };
    let ghost all = entries@;
    proof {
        lemma_no_excess(all, finished_in(all) - HISTORY_LIMIT);
        lemma_no_excess(all, excess as int);
    }
    let mut i: usize = 0;
    while excess > 0 && i < entries.len()
        invariant
            i <= entries@.len(),
            entries@.take(i as int) + forgotten(entries@.skip(i as int), excess as int) == forgotten(
                all,
                if finished_in(all) > HISTORY_LIMIT {
                    finished_in(all) - HISTORY_LIMIT
                } else {
                    0
                },
            ),
        decreases entries@.len() - i,
    {
        let ghost now = entries@;
        proof {
            assert(now.skip(i as int)[0] == now[i as int]);
            assert(now.skip(i as int).skip(1) =~= now.skip(i + 1));
        }
        if entries[i].job.state.is_finished() {
            let _gone = entries.remove(i);
            excess -= 1;
            proof {
                assert(entries@.take(i as int) =~= now.take(i as int));
                assert(entries@.skip(i as int) =~= now.skip(i + 1));
            }
        } else {
            i += 1;
            proof {
                let rest = forgotten(now.skip(i as int), excess as int);
                assert(now.take(i - 1) + (seq![now[i - 1]] + rest) =~= now.take(i as int) + rest);
            }
        }
        proof {
            if i == 0 {
                assert(entries@.skip(0) =~= entries@);
            }
        }
    }
    proof {
        lemma_no_excess(entries@.skip(i as int), 0);
        assert(entries@.take(i as int) + entries@.skip(i as int) =~= entries@);
        if i == entries@.len() {
            assert(entries@.skip(i as int) =~= Seq::empty());
        }
        assert forall|next: u64| #[trigger] numbered(all, next) implies numbered(
            entries@,
            next,
        ) by {
            lemma_forgotten_numbered(all, finished_in(all) - HISTORY_LIMIT, next);
        }
        assert forall|running: Option<Running>| #[trigger] alone(all, running) implies alone(
            entries@,
            running,
        ) by {
            lemma_forgotten_alone(all, finished_in(all) - HISTORY_LIMIT, running);
        }
    }
}

/// Nothing is forgotten where nothing is in excess.
proof fn lemma_no_excess<S>(entries: Seq<Entry<S>>, excess: int)
    ensures
        excess <= 0 ==> forgotten(entries, excess) == entries && forgotten(entries, 0) == entries,
        entries.take(0) + forgotten(entries.skip(0), excess) == forgotten(entries, excess),
    decreases entries.len(),
{
    assert(entries.skip(0) =~= entries);
    assert(entries.take(0) + forgotten(entries, excess) =~= forgotten(entries, excess));
    if entries.len() > 0 && excess <= 0 {
        lemma_no_excess(entries.skip(1), excess);
        assert(seq![entries[0]] + entries.skip(1) =~= entries);
    } else if entries.len() == 0 {
        assert(forgotten(entries, excess) =~= entries);
    }
}

/// A job has a number.
pub open spec fn has_number<S>(entries: Seq<Entry<S>>, id: u64) -> bool {
    exists|i: int| 0 <= i < entries.len() && (#[trigger] entries[i]).job.id == id
}

/// No two jobs have one number, and all numbers are below the next.
pub open spec fn numbered<S>(entries: Seq<Entry<S>>, next: u64) -> bool {
    &&& forall|i: int| 0 <= i < entries.len() ==> (#[trigger] entries[i]).job.id < next
    &&& forall|i: int, j: int|
        #![trigger entries[i], entries[j]]
        0 <= i < j < entries.len() ==> entries[i].job.id != entries[j].job.id
}

/// Only the job being exported is told to be running.
pub open spec fn alone<S>(entries: Seq<Entry<S>>, running: Option<Running>) -> bool {
    forall|i: int|
        0 <= i < entries.len() && (#[trigger] entries[i]).job.state is Running ==> (running matches Some(
            now,
        ) && now.id == entries[i].job.id)
}

/// Forgetting jobs starts none.
proof fn lemma_forgotten_alone<S>(entries: Seq<Entry<S>>, excess: int, running: Option<Running>)
    requires
        alone(entries, running),
    ensures
        alone(forgotten(entries, excess), running),
        alone(unfinished(entries), running),
    decreases entries.len(),
{
    if entries.len() > 0 {
        let rest = entries.skip(1);
        assert forall|i: int| 0 <= i < rest.len() && (#[trigger] rest[i]).job.state is Running implies (
        running matches Some(now) && now.id == rest[i].job.id) by {
            assert(rest[i] == entries[i + 1]);
        }
        let taken = excess > 0 && entries[0].job.state.finished();
        lemma_forgotten_alone(
            rest,
            if taken {
                excess - 1
            } else {
                excess
            },
            running,
        );
        let kept = forgotten(entries, excess);
        let waiting = unfinished(entries);
        assert forall|i: int| 0 <= i < kept.len() && (#[trigger] kept[i]).job.state is Running implies (
        running matches Some(now) && now.id == kept[i].job.id) by {
            if taken {
                assert(kept[i] == forgotten(rest, excess - 1)[i]);
            } else if i == 0 {
                assert(kept[0] == entries[0]);
            } else {
                assert(kept[i] == forgotten(rest, excess)[i - 1]);
            }
        }
        assert forall|i: int|
            0 <= i < waiting.len() && (#[trigger] waiting[i]).job.state is Running implies (
        running matches Some(now) && now.id == waiting[i].job.id) by {
            if entries[0].job.state.finished() {
                assert(waiting[i] == unfinished(rest)[i]);
            } else if i == 0 {
                assert(waiting[0] == entries[0]);
            } else {
                assert(waiting[i] == unfinished(rest)[i - 1]);
            }
        }
    }
}

/// A job that no longer runs leaves the others as they are; where it is the
/// one being exported, none is left running.
proof fn lemma_settled<S>(
    before: Seq<Entry<S>>,
    after: Seq<Entry<S>>,
    at: int,
    next: u64,
    running: Option<Running>,
)
    requires
        0 <= at < before.len(),
        after == before.update(at, after[at]),
        !(after[at].job.state is Running),
    ensures
        alone(before, running) ==> alone(after, running),
        numbered(before, next) && alone(before, running) && (running matches Some(now) ==> now.id
            == before[at].job.id) ==> alone(after, None),
{
    if alone(before, running) {
        assert forall|i: int|
            0 <= i < after.len() && (#[trigger] after[i]).job.state is Running implies (
        running matches Some(now) && now.id == after[i].job.id) by {
            assert(after[i] == before[i]);
        }
        if numbered(before, next) && (running matches Some(now) ==> now.id == before[at].job.id) {
            assert forall|i: int| 0 <= i < after.len() implies !(
            (#[trigger] after[i]).job.state is Running) by {
                if i != at && after[i].job.state is Running {
                    assert(after[i] == before[i]);
                    if i < at {
                        assert(before[i].job.id != before[at].job.id);
                    } else {
                        assert(before[at].job.id != before[i].job.id);
                    }
                }
            }
        }
    }
}

/// A job that is not found is nowhere.
proof fn lemma_nowhere<S>(entries: Seq<Entry<S>>, id: u64, at: int)
    requires
        0 <= at,
        place_of(entries, id, at) >= entries.len(),
    ensures
        forall|i: int| at <= i < entries.len() ==> (#[trigger] entries[i]).job.id != id,
    decreases entries.len() - at,
{
    if at < entries.len() && entries[at].job.id != id {
        lemma_nowhere(entries, id, at + 1);
    }
}

/// One export runs at a time.
pub proof fn one_export_at_a_time<S>(queue: ExportQueue<S>, i: int, j: int)
    requires
        queue.wf(),
        0 <= i < queue.entries@.len(),
        0 <= j < queue.entries@.len(),
        queue.entries@[i].job.state is Running,
        queue.entries@[j].job.state is Running,
    ensures
        i == j,
        queue.running == Some(
            Running {
                id: queue.entries@[i].job.id,
                cancelled: queue.running->0.cancelled,
            },
        ),
{
    let entries = queue.entries@;
    assert(entries[i].job.id == entries[j].job.id);
    if i < j {
        assert(entries[i].job.id != entries[j].job.id);
    } else if j < i {
        assert(entries[j].job.id != entries[i].job.id);
    }
}

/// One job in front of others that have other numbers.
proof fn lemma_numbered_front<S>(first: Entry<S>, rest: Seq<Entry<S>>, next: u64)
    requires
        numbered(rest, next),
        first.job.id < next,
        !has_number(rest, first.job.id),
    ensures
        numbered(seq![first] + rest, next),
{
    let all = seq![first] + rest;
    assert forall|i: int| 0 <= i < all.len() implies (#[trigger] all[i]).job.id < next by {
        if i > 0 {
            assert(all[i] == rest[i - 1]);
        }
    }
    assert forall|i: int, j: int|
        #![trigger all[i], all[j]]
        0 <= i < j < all.len() implies all[i].job.id != all[j].job.id by {
        assert(all[j] == rest[j - 1]);
        if i > 0 {
            assert(all[i] == rest[i - 1]);
        } else {
            assert(rest[j - 1].job.id != first.job.id);
        }
    }
}

/// Jobs behind the first have numbers of their own.
proof fn lemma_numbered_rest<S>(entries: Seq<Entry<S>>, next: u64)
    requires
        entries.len() > 0,
        numbered(entries, next),
    ensures
        numbered(entries.skip(1), next),
        !has_number(entries.skip(1), entries[0].job.id),
        entries[0].job.id < next,
{
    let rest = entries.skip(1);
    assert forall|i: int| 0 <= i < rest.len() implies (#[trigger] rest[i]).job.id < next by {
        assert(rest[i] == entries[i + 1]);
    }
    assert forall|i: int, j: int|
        #![trigger rest[i], rest[j]]
        0 <= i < j < rest.len() implies rest[i].job.id != rest[j].job.id by {
        assert(rest[i] == entries[i + 1] && rest[j] == entries[j + 1]);
    }
    if has_number(rest, entries[0].job.id) {
        let i = choose|i: int|
            0 <= i < rest.len() && (#[trigger] rest[i]).job.id == entries[0].job.id;
        assert(entries[0].job.id != entries[i + 1].job.id);
    }
}

/// Forgetting jobs gives no number out again.
proof fn lemma_forgotten_numbered<S>(entries: Seq<Entry<S>>, excess: int, next: u64)
    requires
        numbered(entries, next),
    ensures
        numbered(forgotten(entries, excess), next),
        numbered(unfinished(entries), next),
        forall|id: u64| #[trigger]
            has_number(forgotten(entries, excess), id) ==> has_number(entries, id),
        forall|id: u64| #[trigger]
            has_number(unfinished(entries), id) ==> has_number(entries, id),
    decreases entries.len(),
{
    if entries.len() > 0 {
        let rest = entries.skip(1);
        lemma_numbered_rest(entries, next);
        let taken = excess > 0 && entries[0].job.state.finished();
        lemma_forgotten_numbered(
            rest,
            if taken {
                excess - 1
            } else {
                excess
            },
            next,
        );
        let kept = forgotten(entries, excess);
        let waiting = unfinished(entries);
        if !taken {
            lemma_numbered_front(entries[0], forgotten(rest, excess), next);
        }
        if !entries[0].job.state.finished() {
            lemma_numbered_front(entries[0], unfinished(rest), next);
        }
        assert forall|id: u64| #[trigger] has_number(kept, id) implies has_number(entries, id) by {
            let i = choose|i: int| 0 <= i < kept.len() && (#[trigger] kept[i]).job.id == id;
            if !taken && i == 0 {
                assert(entries[0].job.id == id);
            } else {
                let part = forgotten(
                    rest,
                    if taken {
                        excess - 1
                    } else {
                        excess
                    },
                );
                assert(kept[i] == part[if taken {
                    i
                } else {
                    i - 1
                }]);
                assert(has_number(part, id));
                lemma_number_in_rest(entries, id);
            }
        }
        assert forall|id: u64| #[trigger] has_number(waiting, id) implies has_number(
            entries,
            id,
        ) by {
            let i = choose|i: int| 0 <= i < waiting.len() && (#[trigger] waiting[i]).job.id == id;
            let done = entries[0].job.state.finished();
            if !done && i == 0 {
                assert(entries[0].job.id == id);
            } else {
                let part = unfinished(rest);
                assert(waiting[i] == part[if done {
                    i
                } else {
                    i - 1
                }]);
                assert(has_number(part, id));
                lemma_number_in_rest(entries, id);
            }
        }
    }
}

/// A number of a job behind the first is one of all.
proof fn lemma_number_in_rest<S>(entries: Seq<Entry<S>>, id: u64)
    requires
        entries.len() > 0,
        has_number(entries.skip(1), id),
    ensures
        has_number(entries, id),
{
    let rest = entries.skip(1);
    let i = choose|i: int| 0 <= i < rest.len() && (#[trigger] rest[i]).job.id == id;
    assert(entries[i + 1] == rest[i]);
}

/// Jobs that only change in place keep their numbers.
proof fn lemma_same_numbers<S>(before: Seq<Entry<S>>, after: Seq<Entry<S>>, next: u64)
    requires
        before.len() == after.len(),
        forall|i: int|
            0 <= i < before.len() ==> (#[trigger] after[i]).job.id == before[i].job.id,
    ensures
        numbered(before, next) ==> numbered(after, next),
{
    if numbered(before, next) {
        assert forall|i: int| 0 <= i < after.len() implies (#[trigger] after[i]).job.id < next by {
            assert(before[i].job.id < next);
        }
        assert forall|i: int, j: int|
            #![trigger after[i], after[j]]
            0 <= i < j < after.len() implies after[i].job.id != after[j].job.id by {
            assert(before[i].job.id != before[j].job.id);
        }
    }
}

/// A job that moves to the end keeps its number.
proof fn lemma_moved<S>(before: Seq<Entry<S>>, at: int, after: Seq<Entry<S>>, next: u64)
    requires
        0 <= at < before.len(),
        after.len() == before.len(),
        forall|i: int| 0 <= i < after.len() - 1 ==> #[trigger] after[i] == before.remove(at)[i],
        after[after.len() - 1].job.id == before[at].job.id,
    ensures
        numbered(before, next) ==> numbered(after, next),
{
    if numbered(before, next) {
        assert forall|i: int| 0 <= i < after.len() implies (#[trigger] after[i]).job.id < next by {
            if i == after.len() - 1 {
                assert(before[at].job.id < next);
            } else if i < at {
                assert(after[i] == before[i]);
            } else {
                assert(after[i] == before[i + 1]);
            }
        }
        assert forall|i: int, j: int|
            #![trigger after[i], after[j]]
            0 <= i < j < after.len() implies after[i].job.id != after[j].job.id by {
            let from = if i < at {
                i
            } else {
                i + 1
            };
            assert(after[i] == before[from]);
            if j == after.len() - 1 {
                assert(before[from].job.id != before[at].job.id);
            } else {
                let to = if j < at {
                    j
                } else {
                    j + 1
                };
                assert(after[j] == before[to]);
                assert(before[from].job.id != before[to].job.id);
            }
        }
    }
}

/// What cancelling a job asks for.
#[derive(Debug, PartialEq, Eq)]
pub enum Cancelling {
    /// Stop the running export: its outcome is recorded when it has stopped.
    Stop,
    /// The job is cancelled; everyone is told.
    Settled(ExportJob),
    /// The job had finished.
    Nothing,
}

/// What the worker does next.
#[derive(Debug, PartialEq, Eq)]
pub enum Next {
    /// The queue is closing.
    Close,
    /// Nothing is queued, or an export is still running.
    Wait,
    /// A queued job without its project: it failed, and everyone is told.
    Failed(ExportJob),
    /// The job is started; everyone is told.
    Run(ExportJob),
}

/// A job that waits was interrupted when the application stopped.
pub open spec fn reopened(state: ExportState) -> ExportState {
    match state {
        ExportState::Queued | ExportState::Running { .. } => ExportState::Interrupted,
        other => other,
    }
}

impl<S> ExportQueue<S> {
    /// No number was given out twice, the next one was not, and only the job
    /// being exported is told to be running.
    pub open spec fn wf(&self) -> bool {
        &&& numbered(self.entries@, self.next)
        &&& alone(self.entries@, self.running)
    }

    /// The queue as it was kept. Jobs it records as queued or running were
    /// interrupted, and are left for the user to resume or discard.
    pub fn open(next: u64, entries: Vec<Entry<S>>) -> (queue: ExportQueue<S>)
        ensures
            numbered(entries@, next) ==> queue.wf(),
            queue.next == next,
            queue.running is None,
            !queue.stopping,
            queue.entries@.len() == entries@.len(),
            forall|i: int|
                0 <= i < entries@.len() ==> {
                    let entry = #[trigger] queue.entries@[i];
                    entry == (Entry {
                        job: ExportJob {
                            state: reopened(entries@[i].job.state),
                            ..entries@[i].job
                        },
                        spec: entries@[i].spec,
                    })
                },
            forall|i: int|
                0 <= i < queue.entries@.len() ==> !((#[trigger] queue.entries@[i]).job.state is Queued)
                    && !(queue.entries@[i].job.state is Running),
    {
        let ghost all = entries@;
        let mut entries = entries;
        let mut i: usize = 0;
        while i < entries.len()
            invariant
                i <= entries@.len(),
                entries@.len() == all.len(),
                forall|k: int|
                    0 <= k < i ==> #[trigger] entries@[k] == (Entry {
                        job: ExportJob { state: reopened(all[k].job.state), ..all[k].job },
                        spec: all[k].spec,
                    }),
                forall|k: int| i <= k < all.len() ==> #[trigger] entries@[k] == all[k],
            decreases entries@.len() - i,
        {
            assert(entries@[i as int] == all[i as int]);
            let waits = match entries[i].job.state {
                ExportState::Queued | ExportState::Running { .. } => true,
                _ => false,
            };
            if waits {
                entries[i].job.state = ExportState::Interrupted;
            }
            i += 1;
        }
        proof {
            lemma_same_numbers(all, entries@, next);
        }
        ExportQueue { next, entries, running: None, stopping: false }
    }

    /// The place of job `id`.
    fn find(&self, id: u64) -> (place: Result<usize, QueueError>)
        ensures
            match place {
                Ok(at) => at < self.entries@.len() && at == place_of(self.entries@, id, 0)
                    && self.entries@[at as int].job.id == id,
                Err(error) => place_of(self.entries@, id, 0) >= self.entries@.len() && error
                    == QueueError::NoSuchJob(id),
            },
    {
        let mut i: usize = 0;
        while i < self.entries.len()
            invariant
                i <= self.entries@.len(),
                place_of(self.entries@, id, 0) == place_of(self.entries@, id, i as int),
            decreases self.entries@.len() - i,
        {
            if self.entries[i].job.id == id {
                return Ok(i);
            }
            i += 1;
        }
        Err(QueueError::NoSuchJob(id))
    }

    /// Queue an export behind every job already waiting. `source` is the path
    /// of the source that the target is, if it is one: that is refused.
    pub fn submit(
        &mut self,
        spec: ExportSpec<S>,
        source: Option<String>,
        now: u64,
    ) -> (result: Result<ExportJob, QueueError>)
        ensures
            old(self).wf() && old(self).next < u64::MAX ==> final(self).wf(),
            final(self).running == old(self).running,
            final(self).stopping == old(self).stopping,
            match source {
                Some(path) => result == Err::<ExportJob, QueueError>(
                    QueueError::TargetIsSource(path),
                ) && *final(self) == *old(self),
                None => {
                    let job = ExportJob {
                        id: old(self).next,
                        name: spec.name,
                        target: spec.target,
                        audio: spec.audio,
                        submitted: now,
                        started: None,
                        finished: None,
                        state: ExportState::Queued,
                    };
                    &&& result == Ok::<ExportJob, QueueError>(job)
                    &&& final(self).entries@ == old(self).entries@.push(
                        Entry { job, spec: Some(spec) },
                    )
                    &&& final(self).next == (if old(self).next < u64::MAX {
                        old(self).next + 1
                    } else {
                        u64::MAX as int
                    })
                },
            },
    {
        if let Some(path) = source {
            return Err(QueueError::TargetIsSource(path));
        }
        let id = self.next;
        if id < u64::MAX {
            self.next = id + 1;
        }
        let job = ExportJob {
            id,
            name: spec.name.clone(),
            target: spec.target.clone(),
            audio: spec.audio,
            submitted: now,
            started: None,
            finished: None,
            state: ExportState::Queued,
        };
        let shown = job.copy();
        let ghost before = self.entries@;
        self.entries.push(Entry { job, spec: Some(spec) });
        proof {
            if numbered(before, id) {
                assert forall|i: int| 0 <= i < self.entries@.len() implies (
                #[trigger] self.entries@[i]).job.id <= id by {
                    if i < before.len() {
                        assert(self.entries@[i] == before[i]);
                    }
                }
                assert forall|i: int, j: int|
                    #![trigger self.entries@[i], self.entries@[j]]
                    0 <= i < j < self.entries@.len() implies self.entries@[i].job.id
                    != self.entries@[j].job.id by {
                    assert(self.entries@[i] == before[i]);
                    if j < before.len() {
                        assert(self.entries@[j] == before[j]);
                    }
                }
            }
        }
        Ok(shown)
    }

    /// Cancel job `id`: a queued job never starts, and a running one is
    /// stopped. A job that has finished is left as it is.
    pub fn cancel(&mut self, id: u64, now: u64) -> (result: Result<Cancelling, QueueError>)
        ensures
            old(self).wf() ==> final(self).wf(),
            final(self).next == old(self).next,
            final(self).stopping == old(self).stopping,
            ({
                let at = place_of(old(self).entries@, id, 0);
                let state = old(self).entries@[at].job.state;
                if old(self).running matches Some(running) && running.id == id {
                    &&& result == Ok::<Cancelling, QueueError>(Cancelling::Stop)
                    &&& final(self).running == Some(Running { id, cancelled: true })
                    &&& final(self).entries == old(self).entries
                } else if at >= old(self).entries@.len() {
                    &&& result == Err::<Cancelling, QueueError>(QueueError::NoSuchJob(id))
                    &&& *final(self) == *old(self)
                } else if state is Queued || state is Interrupted {
                    let job = ExportJob {
                        state: ExportState::Cancelled,
                        finished: Some(now),
                        ..old(self).entries@[at].job
                    };
                    &&& result == Ok::<Cancelling, QueueError>(Cancelling::Settled(job))
                    &&& final(self).running == old(self).running
                    &&& final(self).entries@ == trimmed(
                        old(self).entries@.update(at, Entry { job, spec: None }),
                    )
                } else {
                    &&& result == Ok::<Cancelling, QueueError>(Cancelling::Nothing)
                    &&& *final(self) == *old(self)
                }
            }),
    {
        if let Some(running) = self.running {
            if running.id == id {
                self.running = Some(Running { id, cancelled: true });
                return Ok(Cancelling::Stop);
            }
        }
        let at = match self.find(id) {
            Ok(at) => at,
            Err(error) => {
                return Err(error);
            },
        };
        let waits = match self.entries[at].job.state {
            ExportState::Queued | ExportState::Interrupted => true,
            _ => false,
        };
        if !waits {
            return Ok(Cancelling::Nothing);
        }
        let job = self.give_up(at, now);
        Ok(Cancelling::Settled(job))
    }

    /// Job `at` ends cancelled.
    fn give_up(&mut self, at: usize, now: u64) -> (job: ExportJob)
        requires
            at < old(self).entries@.len(),
        ensures
            old(self).wf() ==> final(self).wf(),
            job == (ExportJob {
                state: ExportState::Cancelled,
                finished: Some(now),
                ..old(self).entries@[at as int].job
            }),
            final(self).entries@ == trimmed(
                old(self).entries@.update(at as int, Entry { job, spec: None }),
            ),
            final(self).next == old(self).next,
            final(self).running == old(self).running,
            final(self).stopping == old(self).stopping,
    {
        let ghost before = self.entries@;
        self.entries[at].job.state = ExportState::Cancelled;
        self.entries[at].job.finished = Some(now);
        self.entries[at].spec = None;
        let job = self.entries[at].job.copy();
        proof {
            assert(self.entries@ =~= before.update(at as int, Entry { job, spec: None }));
            lemma_same_numbers(before, self.entries@, self.next);
            lemma_settled(before, self.entries@, at as int, self.next, self.running);
        }
        trim(&mut self.entries);
        job
    }

    /// Export interrupted job `id` again, from the start, behind the jobs
    /// already waiting.
    pub fn resume(&mut self, id: u64) -> (result: Result<ExportJob, QueueError>)
        ensures
            old(self).wf() ==> final(self).wf(),
            final(self).next == old(self).next,
            final(self).running == old(self).running,
            final(self).stopping == old(self).stopping,
            ({
                let at = place_of(old(self).entries@, id, 0);
                if at >= old(self).entries@.len() {
                    &&& result == Err::<ExportJob, QueueError>(QueueError::NoSuchJob(id))
                    &&& final(self).entries == old(self).entries
                } else if !(old(self).entries@[at].job.state is Interrupted) {
                    &&& result == Err::<ExportJob, QueueError>(QueueError::NotInterrupted(id))
                    &&& final(self).entries == old(self).entries
                } else {
                    let job = ExportJob {
                        state: ExportState::Queued,
                        started: None,
                        ..old(self).entries@[at].job
                    };
                    &&& result == Ok::<ExportJob, QueueError>(job)
                    &&& final(self).entries@ == old(self).entries@.remove(at).push(
                        Entry { job, spec: old(self).entries@[at].spec },
                    )
                }
            }),
    {
        let at = match self.find(id) {
            Ok(at) => at,
            Err(error) => {
                return Err(error);
            },
        };
        let interrupted = match self.entries[at].job.state {
            ExportState::Interrupted => true,
            _ => false,
        };
        if !interrupted {
            return Err(QueueError::NotInterrupted(id));
        }
        // Interrupted jobs keep their place in the file, but a resumed one is
        // asked for now.
        let mut moved = self.entries.remove(at);
        moved.job.state = ExportState::Queued;
        moved.job.started = None;
        let job = moved.job.copy();
        self.entries.push(moved);
        proof {
            lemma_moved(old(self).entries@, at as int, self.entries@, self.next);
        }
        Ok(job)
    }

    /// Give up interrupted job `id`.
    pub fn discard(&mut self, id: u64, now: u64) -> (result: Result<ExportJob, QueueError>)
        ensures
            old(self).wf() ==> final(self).wf(),
            final(self).next == old(self).next,
            final(self).running == old(self).running,
            final(self).stopping == old(self).stopping,
            ({
                let at = place_of(old(self).entries@, id, 0);
                if at >= old(self).entries@.len() {
                    &&& result == Err::<ExportJob, QueueError>(QueueError::NoSuchJob(id))
                    &&& final(self).entries == old(self).entries
                } else if !(old(self).entries@[at].job.state is Interrupted) {
                    &&& result == Err::<ExportJob, QueueError>(QueueError::NotInterrupted(id))
                    &&& final(self).entries == old(self).entries
                } else {
                    let job = ExportJob {
                        state: ExportState::Cancelled,
                        finished: Some(now),
                        ..old(self).entries@[at].job
                    };
                    &&& result == Ok::<ExportJob, QueueError>(job)
                    &&& final(self).entries@ == trimmed(
                        old(self).entries@.update(at, Entry { job, spec: None }),
                    )
                }
            }),
    {
        let at = match self.find(id) {
            Ok(at) => at,
            Err(error) => {
                return Err(error);
            },
        };
        let interrupted = match self.entries[at].job.state {
            ExportState::Interrupted => true,
            _ => false,
        };
        if !interrupted {
            return Err(QueueError::NotInterrupted(id));
        }
        Ok(self.give_up(at, now))
    }

    /// Append the jobs that are finished, or those that are not.
    fn list(&self, finished: bool, list: &mut Vec<ExportJob>)
        ensures
            final(list)@ == old(list)@ + jobs_in(
                if finished {
                    history(self.entries@)
                } else {
                    unfinished(self.entries@)
                },
            ),
    {
        let ghost before = list@;
        let ghost all = |from: int|
            jobs_in(
                if finished {
                    history(self.entries@.skip(from))
                } else {
                    unfinished(self.entries@.skip(from))
                },
            );
        let mut i: usize = 0;
        proof {
            assert(self.entries@.skip(0) =~= self.entries@);
            assert(list@ + all(0) =~= before + all(0));
        }
        while i < self.entries.len()
            invariant
                i <= self.entries@.len(),
                all == (|from: int|
                    jobs_in(
                        if finished {
                            history(self.entries@.skip(from))
                        } else {
                            unfinished(self.entries@.skip(from))
                        },
                    )),
                list@ + all(i as int) == before + all(0),
            decreases self.entries@.len() - i,
        {
            let ghost held = list@;
            let ghost entry = self.entries@[i as int];
            proof {
                assert(self.entries@.skip(i as int).skip(1) =~= self.entries@.skip(i + 1));
                assert(self.entries@.skip(i as int)[0] == entry);
            }
            if self.entries[i].job.state.is_finished() == finished {
                list.push(self.entries[i].job.copy());
                proof {
                    assert(all(i as int) =~= seq![entry.job] + all(i + 1));
                    assert(held + (seq![entry.job] + all(i + 1)) =~= list@ + all(i + 1));
                }
            }
            i += 1;
        }
        proof {
            assert(all(i as int) =~= Seq::empty());
            assert(list@ + all(i as int) =~= list@);
        }
    }

    /// Every job: the queue in order, then the history, oldest first.
    pub fn jobs(&self) -> (list: Vec<ExportJob>)
        ensures
            list@ == jobs_in(unfinished(self.entries@)) + jobs_in(history(self.entries@)),
    {
        let mut list: Vec<ExportJob> = Vec::new();
        self.list(false, &mut list);
        proof {
            assert(list@ =~= jobs_in(unfinished(self.entries@)));
        }
        self.list(true, &mut list);
        list
    }

    /// What job `id` exports, while it may still run.
    pub fn spec(&self, id: u64) -> (spec: Option<&ExportSpec<S>>)
        ensures
            ({
                let at = place_of(self.entries@, id, 0);
                match spec {
                    Some(found) => at < self.entries@.len() && self.entries@[at].spec == Some(
                        *found,
                    ),
                    None => at >= self.entries@.len() || self.entries@[at].spec is None,
                }
            }),
    {
        match self.find(id) {
            Ok(at) => match &self.entries[at].spec {
                Some(spec) => Some(spec),
                None => None,
            },
            Err(_) => None,
        }
    }

    /// Forget every finished job.
    pub fn clear_history(&mut self)
        ensures
            old(self).wf() ==> final(self).wf(),
            final(self).entries@ == unfinished(old(self).entries@),
            final(self).next == old(self).next,
            final(self).running == old(self).running,
            final(self).stopping == old(self).stopping,
    {
        let ghost all = self.entries@;
        let mut i: usize = 0;
        proof {
            assert(all.take(0) + unfinished(all.skip(0)) =~= unfinished(all)) by {
                assert(all.skip(0) =~= all);
            }
        }
        while i < self.entries.len()
            invariant
                i <= self.entries@.len(),
                self.next == old(self).next,
                self.running == old(self).running,
                self.stopping == old(self).stopping,
                self.entries@.take(i as int) + unfinished(self.entries@.skip(i as int))
                    == unfinished(all),
            decreases self.entries@.len() - i,
        {
            let ghost now = self.entries@;
            proof {
                assert(now.skip(i as int)[0] == now[i as int]);
                assert(now.skip(i as int).skip(1) =~= now.skip(i + 1));
            }
            if self.entries[i].job.state.is_finished() {
                let _gone = self.entries.remove(i);
                proof {
                    assert(self.entries@.take(i as int) =~= now.take(i as int));
                    assert(self.entries@.skip(i as int) =~= now.skip(i + 1));
                }
            } else {
                i += 1;
                proof {
                    let rest = unfinished(now.skip(i as int));
                    assert(now.take(i - 1) + (seq![now[i - 1]] + rest) =~= now.take(i as int)
                        + rest);
                }
            }
        }
        proof {
            assert(self.entries@.skip(i as int) =~= Seq::empty());
            assert(self.entries@.take(i as int) + Seq::<Entry<S>>::empty() =~= self.entries@);
            if numbered(all, self.next) {
                lemma_forgotten_numbered(all, 0, self.next);
            }
            if alone(all, self.running) {
                lemma_forgotten_alone(all, 0, self.running);
            }
        }
    }

    /// The queue closes: nothing more is started. Whether an export is running
    /// that has to be stopped.
    pub fn shutdown(&mut self) -> (stop: bool)
        ensures
            final(self).stopping,
            stop == (old(self).running is Some),
            final(self).entries == old(self).entries,
            final(self).next == old(self).next,
            final(self).running == old(self).running,
    {
        self.stopping = true;
        self.running.is_some()
    }

    /// Take the first queued job and start it, if there is one, no other is
    /// running and the queue is not closing.
    pub fn next_job(&mut self, now: u64) -> (next: Next)
        ensures
            old(self).wf() ==> final(self).wf(),
            final(self).next == old(self).next,
            final(self).stopping == old(self).stopping,
            ({
                let at = first_queued(old(self).entries@, 0);
                if old(self).stopping {
                    next == Next::Close && *final(self) == *old(self)
                } else if old(self).running is Some || at >= old(self).entries@.len() {
                    next == Next::Wait && *final(self) == *old(self)
                } else if old(self).entries@[at].spec is None {
                    &&& next matches Next::Failed(job) && job.state matches ExportState::Failed {
                        message,
                    } && message@ == "the export's project was not kept"@ && job == (ExportJob {
                        state: job.state,
                        finished: Some(now),
                        ..old(self).entries@[at].job
                    }) && final(self).entries@ == trimmed(
                        old(self).entries@.update(at, Entry { job, spec: None }),
                    )
                    &&& final(self).running == old(self).running
                } else {
                    let job = ExportJob {
                        state: ExportState::Running {
                            stage: Stage::Preparing,
                            fraction: Fraction { part: 0, whole: 1 },
                            remaining: None,
                        },
                        started: Some(now),
                        ..old(self).entries@[at].job
                    };
                    &&& next == Next::Run(job)
                    &&& final(self).running == Some(Running { id: job.id, cancelled: false })
                    &&& final(self).entries@ == old(self).entries@.update(
                        at,
                        Entry { job, spec: old(self).entries@[at].spec },
                    )
                }
            }),
    {
        if self.stopping {
            return Next::Close;
        }
        if self.running.is_some() {
            return Next::Wait;
        }
        let ghost before = self.entries@;
        let mut i: usize = 0;
        while i < self.entries.len()
            invariant
                i <= self.entries@.len(),
                *self == *old(self),
                !self.stopping,
                self.running is None,
                before == self.entries@,
                first_queued(before, 0) == first_queued(before, i as int),
            decreases self.entries@.len() - i,
        {
            let queued = match self.entries[i].job.state {
                ExportState::Queued => true,
                _ => false,
            };
            if queued {
                if self.entries[i].spec.is_none() {
                    // Only a store edited by hand holds a queued job without
                    // its project; there is nothing to export.
                    self.entries[i].job.state =
                    ExportState::Failed { message: "the export's project was not kept".to_owned() };
                    self.entries[i].job.finished = Some(now);
                    let job = self.entries[i].job.copy();
                    proof {
                        assert(self.entries@ =~= before.update(i as int, Entry { job, spec: None }));
                        lemma_same_numbers(before, self.entries@, self.next);
                        lemma_settled(before, self.entries@, i as int, self.next, self.running);
                    }
                    trim(&mut self.entries);
                    return Next::Failed(job);
                }
                self.entries[i].job.state =
                ExportState::Running {
                    stage: Stage::Preparing,
                    fraction: Fraction { part: 0, whole: 1 },
                    remaining: None,
                };
                self.entries[i].job.started = Some(now);
                let job = self.entries[i].job.copy();
                self.running = Some(Running { id: job.id, cancelled: false });
                proof {
                    assert(self.entries@ =~= before.update(
                        i as int,
                        Entry { job, spec: before[i as int].spec },
                    ));
                    lemma_same_numbers(before, self.entries@, self.next);
                }
                return Next::Run(job);
            }
            i += 1;
        }
        Next::Wait
    }

    /// A running job's progress, as everyone is told of it; nothing where it no
    /// longer runs.
    pub fn progress(&mut self, id: u64, state: ExportState) -> (told: Option<ExportJob>)
        ensures
            old(self).wf() ==> final(self).wf(),
            final(self).next == old(self).next,
            final(self).stopping == old(self).stopping,
            final(self).running == old(self).running,
            ({
                let at = place_of(old(self).entries@, id, 0);
                if at < old(self).entries@.len() && old(self).entries@[at].job.state is Running {
                    let job = ExportJob { state, ..old(self).entries@[at].job };
                    &&& told == Some(job)
                    &&& final(self).entries@ == old(self).entries@.update(
                        at,
                        Entry { job, spec: old(self).entries@[at].spec },
                    )
                } else {
                    told is None && *final(self) == *old(self)
                }
            }),
    {
        let at = match self.find(id) {
            Ok(at) => at,
            Err(_) => {
                return None;
            },
        };
        let runs = match self.entries[at].job.state {
            ExportState::Running { .. } => true,
            _ => false,
        };
        if !runs {
            return None;
        }
        let ghost before = self.entries@;
        self.entries[at].job.state = state;
        let job = self.entries[at].job.copy();
        proof {
            assert(self.entries@ =~= before.update(
                at as int,
                Entry { job, spec: before[at as int].spec },
            ));
            lemma_same_numbers(before, self.entries@, self.next);
        }
        Some(job)
    }

    /// The running job has ended. A file that was completed is reported as
    /// completed, however late the request to stop it came; otherwise a queue
    /// that closes leaves the job interrupted, and a job that was cancelled is
    /// cancelled. Nothing where the job is gone.
    pub fn ended(&mut self, id: u64, result: Result<RunOutcome, String>, now: u64) -> (told: Option<
        ExportJob,
    >)
        ensures
            old(self).wf() && (old(self).running matches Some(running) ==> running.id == id)
                ==> final(self).wf(),
            final(self).next == old(self).next,
            final(self).stopping == old(self).stopping,
            final(self).running is None,
            ({
                let at = place_of(old(self).entries@, id, 0);
                let cancelled = old(self).running matches Some(running) && running.cancelled;
                let state = match result {
                    Ok(outcome) => ExportState::Completed { bytes: outcome.bytes },
                    Err(message) => if old(self).stopping {
                        ExportState::Interrupted
                    } else if cancelled {
                        ExportState::Cancelled
                    } else {
                        ExportState::Failed { message }
                    },
                };
                if at >= old(self).entries@.len() {
                    told is None && final(self).entries == old(self).entries
                } else {
                    let before = old(self).entries@[at];
                    let entry = if state is Interrupted {
                        Entry {
                            job: ExportJob { state, started: None, ..before.job },
                            spec: before.spec,
                        }
                    } else {
                        Entry {
                            job: ExportJob { state, finished: Some(now), ..before.job },
                            spec: None,
                        }
                    };
                    &&& told == Some(entry.job)
                    &&& final(self).entries@ == trimmed(old(self).entries@.update(at, entry))
                }
            }),
    {
        let cancelled = match self.running {
            Some(running) => running.cancelled,
            None => false,
        };
        self.running = None;
        let at = match self.find(id) {
            Ok(at) => at,
            Err(_) => {
                proof {
                    lemma_nowhere(self.entries@, id, 0);
                }
                return None;
            },
        };
        let ghost before = self.entries@;
        let state = match result {
            Ok(outcome) => ExportState::Completed { bytes: outcome.bytes },
            Err(message) => {
                if self.stopping {
                    ExportState::Interrupted
                } else if cancelled {
                    ExportState::Cancelled
                } else {
                    ExportState::Failed { message }
                }
            },
        };
        let interrupted = match state {
            ExportState::Interrupted => true,
            _ => false,
        };
        self.entries[at].job.state = state;
        if interrupted {
            self.entries[at].job.started = None;
        } else {
            self.entries[at].job.finished = Some(now);
            self.entries[at].spec = None;
        }
        let job = self.entries[at].job.copy();
        proof {
            assert(self.entries@ =~= before.update(at as int, self.entries@[at as int]));
            lemma_same_numbers(before, self.entries@, self.next);
            lemma_settled(before, self.entries@, at as int, self.next, old(self).running);
        }
        trim(&mut self.entries);
        Some(job)
    }
}

/// Turns reports into progress that only moves forward, with the time left.
#[derive(Debug, Clone, Copy, PartialEq, Eq, Structural)]
pub struct Meter {
    pub stage: Stage,
    pub fraction: Fraction,
    /// When the current stage began, in microseconds.
    pub began: Option<u64>,
}

impl Default for Meter {
    fn default() -> (meter: Meter)
        ensures
            meter.wf(),
            meter == (Meter {
                stage: Stage::Preparing,
                fraction: Fraction { part: 0, whole: 1 },
                began: None,
            }),
    {
        Meter { stage: Stage::Preparing, fraction: Fraction { part: 0, whole: 1 }, began: None }
    }
}

/// A reported fraction, never more than all; nothing where there is no whole.
pub open spec fn clipped(reported: Fraction) -> Option<Fraction> {
    if reported.whole == 0 {
        None
    } else if reported.part > reported.whole {
        Some(Fraction { part: reported.whole, whole: reported.whole })
    } else {
        Some(reported)
    }
}

/// The time left at a measured throughput, rounded down: what has passed,
/// times what is left over what is done.
pub open spec fn time_left(elapsed: int, done: Fraction) -> int {
    elapsed * (done.whole - done.part) / (done.part as int)
}

impl Meter {
    /// What was measured is a fraction.
    pub open spec fn wf(self) -> bool {
        self.fraction.proper()
    }

    /// The meter after a report: a stage never goes back, a new one starts
    /// from nothing, and within a stage a smaller fraction changes nothing.
    pub open spec fn after(self, stage: Stage, reported: Fraction, now: u64) -> Meter {
        let advanced = stage == Stage::Exporting && self.stage == Stage::Preparing;
        let base = if advanced {
            Meter {
                stage,
                fraction: Fraction { part: 0, whole: 1 },
                began: Some(now),
            }
        } else {
            Meter {
                began: if self.began is Some {
                    self.began
                } else {
                    Some(now)
                },
                ..self
            }
        };
        match clipped(reported) {
            Some(fraction) if stage == base.stage && base.fraction.less(fraction) => {
                Meter { fraction, ..base }
            },
            _ => base,
        }
    }

    /// The time left, once at least a hundredth of the writing is done and a
    /// second has been measured.
    pub open spec fn remaining(self, now: u64) -> Option<int> {
        let elapsed: int = if now > self.began->0 {
            now - self.began->0
        } else {
            0
        };
        if self.stage == Stage::Exporting && self.fraction.part * 100 >= self.fraction.whole
            && elapsed >= ESTIMATE_AFTER {
            Some(time_left(elapsed, self.fraction))
        } else {
            None
        }
    }

    /// Take a report at `now` microseconds; what everyone is told.
    pub fn update(&mut self, stage: Stage, reported: Fraction, now: u64) -> (state: ExportState)
        requires
            old(self).wf(),
        ensures
            final(self).wf(),
            *final(self) == old(self).after(stage, reported, now),
            ({
                let meter = old(self).after(stage, reported, now);
                state matches ExportState::Running { stage, fraction, remaining } && stage
                    == meter.stage && fraction == meter.fraction && match meter.remaining(now) {
                    Some(left) => remaining == Some(
                        if left <= u64::MAX {
                            left as u64
                        } else {
                            u64::MAX
                        },
                    ),
                    None => remaining is None,
                }
            }),
    {
        if stage == Stage::Exporting && self.stage == Stage::Preparing {
            self.stage = stage;
            self.fraction = Fraction { part: 0, whole: 1 };
            self.began = Some(now);
        }
        let began = match self.began {
            Some(began) => began,
            None => now,
        };
        self.began = Some(began);
        if stage == self.stage && reported.whole > 0 {
            let fraction = if reported.part > reported.whole {
                Fraction { part: reported.whole, whole: reported.whole }
            } else {
                reported
            };
            proof {
                lemma_product(self.fraction.part, fraction.whole);
                lemma_product(fraction.part, self.fraction.whole);
            }
            if (self.fraction.part as u128) * (fraction.whole as u128) < (fraction.part as u128) * (
            self.fraction.whole as u128) {
                self.fraction = fraction;
            }
        }
        let elapsed: u64 = if now > began {
            now - began
        } else {
            0
        };
        let done = self.fraction;
        let remaining = if self.stage == Stage::Exporting && done.part as u128 * 100
            >= done.whole as u128 && elapsed >= ESTIMATE_AFTER {
            let rest: u64 = done.whole - done.part;
            proof {
                lemma_product(elapsed, rest);
                assert(done.part > 0);
                let n = elapsed as int * rest as int;
                crate::time::lemma_quotient_bound(n, done.part as int);
            }
            let left: u128 = elapsed as u128 * rest as u128 / done.part as u128;
            if left <= u64::MAX as u128 {
                Some(left as u64)
            } else {
                Some(u64::MAX)
            }
        } else {
            None
        };
        ExportState::Running { stage: self.stage, fraction: done, remaining }
    }
}

/// Two numbers of 64 bits multiply within 128.
proof fn lemma_product(a: u64, b: u64)
    ensures
        0 <= a * b <= 0xffff_ffff_ffff_ffff * 0xffff_ffff_ffff_ffff,
{
    assert(0 <= a * b <= 0xffff_ffff_ffff_ffff * 0xffff_ffff_ffff_ffff) by (nonlinear_arith)
        requires
            0 <= a <= 0xffff_ffff_ffff_ffff,
            0 <= b <= 0xffff_ffff_ffff_ffff,
    ;
}

/// Progress never moves backwards: no report makes the stage an earlier one,
/// and while the stage stays, none makes the fraction less.
pub proof fn progress_never_goes_back(meter: Meter, stage: Stage, reported: Fraction, now: u64)
    requires
        meter.wf(),
    ensures
        ({
            let after = meter.after(stage, reported, now);
            &&& after.wf()
            &&& meter.stage == Stage::Exporting ==> after.stage == Stage::Exporting
            &&& after.stage == meter.stage ==> !after.fraction.less(meter.fraction)
        }),
{
    let after = meter.after(stage, reported, now);
    if after.stage == meter.stage && after.fraction != meter.fraction {
        assert(meter.fraction.less(after.fraction));
    }
}

/// The oldest are forgotten: of what finished the last fifty stay, in order.
pub proof fn the_oldest_are_forgotten<S>(entries: Seq<Entry<S>>)
    ensures
        ({
            let all = history(entries);
            let kept = history(trimmed(entries));
            &&& all.len() <= 50 ==> trimmed(entries) == entries
            &&& all.len() > 50 ==> kept == all.skip(all.len() - 50)
        }),
{
    lemma_forgets(entries, finished_in(entries) - HISTORY_LIMIT);
    lemma_counts(entries);
}

proof fn lemma_counts<S>(entries: Seq<Entry<S>>)
    ensures
        history(entries).len() == finished_in(entries),
    decreases entries.len(),
{
    if entries.len() > 0 {
        lemma_counts(entries.skip(1));
    }
}

proof fn lemma_forgets<S>(entries: Seq<Entry<S>>, excess: int)
    requires
        excess <= finished_in(entries),
    ensures
        excess <= 0 ==> forgotten(entries, excess) == entries,
        excess > 0 ==> history(forgotten(entries, excess)) == history(entries).skip(excess),
    decreases entries.len(),
{
    lemma_counts(entries);
    if entries.len() > 0 {
        let rest = entries.skip(1);
        if excess > 0 && entries[0].job.state.finished() {
            lemma_forgets(rest, excess - 1);
            if excess == 1 {
                assert(history(entries).skip(1) =~= history(rest));
            } else {
                assert(history(entries).skip(excess) =~= history(rest).skip(excess - 1));
            }
        } else {
            lemma_forgets(rest, excess);
            let kept = seq![entries[0]] + forgotten(rest, excess);
            assert(kept.skip(1) =~= forgotten(rest, excess));
            assert(kept[0] == entries[0]);
            if excess <= 0 {
                assert(kept =~= entries);
            }
        }
    } else {
        assert(forgotten(entries, excess) =~= entries);
    }
}

/// A job is found by its number, and the first that waits is the next.
pub proof fn a_job_is_found_by_its_number<S>(entries: Seq<Entry<S>>, id: u64, i: int)
    requires
        0 <= i < entries.len(),
    ensures
        entries[i].job.id == id && (forall|j: int|
            0 <= j < i ==> (#[trigger] entries[j]).job.id != id) ==> place_of(entries, id, 0) == i,
        entries[i].job.state is Queued && (forall|j: int|
            0 <= j < i ==> !((#[trigger] entries[j]).job.state is Queued)) ==> first_queued(
            entries,
            0,
        ) == i,
        (forall|j: int| 0 <= j < entries.len() ==> (#[trigger] entries[j]).job.id != id)
            ==> place_of(entries, id, 0) == entries.len(),
{
    lemma_found(entries, id, 0, i);
    lemma_found(entries, id, 0, entries.len() as int);
}

proof fn lemma_found<S>(entries: Seq<Entry<S>>, id: u64, at: int, i: int)
    requires
        0 <= at <= i <= entries.len(),
    ensures
        (i < entries.len() ==> entries[i].job.id == id) && (forall|j: int|
            at <= j < i ==> (#[trigger] entries[j]).job.id != id) ==> place_of(entries, id, at) == i,
        (i < entries.len() ==> entries[i].job.state is Queued) && (forall|j: int|
            at <= j < i ==> !((#[trigger] entries[j]).job.state is Queued)) ==> first_queued(
            entries,
            at,
        ) == i,
    decreases i - at,
{
    if at < i {
        lemma_found(entries, id, at + 1, i);
    }
}

/// What was waiting or running when the application stopped is interrupted;
/// what had ended stays as it did.
pub proof fn only_what_was_open_is_interrupted(state: ExportState)
    ensures
        state is Queued || state is Running <==> reopened(state) != state && reopened(state)
            == ExportState::Interrupted,
        state.finished() ==> reopened(state) == state,
{
}

/// A report counts where it says more than the last one did, of the stage that
/// runs; exporting starts anew behind preparing.
pub proof fn a_report_counts_where_it_says_more(
    meter: Meter,
    stage: Stage,
    reported: Fraction,
    now: u64,
)
    requires
        meter.wf(),
        0 < reported.part <= reported.whole,
    ensures
        ({
            let after = meter.after(stage, reported, now);
            let more = meter.fraction.part * reported.whole < reported.part * meter.fraction.whole;
            &&& stage == meter.stage && more ==> after.fraction == reported
            &&& stage == meter.stage && !more ==> after.fraction == meter.fraction
            &&& stage == meter.stage && meter.began is Some ==> after.began == meter.began
            &&& stage == meter.stage && meter.began is None ==> after.began == Some(now)
            &&& stage == Stage::Exporting && meter.stage == Stage::Preparing ==> after.stage
                == Stage::Exporting && after.fraction == reported && after.began == Some(now)
            &&& stage == Stage::Preparing && meter.stage == Stage::Exporting ==> after.stage
                == meter.stage && after.fraction == meter.fraction
        }),
{
    assert(0 * reported.whole == 0) by (nonlinear_arith);
    assert(reported.part * 1 == reported.part) by (nonlinear_arith);
}

/// What is left takes as long at the pace so far: told once a second and a
/// hundredth of the export are behind.
pub proof fn what_is_left_follows_the_pace(meter: Meter, now: u64)
    requires
        meter.wf(),
        meter.began is Some,
    ensures
        ({
            let elapsed = now - meter.began->0;
            let (part, whole) = (meter.fraction.part, meter.fraction.whole);
            let known = meter.stage == Stage::Exporting && 100 * part >= whole && elapsed
                >= 1_000_000;
            &&& meter.remaining(now) is Some <==> known
            &&& meter.remaining(now) matches Some(left) ==> left * part <= elapsed * (whole - part)
                < (left + 1) * part
        }),
{
    let elapsed = now - meter.began->0;
    let (part, whole) = (meter.fraction.part as int, meter.fraction.whole as int);
    if meter.remaining(now) is Some {
        let n = elapsed * (whole - part);
        vstd::arithmetic::div_mod::lemma_fundamental_div_mod(n, part);
        vstd::arithmetic::div_mod::lemma_mod_bound(n, part);
        let f = n / part;
        assert(part * f == f * part && (f + 1) * part == f * part + part) by (nonlinear_arith);
    }
}

} // verus!
