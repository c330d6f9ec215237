//! The transport: what a command, or the end of the timeline, makes the player
//! do.
//!
//! The player owns threads, devices and decoders; the transport decides. A
//! command changes the [`Transport`] and gives the [`Action`]s to carry out, in
//! order.
use super::plan::ProgramTime;
use crate::num::{larger, max, saturating_sub};
use vstd::prelude::*;

verus! {

/// Preview speed: a monitoring convenience, not the clip speed operation.
#[derive(Debug, Clone, Copy, PartialEq, Eq, Structural)]
pub enum PreviewSpeed {
    Quarter,
    Half,
    Normal,
    Double,
}

impl PreviewSpeed {
    /// The speed, in quarters of normal.
    pub open spec fn quarters(self) -> int {
        match self {
            PreviewSpeed::Quarter => 1,
            PreviewSpeed::Half => 2,
            PreviewSpeed::Normal => 4,
            PreviewSpeed::Double => 8,
        }
    }

    /// The speed, in quarters of normal.
    pub fn in_quarters(self) -> (quarters: u64)
        ensures
            quarters == self.quarters(),
    {
        match self {
            PreviewSpeed::Quarter => 1,
            PreviewSpeed::Half => 2,
            PreviewSpeed::Normal => 4,
            PreviewSpeed::Double => 8,
        }
    }
}

/// Whether the player is moving.
#[derive(Debug, Clone, Copy, PartialEq, Eq, Structural)]
pub enum PlaybackState {
    Paused,
    Playing,
    /// Reached the end of the timeline and stopped there.
    Ended,
}

/// A timeline range played over and over, `[start, end)`.
#[derive(Debug, Clone, Copy, PartialEq, Eq, Structural)]
pub struct LoopRange {
    pub start: ProgramTime,
    pub end: ProgramTime,
}

/// A transport action the user asks for.
#[derive(Debug, Clone, Copy, PartialEq, Eq, Structural)]
pub enum TransportCommand {
    Play,
    Pause,
    Toggle,
    /// Pause and return to the start.
    Stop,
    /// Pause and move by whole frames: positive forwards.
    Step { frames: i32 },
    JumpToStart,
    JumpToEnd,
    /// Move to a timeline position and show exactly the frame there.
    Seek { position: ProgramTime },
    /// Follow a dragged playhead: pause, and show the frame at the latest of a
    /// stream of positions.
    Scrub { position: ProgramTime },
    SetSpeed { speed: PreviewSpeed },
    SetLoop { range: Option<LoopRange> },
}

/// Something the player does.
#[derive(Debug, Clone, Copy, PartialEq, Eq, Structural)]
pub enum Action {
    /// Stop writing audio, and empty the output buffer.
    StopFeeder,
    /// Write audio from `at` on.
    StartFeeder { at: ProgramTime, generation: u64, speed: PreviewSpeed },
    /// Hold the clock at `at`.
    PauseClock { at: ProgramTime, generation: u64 },
    /// Drop every decoder.
    ClearLanes,
    /// Start the decoder that will show `at`.
    Prepare { at: ProgramTime, generation: u64 },
    /// Wait for the first frame at `at`, so that a slow start costs a moment
    /// of waiting and not the first frames.
    WaitForVideo { at: ProgramTime, generation: u64 },
    /// Ask the scrub worker for `at`.
    Scrub { at: ProgramTime },
    /// Look up the frame that is `frames` away from the one due at `at`, and
    /// step to it; stay where there is none.
    Step { at: ProgramTime, generation: u64, frames: i32 },
}

/// What is known of the plan being played.
#[derive(Debug, Clone, Copy, PartialEq, Eq, Structural)]
pub struct Extent {
    /// The end of the timeline.
    pub end: ProgramTime,
    /// Where the first segment starts, if there is one.
    pub first: Option<ProgramTime>,
    /// Where the last frame of the timeline starts.
    pub last_frame: ProgramTime,
}

/// The transport's state.
#[derive(Debug, Clone, Copy, PartialEq, Eq, Structural)]
pub struct Transport {
    pub state: PlaybackState,
    pub speed: PreviewSpeed,
    pub loop_range: Option<LoopRange>,
    /// The scrub worker, not the decoders, decides what is on screen.
    pub scrubbing: bool,
    /// The position whose frame a seek or a scrub is still waiting for.
    pub pending: Option<ProgramTime>,
    /// The last generation given out.
    pub generations: u64,
}

/// Where a seek to `t` lands: on the timeline, before its end.
pub open spec fn on_timeline(t: ProgramTime, end: ProgramTime) -> ProgramTime {
    let last = larger(crate::num::clamped(end - 1) as int, 0);
    if t < 0 {
        0
    } else if t > last {
        last as i64
    } else {
        t
    }
}

/// A position moved onto the timeline.
pub fn clamp_to_timeline(t: ProgramTime, end: ProgramTime) -> (at: ProgramTime)
    ensures
        at == on_timeline(t, end),
{
    let last: i64 = max(saturating_sub(end, 1), 0);
    if t < 0 {
        0
    } else if t > last {
        last
    } else {
        t
    }
}

/// A loop as it is kept: within the timeline, and nothing where that leaves
/// it empty.
pub open spec fn kept_loop(range: Option<LoopRange>, end: ProgramTime) -> Option<LoopRange> {
    match range {
        Some(range) => {
            let top = larger(end as int, 0);
            let start = if range.start < 0 {
                0
            } else if range.start > top {
                top
            } else {
                range.start as int
            };
            let stop = if range.end < 0 {
                0
            } else if range.end > top {
                top
            } else {
                range.end as int
            };
            if range.start < range.end && start < stop {
                Some(LoopRange { start: start as i64, end: stop as i64 })
            } else {
                None
            }
        },
        None => None,
    }
}

/// The transport, and the actions that brought it there.
pub struct Outcome {
    pub transport: Transport,
    pub actions: Seq<Action>,
    /// The generation and position of the clock, once the actions are done.
    pub now: (u64, ProgramTime),
}

impl Transport {
    /// Where playing starts from: the loop's start, or the first segment's.
    pub open spec fn start_position(&self, extent: Extent) -> ProgramTime {
        match self.loop_range {
            Some(range) => range.start,
            None => match extent.first {
                Some(first) => first,
                None => 0,
            },
        }
    }

    /// Where playing ends: the loop's end, or the timeline's.
    pub open spec fn stop_position(&self, extent: Extent) -> ProgramTime {
        match self.loop_range {
            Some(range) => range.end,
            None => extent.end,
        }
    }

    /// A seek: a new generation, at a position on the timeline, with every
    /// decoder started afresh. Playing goes on from there; anything else is
    /// paused there.
    pub open spec fn sought(self, t: ProgramTime, extent: Extent) -> Outcome {
        let at = on_timeline(t, extent.end);
        let generation = (self.generations + 1) as u64;
        let playing = self.state == PlaybackState::Playing;
        let moved = seq![
            Action::PauseClock { at, generation },
            Action::ClearLanes,
            Action::Prepare { at, generation },
        ];
        Outcome {
            transport: Transport {
                pending: Some(at),
                generations: generation,
                state: if playing {
                    PlaybackState::Playing
                } else {
                    PlaybackState::Paused
                },
                ..self
            },
            actions: if playing {
                seq![Action::StopFeeder] + moved + seq![
                    Action::StartFeeder { at, generation, speed: self.speed },
                ]
            } else {
                moved
            },
            now: (generation, at),
        }
    }

    /// A pause: where the clock is, if the player was moving.
    pub open spec fn paused(self, now: (u64, ProgramTime)) -> Outcome {
        if self.state == PlaybackState::Playing {
            Outcome {
                transport: Transport { state: PlaybackState::Paused, ..self },
                actions: seq![
                    Action::StopFeeder,
                    Action::PauseClock { at: now.1, generation: now.0 },
                ],
                now,
            }
        } else {
            Outcome { transport: self, actions: Seq::empty(), now }
        }
    }

    /// Playing, from where the clock is, or from the start where the end had
    /// been reached.
    pub open spec fn started(self, now: (u64, ProgramTime), extent: Extent) -> Outcome {
        if self.state == PlaybackState::Playing {
            Outcome { transport: self, actions: Seq::empty(), now }
        } else {
            let placed = if self.state == PlaybackState::Ended || now.1 >= self.stop_position(
                extent,
            ) {
                self.sought(self.start_position(extent), extent)
            } else {
                Outcome { transport: self, actions: Seq::empty(), now }
            };
            let (generation, at) = placed.now;
            Outcome {
                transport: Transport { state: PlaybackState::Playing, ..placed.transport },
                actions: placed.actions + seq![
                    Action::WaitForVideo { at, generation },
                    Action::StartFeeder { at, generation, speed: placed.transport.speed },
                ],
                now: placed.now,
            }
        }
    }

    /// Scrubbing left: the decoders take over what is on screen again,
    /// restarted where the scrub left the clock if the command starts from
    /// there.
    pub open spec fn unscrubbed(
        self,
        at_clock: bool,
        now: (u64, ProgramTime),
        extent: Extent,
    ) -> Outcome {
        let left = Transport { scrubbing: false, ..self };
        if self.scrubbing && at_clock {
            left.sought(now.1, extent)
        } else {
            Outcome { transport: left, actions: Seq::empty(), now }
        }
    }

    /// What `command` does.
    pub open spec fn after(
        self,
        command: TransportCommand,
        now: (u64, ProgramTime),
        extent: Extent,
    ) -> Outcome {
        match command {
            TransportCommand::Play | TransportCommand::Pause | TransportCommand::Toggle => {
                let first = self.unscrubbed(true, now, extent);
                let plays = command == TransportCommand::Play || (command
                    == TransportCommand::Toggle && first.transport.state
                    != PlaybackState::Playing);
                let following = if plays {
                    first.transport.started(first.now, extent)
                } else {
                    first.transport.paused(first.now)
                };
                Outcome { actions: first.actions + following.actions, ..following }
            },
            TransportCommand::Stop => {
                let first = self.unscrubbed(false, now, extent).transport.paused(now);
                let following = first.transport.sought(self.start_position(extent), extent);
                Outcome { actions: first.actions + following.actions, ..following }
            },
            TransportCommand::Step { frames } => {
                let first = self.unscrubbed(false, now, extent).transport.paused(now);
                Outcome {
                    transport: Transport { state: PlaybackState::Paused, ..first.transport },
                    actions: first.actions + seq![
                        Action::Step { at: now.1, generation: now.0, frames },
                    ],
                    now,
                }
            },
            TransportCommand::JumpToStart => self.unscrubbed(false, now, extent).transport.sought(
                self.start_position(extent),
                extent,
            ),
            TransportCommand::JumpToEnd => self.unscrubbed(false, now, extent).transport.sought(
                extent.last_frame,
                extent,
            ),
            TransportCommand::Seek { position } => self.unscrubbed(
                false,
                now,
                extent,
            ).transport.sought(position, extent),
            TransportCommand::Scrub { position } => {
                let first = self.paused(now);
                let at = on_timeline(position, extent.end);
                Outcome {
                    transport: Transport {
                        state: PlaybackState::Paused,
                        scrubbing: true,
                        pending: Some(at),
                        ..first.transport
                    },
                    actions: first.actions + seq![
                        Action::PauseClock { at, generation: now.0 },
                        Action::Scrub { at },
                    ],
                    now: (now.0, at),
                }
            },
            TransportCommand::SetSpeed { speed } => Outcome {
                transport: Transport { speed, ..self },
                actions: if self.state == PlaybackState::Playing {
                    seq![
                        Action::StopFeeder,
                        Action::PauseClock { at: now.1, generation: now.0 },
                        Action::StartFeeder { at: now.1, generation: now.0, speed },
                    ]
                } else {
                    Seq::empty()
                },
                now,
            },
            TransportCommand::SetLoop { range } => Outcome {
                transport: Transport { loop_range: kept_loop(range, extent.end), ..self },
                actions: Seq::empty(),
                now,
            },
        }
    }

    /// A paused transport at the start of its plan, its first frame being
    /// decoded as the first generation.
    pub fn new() -> (transport: Transport)
        ensures
            transport == (Transport {
                state: PlaybackState::Paused,
                speed: PreviewSpeed::Normal,
                loop_range: None,
                scrubbing: false,
                pending: None,
                generations: 1,
            }),
    {
        Transport {
            state: PlaybackState::Paused,
            speed: PreviewSpeed::Normal,
            loop_range: None,
            scrubbing: false,
            pending: None,
            generations: 1,
        }
    }

    /// Where playing starts from.
    pub fn start(&self, extent: Extent) -> (at: ProgramTime)
        ensures
            at == self.start_position(extent),
    {
        match self.loop_range {
            Some(range) => range.start,
            None => match extent.first {
                Some(first) => first,
                None => 0,
            },
        }
    }

    /// Move to `t`.
    pub fn seek(&mut self, t: ProgramTime, extent: Extent, actions: &mut Vec<Action>) -> (now: (
        u64,
        ProgramTime,
    ))
        requires
            old(self).generations < u64::MAX,
        ensures
            ({
                let outcome = old(self).sought(t, extent);
                &&& *final(self) == outcome.transport
                &&& final(actions)@ == old(actions)@ + outcome.actions
                &&& now == outcome.now
            }),
    {
        let ghost before = actions@;
        let at: i64 = clamp_to_timeline(t, extent.end);
        let playing = self.state == PlaybackState::Playing;
        self.pending = Some(at);
        self.generations = self.generations + 1;
        let generation: u64 = self.generations;
        if playing {
            actions.push(Action::StopFeeder);
        }
        actions.push(Action::PauseClock { at, generation });
        actions.push(Action::ClearLanes);
        actions.push(Action::Prepare { at, generation });
        if playing {
            actions.push(Action::StartFeeder { at, generation, speed: self.speed });
        } else {
            self.state = PlaybackState::Paused;
        }
        assert(actions@ =~= before + old(self).sought(t, extent).actions);
        (generation, at)
    }

    /// Stop moving.
    pub fn pause(&mut self, now: (u64, ProgramTime), actions: &mut Vec<Action>)
        ensures
            ({
                let outcome = old(self).paused(now);
                &&& *final(self) == outcome.transport
                &&& final(actions)@ == old(actions)@ + outcome.actions
            }),
    {
        let ghost before = actions@;
        if self.state == PlaybackState::Playing {
            actions.push(Action::StopFeeder);
            actions.push(Action::PauseClock { at: now.1, generation: now.0 });
            self.state = PlaybackState::Paused;
        }
        assert(actions@ =~= before + old(self).paused(now).actions);
    }

    /// Start moving.
    pub fn play(&mut self, now: (u64, ProgramTime), extent: Extent, actions: &mut Vec<Action>) -> (
    reached: (u64, ProgramTime))
        requires
            old(self).generations < u64::MAX,
        ensures
            ({
                let outcome = old(self).started(now, extent);
                &&& *final(self) == outcome.transport
                &&& final(actions)@ == old(actions)@ + outcome.actions
                &&& reached == outcome.now
            }),
    {
        let ghost before = actions@;
        if self.state == PlaybackState::Playing {
            assert(actions@ =~= before + old(self).started(now, extent).actions);
            return now;
        }
        let stop: i64 = match self.loop_range {
            Some(range) => range.end,
            None => extent.end,
        };
        let mut place: (u64, i64) = now;
        if self.state == PlaybackState::Ended || now.1 >= stop {
            let start: i64 = self.start(extent);
            place = self.seek(start, extent, actions);
        }
        actions.push(Action::WaitForVideo { at: place.1, generation: place.0 });
        actions.push(
            Action::StartFeeder { at: place.1, generation: place.0, speed: self.speed },
        );
        self.state = PlaybackState::Playing;
        assert(actions@ =~= before + old(self).started(now, extent).actions);
        place
    }

    /// Carry out a command, given where the clock is.
    pub fn command(
        &mut self,
        command: TransportCommand,
        now: (u64, ProgramTime),
        extent: Extent,
    ) -> (actions: Vec<Action>)
        requires
            old(self).generations < u64::MAX - 1,
        ensures
            *final(self) == old(self).after(command, now, extent).transport,
            actions@ == old(self).after(command, now, extent).actions,
    {
        let mut actions: Vec<Action> = Vec::new();
        let ghost outcome = old(self).after(command, now, extent);
        match command {
            TransportCommand::Play | TransportCommand::Pause | TransportCommand::Toggle => {
                let mut place: (u64, i64) = now;
                let was_scrubbing = self.scrubbing;
                self.scrubbing = false;
                if was_scrubbing {
                    place = self.seek(now.1, extent, &mut actions);
                }
                let plays = match command {
                    TransportCommand::Play => true,
                    TransportCommand::Toggle => self.state != PlaybackState::Playing,
                    _ => false,
                };
                if plays {
                    let _ = self.play(place, extent, &mut actions);
                } else {
                    self.pause(place, &mut actions);
                }
                assert(actions@ =~= outcome.actions);
            },
            TransportCommand::Stop => {
                self.scrubbing = false;
                self.pause(now, &mut actions);
                let start: i64 = self.start(extent);
                let _ = self.seek(start, extent, &mut actions);
                assert(actions@ =~= outcome.actions);
            },
            TransportCommand::Step { frames } => {
                actions = self.begin_step(now);
                actions.push(Action::Step { at: now.1, generation: now.0, frames });
                assert(actions@ =~= outcome.actions);
            },
            TransportCommand::JumpToStart => {
                self.scrubbing = false;
                let start: i64 = self.start(extent);
                let _ = self.seek(start, extent, &mut actions);
                assert(actions@ =~= outcome.actions);
            },
            TransportCommand::JumpToEnd => {
                self.scrubbing = false;
                let _ = self.seek(extent.last_frame, extent, &mut actions);
                assert(actions@ =~= outcome.actions);
            },
            TransportCommand::Seek { position } => {
                self.scrubbing = false;
                let _ = self.seek(position, extent, &mut actions);
                assert(actions@ =~= outcome.actions);
            },
            TransportCommand::Scrub { position } => {
                self.pause(now, &mut actions);
                self.state = PlaybackState::Paused;
                let at: i64 = clamp_to_timeline(position, extent.end);
                self.scrubbing = true;
                self.pending = Some(at);
                actions.push(Action::PauseClock { at, generation: now.0 });
                actions.push(Action::Scrub { at });
                assert(actions@ =~= outcome.actions);
            },
            TransportCommand::SetSpeed { speed } => {
                self.speed = speed;
                if self.state == PlaybackState::Playing {
                    actions.push(Action::StopFeeder);
                    actions.push(Action::PauseClock { at: now.1, generation: now.0 });
                    actions.push(Action::StartFeeder { at: now.1, generation: now.0, speed });
                }
                assert(actions@ =~= outcome.actions);
            },
            TransportCommand::SetLoop { range } => {
                self.loop_range = keep_loop(range, extent.end);
                assert(actions@ =~= outcome.actions);
            },
        }
        actions
    }

    /// Before a step: leave scrubbing, pause where the clock is, and count an
    /// ended player as paused.
    fn begin_step(&mut self, now: (u64, ProgramTime)) -> (actions: Vec<Action>)
        ensures
            *final(self) == (Transport {
                scrubbing: false,
                state: PlaybackState::Paused,
                ..*old(self)
            }),
            actions@ == old(self).paused(now).actions,
    {
        let mut actions: Vec<Action> = Vec::new();
        self.scrubbing = false;
        self.pause(now, &mut actions);
        self.state = PlaybackState::Paused;
        assert(actions@ =~= old(self).paused(now).actions);
        actions
    }

    /// Step to the frame that starts at `target`. A frame the decoder already
    /// holds only moves the clock; any other is a seek.
    pub fn finish_step(
        &mut self,
        target: ProgramTime,
        held: bool,
        generation: u64,
        extent: Extent,
    ) -> (actions: Vec<Action>)
        requires
            old(self).generations < u64::MAX,
        ensures
            held ==> {
                &&& *final(self) == (Transport { pending: Some(target), ..*old(self) })
                &&& actions@ == seq![Action::PauseClock { at: target, generation }]
            },
            !held ==> {
                &&& *final(self) == old(self).sought(target, extent).transport
                &&& actions@ == old(self).sought(target, extent).actions
            },
    {
        let mut actions: Vec<Action> = Vec::new();
        if held {
            self.pending = Some(target);
            actions.push(Action::PauseClock { at: target, generation });
            assert(actions@ =~= seq![Action::PauseClock { at: target, generation }]);
        } else {
            let _ = self.seek(target, extent, &mut actions);
            assert(actions@ =~= old(self).sought(target, extent).actions);
        }
        actions
    }

    /// The last sample has been heard: a playing transport ends at the end of
    /// the timeline.
    pub fn end_reached(&mut self, generation: u64, end: ProgramTime) -> (actions: Vec<Action>)
        ensures
            old(self).state == PlaybackState::Playing ==> {
                &&& *final(self) == (Transport { state: PlaybackState::Ended, ..*old(self) })
                &&& actions@ == seq![
                    Action::StopFeeder,
                    Action::PauseClock { at: end, generation },
                ]
            },
            old(self).state != PlaybackState::Playing ==> *final(self) == *old(self)
                && actions@.len() == 0,
    {
        let mut actions: Vec<Action> = Vec::new();
        if self.state == PlaybackState::Playing {
            actions.push(Action::StopFeeder);
            actions.push(Action::PauseClock { at: end, generation });
            self.state = PlaybackState::Ended;
            assert(actions@ =~= seq![Action::StopFeeder, Action::PauseClock { at: end, generation }]);
        }
        actions
    }

    /// A frame is up that answers what was pending: any frame for a seek, and
    /// the frame asked for, for a scrub. Says whether something was answered.
    pub fn resolve(&mut self, for_target: Option<ProgramTime>) -> (answered: bool)
        ensures
            answered == (old(self).pending is Some && (for_target is None || for_target
                == old(self).pending)),
            *final(self) == (Transport {
                pending: if answered {
                    None
                } else {
                    old(self).pending
                },
                ..*old(self)
            }),
    {
        let answered = match (self.pending, for_target) {
            (None, _) => false,
            (Some(_), None) => true,
            (Some(waiting), Some(target)) => waiting == target,
        };
        if answered {
            self.pending = None;
        }
        answered
    }
}

/// A loop as it is kept.
fn keep_loop(range: Option<LoopRange>, end: ProgramTime) -> (kept: Option<LoopRange>)
    ensures
        kept == kept_loop(range, end),
{
    match range {
        Some(range) => {
            let top: i64 = max(end, 0);
            let start: i64 = if range.start < 0 {
                0
            } else if range.start > top {
                top
            } else {
                range.start
            };
            let stop: i64 = if range.end < 0 {
                0
            } else if range.end > top {
                top
            } else {
                range.end
            };
            if range.start < range.end && start < stop {
                Some(LoopRange { start, end: stop })
            } else {
                None
            }
        },
        None => None,
    }
}

/// A seek always lands on the timeline, and always in a generation of its own.
pub proof fn a_seek_lands_on_the_timeline(transport: Transport, t: ProgramTime, extent: Extent)
    requires
        transport.generations < u64::MAX,
    ensures
        ({
            let outcome = transport.sought(t, extent);
            &&& 0 <= outcome.now.1
            &&& extent.end > 0 ==> outcome.now.1 < extent.end
            &&& outcome.now.0 > transport.generations
            &&& outcome.transport.pending == Some(outcome.now.1)
        }),
{
}

/// Pausing is settled: a second pause does nothing, wherever the clock is.
pub proof fn a_second_pause_does_nothing(
    transport: Transport,
    now: (u64, ProgramTime),
    later: (u64, ProgramTime),
)
    ensures
        transport.paused(now).transport.paused(later).transport == transport.paused(now).transport,
        transport.paused(now).transport.paused(later).actions == Seq::<Action>::empty(),
{
}

/// A loop that is kept is not empty and lies on the timeline.
pub proof fn a_kept_loop_lies_on_the_timeline(range: Option<LoopRange>, end: ProgramTime)
    ensures
        kept_loop(range, end) matches Some(kept) ==> 0 <= kept.start < kept.end <= end,
{
}

} // verus!
