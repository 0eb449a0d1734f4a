//! Shutdown. The store is not closed the moment the host asks for it: the
//! close is refused, the store is drained (statistics refreshed, free pages
//! reclaimed, the write-ahead log folded back into the main file), a short
//! grace period passes, and only then does the process exit.
//!
//! The coordinator decides; it performs nothing. It is handed one event at a
//! time and answers with the action to take next.

use vstd::prelude::*;

verus! {

/// Seconds to wait after the drain before the process exits.
pub const GRACE_PERIOD_SECS: u64 = 3;

/// Seconds between two background refreshes of the statistics.
pub const REFRESH_INTERVAL_SECS: u64 = 600;

/// One step of the drain, in the order in which they run.
#[derive(Debug, Clone, Copy, PartialEq, Eq, Structural)]
pub enum DrainStep {
    /// Refresh the statistics the query planner uses.
    Optimize,
    /// Reclaim the pages that deletes have freed.
    Compact,
    /// Fold the write-ahead log back into the main file and truncate it.
    Checkpoint,
}

/// Where the shutdown stands.
#[derive(Debug, Clone, Copy, PartialEq, Eq, Structural)]
pub enum Phase {
    /// Normal operation.
    Running,
    /// A close was asked for and refused; observers are being told.
    ClosingRequested,
    /// The drain step named is under way.
    Draining(DrainStep),
    /// The drain is over and the grace period is running.
    Settling,
    /// The process may exit.
    Closed,
}

/// What happened outside.
#[derive(Debug, Clone, Copy, PartialEq, Eq, Structural)]
pub enum Event {
    /// The host asked to close.
    CloseRequested,
    /// The observers were told that closing has begun.
    ObserversNotified,
    /// The drain step under way ended, well or not.
    StepFinished { succeeded: bool },
    /// The grace period is over.
    GraceElapsed,
    /// The background timer fired.
    Tick,
}

/// What to do next.
#[derive(Debug, Clone, Copy, PartialEq, Eq, Structural)]
pub enum Action {
    /// Nothing.
    Nothing,
    /// Refuse the close and tell the observers that closing has begun.
    RefuseAndAnnounce,
    /// Refuse the close; a shutdown was already begun.
    Refuse,
    /// Run the drain step named.
    Drain(DrainStep),
    /// Wait for the grace period.
    WaitGrace,
    /// Close the window and exit the process.
    Exit,
    /// Refresh the statistics in the background.
    Refresh,
}

/// The phase and the action that follow from a phase and an event.
///
/// A close is acted on only while running: a request that comes later, while
/// the shutdown is under way or once it is over, is refused and changes
/// nothing. It is the exit that ends the process, never a close. A drain step
/// is followed by the next whether or not it succeeded. An event that does
/// not belong to the phase is ignored.
pub open spec fn transition(phase: Phase, event: Event) -> (Phase, Action) {
    match (phase, event) {
        (Phase::Running, Event::CloseRequested) => (
            Phase::ClosingRequested,
            Action::RefuseAndAnnounce,
        ),
        (_, Event::CloseRequested) => (phase, Action::Refuse),
        (Phase::Running, Event::Tick) => (Phase::Running, Action::Refresh),
        (Phase::ClosingRequested, Event::ObserversNotified) => (
            Phase::Draining(DrainStep::Optimize),
            Action::Drain(DrainStep::Optimize),
        ),
        (Phase::Draining(DrainStep::Optimize), Event::StepFinished { .. }) => (
            Phase::Draining(DrainStep::Compact),
            Action::Drain(DrainStep::Compact),
        ),
        (Phase::Draining(DrainStep::Compact), Event::StepFinished { .. }) => (
            Phase::Draining(DrainStep::Checkpoint),
            Action::Drain(DrainStep::Checkpoint),
        ),
        (Phase::Draining(DrainStep::Checkpoint), Event::StepFinished { .. }) => (
            Phase::Settling,
            Action::WaitGrace,
        ),
        (Phase::Settling, Event::GraceElapsed) => (Phase::Closed, Action::Exit),
        _ => (phase, Action::Nothing),
    }
}

/// The phase reached from `phase` after `events`, taken in order.
pub open spec fn phase_after(phase: Phase, events: Seq<Event>) -> Phase
    decreases events.len(),
{
    if events.len() == 0 {
        phase
    } else {
        phase_after(transition(phase, events[0]).0, events.subrange(1, events.len() as int))
    }
}

/// The actions answered from `phase` to `events`, one for each event.
pub open spec fn actions_for(phase: Phase, events: Seq<Event>) -> Seq<Action>
    decreases events.len(),
{
    if events.len() == 0 {
        Seq::empty()
    } else {
        seq![transition(phase, events[0]).1] + actions_for(
            transition(phase, events[0]).0,
            events.subrange(1, events.len() as int),
        )
    }
}

/// How far a phase is along the shutdown.
pub open spec fn progress(phase: Phase) -> int {
    match phase {
        Phase::Running => 0,
        Phase::ClosingRequested => 1,
        Phase::Draining(DrainStep::Optimize) => 2,
        Phase::Draining(DrainStep::Compact) => 3,
        Phase::Draining(DrainStep::Checkpoint) => 4,
        Phase::Settling => 5,
        Phase::Closed => 6,
    }
}

/// The place of an action in the shutdown sequence, or 0 for an action that
/// is no part of it.
pub open spec fn shutdown_rank(action: Action) -> int {
    match action {
        Action::RefuseAndAnnounce => 1,
        Action::Drain(DrainStep::Optimize) => 2,
        Action::Drain(DrainStep::Compact) => 3,
        Action::Drain(DrainStep::Checkpoint) => 4,
        Action::WaitGrace => 5,
        Action::Exit => 6,
        Action::Nothing | Action::Refuse | Action::Refresh => 0,
    }
}

/// The statement that performs a drain step.
pub open spec fn statement_text(step: DrainStep) -> Seq<char> {
    match step {
        DrainStep::Optimize => "PRAGMA optimize;"@,
        DrainStep::Compact => "PRAGMA incremental_vacuum(0);"@,
        DrainStep::Checkpoint => "PRAGMA wal_checkpoint(TRUNCATE);"@,
    }
}

/// The statement that performs a drain step.
pub fn drain_statement(step: DrainStep) -> (statement: &'static str)
    ensures
        statement@ == statement_text(step),
{
    match step {
        DrainStep::Optimize => "PRAGMA optimize;",
        DrainStep::Compact => "PRAGMA incremental_vacuum(0);",
        DrainStep::Checkpoint => "PRAGMA wal_checkpoint(TRUNCATE);",
    }
}

/// The state of the shutdown, owned by whoever receives the host's events.
#[derive(Debug)]
pub struct Coordinator {
    phase: Phase,
}

impl Coordinator {
    /// The phase the coordinator is in.
    pub closed spec fn view(&self) -> Phase {
        self.phase
    }

    /// A coordinator for a store that is running.
    pub fn new() -> (coordinator: Coordinator)
        ensures
            coordinator@ == Phase::Running,
    {
        Coordinator { phase: Phase::Running }
    }

    /// The phase the coordinator is in.
    pub fn phase(&self) -> (phase: Phase)
        ensures
            phase == self@,
    {
        self.phase
    }

    /// Whether a close was already asked for.
    pub fn is_closing(&self) -> (closing: bool)
        ensures
            closing == (self@ != Phase::Running),
    {
        !matches!(self.phase, Phase::Running)
    }

    /// Takes one event and answers with the action to perform.
    pub fn handle(&mut self, event: Event) -> (action: Action)
        ensures
            final(self)@ == transition(old(self)@, event).0,
            action == transition(old(self)@, event).1,
    {
        let (next, action) = match (self.phase, event) {
            (Phase::Running, Event::CloseRequested) => (
                Phase::ClosingRequested,
                Action::RefuseAndAnnounce,
            ),
            (_, Event::CloseRequested) => (self.phase, Action::Refuse),
            (Phase::Running, Event::Tick) => (Phase::Running, Action::Refresh),
            (Phase::ClosingRequested, Event::ObserversNotified) => (
                Phase::Draining(DrainStep::Optimize),
                Action::Drain(DrainStep::Optimize),
            ),
            (Phase::Draining(DrainStep::Optimize), Event::StepFinished { .. }) => (
                Phase::Draining(DrainStep::Compact),
                Action::Drain(DrainStep::Compact),
            ),
            (Phase::Draining(DrainStep::Compact), Event::StepFinished { .. }) => (
                Phase::Draining(DrainStep::Checkpoint),
                Action::Drain(DrainStep::Checkpoint),
            ),
            (Phase::Draining(DrainStep::Checkpoint), Event::StepFinished { .. }) => (
                Phase::Settling,
                Action::WaitGrace,
            ),
            (Phase::Settling, Event::GraceElapsed) => (Phase::Closed, Action::Exit),
            _ => (self.phase, Action::Nothing),
        };
        self.phase = next;
        action
    }
}

/// A step never moves the shutdown backwards, and an action of the shutdown
/// sequence is answered exactly when the step reaches the phase it belongs to.
pub proof fn lemma_step_advances(phase: Phase, event: Event)
    ensures
        progress(phase) <= progress(transition(phase, event).0),
        shutdown_rank(transition(phase, event).1) > 0 ==> {
            &&& shutdown_rank(transition(phase, event).1) == progress(transition(phase, event).0)
            &&& progress(phase) < progress(transition(phase, event).0)
        },
{
}

/// Every close request is refused, in whatever phase it comes: the first
/// with the announcement, each later one without.
pub proof fn lemma_close_is_always_refused(phase: Phase)
    ensures
        phase == Phase::Running ==> transition(phase, Event::CloseRequested) == (
            Phase::ClosingRequested,
            Action::RefuseAndAnnounce,
        ),
        phase != Phase::Running ==> transition(phase, Event::CloseRequested) == (
            phase,
            Action::Refuse,
        ),
{
}

/// The background refresh is answered to the timer while running and at no
/// other time.
pub proof fn lemma_refresh_only_while_running(phase: Phase, event: Event)
    ensures
        transition(phase, event).1 == Action::Refresh <==> phase == Phase::Running && event
            == Event::Tick,
{
}

/// Whether a drain step succeeded has no bearing on what follows it.
pub proof fn lemma_step_failure_is_swallowed(phase: Phase, succeeded: bool)
    ensures
        transition(phase, Event::StepFinished { succeeded }) == transition(
            phase,
            Event::StepFinished { succeeded: !succeeded },
        ),
{
}

/// Whatever events arrive, and however often, the actions of the shutdown
/// sequence are answered in their order: refuse and announce, optimize,
/// compact, checkpoint, wait, exit. None of them is answered twice, and none
/// that belongs to a phase already passed is answered again.
pub proof fn lemma_shutdown_runs_once(phase: Phase, events: Seq<Event>)
    ensures
        actions_for(phase, events).len() == events.len(),
        forall|i: int|
            0 <= i < events.len() && shutdown_rank(#[trigger] actions_for(phase, events)[i]) > 0
                ==> progress(phase) < shutdown_rank(actions_for(phase, events)[i]),
        forall|i: int, j: int|
            0 <= i < j < events.len() && shutdown_rank(#[trigger] actions_for(phase, events)[i])
                > 0 && shutdown_rank(#[trigger] actions_for(phase, events)[j]) > 0
                ==> shutdown_rank(actions_for(phase, events)[i]) < shutdown_rank(
                actions_for(phase, events)[j],
            ),
    decreases events.len(),
{
    if events.len() > 0 {
        let next = transition(phase, events[0]).0;
        let first = transition(phase, events[0]).1;
        let rest = events.subrange(1, events.len() as int);
        lemma_step_advances(phase, events[0]);
        lemma_shutdown_runs_once(next, rest);
        let tail = actions_for(next, rest);
        let all = actions_for(phase, events);
        assert(all == seq![first] + tail);
        assert(all[0] == first);
        assert forall|i: int| 1 <= i < events.len() implies all[i] == tail[i - 1] by {}
        assert forall|i: int|
            0 <= i < events.len() && shutdown_rank(#[trigger] all[i]) > 0 implies progress(phase)
            < shutdown_rank(all[i]) by {
            if i > 0 {
                assert(all[i] == tail[i - 1]);
            }
        }
        assert forall|i: int, j: int|
            0 <= i < j < events.len() && shutdown_rank(#[trigger] all[i]) > 0 && shutdown_rank(
                #[trigger] all[j],
            ) > 0 implies shutdown_rank(all[i]) < shutdown_rank(all[j]) by {
            assert(all[j] == tail[j - 1]);
            if i > 0 {
                assert(all[i] == tail[i - 1]);
            }
        }
    }
}

/// A shutdown that is let run comes to its end: from the first request the
/// drain steps are answered once each, in their order, whether or not any of
/// them succeeds, then the grace period, then the exit.
pub proof fn lemma_shutdown_completes(first: bool, second: bool, third: bool)
    ensures
        actions_for(
            Phase::Running,
            seq![
                Event::CloseRequested,
                Event::ObserversNotified,
                Event::StepFinished { succeeded: first },
                Event::StepFinished { succeeded: second },
                Event::StepFinished { succeeded: third },
                Event::GraceElapsed,
            ],
        ) == seq![
            Action::RefuseAndAnnounce,
            Action::Drain(DrainStep::Optimize),
            Action::Drain(DrainStep::Compact),
            Action::Drain(DrainStep::Checkpoint),
            Action::WaitGrace,
            Action::Exit,
        ],
        phase_after(
            Phase::Running,
            seq![
                Event::CloseRequested,
                Event::ObserversNotified,
                Event::StepFinished { succeeded: first },
                Event::StepFinished { succeeded: second },
                Event::StepFinished { succeeded: third },
                Event::GraceElapsed,
            ],
        ) == Phase::Closed,
{
    let e0 = seq![
        Event::CloseRequested,
        Event::ObserversNotified,
        Event::StepFinished { succeeded: first },
        Event::StepFinished { succeeded: second },
        Event::StepFinished { succeeded: third },
        Event::GraceElapsed,
    ];
    let e1 = e0.subrange(1, 6);
    let e2 = e1.subrange(1, 5);
    let e3 = e2.subrange(1, 4);
    let e4 = e3.subrange(1, 3);
    let e5 = e4.subrange(1, 2);
    let e6 = e5.subrange(1, 1);
    assert(e1[0] == e0[1] && e2[0] == e0[2] && e3[0] == e0[3] && e4[0] == e0[4] && e5[0] == e0[5]);
    assert(actions_for(Phase::Closed, e6) =~= Seq::<Action>::empty());
    assert(phase_after(Phase::Closed, e6) == Phase::Closed);
    assert(actions_for(Phase::Settling, e5) =~= seq![Action::Exit]);
    assert(phase_after(Phase::Settling, e5) == Phase::Closed);
    assert(actions_for(Phase::Draining(DrainStep::Checkpoint), e4) =~= seq![
        Action::WaitGrace,
        Action::Exit,
    ]);
    assert(phase_after(Phase::Draining(DrainStep::Checkpoint), e4) == Phase::Closed);
    assert(actions_for(Phase::Draining(DrainStep::Compact), e3) =~= seq![
        Action::Drain(DrainStep::Checkpoint),
        Action::WaitGrace,
        Action::Exit,
    ]);
    assert(phase_after(Phase::Draining(DrainStep::Compact), e3) == Phase::Closed);
    assert(actions_for(Phase::Draining(DrainStep::Optimize), e2) =~= seq![
        Action::Drain(DrainStep::Compact),
        Action::Drain(DrainStep::Checkpoint),
        Action::WaitGrace,
        Action::Exit,
    ]);
    assert(phase_after(Phase::Draining(DrainStep::Optimize), e2) == Phase::Closed);
    assert(actions_for(Phase::ClosingRequested, e1) =~= seq![
        Action::Drain(DrainStep::Optimize),
        Action::Drain(DrainStep::Compact),
        Action::Drain(DrainStep::Checkpoint),
        Action::WaitGrace,
        Action::Exit,
    ]);
    assert(phase_after(Phase::ClosingRequested, e1) == Phase::Closed);
    assert(actions_for(Phase::Running, e0) =~= seq![
        Action::RefuseAndAnnounce,
        Action::Drain(DrainStep::Optimize),
        Action::Drain(DrainStep::Compact),
        Action::Drain(DrainStep::Checkpoint),
        Action::WaitGrace,
        Action::Exit,
    ]);
}

/// A close asked for twice in a row while running is acted on once: the first
/// request starts the shutdown, the second is refused and changes nothing.
pub proof fn lemma_repeated_close_is_refused()
    ensures
        actions_for(Phase::Running, seq![Event::CloseRequested, Event::CloseRequested]) == seq![
            Action::RefuseAndAnnounce,
            Action::Refuse,
        ],
        phase_after(Phase::Running, seq![Event::CloseRequested, Event::CloseRequested])
            == Phase::ClosingRequested,
{
    let events = seq![Event::CloseRequested, Event::CloseRequested];
    let rest = events.subrange(1, 2);
    let none = rest.subrange(1, 1);
    assert(rest[0] == Event::CloseRequested);
    assert(none.len() == 0);
    assert(actions_for(Phase::ClosingRequested, none) =~= Seq::<Action>::empty());
    assert(actions_for(Phase::ClosingRequested, rest) =~= seq![Action::Refuse]);
    assert(actions_for(Phase::Running, events) =~= seq![Action::RefuseAndAnnounce, Action::Refuse]);
    assert(phase_after(Phase::ClosingRequested, none) == Phase::ClosingRequested);
    assert(phase_after(Phase::ClosingRequested, rest) == Phase::ClosingRequested);
}

} // verus!
