//! The pace of a task that runs once per period: wait until the period
//! since the last run has passed or until someone asks for a run, run, and
//! note the time.

use vstd::prelude::*;

verus! {

/// Seconds to wait after a failure.
pub const RETRY_DELAY: u64 = 300;

/// Where the task stands.
#[derive(Copy, Clone, Debug, PartialEq, Eq, Structural)]
pub enum Phase {
    /// The time of the last run is asked for.
    Reading,
    /// The task waits for its time, or for a notice.
    Waiting { due: u64 },
    /// The work is done.
    Working,
    /// The time of this run is written down.
    Writing,
    /// The task sits out a failure.
    Resting,
}

/// What happened.
#[derive(Copy, Clone, Debug, PartialEq, Eq, Structural)]
pub enum Event {
    /// The store told the time of the last run.
    LastRun { at: u64 },
    /// The store did not answer.
    StoreFailed,
    /// The row of the task changed.
    Notified,
    /// The time has come.
    Due,
    /// The work is done.
    WorkDone,
    /// The work failed.
    WorkFailed,
    /// The time is written.
    Written,
    /// The rest is over.
    Rested,
}

/// What to do next.
#[derive(Copy, Clone, Debug, PartialEq, Eq, Structural)]
pub enum Action {
    /// Ask the store for the time of the last run.
    ReadLastRun,
    /// Wait for this time, or for a notice.
    WaitUntil { due: u64 },
    /// Do the work.
    Run,
    /// Write the time of now as the time of the last run.
    WriteNow,
    /// Wait this many seconds.
    Sleep { seconds: u64 },
    /// Go on with what is being done: the event does not belong here.
    Nothing,
}

/// The time at which the next run is due.
pub open spec fn due_at(last: u64, period: u64) -> u64 {
    if last + period > u64::MAX {
        u64::MAX
    } else {
        (last + period) as u64
    }
}

/// The rule of the scheduler. The work runs only when its time has come;
/// a notice makes the task read the time of the last run again; after the
/// work is done its time is written; every failure costs a rest, of five
/// minutes, or of one period where the time could not be written.
pub open spec fn next(phase: Phase, event: Event, period: u64) -> (Phase, Action) {
    match (phase, event) {
        (Phase::Reading, Event::LastRun { at }) => (
            Phase::Waiting { due: due_at(at, period) },
            Action::WaitUntil { due: due_at(at, period) },
        ),
        (Phase::Reading, Event::StoreFailed) => (
            Phase::Resting,
            Action::Sleep { seconds: RETRY_DELAY },
        ),
        (Phase::Waiting { due }, Event::Notified) => (Phase::Reading, Action::ReadLastRun),
        (Phase::Waiting { due }, Event::Due) => (Phase::Working, Action::Run),
        (Phase::Working, Event::WorkDone) => (Phase::Writing, Action::WriteNow),
        (Phase::Working, Event::WorkFailed) => (
            Phase::Resting,
            Action::Sleep { seconds: RETRY_DELAY },
        ),
        (Phase::Writing, Event::Written) => (Phase::Reading, Action::ReadLastRun),
        (Phase::Writing, Event::StoreFailed) => (Phase::Resting, Action::Sleep { seconds: period }),
        (Phase::Resting, Event::Rested) => (Phase::Reading, Action::ReadLastRun),
        _ => (phase, Action::Nothing),
    }
}

/// A task with its period in seconds.
pub struct Scheduled {
    pub period: u64,
    pub phase: Phase,
}

impl Scheduled {
    /// A task that is about to ask for the time of its last run.
    pub fn new(period: u64) -> (r: (Scheduled, Action))
        ensures
            r.0.period == period,
            r.0.phase == Phase::Reading,
            r.1 == Action::ReadLastRun,
    {
        (Scheduled { period, phase: Phase::Reading }, Action::ReadLastRun)
    }

    /// Takes note of what happened and tells what to do next.
    pub fn step(&mut self, event: Event) -> (action: Action)
        ensures
            final(self).period == old(self).period,
            (final(self).phase, action) == next(old(self).phase, event, old(self).period),
    {
        let (phase, action) = match (self.phase, event) {
            (Phase::Reading, Event::LastRun { at }) => {
                let due = at.saturating_add(self.period);
                (Phase::Waiting { due }, Action::WaitUntil { due })
            },
            (Phase::Reading, Event::StoreFailed) => (
                Phase::Resting,
                Action::Sleep { seconds: RETRY_DELAY },
            ),
            (Phase::Waiting { due }, Event::Notified) => (Phase::Reading, Action::ReadLastRun),
            (Phase::Waiting { due }, Event::Due) => (Phase::Working, Action::Run),
            (Phase::Working, Event::WorkDone) => (Phase::Writing, Action::WriteNow),
            (Phase::Working, Event::WorkFailed) => (
                Phase::Resting,
                Action::Sleep { seconds: RETRY_DELAY },
            ),
            (Phase::Writing, Event::Written) => (Phase::Reading, Action::ReadLastRun),
            (Phase::Writing, Event::StoreFailed) => (
                Phase::Resting,
                Action::Sleep { seconds: self.period },
            ),
            (Phase::Resting, Event::Rested) => (Phase::Reading, Action::ReadLastRun),
            _ => (self.phase, Action::Nothing),
        };
        self.phase = phase;
        action
    }
}

/// How long to wait at the time `now` for the time `due`.
pub fn time_until(due: u64, now: u64) -> (r: u64)
    ensures
        r == if due > now {
            due - now
        } else {
            0
        },
{
    if due > now {
        due - now
    } else {
        0
    }
}

/// The work runs only when its time has come.
pub proof fn lemma_runs_when_due(phase: Phase, event: Event, period: u64)
    ensures
        next(phase, event, period).1 == Action::Run <==> phase is Waiting && event == Event::Due,
{
}

/// The time is written after every run that went well, and only then.
pub proof fn lemma_writes_after_work(phase: Phase, event: Event, period: u64)
    ensures
        next(phase, event, period).1 == Action::WriteNow <==> phase == Phase::Working && event
            == Event::WorkDone,
{
}

/// The time for which the task waits is the time of the last run plus the
/// period.
pub proof fn lemma_waits_one_period(at: u64, period: u64)
    ensures
        next(Phase::Reading, Event::LastRun { at }, period).1 == (Action::WaitUntil {
            due: due_at(at, period),
        }),
        at + period <= u64::MAX ==> due_at(at, period) == at + period,
{
}

} // verus!
