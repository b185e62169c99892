//! The compactor as a state machine: when to wait, when to run a
//! compaction cycle, and when to stop.
//!
//! The worker that runs the compactor owns a [`Task`]. Every
//! [`TICK_MILLIS`] milliseconds it hands the task what it has seen on its
//! control channel, and does what the task answers.

use vstd::prelude::*;
use crate::errors::Error;

verus! {

/// The time between two looks at the control channel, in milliseconds.
pub const TICK_MILLIS: u64 = 100;

/// Where the compactor stands.
#[derive(Debug, Clone, Copy, PartialEq, Eq, Structural)]
pub enum TaskState {
    /// Waiting for the next cycle to fall due.
    IdleWaiting,
    /// Running a compaction cycle.
    Compacting,
    /// Told to stop, and not yet at rest.
    Stopping,
    /// At rest.
    Stopped,
}

/// What the worker does next.
#[derive(Debug, Clone, Copy, PartialEq, Eq, Structural)]
pub enum TaskAction {
    /// Sleep for one tick, then ask again.
    Wait,
    /// Run one compaction cycle, then report it done.
    Compact,
    /// Leave the loop and report the halt.
    Halt,
}

/// The compactor: its state, the time that it has waited since the last
/// cycle, and the time between two cycles.
#[derive(Debug, Clone, Copy, PartialEq, Eq, Structural)]
pub struct Task {
    pub state: TaskState,
    pub waited_millis: u64,
    pub interval_millis: u64,
}

impl Task {
    /// The task after one tick in which the stop signal was or was not
    /// seen. A waiting task that sees the signal is stopping; one that does
    /// not has waited one tick more, and is compacting once it has waited
    /// for the whole interval. A task in another state stays as it is.
    pub open spec fn ticked(self, stop_signal: bool) -> Task {
        if self.state != TaskState::IdleWaiting {
            self
        } else if stop_signal {
            Task { state: TaskState::Stopping, ..self }
        } else if self.waited_millis + TICK_MILLIS >= self.interval_millis {
            Task { state: TaskState::Compacting, ..self }
        } else {
            Task { waited_millis: (self.waited_millis + TICK_MILLIS) as u64, ..self }
        }
    }

    /// What the worker does in the given state.
    pub open spec fn action_in(state: TaskState) -> TaskAction {
        match state {
            TaskState::IdleWaiting => TaskAction::Wait,
            TaskState::Compacting => TaskAction::Compact,
            TaskState::Stopping => TaskAction::Halt,
            TaskState::Stopped => TaskAction::Halt,
        }
    }

    /// A task at rest that runs a cycle every `interval_millis`
    /// milliseconds once it has been started.
    pub fn new(interval_millis: u64) -> (task: Task)
        ensures
            task == (Task { state: TaskState::Stopped, waited_millis: 0, interval_millis }),
    {
        Task { state: TaskState::Stopped, waited_millis: 0, interval_millis }
    }

    /// Checks whether the task has been started and has not come to rest.
    pub fn is_running(&self) -> (running: bool)
        ensures
            running == (self.state != TaskState::Stopped),
    {
        match self.state {
            TaskState::Stopped => false,
            _ => true,
        }
    }

    /// Starts the task: it waits, and has waited no time yet.
    ///
    /// Fails with `AlreadyRunningError` where the task is running; it stays
    /// as it is then.
    pub fn start(&mut self) -> (result: Result<(), Error>)
        ensures
            match result {
                Ok(_) => old(self).state == TaskState::Stopped && *final(self) == (Task {
                    state: TaskState::IdleWaiting,
                    waited_millis: 0,
                    ..*old(self)
                }),
                Err(e) => old(self).state != TaskState::Stopped && *final(self) == *old(self) && e
                    is AlreadyRunningError,
            },
    {
        if self.is_running() {
            return Err(Error::AlreadyRunningError);
        }
        self.state = TaskState::IdleWaiting;
        self.waited_millis = 0;
        Ok(())
    }

    /// Tells the task to stop: it is stopping until the worker reports the
    /// halt.
    ///
    /// Fails with `NotRunningError` where the task is at rest; it stays as
    /// it is then.
    pub fn stop(&mut self) -> (result: Result<(), Error>)
        ensures
            match result {
                Ok(_) => old(self).state != TaskState::Stopped && *final(self) == (Task {
                    state: TaskState::Stopping,
                    ..*old(self)
                }),
                Err(e) => old(self).state == TaskState::Stopped && *final(self) == *old(self) && e
                    is NotRunningError,
            },
    {
        if !self.is_running() {
            return Err(Error::NotRunningError);
        }
        self.state = TaskState::Stopping;
        Ok(())
    }

    /// One tick of the worker: takes in whether the stop signal was seen on
    /// the control channel, and says what the worker does next.
    pub fn tick(&mut self, stop_signal: bool) -> (action: TaskAction)
        ensures
            *final(self) == old(self).ticked(stop_signal),
            action == Task::action_in(final(self).state),
    {
        match self.state {
            TaskState::IdleWaiting => {
                if stop_signal {
                    self.state = TaskState::Stopping;
                    TaskAction::Halt
                } else if self.interval_millis < TICK_MILLIS || self.waited_millis
                    >= self.interval_millis - TICK_MILLIS {
                    self.state = TaskState::Compacting;
                    TaskAction::Compact
                } else {
                    self.waited_millis = self.waited_millis + TICK_MILLIS;
                    TaskAction::Wait
                }
            },
            TaskState::Compacting => TaskAction::Compact,
            TaskState::Stopping => TaskAction::Halt,
            TaskState::Stopped => TaskAction::Halt,
        }
    }

    /// The worker reports that the compaction cycle is done: a compacting
    /// task waits again, and has waited no time yet.
    pub fn cycle_done(&mut self)
        ensures
            *final(self) == if old(self).state == TaskState::Compacting {
                Task { state: TaskState::IdleWaiting, waited_millis: 0, ..*old(self) }
            } else {
                *old(self)
            },
    {
        match self.state {
            TaskState::Compacting => {
                self.state = TaskState::IdleWaiting;
                self.waited_millis = 0;
            },
            _ => {},
        }
    }

    /// The worker reports that it has left its loop: a stopping task is at
    /// rest.
    pub fn halted(&mut self)
        ensures
            *final(self) == if old(self).state == TaskState::Stopping {
                Task { state: TaskState::Stopped, ..*old(self) }
            } else {
                *old(self)
            },
    {
        match self.state {
            TaskState::Stopping => {
                self.state = TaskState::Stopped;
            },
            _ => {},
        }
    }
}

} // verus!
