//! The mode machine a host uses to gate editing and ticking.
//!
//! The simulation is drafted, run, or paused while running. Cells may be
//! edited only while drafting; generations tick only while running. The
//! store itself accepts edits and ticks unconditionally: enforcing these
//! modes is the host's job, through this machine.

use vstd::prelude::*;

verus! {

/// What the host is currently doing with the grid.
#[derive(Clone, Copy, Debug, PartialEq, Eq, Structural)]
pub enum State {
    /// The grid is being edited; generations do not tick.
    Draft,
    /// Generations tick on a fixed cadence; editing is disallowed.
    Running,
    /// Ticking is suspended but the draft is not restored.
    RunningPaused,
}

impl State {
    /// Deploy the draft: start running; in any other mode, no change.
    pub fn start(self) -> (s: State)
        ensures
            s == if self == State::Draft {
                State::Running
            } else {
                self
            },
    {
        match self {
            State::Draft => State::Running,
            other => other,
        }
    }

    /// Suspend a running simulation or resume a paused one; drafting is
    /// unaffected.
    pub fn toggle_pause(self) -> (s: State)
        ensures
            s == match self {
                State::Running => State::RunningPaused,
                State::RunningPaused => State::Running,
                State::Draft => State::Draft,
            },
    {
        match self {
            State::Running => State::RunningPaused,
            State::RunningPaused => State::Running,
            State::Draft => State::Draft,
        }
    }

    /// Go back to drafting. The flag says whether the live set must be
    /// emptied: a reset issued while already drafting clears the grid,
    /// while a reset from a run only leaves the run.
    pub fn reset(self) -> (r: (State, bool))
        ensures
            r.0 == State::Draft,
            r.1 == (self == State::Draft),
    {
        match self {
            State::Draft => (State::Draft, true),
            _ => (State::Draft, false),
        }
    }

    /// Whether manual cell edits are accepted in this mode.
    pub fn allows_editing(self) -> (b: bool)
        ensures
            b == (self == State::Draft),
    {
        match self {
            State::Draft => true,
            _ => false,
        }
    }

    /// Whether generations tick in this mode.
    pub fn is_running(self) -> (b: bool)
        ensures
            b == (self == State::Running),
    {
        match self {
            State::Running => true,
            _ => false,
        }
    }
}

} // verus!
