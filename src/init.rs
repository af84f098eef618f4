//! The start-up sequence as a state machine. The board code performs each
//! step and reports whether it succeeded; the sequencer fixes the order and
//! halts on the first failure. Start-up runs once, with interrupts masked.
use vstd::prelude::*;

verus! {

/// The step start-up is at.
#[derive(Clone, Copy, Debug, PartialEq, Eq, Structural)]
pub enum InitStep {
    /// Arm the monotonic timer and obtain its one-time token.
    ArmTimer,
    /// Clock, watchdog and peripheral bring-up.
    BringUp,
    /// Build the local and shared resource sets.
    BuildResources,
    /// Spawn the initial tasks.
    SpawnInitial,
    /// Start-up finished: the dispatcher takes over, interrupts unmasked.
    Done,
    /// A step failed: report on the diagnostic channel and park.
    Halted,
}

/// The step that follows `s` once it reports `ok`.
pub open spec fn spec_next(s: InitStep, ok: bool) -> InitStep {
    match s {
        InitStep::Done => InitStep::Done,
        InitStep::Halted => InitStep::Halted,
        _ => if !ok {
            InitStep::Halted
        } else {
            match s {
                InitStep::ArmTimer => InitStep::BringUp,
                InitStep::BringUp => InitStep::BuildResources,
                InitStep::BuildResources => InitStep::SpawnInitial,
                _ => InitStep::Done,
            }
        },
    }
}

/// Position of a step in the required order.
pub open spec fn rank(s: InitStep) -> int {
    match s {
        InitStep::ArmTimer => 0,
        InitStep::BringUp => 1,
        InitStep::BuildResources => 2,
        InitStep::SpawnInitial => 3,
        InitStep::Done => 4,
        InitStep::Halted => 4,
    }
}

/// Drives start-up.
#[derive(Clone, Copy, Debug, PartialEq, Eq, Structural)]
pub struct InitSequencer {
    pub step: InitStep,
    /// The timer has been armed (its token obtained), exactly once.
    pub timer_armed: bool,
}

impl InitSequencer {
    /// Start-up before anything has run.
    pub fn new() -> (s: InitSequencer)
        ensures
            s.step == InitStep::ArmTimer,
            !s.timer_armed,
    {
        InitSequencer { step: InitStep::ArmTimer, timer_armed: false }
    }

    /// Records the outcome of the current step and returns the next one.
    /// Steps run in the order arm timer, bring-up, resources, spawn; the
    /// first failure halts for good; `Done` and `Halted` are final.
    pub fn advance(&mut self, ok: bool) -> (next: InitStep)
        ensures
            next == final(self).step,
            final(self).step == spec_next(old(self).step, ok),
            final(self).timer_armed == (old(self).timer_armed || (old(self).step
                == InitStep::ArmTimer && ok)),
            rank(final(self).step) >= rank(old(self).step),
    {
        let next = match self.step {
            InitStep::Done => InitStep::Done,
            InitStep::Halted => InitStep::Halted,
            InitStep::ArmTimer => if ok {
                InitStep::BringUp
            } else {
                InitStep::Halted
            },
            InitStep::BringUp => if ok {
                InitStep::BuildResources
            } else {
                InitStep::Halted
            },
            InitStep::BuildResources => if ok {
                InitStep::SpawnInitial
            } else {
                InitStep::Halted
            },
            InitStep::SpawnInitial => if ok {
                InitStep::Done
            } else {
                InitStep::Halted
            },
        };
        if self.step == InitStep::ArmTimer && ok {
            self.timer_armed = true;
        }
        self.step = next;
        next
    }

    /// Timer operations are valid only once the timer has been armed.
    pub fn timer_usable(&self) -> (b: bool)
        ensures
            b == self.timer_armed,
    {
        self.timer_armed
    }

    /// Whether start-up has finished, successfully or not.
    pub fn finished(&self) -> (b: bool)
        ensures
            b == (self.step == InitStep::Done || self.step == InitStep::Halted),
    {
        self.step == InitStep::Done || self.step == InitStep::Halted
    }
}

} // verus!
