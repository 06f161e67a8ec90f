//! The state machine of a benchmark run.
//!
//! The caller does the work and reports what it has finished; the machine
//! answers with the phase the run is in now and the next thing to do. The
//! numbers of a run never pass through here, only its sequencing: one
//! synthesis, one solve that is thrown away, `niter` solves that count, one
//! comparison, one report.

use vstd::prelude::*;

verus! {

/// Where a run stands.
#[derive(Clone, Copy, Debug, PartialEq, Eq, Structural)]
pub enum Phase {
    /// The matrix is being synthesized.
    Init,
    /// The solve that only warms up is under way, or its result is being
    /// discarded.
    WarmupSolve,
    /// Outer iteration `it`, counted from one, is under way.
    MainLoop {
        /// The iteration under way.
        it: u32,
    },
    /// The result is being compared with the reference value.
    Verify,
    /// The report may be written; nothing is left to do after it.
    Done,
    /// The matrix could not be built; the run is over.
    Aborted,
}

/// What the caller has just finished.
#[derive(Clone, Copy, Debug, PartialEq, Eq, Structural)]
pub enum Event {
    /// The run begins.
    Started,
    /// The matrix has been synthesized.
    MatrixReady,
    /// The matrix could not be synthesized.
    MatrixFailed,
    /// A solve has returned.
    Solved,
    /// The iterate is back at all ones and the clock has been started.
    Reset,
    /// The last solve has been folded into the estimate and the iterate
    /// has been normalised.
    Updated,
    /// The estimate has been compared with the reference value.
    Compared,
}

/// What the caller is to do next.
#[derive(Clone, Copy, Debug, PartialEq, Eq, Structural)]
pub enum Action {
    /// Seed the generator, synthesize the matrix, set the iterate to ones.
    Synthesize,
    /// Run one solve; `timed` tells whether it counts.
    Solve {
        /// Whether the clock is running.
        timed: bool,
    },
    /// Throw the last solve away: set the iterate back to ones, the estimate
    /// to zero, and start the clock.
    ResetIterate,
    /// Fold the last solve into the estimate, record iteration `it`, and
    /// normalise the iterate.
    Update {
        /// The iteration to record.
        it: u32,
    },
    /// Stop the clock and compare the estimate with the reference value.
    Compare,
    /// Write the report.
    Report,
    /// Stop the run with a diagnostic.
    Abort,
    /// The event does not belong to the phase; do nothing.
    Ignore,
}

/// The transition table: the phase and action that follow `event` in `phase`
/// when the run has `niter` outer iterations.
pub open spec fn next(phase: Phase, event: Event, niter: u32) -> (Phase, Action) {
    match (phase, event) {
        (Phase::Init, Event::Started) => (Phase::Init, Action::Synthesize),
        (Phase::Init, Event::MatrixReady) => (Phase::WarmupSolve, Action::Solve { timed: false }),
        (Phase::Init, Event::MatrixFailed) => (Phase::Aborted, Action::Abort),
        (Phase::WarmupSolve, Event::Solved) => (Phase::WarmupSolve, Action::ResetIterate),
        (Phase::WarmupSolve, Event::Reset) => if niter >= 1 {
            (Phase::MainLoop { it: 1 }, Action::Solve { timed: true })
        } else {
            (Phase::Verify, Action::Compare)
        },
        (Phase::MainLoop { it }, Event::Solved) => (Phase::MainLoop { it }, Action::Update { it }),
        (Phase::MainLoop { it }, Event::Updated) => if it < niter {
            (Phase::MainLoop { it: (it + 1) as u32 }, Action::Solve { timed: true })
        } else {
            (Phase::Verify, Action::Compare)
        },
        (Phase::Verify, Event::Compared) => (Phase::Done, Action::Report),
        _ => (phase, Action::Ignore),
    }
}

/// The phase is one that a run of `niter` outer iterations can be in.
pub open spec fn phase_ok(phase: Phase, niter: u32) -> bool {
    phase matches Phase::MainLoop { it } ==> 1 <= it <= niter
}

/// The phase reached from the first outer iteration after `k` solves have
/// each been folded in.
pub open spec fn after_rounds(niter: u32, k: nat) -> Phase
    decreases k,
{
    if k == 0 {
        Phase::MainLoop { it: 1 }
    } else {
        let solved = next(after_rounds(niter, (k - 1) as nat), Event::Solved, niter).0;
        next(solved, Event::Updated, niter).0
    }
}

/// Advances the run by one event.
pub fn step(phase: Phase, event: Event, niter: u32) -> (res: (Phase, Action))
    ensures
        res == next(phase, event, niter),
        phase_ok(phase, niter) ==> phase_ok(res.0, niter),
{
    match phase {
        Phase::Init => match event {
            Event::Started => (Phase::Init, Action::Synthesize),
            Event::MatrixReady => (Phase::WarmupSolve, Action::Solve { timed: false }),
            Event::MatrixFailed => (Phase::Aborted, Action::Abort),
            _ => (phase, Action::Ignore),
        },
        Phase::WarmupSolve => match event {
            Event::Solved => (Phase::WarmupSolve, Action::ResetIterate),
            Event::Reset => {
                if niter >= 1 {
                    (Phase::MainLoop { it: 1 }, Action::Solve { timed: true })
                } else {
                    (Phase::Verify, Action::Compare)
                }
            },
            _ => (phase, Action::Ignore),
        },
        Phase::MainLoop { it } => match event {
            Event::Solved => (Phase::MainLoop { it }, Action::Update { it }),
            Event::Updated => {
                if it < niter {
                    (Phase::MainLoop { it: it + 1 }, Action::Solve { timed: true })
                } else {
                    (Phase::Verify, Action::Compare)
                }
            },
            _ => (phase, Action::Ignore),
        },
        Phase::Verify => match event {
            Event::Compared => (Phase::Done, Action::Report),
            _ => (phase, Action::Ignore),
        },
        Phase::Done => (phase, Action::Ignore),
        Phase::Aborted => (phase, Action::Ignore),
    }
}

/// The main loop runs exactly `niter` rounds: after `k < niter` rounds the
/// run is in iteration `k + 1`, and after `niter` rounds it is verifying.
pub proof fn lemma_main_loop(niter: u32, k: nat)
    requires
        niter >= 1,
        k <= niter,
    ensures
        after_rounds(niter, k) == if k < niter {
            Phase::MainLoop { it: (k + 1) as u32 }
        } else {
            Phase::Verify
        },
    decreases k,
{
    if k > 0 {
        lemma_main_loop(niter, (k - 1) as nat);
    }
}

/// No event moves a finished run.
pub proof fn lemma_terminal(phase: Phase, event: Event, niter: u32)
    requires
        phase == Phase::Done || phase == Phase::Aborted,
    ensures
        next(phase, event, niter) == (phase, Action::Ignore),
{
}
} // verus!
