//! The course of a solve: which step comes next, and when the run is over.
//!
//! The solver itself is numeric work done elsewhere. It reports what it has
//! done as events, and the state machine here answers each event with the
//! next command: iterate once more, measure the exploitability, or stop.
//!
//! A run starts with a measurement, so that a spot that is solved already
//! stops at once. It ends when a measurement is at or below the target, or
//! with the measurement after the last iteration.

use vstd::prelude::*;

verus! {

/// Where a solve stands.
#[derive(Clone, Copy, PartialEq, Eq, Debug, Structural)]
pub enum SolverState {
    /// No tables yet.
    Uninitialized,
    /// Tables are laid out; the run has not started.
    Allocated,
    /// `done` of at most `cap` iterations are done; `measuring` tells that
    /// the exploitability is being measured.
    Iterating { done: u32, cap: u32, measuring: bool },
    /// The exploitability fell to the target after `iterations` iterations.
    Converged { iterations: u32 },
    /// All `iterations` iterations are done and the target was not met.
    IterationCapReached { iterations: u32 },
}

/// What the solver reports.
#[derive(Clone, Copy, PartialEq, Eq, Debug, Structural)]
pub enum Event {
    /// The tables were laid out.
    Allocated,
    /// The run is to start, with at most `max_iterations` iterations.
    Start { max_iterations: u32 },
    /// One iteration over the tree was done.
    IterationDone,
    /// The exploitability was measured; `within_target` tells whether it is
    /// at or below the target.
    Measured { within_target: bool },
}

/// What the solver is to do next.
#[derive(Clone, Copy, PartialEq, Eq, Debug, Structural)]
pub enum Command {
    /// Nothing until the run is started.
    Idle,
    /// One iteration over the tree.
    Iterate,
    /// Measure the exploitability.
    Measure,
    /// The run is over.
    Stop,
}

/// A step that the state does not allow.
#[derive(Clone, Copy, PartialEq, Eq, Debug, Structural)]
pub enum SolverStateError {
    /// The run was started, or a result asked for, before the tables were
    /// laid out.
    NotAllocated,
    /// The tables were laid out before.
    AlreadyAllocated,
    /// The event does not answer the last command.
    OutOfTurn,
    /// A result was asked for before the run was over.
    NotSolved,
    /// A result was asked for before the weights were normalized.
    WeightsNotCached,
}

/// Number of iterations between two measurements of the exploitability.
pub const CHECK_INTERVAL: u32 = 10;

/// Whether the exploitability is measured after `done` iterations: before
/// the first iteration, after every tenth, and after the last.
pub open spec fn is_checkpoint(done: int, cap: int) -> bool {
    done % 10 == 0 || done == cap
}

/// Whether a state can come up.
pub open spec fn state_ok(state: SolverState) -> bool {
    match state {
        SolverState::Iterating { done, cap, measuring } => done <= cap && (measuring
            ==> is_checkpoint(done as int, cap as int)) && (!measuring ==> done < cap),
        _ => true,
    }
}

/// The state after an event and the command that answers it, or the reason
/// why the event is refused.
pub open spec fn step_of(state: SolverState, event: Event) -> Result<
    (SolverState, Command),
    SolverStateError,
> {
    match (state, event) {
        (SolverState::Uninitialized, Event::Allocated) => Ok(
            (SolverState::Allocated, Command::Idle),
        ),
        (SolverState::Uninitialized, _) => Err(SolverStateError::NotAllocated),
        (_, Event::Allocated) => Err(SolverStateError::AlreadyAllocated),
        (SolverState::Allocated, Event::Start { max_iterations }) => Ok(
            (
                SolverState::Iterating { done: 0, cap: max_iterations, measuring: true },
                Command::Measure,
            ),
        ),
        (SolverState::Iterating { done, cap, measuring: false }, Event::IterationDone) => if done
            >= cap {
            Err(SolverStateError::OutOfTurn)
        } else if is_checkpoint(done + 1, cap as int) {
            Ok(
                (
                    SolverState::Iterating { done: (done + 1) as u32, cap, measuring: true },
                    Command::Measure,
                ),
            )
        } else {
            Ok(
                (
                    SolverState::Iterating { done: (done + 1) as u32, cap, measuring: false },
                    Command::Iterate,
                ),
            )
        },
        (
            SolverState::Iterating { done, cap, measuring: true },
            Event::Measured { within_target },
        ) => if within_target {
            Ok((SolverState::Converged { iterations: done }, Command::Stop))
        } else if done >= cap {
            Ok((SolverState::IterationCapReached { iterations: done }, Command::Stop))
        } else {
            Ok((SolverState::Iterating { done, cap, measuring: false }, Command::Iterate))
        },
        _ => Err(SolverStateError::OutOfTurn),
    }
}

/// Whether the run is over.
pub open spec fn is_over(state: SolverState) -> bool {
    state is Converged || state is IterationCapReached
}

/// The state after an event and the command that answers it.
pub fn step(state: SolverState, event: Event) -> (res: Result<
    (SolverState, Command),
    SolverStateError,
>)
    ensures
        res == step_of(state, event),
        state_ok(state) ==> (res matches Ok(next) ==> state_ok(next.0)),
{
    match state {
        SolverState::Uninitialized => match event {
            Event::Allocated => Ok((SolverState::Allocated, Command::Idle)),
            _ => Err(SolverStateError::NotAllocated),
        },
        SolverState::Allocated => match event {
            Event::Allocated => Err(SolverStateError::AlreadyAllocated),
            Event::Start { max_iterations } => Ok(
                (
                    SolverState::Iterating { done: 0, cap: max_iterations, measuring: true },
                    Command::Measure,
                ),
            ),
            _ => Err(SolverStateError::OutOfTurn),
        },
        SolverState::Iterating { done, cap, measuring } => match event {
            Event::Allocated => Err(SolverStateError::AlreadyAllocated),
            Event::IterationDone => {
                if measuring || done >= cap {
                    Err(SolverStateError::OutOfTurn)
                } else {
                    let now = done + 1;
                    let due = now % CHECK_INTERVAL == 0 || now == cap;
                    Ok(
                        (
                            SolverState::Iterating { done: now, cap, measuring: due },
                            if due {
                                Command::Measure
                            } else {
                                Command::Iterate
                            },
                        ),
                    )
                }
            },
            Event::Measured { within_target } => {
                if !measuring {
                    Err(SolverStateError::OutOfTurn)
                } else if within_target {
                    Ok((SolverState::Converged { iterations: done }, Command::Stop))
                } else if done >= cap {
                    Ok((SolverState::IterationCapReached { iterations: done }, Command::Stop))
                } else {
                    Ok((SolverState::Iterating { done, cap, measuring: false }, Command::Iterate))
                }
            },
            _ => Err(SolverStateError::OutOfTurn),
        },
        _ => match event {
            Event::Allocated => Err(SolverStateError::AlreadyAllocated),
            _ => Err(SolverStateError::OutOfTurn),
        },
    }
}

/// Whether results can be read in a state: `Ok` once the run is over, else
/// the reason why not.
pub fn check_solved(state: SolverState) -> (res: Result<(), SolverStateError>)
    ensures
        res is Ok <==> is_over(state),
        res matches Err(e) ==> e == (if state is Uninitialized {
            SolverStateError::NotAllocated
        } else {
            SolverStateError::NotSolved
        }),
{
    match state {
        SolverState::Converged { .. } | SolverState::IterationCapReached { .. } => Ok(()),
        SolverState::Uninitialized => Err(SolverStateError::NotAllocated),
        _ => Err(SolverStateError::NotSolved),
    }
}

/// A run never does more iterations than its cap, and the last iteration is
/// always measured: a state that can come up and still iterates has
/// iterations left, and after the last iteration every measurement stops the
/// run.
pub proof fn lemma_run_ends(state: SolverState, within_target: bool)
    requires
        state_ok(state),
        state matches SolverState::Iterating { done, cap, measuring } && done == cap,
    ensures
        state->measuring,
        step_of(state, Event::Measured { within_target }) is Ok,
        is_over(step_of(state, Event::Measured { within_target }).unwrap().0),
        step_of(state, Event::IterationDone) is Err,
{
}

/// Every step that is accepted moves the run on: it adds an iteration,
/// answers a measurement, or leaves a state for a later one.
pub proof fn lemma_step_moves_on(state: SolverState, event: Event)
    requires
        state_ok(state),
        step_of(state, event) is Ok,
    ensures
        state_ok(step_of(state, event).unwrap().0),
        !is_over(state),
        match (state, step_of(state, event).unwrap().0) {
            (
                SolverState::Iterating { done: d1, cap: c1, measuring: m1 },
                SolverState::Iterating { done: d2, cap: c2, measuring: m2 },
            ) => c1 == c2 && (d2 == d1 + 1 || (d2 == d1 && m1 && !m2)),
            (SolverState::Iterating { done, .. }, SolverState::Converged { iterations }) => done
                == iterations,
            (
                SolverState::Iterating { done, cap, .. },
                SolverState::IterationCapReached { iterations },
            ) => done == iterations && done == cap,
            _ => true,
        },
{
}

} // verus!
