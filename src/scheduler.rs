//! The background-step scheduler of one world, as a state machine.
//!
//! A world is either idle or has one step in flight on a worker. While a step is in
//! flight its result is polled without blocking, until too many render frames have
//! passed since dispatch; from then on the coordinator blocks for it.
use crate::time_sync::{drift_after_result, SimulationToRenderTime};
use vstd::prelude::*;

verus! {

/// Render frames a step may stay in flight before the coordinator blocks for it.
pub const BLOCKING_FRAME_THRESHOLD: u64 = 20;

/// The marker of a step in flight.
#[derive(Clone, Copy, Debug, PartialEq, Eq, Structural)]
pub struct SimulationTask {
    /// Render time at dispatch, in microseconds.
    pub started_at_render_time_us: u64,
    /// Render frames elapsed since dispatch.
    pub render_frames_elapsed: u64,
}

/// Whether a world's physics state is at home or out on a worker.
#[derive(Clone, Copy, Debug, PartialEq, Eq, Structural)]
pub enum TaskState {
    Idle,
    InFlight(SimulationTask),
}

/// How the coordinator waits for the result of a step in flight.
#[derive(Clone, Copy, Debug, PartialEq, Eq, Structural)]
pub enum PollMode {
    NonBlocking,
    Blocking,
}

pub open spec fn next_frame_count(n: u64) -> u64 {
    if n < u64::MAX {
        (n + 1) as u64
    } else {
        n
    }
}

impl SimulationTask {
    /// Blocking once more frames than the threshold have passed since dispatch.
    pub fn poll_mode(&self) -> (r: PollMode)
        ensures
            r == (if self.render_frames_elapsed > BLOCKING_FRAME_THRESHOLD {
                PollMode::Blocking
            } else {
                PollMode::NonBlocking
            }),
    {
        if self.render_frames_elapsed > BLOCKING_FRAME_THRESHOLD {
            PollMode::Blocking
        } else {
            PollMode::NonBlocking
        }
    }
}

impl TaskState {
    pub open spec fn is_idle(self) -> bool {
        self == TaskState::Idle
    }
}

/// Dispatches a step of an idle world at render time `now_us`; a world with a step in
/// flight is left as it is. Returns whether a step was dispatched.
pub fn spawn_simulation_task(state: &mut TaskState, now_us: u64) -> (dispatched: bool)
    ensures
        dispatched == old(state).is_idle(),
        dispatched ==> *final(state) == TaskState::InFlight(
            SimulationTask { started_at_render_time_us: now_us, render_frames_elapsed: 0 },
        ),
        !dispatched ==> *final(state) == *old(state),
{
    match state {
        TaskState::Idle => {
            *state = TaskState::InFlight(
                SimulationTask { started_at_render_time_us: now_us, render_frames_elapsed: 0 },
            );
            true
        },
        TaskState::InFlight(_) => false,
    }
}

/// One poll of a world's step at render time `now_us`. `result` is the simulated time
/// (microseconds) of the finished step, if it has come back.
///
/// A result that has come back is applied to the drift, and the world becomes idle;
/// otherwise one more frame is counted against the step in flight. Returns whether a
/// result was applied.
pub fn handle_tasks(
    state: &mut TaskState,
    sim_to_render: &mut SimulationToRenderTime,
    result: Option<i64>,
    now_us: u64,
) -> (applied: bool)
    requires
        match *old(state) {
            TaskState::InFlight(t) => t.started_at_render_time_us <= now_us && match result {
                Some(s) => drift_after_result(
                    old(sim_to_render).diff as int,
                    s as int,
                    now_us - t.started_at_render_time_us,
                ) <= i64::MAX && i64::MIN <= old(sim_to_render).accumulated_diff + (now_us
                    - t.started_at_render_time_us) - s <= i64::MAX,
                None => true,
            },
            TaskState::Idle => true,
        },
    ensures
        applied == (!old(state).is_idle() && result.is_some()),
        match *old(state) {
            TaskState::Idle => *final(state) == TaskState::Idle && *final(sim_to_render)
                == *old(sim_to_render),
            TaskState::InFlight(t) => match result {
                Some(s) => {
                    &&& *final(state) == TaskState::Idle
                    &&& final(sim_to_render).diff == drift_after_result(
                        old(sim_to_render).diff as int,
                        s as int,
                        now_us - t.started_at_render_time_us,
                    )
                    &&& final(sim_to_render).diff >= 0
                    &&& final(sim_to_render).accumulated_diff == old(sim_to_render).accumulated_diff
                        + (now_us - t.started_at_render_time_us) - s
                },
                None => {
                    &&& *final(state) == TaskState::InFlight(
                        SimulationTask {
                            started_at_render_time_us: t.started_at_render_time_us,
                            render_frames_elapsed: next_frame_count(t.render_frames_elapsed),
                        },
                    )
                    &&& *final(sim_to_render) == *old(sim_to_render)
                },
            },
        },
{
    match *state {
        TaskState::Idle => false,
        TaskState::InFlight(t) => match result {
            Some(s) => {
                sim_to_render.apply_step_result(s, t.started_at_render_time_us, now_us);
                *state = TaskState::Idle;
                true
            },
            None => {
                let frames = if t.render_frames_elapsed < u64::MAX {
                    t.render_frames_elapsed + 1
                } else {
                    t.render_frames_elapsed
                };
                *state = TaskState::InFlight(
                    SimulationTask {
                        started_at_render_time_us: t.started_at_render_time_us,
                        render_frames_elapsed: frames,
                    },
                );
                false
            },
        },
    }
}

} // verus!
