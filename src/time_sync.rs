//! Reconciling simulated time with render time.
//!
//! All durations are signed or unsigned microseconds.
use vstd::prelude::*;

verus! {

/// Drift above which the simulation counts as behind render time (half a second).
pub const SOFT_DRIFT_US: i64 = 500_000;

/// Drift above which the pending catch-up is forgiven (one second).
pub const HARD_DRIFT_US: i64 = 1_000_000;

/// Fewest sub-steps planned while the simulation is behind.
pub const MIN_CATCH_UP_SUBSTEPS: u64 = 10;

/// Most sub-steps planned while the simulation is behind.
pub const MAX_CATCH_UP_SUBSTEPS: u64 = 40;

/// Most steps a worker runs for one dispatch while it tries to erase the drift.
pub const MAX_TRIES_TO_CATCH_UP: u32 = 3;

/// Accumulated signed drift between simulated time and render time.
///
/// A positive `diff` means the simulation is behind render time.
#[derive(Clone, Copy, Debug, PartialEq, Eq, Structural)]
pub struct SimulationToRenderTime {
    pub diff: i64,
    /// Total drift that the applied step results have added, before any of it was
    /// forgiven: render time elapsed during the steps less the time they simulated.
    pub accumulated_diff: i64,
}

/// Drift once a step result is applied: the simulated time is paid off, the render
/// time elapsed since dispatch is added, and a negative drift is forgiven.
pub open spec fn drift_after_result(diff: int, simulated: int, elapsed: int) -> int {
    let d = diff - simulated + elapsed;
    if d < 0 {
        0
    } else {
        d
    }
}

pub open spec fn clamp(x: int, lo: int, hi: int) -> int {
    if x < lo {
        lo
    } else if x > hi {
        hi
    } else {
        x
    }
}

/// Drift kept after planning sub-steps: forgiven beyond the hard threshold.
pub open spec fn planned_drift(diff: int) -> int {
    if diff > HARD_DRIFT_US {
        0
    } else {
        diff
    }
}

/// Number of sub-steps for the next step of a fixed-substep world.
///
/// Behind (drift over the soft threshold): half of the remaining drift, counted in
/// sub-steps and clamped to the catch-up bounds. Otherwise: enough sub-steps to cover
/// one frame interval less any negative drift, never below zero.
pub open spec fn planned_substeps(diff: int, substep_dt: int, frame_dt: int) -> int {
    if diff > SOFT_DRIFT_US {
        clamp(
            (planned_drift(diff) / 2) / substep_dt,
            MIN_CATCH_UP_SUBSTEPS as int,
            MAX_CATCH_UP_SUBSTEPS as int,
        )
    } else {
        let need = frame_dt + if diff < 0 {
            diff
        } else {
            0
        };
        if need <= 0 {
            0
        } else {
            need / substep_dt
        }
    }
}

impl SimulationToRenderTime {
    pub fn new() -> (r: Self)
        ensures
            r.diff == 0,
            r.accumulated_diff == 0,
    {
        SimulationToRenderTime { diff: 0, accumulated_diff: 0 }
    }

    /// Applies the result of a finished step: `simulated_us` of simulated time was
    /// produced by a step dispatched at render time `started_at_us`, and render time is
    /// now `now_us`.
    pub fn apply_step_result(&mut self, simulated_us: i64, started_at_us: u64, now_us: u64)
        requires
            started_at_us <= now_us,
            drift_after_result(
                old(self).diff as int,
                simulated_us as int,
                now_us - started_at_us,
            ) <= i64::MAX,
            i64::MIN <= old(self).accumulated_diff + (now_us - started_at_us) - simulated_us <= i64::MAX,
        ensures
            final(self).accumulated_diff == old(self).accumulated_diff + (now_us - started_at_us)
                - simulated_us,
            final(self).diff == drift_after_result(
                old(self).diff as int,
                simulated_us as int,
                now_us - started_at_us,
            ),
            final(self).diff >= 0,
    {
        let elapsed: u64 = now_us - started_at_us;
        let d: i128 = self.diff as i128 - simulated_us as i128 + elapsed as i128;
        let acc: i128 = self.accumulated_diff as i128 + elapsed as i128 - simulated_us as i128;
        self.accumulated_diff = acc as i64;
        if d < 0 {
            self.diff = 0;
        } else {
            self.diff = d as i64;
        }
    }

    /// Plans the sub-step count of the next step of a fixed-substep world with sub-step
    /// duration `substep_dt_us` and frame interval `frame_dt_us`, forgiving the drift
    /// when it is beyond the hard threshold.
    pub fn plan_substeps(&mut self, substep_dt_us: i64, frame_dt_us: i64) -> (r: u64)
        requires
            substep_dt_us > 0,
            frame_dt_us >= 0,
        ensures
            r as int == planned_substeps(old(self).diff as int, substep_dt_us as int, frame_dt_us as int),
            final(self).diff == if old(self).diff > SOFT_DRIFT_US {
                planned_drift(old(self).diff as int)
            } else {
                old(self).diff as int
            },
            old(self).diff > SOFT_DRIFT_US ==> MIN_CATCH_UP_SUBSTEPS <= r <= MAX_CATCH_UP_SUBSTEPS,
    {
        if self.diff > SOFT_DRIFT_US {
            if self.diff > HARD_DRIFT_US {
                self.diff = 0;
            }
            let wanted: i64 = (self.diff / 2) / substep_dt_us;
            if wanted < MIN_CATCH_UP_SUBSTEPS as i64 {
                MIN_CATCH_UP_SUBSTEPS
            } else if wanted > MAX_CATCH_UP_SUBSTEPS as i64 {
                MAX_CATCH_UP_SUBSTEPS
            } else {
                wanted as u64
            }
        } else {
            let ahead: i64 = if self.diff < 0 {
                self.diff
            } else {
                0
            };
            let need: i128 = frame_dt_us as i128 + ahead as i128;
            if need <= 0 {
                0
            } else {
                (need as i64 / substep_dt_us) as u64
            }
        }
    }
}

/// Whether a worker that has run `attempt` steps producing `simulated_us` of simulated
/// time should run another one to erase `time_to_catch_up_us` of drift.
pub fn keep_catching_up(attempt: u32, time_to_catch_up_us: i64, simulated_us: i64) -> (r: bool)
    ensures
        r == (attempt < MAX_TRIES_TO_CATCH_UP && simulated_us <= time_to_catch_up_us),
{
    attempt < MAX_TRIES_TO_CATCH_UP && !(time_to_catch_up_us < simulated_us)
}

} // verus!
