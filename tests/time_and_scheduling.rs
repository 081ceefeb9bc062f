use rapier_worlds::scheduler::{
    handle_tasks, spawn_simulation_task, PollMode, SimulationTask, TaskState,
};
use rapier_worlds::time_sync::{keep_catching_up, SimulationToRenderTime};

const SUBSTEP_60HZ_US: i64 = 16_666;

#[test]
fn behind_by_six_tenths_plans_eighteen_substeps() {
    let mut t = SimulationToRenderTime { diff: 600_000, accumulated_diff: 0 };
    let n = t.plan_substeps(SUBSTEP_60HZ_US, SUBSTEP_60HZ_US);
    assert_eq!(n, 18);
    assert_eq!(t.diff, 600_000);
}

#[test]
fn drift_beyond_hard_threshold_is_forgiven_first() {
    let mut t = SimulationToRenderTime { diff: 1_500_000, accumulated_diff: 0 };
    let n = t.plan_substeps(SUBSTEP_60HZ_US, SUBSTEP_60HZ_US);
    assert_eq!(t.diff, 0);
    assert_eq!(n, 10);
}

#[test]
fn catch_up_substeps_are_clamped_above() {
    let mut t = SimulationToRenderTime { diff: 900_000, accumulated_diff: 0 };
    assert_eq!(t.plan_substeps(1_000, 16_666), 40);
    let mut t = SimulationToRenderTime { diff: i64::MAX, accumulated_diff: 0 };
    assert_eq!(t.plan_substeps(1, 16_666), 10);
    assert_eq!(t.diff, 0);
}

#[test]
fn catch_up_substeps_are_clamped_below() {
    let mut t = SimulationToRenderTime { diff: 500_001, accumulated_diff: 0 };
    assert_eq!(t.plan_substeps(100_000, 16_666), 10);
    assert_eq!(t.diff, 500_001);
}

#[test]
fn ahead_plans_one_frame_less_negative_drift() {
    let mut t = SimulationToRenderTime { diff: -5_000, accumulated_diff: 0 };
    assert_eq!(t.plan_substeps(1_000, 16_666), 11);
    assert_eq!(t.diff, -5_000);
    let mut t = SimulationToRenderTime { diff: 200_000, accumulated_diff: 0 };
    assert_eq!(t.plan_substeps(1_000, 16_666), 16);
    let mut t = SimulationToRenderTime { diff: -20_000, accumulated_diff: 0 };
    assert_eq!(t.plan_substeps(1_000, 16_666), 0);
}

#[test]
fn applied_result_pays_drift_and_adds_render_time() {
    let mut t = SimulationToRenderTime { diff: 100_000, accumulated_diff: 0 };
    t.apply_step_result(16_666, 1_000_000, 1_020_000);
    assert_eq!(t.diff, 103_334);
}

#[test]
fn negative_drift_is_clamped_to_zero() {
    let mut t = SimulationToRenderTime::new();
    t.apply_step_result(50_000, 0, 10_000);
    assert_eq!(t.diff, 0);
    assert_eq!(t.accumulated_diff, -40_000);
}

#[test]
fn worker_stops_after_three_tries_or_when_caught_up() {
    assert!(keep_catching_up(0, 100, 0));
    assert!(keep_catching_up(2, 100, 100));
    assert!(!keep_catching_up(3, 100, 0));
    assert!(!keep_catching_up(1, 10, 20));
}

#[test]
fn idle_world_gets_a_step_and_busy_world_does_not() {
    let mut s = TaskState::Idle;
    assert!(spawn_simulation_task(&mut s, 5_000));
    assert_eq!(
        s,
        TaskState::InFlight(SimulationTask { started_at_render_time_us: 5_000, render_frames_elapsed: 0 })
    );
    assert!(!spawn_simulation_task(&mut s, 6_000));
    assert_eq!(
        s,
        TaskState::InFlight(SimulationTask { started_at_render_time_us: 5_000, render_frames_elapsed: 0 })
    );
}

#[test]
fn polling_blocks_after_twenty_frames() {
    let t = SimulationTask { started_at_render_time_us: 0, render_frames_elapsed: 20 };
    assert_eq!(t.poll_mode(), PollMode::NonBlocking);
    let t = SimulationTask { started_at_render_time_us: 0, render_frames_elapsed: 21 };
    assert_eq!(t.poll_mode(), PollMode::Blocking);
}

#[test]
fn pending_step_counts_frames() {
    let mut s = TaskState::InFlight(SimulationTask { started_at_render_time_us: 7, render_frames_elapsed: 3 });
    let mut t = SimulationToRenderTime { diff: 42, accumulated_diff: 0 };
    assert!(!handle_tasks(&mut s, &mut t, None, 100));
    assert_eq!(
        s,
        TaskState::InFlight(SimulationTask { started_at_render_time_us: 7, render_frames_elapsed: 4 })
    );
    assert_eq!(t.diff, 42);
}

#[test]
fn finished_step_frees_the_world() {
    let mut s = TaskState::InFlight(SimulationTask { started_at_render_time_us: 1_000, render_frames_elapsed: 2 });
    let mut t = SimulationToRenderTime { diff: 30_000, accumulated_diff: 0 };
    assert!(handle_tasks(&mut s, &mut t, Some(16_666), 51_000));
    assert_eq!(s, TaskState::Idle);
    assert_eq!(t.diff, 63_334);
    assert_eq!(t.accumulated_diff, 33_334);
    assert!(spawn_simulation_task(&mut s, 52_000));
}

#[test]
fn idle_world_ignores_polls() {
    let mut s = TaskState::Idle;
    let mut t = SimulationToRenderTime { diff: 9, accumulated_diff: 0 };
    assert!(!handle_tasks(&mut s, &mut t, Some(5), 10));
    assert_eq!(s, TaskState::Idle);
    assert_eq!(t.diff, 9);
}
