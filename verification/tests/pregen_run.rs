//! The pregeneration pass: windows, backpressure, and the cost of epochs.

use steel::pos::ChunkPos;
use steel::server::epoch_cost::{phase_name, ChunkMapSchedulingTimings, EpochCost};
use steel::server::pregen::{plan_area, PregenSize, UnloadBackpressure};
use steel::server::pregen_run::{
    total_chunks, update_unload_backpressure, ActivePregenWindow, BackpressureChange,
    ChunkRequestState, PregenRun,
};
use steel::server::windows::{build_pregen_windows, PregenRect, PregenWindow};

const HALO: i32 = 11;

#[test]
fn windows_partition_the_square() {
    let windows = build_pregen_windows(ChunkPos::new(3, -2), 10, 8);
    let mut seen = vec![0u8; 21 * 21];
    for window in &windows {
        for pos in window.positions() {
            let index = (pos.z + 2 + 10) as usize * 21 + (pos.x - 3 + 10) as usize;
            seen[index] += 1;
        }
    }
    assert!(seen.iter().all(|&count| count == 1));
    let positions: usize = windows.iter().map(|window| window.positions().len()).sum();
    assert_eq!(positions, total_chunks(21));
}

#[test]
fn windows_run_in_a_two_row_serpentine() {
    let windows = build_pregen_windows(ChunkPos::new(0, 0), 1, 1);
    let centers: Vec<(i32, i32)> = windows.iter().map(|w| (w.min_x, w.min_z)).collect();
    assert_eq!(centers.len(), 9);
    for pair in windows.iter().zip(windows.iter().skip(1)) {
        let (a, b) = (pair.0.protected_rect(1), pair.1.protected_rect(1));
        assert!(a.overlaps(b), "{a:?} {b:?}");
    }
}

#[test]
fn rectangles_overlap_where_they_share_a_chunk() {
    let a = PregenRect { min_x: 0, max_x: 4, min_z: 0, max_z: 4 };
    let touching = PregenRect { min_x: 4, max_x: 8, min_z: 4, max_z: 8 };
    let apart = PregenRect { min_x: 5, max_x: 8, min_z: 0, max_z: 4 };
    assert!(a.overlaps(touching));
    assert!(!a.overlaps(apart));
    let window = PregenWindow { min_x: 0, max_x: 3, min_z: -1, max_z: 1 };
    assert_eq!((window.width(), window.height(), window.chunk_count()), (4, 3, 12));
    assert_eq!(
        window.protected_rect(2),
        PregenRect { min_x: -2, max_x: 5, min_z: -3, max_z: 3 }
    );
}

#[test]
fn backpressure_engages_and_releases_at_its_marks() {
    let marks = UnloadBackpressure::from_high(100);
    let mut engaged = false;
    assert_eq!(update_unload_backpressure(&mut engaged, 99, marks), BackpressureChange::Unchanged);
    assert_eq!(update_unload_backpressure(&mut engaged, 100, marks), BackpressureChange::Activated);
    assert!(engaged);
    assert_eq!(update_unload_backpressure(&mut engaged, 51, marks), BackpressureChange::Unchanged);
    assert_eq!(update_unload_backpressure(&mut engaged, 50, marks), BackpressureChange::Released);
    assert!(!engaged);
}

#[test]
fn a_window_follows_its_request() {
    let window = PregenWindow { min_x: 0, max_x: 3, min_z: 0, max_z: 3 };
    let mut active = ActivePregenWindow::new(window);
    assert!(!active.poll(ChunkRequestState::Pending { ready: 5 }));
    assert_eq!(active.ready_chunks, 5);
    assert!(!active.poll(ChunkRequestState::Ready));
    assert!(active.ready);
    assert_eq!(active.ready_chunks, 16);
    assert!(active.poll(ChunkRequestState::Cancelled));
    assert_eq!(active, ActivePregenWindow::new(window));
}

#[test]
fn a_pass_runs_until_every_chunk_is_complete() {
    let plan = plan_area(21, Some(4), Some(3)).expect("valid").expect("an area");
    let mut run = PregenRun::new(plan, ChunkPos::new(0, 0), HALO);
    assert_eq!(run.active_windows.len(), 3);
    assert_eq!(run.pending_windows.len(), 33);
    let mut steps = 0;
    while run.has_chunks_left() {
        let states = vec![ChunkRequestState::Ready; run.active_windows.len()];
        let actions = run.advance(&states, 0);
        assert!(actions.renew.is_empty());
        let _ = run.release_unneeded_completed_windows();
        let _ = run.observe(0);
        let generating = run.active_windows.iter().filter(|active| !active.ready).count();
        assert!(generating <= 3);
        steps += 1;
        assert!(steps <= 36);
    }
    assert!(run.is_finished());
    assert_eq!(run.completed, 441);
    assert_eq!(run.progress(), 441);
    run.release_all_windows();
    assert!(run.active_windows.is_empty());
}

#[test]
fn a_full_backlog_holds_back_new_windows() {
    let plan = plan_area(21, Some(4), Some(2)).expect("valid").expect("an area");
    let mut run = PregenRun::new(plan, ChunkPos::new(0, 0), HALO);
    let pending = run.pending_windows.len();
    let states = vec![ChunkRequestState::Ready; 2];
    let blocked = run.advance(&states, plan.backpressure.high);
    assert_eq!(blocked.backpressure, BackpressureChange::Activated);
    assert_eq!(blocked.activated, 0);
    assert_eq!(run.pending_windows.len(), pending);
    assert_eq!(run.completed, 32);
    assert_eq!(run.peak_unloading_chunks, plan.backpressure.high);
    // What is released may add to the backlog before it is looked at again.
    assert_eq!(run.release_unneeded_completed_windows(), [false, false]);
    assert_eq!(run.observe(plan.backpressure.high + 32), BackpressureChange::Unchanged);
    assert_eq!(run.peak_unloading_chunks, plan.backpressure.high + 32);
    assert_eq!(run.observe(plan.backpressure.low), BackpressureChange::Released);
    assert_eq!(run.peak_unloading_chunks, plan.backpressure.high + 32);
    let states = vec![ChunkRequestState::Ready; run.active_windows.len()];
    assert_eq!(run.advance(&states, 0).activated, 2);
}

#[test]
fn a_cancelled_request_is_made_anew() {
    let plan = plan_area(9, Some(3), Some(2)).expect("valid").expect("an area");
    let mut run = PregenRun::new(plan, ChunkPos::new(0, 0), HALO);
    let states = vec![ChunkRequestState::Pending { ready: 4 }, ChunkRequestState::Cancelled];
    let actions = run.advance(&states, 0);
    assert_eq!(actions.renew, [1]);
    assert_eq!(run.progress(), 4);
    assert_eq!(run.completed, 0);
}

#[test]
fn a_completed_window_is_kept_while_a_neighbour_needs_it() {
    let plan = plan_area(9, Some(3), Some(2)).expect("valid").expect("an area");
    let mut run = PregenRun::new(plan, ChunkPos::new(0, 0), 1);
    let states = vec![ChunkRequestState::Ready, ChunkRequestState::Pending { ready: 0 }];
    let _ = run.advance(&states, 0);
    assert!(run.release_unneeded_completed_windows()[0]);
    assert!(!run.is_finished());
    assert!(run.active_windows[0].ready);
}

#[test]
fn epoch_costs_add_up_and_keep_the_worst() {
    let mut cost = EpochCost::new();
    cost.record(&ChunkMapSchedulingTimings {
        phases: [0; 9],
        scheduled_count: 50,
        rebuilt_ticking_chunk_count: 50,
    });
    assert_eq!(cost.epochs, 0, "an epoch that took no time is not counted");
    cost.record(&ChunkMapSchedulingTimings {
        phases: [1, 2, 3, 4, 5, 6, 7, 8, 9],
        scheduled_count: 10,
        rebuilt_ticking_chunk_count: 3,
    });
    cost.record(&ChunkMapSchedulingTimings {
        phases: [9, 1, 0, 0, 0, 0, 0, 0, 0],
        scheduled_count: 5,
        rebuilt_ticking_chunk_count: 2,
    });
    assert_eq!(cost.epochs, 2);
    assert_eq!(cost.total(), 55);
    assert_eq!(cost.worst_epoch, 45);
    assert_eq!(cost.worst_phases, [9, 2, 3, 4, 5, 6, 7, 8, 9]);
    assert_eq!(cost.phases, [10, 3, 3, 4, 5, 6, 7, 8, 9]);
    assert_eq!(cost.mean_batch(), 7);
    assert_eq!(cost.worst_scheduled_batch, 10);
    assert_eq!(cost.ticking_chunks, 3);
    assert_eq!(phase_name(0), "tickets");
    assert_eq!(phase_name(8), "ticking-snapshot");
}

#[test]
fn a_window_is_no_wider_than_the_area() {
    // The nominal window has more chunks than can be counted; the area has 49.
    let size = PregenSize::from_side_length(7).expect("odd").expect("an area");
    let mut plan = plan_area(7, Some(4), Some(1)).expect("valid").expect("an area");
    plan.size = size;
    plan.window_size = i32::MAX;
    let run = PregenRun::new(plan, ChunkPos::new(i32::MAX - 3 - HALO, 0), HALO);
    assert_eq!(run.active_windows.len(), 1);
    assert_eq!(run.active_windows[0].window.chunk_count(), 49);
    assert_eq!(run.total_chunks, 49);
}
