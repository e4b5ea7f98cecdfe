use voxel_core::barrier::{Action, FrameScheduler, Observed, Phase};
use voxel_core::schedule::RowBand;

fn seen(cancelled: bool, frame_index: u64, finished: usize) -> Observed {
    Observed { cancelled, frame_index, finished }
}

#[test]
fn owner_runs_one_frame() {
    let mut owner = FrameScheduler::new(0, 4, 200);
    assert!(owner.is_owner());
    assert_eq!(owner.phase, Phase::Idle);
    assert_eq!(owner.step(seen(false, 0, 0)), Action::PublishFrame(1));
    assert_eq!(owner.phase, Phase::RenderOwnRegion);
    assert_eq!(
        owner.step(seen(false, 1, 0)),
        Action::Render(RowBand { start_y: 0, end_y: 50 })
    );
    assert_eq!(owner.phase, Phase::WaitForPeers);
    assert_eq!(owner.step(seen(false, 1, 0)), Action::Spin);
    assert_eq!(owner.step(seen(false, 1, 2)), Action::Spin);
    assert_eq!(owner.phase, Phase::WaitForPeers);
    assert_eq!(owner.step(seen(false, 1, 3)), Action::Flush);
    assert_eq!(owner.phase, Phase::Idle);
    assert_eq!(owner.step(seen(false, 1, 0)), Action::PublishFrame(2));
}

#[test]
fn worker_runs_one_frame() {
    let mut worker = FrameScheduler::new(3, 4, 200);
    assert!(!worker.is_owner());
    assert_eq!(worker.step(seen(false, 0, 0)), Action::Spin);
    assert_eq!(worker.phase, Phase::Idle);
    assert_eq!(worker.step(seen(false, 1, 0)), Action::TakeSnapshot(1));
    assert_eq!(worker.phase, Phase::RenderOwnRegion);
    assert_eq!(
        worker.step(seen(false, 1, 0)),
        Action::Render(RowBand { start_y: 150, end_y: 200 })
    );
    assert_eq!(worker.phase, Phase::SignalDone);
    assert_eq!(worker.step(seen(false, 1, 1)), Action::SignalDone);
    assert_eq!(worker.phase, Phase::Idle);
    assert_eq!(worker.step(seen(false, 1, 2)), Action::Spin);
    assert_eq!(worker.step(seen(false, 2, 0)), Action::TakeSnapshot(2));
}

#[test]
fn single_core_does_not_wait() {
    let mut owner = FrameScheduler::new(0, 1, 200);
    assert_eq!(owner.step(seen(false, 0, 0)), Action::PublishFrame(1));
    assert_eq!(
        owner.step(seen(false, 1, 0)),
        Action::Render(RowBand { start_y: 0, end_y: 200 })
    );
    assert_eq!(owner.step(seen(false, 1, 0)), Action::Flush);
}

#[test]
fn cancellation_stops_an_idle_core() {
    let mut owner = FrameScheduler::new(0, 2, 200);
    assert_eq!(owner.step(seen(true, 0, 0)), Action::Exit);
    assert_eq!(owner.phase, Phase::Stopped);
    assert_eq!(owner.step(seen(false, 0, 0)), Action::Exit);
    let mut worker = FrameScheduler::new(1, 2, 200);
    assert_eq!(worker.step(seen(true, 5, 0)), Action::Exit);
    assert_eq!(worker.phase, Phase::Stopped);
}

#[test]
fn cancellation_lets_a_started_pass_finish() {
    let mut worker = FrameScheduler::new(1, 2, 200);
    assert_eq!(worker.step(seen(false, 1, 0)), Action::TakeSnapshot(1));
    assert_eq!(
        worker.step(seen(true, 1, 0)),
        Action::Render(RowBand { start_y: 100, end_y: 200 })
    );
    assert_eq!(worker.step(seen(true, 1, 0)), Action::SignalDone);
    assert_eq!(worker.step(seen(true, 1, 1)), Action::Exit);
    let mut owner = FrameScheduler::new(0, 2, 200);
    assert_eq!(owner.step(seen(false, 0, 0)), Action::PublishFrame(1));
    assert_eq!(
        owner.step(seen(true, 1, 0)),
        Action::Render(RowBand { start_y: 0, end_y: 100 })
    );
    assert_eq!(owner.step(seen(true, 1, 1)), Action::Exit);
}

#[test]
fn frame_index_wraps() {
    let mut owner = FrameScheduler::new(0, 1, 10);
    owner.frame = u64::MAX;
    assert_eq!(owner.step(seen(false, u64::MAX, 0)), Action::PublishFrame(0));
    assert_eq!(owner.frame, 0);
}

/// All cores of a machine, stepped in a fixed but uneven order, with the
/// shared state kept as the actions say.
#[test]
fn owner_flushes_after_every_worker_signaled() {
    for num_cores in 1..=5usize {
        let mut cores: Vec<FrameScheduler> =
            (0..num_cores).map(|i| FrameScheduler::new(i, num_cores, 200)).collect();
        let mut shared = seen(false, 0, 0);
        let mut rendered = vec![0u64; num_cores];
        let mut flushes = 0;
        let mut seed: u32 = 7;
        for _ in 0..20000 {
            seed = seed.wrapping_mul(1664525).wrapping_add(1013904223);
            let i = ((seed >> 16) as usize) % num_cores;
            match cores[i].step(shared) {
                Action::PublishFrame(frame) => shared.frame_index = frame,
                Action::Render(_) => rendered[i] = cores[i].frame,
                Action::SignalDone => shared.finished += 1,
                Action::Flush => {
                    assert_eq!(i, 0);
                    assert_eq!(shared.finished, num_cores - 1);
                    for core in 0..num_cores {
                        assert_eq!(rendered[core], shared.frame_index);
                    }
                    shared.finished = 0;
                    flushes += 1;
                }
                Action::TakeSnapshot(frame) => assert_eq!(frame, shared.frame_index),
                Action::Spin => {}
                Action::Exit => panic!("nobody cancelled"),
            }
        }
        assert!(flushes > 100);
    }
}
