use rust_land::error::EngineError;
use rust_land::partition::Region;
use rust_land::pool::{Outcome, Step, ThreadPool, Wait};
use rust_land::wave::{begin_wave, plan_wave, Task};

#[test]
fn plan_gives_one_task_per_worker() {
    let tasks: Vec<Task<u8>> = plan_wave(10, 4, 2, 6, 9u8).unwrap();
    assert_eq!(tasks.len(), 4);
    for (t, task) in tasks.iter().enumerate() {
        assert_eq!(task.worker, t);
        assert_eq!(task.params, 9);
        assert_eq!(task.cells, Region { start: t * 6, end: (t + 1) * 6 });
    }
    assert_eq!(tasks[0].particles, Region { start: 0, end: 4 });
    assert_eq!(tasks[1].particles, Region { start: 4, end: 8 });
    assert_eq!(tasks[2].particles, Region { start: 8, end: 12 });
    assert_eq!(tasks[3].particles, Region { start: 12, end: 20 });
}

#[test]
fn plan_for_the_full_population() {
    let tasks: Vec<Task<()>> = plan_wave(100_000_000, 8, 2, 1200 * 800, ()).unwrap();
    assert_eq!(tasks[5].particles, Region { start: 125_000_000, end: 150_000_000 });
    assert_eq!(tasks[7].particles.end, 200_000_000);
    assert_eq!(tasks[7].cells, Region { start: 6_720_000, end: 7_680_000 });
    assert_eq!(tasks[5].particles.lane_groups(), 3_125_000);
}

#[test]
fn planned_tasks_share_no_scalar_and_no_counter() {
    let tasks: Vec<Task<()>> = plan_wave(37, 5, 2, 11, ()).unwrap();
    let mut scalars: Vec<u8> = vec![0; 74];
    let mut counters: Vec<u8> = vec![0; 55];
    for task in tasks.iter() {
        for i in task.particles.start..task.particles.end {
            scalars[i] += 1;
        }
        for c in task.cells.start..task.cells.end {
            counters[c] += 1;
        }
    }
    assert_eq!(scalars, vec![1u8; 74]);
    assert_eq!(counters, vec![1u8; 55]);
}

#[test]
fn plan_rejects_what_cannot_be_laid_out() {
    assert_eq!(plan_wave(10, 0, 2, 6, ()).err(), Some(EngineError::InvalidConfiguration));
    assert_eq!(
        plan_wave(usize::MAX, 4, 2, 6, ()).err(),
        Some(EngineError::InvalidConfiguration)
    );
    assert_eq!(
        plan_wave(10, 4, 2, usize::MAX, ()).err(),
        Some(EngineError::InvalidConfiguration)
    );
    assert!(plan_wave(0, 1, 0, 0, ()).is_ok());
}

#[test]
fn begin_wave_queues_the_tasks_in_worker_order() {
    let tasks: Vec<Task<u8>> = plan_wave(16, 4, 2, 3, 1u8).unwrap();
    let mut pool: ThreadPool<Task<u8>> = ThreadPool::new(2).unwrap();
    assert!(begin_wave(&mut pool, &tasks));
    assert_eq!(pool.pending(), 4);
    assert_eq!(pool.queued(), 4);
    for t in 0..4 {
        match pool.next_task(0) {
            Step::Run(task) => {
                assert_eq!(task.worker, t);
                assert_eq!(task.particles, tasks[t].particles);
            }
            _ => panic!("a task of the wave is missing"),
        }
        let after: Wait = pool.finish(0, Outcome::Completed);
        assert_eq!(after == Wait::Ready, t == 3);
    }
}

#[test]
fn begin_wave_refuses_to_overlap_a_wave() {
    let tasks: Vec<Task<u8>> = plan_wave(16, 2, 2, 3, 1u8).unwrap();
    let mut pool: ThreadPool<Task<u8>> = ThreadPool::new(2).unwrap();
    assert!(begin_wave(&mut pool, &tasks));
    assert!(!begin_wave(&mut pool, &tasks));
    assert_eq!(pool.pending(), 2);
    assert!(matches!(pool.next_task(0), Step::Run(_)));
    assert!(matches!(pool.next_task(1), Step::Run(_)));
    pool.finish(0, Outcome::Completed);
    assert!(!begin_wave(&mut pool, &tasks));
    pool.finish(1, Outcome::Completed);
    assert!(begin_wave(&mut pool, &tasks));
    assert_eq!(pool.pending(), 2);
}

#[test]
fn begin_wave_refuses_a_closed_pool() {
    let tasks: Vec<Task<u8>> = plan_wave(16, 2, 2, 3, 1u8).unwrap();
    let mut pool: ThreadPool<Task<u8>> = ThreadPool::new(2).unwrap();
    pool.close();
    assert!(!begin_wave(&mut pool, &tasks));
    assert_eq!(pool.pending(), 0);
    assert_eq!(pool.queued(), 0);
}
