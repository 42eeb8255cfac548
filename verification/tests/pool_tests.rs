use rust_land::error::EngineError;
use rust_land::pool::{Outcome, Step, ThreadPool, Wait, Worker, WorkerState};

fn run_of(step: Step<u32>) -> u32 {
    match step {
        Step::Run(task) => task,
        Step::Park => panic!("parked where a task was expected"),
        Step::Exit => panic!("left where a task was expected"),
    }
}

#[test]
fn new_pool_is_idle() {
    let pool: ThreadPool<u32> = ThreadPool::new(8).unwrap();
    assert_eq!(pool.size(), 8);
    assert_eq!(pool.pending(), 0);
    assert_eq!(pool.queued(), 0);
    assert_eq!(pool.failed(), 0);
    assert!(!pool.is_closed());
    assert_eq!(pool.wait_for_completion(), Wait::Ready);
    for id in 0..8 {
        assert_eq!(pool.worker(id), Worker { id, state: WorkerState::Idle });
    }
}

#[test]
fn zero_sized_pool_is_rejected() {
    assert_eq!(ThreadPool::<u32>::new(0).err(), Some(EngineError::InvalidConfiguration));
}

#[test]
fn execute_counts_the_task_before_a_worker_sees_it() {
    let mut pool: ThreadPool<u32> = ThreadPool::new(2).unwrap();
    pool.execute(11);
    assert_eq!(pool.pending(), 1);
    assert_eq!(pool.queued(), 1);
    assert_eq!(pool.wait_for_completion(), Wait::Blocked);
    pool.execute(12);
    assert_eq!(pool.pending(), 2);
    assert_eq!(pool.queued(), 2);
}

#[test]
fn tasks_leave_the_queue_oldest_first() {
    let mut pool: ThreadPool<u32> = ThreadPool::new(3).unwrap();
    for task in [5u32, 6, 7] {
        pool.execute(task);
    }
    assert_eq!(run_of(pool.next_task(2)), 5);
    assert_eq!(run_of(pool.next_task(0)), 6);
    assert_eq!(run_of(pool.next_task(1)), 7);
    assert_eq!(pool.queued(), 0);
    assert_eq!(pool.pending(), 3);
    assert_eq!(pool.worker(2).state, WorkerState::Busy);
}

#[test]
fn barrier_opens_only_when_the_last_task_ends() {
    let mut pool: ThreadPool<u32> = ThreadPool::new(2).unwrap();
    pool.execute(1);
    pool.execute(2);
    assert_eq!(run_of(pool.next_task(0)), 1);
    assert_eq!(run_of(pool.next_task(1)), 2);
    assert_eq!(pool.wait_for_completion(), Wait::Blocked);
    assert_eq!(pool.finish(1, Outcome::Completed), Wait::Blocked);
    assert_eq!(pool.pending(), 1);
    assert_eq!(pool.wait_for_completion(), Wait::Blocked);
    assert_eq!(pool.finish(0, Outcome::Completed), Wait::Ready);
    assert_eq!(pool.pending(), 0);
    assert_eq!(pool.wait_for_completion(), Wait::Ready);
    assert_eq!(pool.worker(0).state, WorkerState::Idle);
    assert_eq!(pool.worker(1).state, WorkerState::Idle);
}

#[test]
fn idle_worker_parks_on_an_empty_open_queue() {
    let mut pool: ThreadPool<u32> = ThreadPool::new(1).unwrap();
    assert!(matches!(pool.next_task(0), Step::Park));
    assert_eq!(pool.worker(0).state, WorkerState::Idle);
    pool.execute(3);
    assert_eq!(run_of(pool.next_task(0)), 3);
}

#[test]
fn backlog_far_beyond_the_worker_count_drains() {
    let workers: usize = 3;
    let k: u32 = 1000;
    let mut pool: ThreadPool<u32> = ThreadPool::new(workers).unwrap();
    for task in 0..k {
        pool.execute(task);
    }
    assert_eq!(pool.pending(), 1000);
    let mut ran: Vec<u32> = Vec::new();
    let mut running: Vec<bool> = vec![false; workers];
    let mut turn: usize = 0;
    while pool.wait_for_completion() == Wait::Blocked {
        let id: usize = turn % workers;
        if running[id] {
            let after: Wait = pool.finish(id, Outcome::Completed);
            running[id] = false;
            assert_eq!(after == Wait::Ready, ran.len() == 1000 && !running.contains(&true));
        } else if let Step::Run(task) = pool.next_task(id) {
            ran.push(task);
            running[id] = true;
        }
        assert_eq!(
            pool.pending(),
            pool.queued() + running.iter().filter(|&&b| b).count()
        );
        turn += 7;
    }
    assert_eq!(ran.len(), 1000);
    assert_eq!(ran, (0..k).collect::<Vec<u32>>());
    assert_eq!(pool.pending(), 0);
    assert_eq!(pool.queued(), 0);
}

#[test]
fn failed_task_still_releases_the_barrier() {
    let mut pool: ThreadPool<u32> = ThreadPool::new(2).unwrap();
    pool.execute(1);
    assert_eq!(run_of(pool.next_task(0)), 1);
    assert_eq!(pool.finish(0, Outcome::Failed), Wait::Ready);
    assert_eq!(pool.pending(), 0);
    assert_eq!(pool.failed(), 1);
    assert_eq!(pool.worker(0).state, WorkerState::Stopped);
    assert_eq!(pool.wait_for_completion(), Wait::Ready);
}

#[test]
fn stopped_worker_takes_no_further_task() {
    let mut pool: ThreadPool<u32> = ThreadPool::new(2).unwrap();
    pool.execute(1);
    pool.execute(2);
    assert_eq!(run_of(pool.next_task(0)), 1);
    pool.finish(0, Outcome::Failed);
    assert!(matches!(pool.next_task(0), Step::Exit));
    assert_eq!(pool.queued(), 1);
    assert_eq!(pool.pending(), 1);
    assert_eq!(run_of(pool.next_task(1)), 2);
    assert_eq!(pool.finish(1, Outcome::Completed), Wait::Ready);
}

#[test]
fn closed_pool_hands_out_what_waits_then_lets_workers_go() {
    let mut pool: ThreadPool<u32> = ThreadPool::new(2).unwrap();
    pool.execute(8);
    pool.execute(9);
    pool.close();
    assert!(pool.is_closed());
    assert_eq!(pool.pending(), 2);
    assert_eq!(run_of(pool.next_task(0)), 8);
    assert_eq!(run_of(pool.next_task(1)), 9);
    assert_eq!(pool.finish(0, Outcome::Completed), Wait::Blocked);
    assert!(matches!(pool.next_task(0), Step::Exit));
    assert_eq!(pool.worker(0).state, WorkerState::Stopped);
    assert_eq!(pool.finish(1, Outcome::Completed), Wait::Ready);
    assert!(matches!(pool.next_task(1), Step::Exit));
    assert_eq!(pool.worker(1).state, WorkerState::Stopped);
    assert_eq!(pool.failed(), 0);
}

#[test]
fn waves_follow_one_another_on_one_pool() {
    let mut pool: ThreadPool<u32> = ThreadPool::new(2).unwrap();
    for wave in 0..5u32 {
        pool.execute(wave * 2);
        pool.execute(wave * 2 + 1);
        assert_eq!(pool.wait_for_completion(), Wait::Blocked);
        assert_eq!(run_of(pool.next_task(0)), wave * 2);
        assert_eq!(run_of(pool.next_task(1)), wave * 2 + 1);
        assert_eq!(pool.finish(0, Outcome::Completed), Wait::Blocked);
        assert_eq!(pool.finish(1, Outcome::Completed), Wait::Ready);
    }
    assert_eq!(pool.pending(), 0);
    assert_eq!(pool.size(), 2);
}

#[test]
fn new_worker_is_idle() {
    assert_eq!(Worker::new(3), Worker { id: 3, state: WorkerState::Idle });
}
