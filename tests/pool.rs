use conjecture_test::pool::{Assignment, JobOutcome, PoolState, Submission, WorkerState};

fn is_queued<T>(s: &Submission<T>) -> bool {
    matches!(s, Submission::Queued)
}

fn run_job(a: Assignment<u32>) -> Option<u32> {
    match a {
        Assignment::Run(j) => Some(j),
        _ => None,
    }
}

/// Submits `job`, letting workers dequeue and complete jobs whenever the queue is full;
/// every job run is appended to `log`.
fn submit_with_drain(pool: &mut PoolState<u32>, job: u32, log: &mut Vec<u32>) {
    let mut job = job;
    loop {
        match pool.submit(job) {
            Submission::Queued => return,
            Submission::Full(j) => {
                job = j;
                for id in 0..pool.size() {
                    if pool.worker_state(id) == Some(WorkerState::Idle) {
                        if let Some(done) = run_job(pool.take(id)) {
                            log.push(done);
                            pool.finish(id, JobOutcome::Completed);
                        }
                    }
                }
            }
            Submission::Closed(_) => panic!("pool closed"),
        }
    }
}

fn drain(pool: &mut PoolState<u32>, log: &mut Vec<u32>) {
    while pool.queued() > 0 {
        for id in 0..pool.size() {
            if let Some(done) = run_job(pool.take(id)) {
                log.push(done);
                pool.finish(id, JobOutcome::Completed);
            }
        }
    }
}

#[test]
fn new_pool_has_idle_workers_and_empty_queue() {
    let pool: PoolState<u32> = PoolState::new(3);
    assert_eq!(pool.size(), 3);
    assert_eq!(pool.capacity(), 3);
    assert_eq!(pool.queued(), 0);
    assert!(pool.is_open());
    for id in 0..3 {
        assert_eq!(pool.worker_state(id), Some(WorkerState::Idle));
    }
    assert_eq!(pool.worker_state(3), None);
}

#[test]
fn submissions_beyond_capacity_wait_while_workers_are_busy() {
    let mut pool: PoolState<u32> = PoolState::new(2);
    assert!(is_queued(&pool.submit(100)));
    assert!(is_queued(&pool.submit(101)));
    assert_eq!(run_job(pool.take(0)), Some(100));
    assert_eq!(run_job(pool.take(1)), Some(101));
    // Every worker is busy and the queue is empty: two submissions fit.
    assert!(is_queued(&pool.submit(1)));
    assert!(is_queued(&pool.submit(2)));
    match pool.submit(3) {
        Submission::Full(j) => assert_eq!(j, 3),
        _ => panic!("the third submission must wait"),
    }
    assert_eq!(pool.queued(), 2);
    // A job ends and its worker dequeues the next one: a slot is free again.
    pool.finish(0, JobOutcome::Completed);
    assert_eq!(run_job(pool.take(0)), Some(1));
    assert!(is_queued(&pool.submit(3)));
}

#[test]
fn single_worker_runs_jobs_in_submission_order() {
    let mut pool: PoolState<u32> = PoolState::new(1);
    let mut log = Vec::new();
    for job in 1..=3 {
        submit_with_drain(&mut pool, job, &mut log);
    }
    drain(&mut pool, &mut log);
    assert_eq!(log, vec![1, 2, 3]);
}

#[test]
fn every_job_runs_exactly_once() {
    let mut pool: PoolState<u32> = PoolState::new(3);
    let mut log = Vec::new();
    for job in 0..20 {
        submit_with_drain(&mut pool, job, &mut log);
    }
    drain(&mut pool, &mut log);
    assert_eq!(log.len(), 20);
    let mut seen = log.clone();
    seen.sort();
    assert_eq!(seen, (0..20).collect::<Vec<u32>>());
    // Dequeue order is submission order.
    assert_eq!(log, (0..20).collect::<Vec<u32>>());
}

#[test]
fn failed_job_leaves_worker_serving() {
    let mut pool: PoolState<u32> = PoolState::new(1);
    assert!(is_queued(&pool.submit(1)));
    assert_eq!(run_job(pool.take(0)), Some(1));
    assert_eq!(pool.worker_state(0), Some(WorkerState::Running));
    pool.finish(0, JobOutcome::Failed);
    assert_eq!(pool.worker_state(0), Some(WorkerState::Idle));
    assert!(is_queued(&pool.submit(2)));
    assert_eq!(run_job(pool.take(0)), Some(2));
    pool.finish(0, JobOutcome::Completed);
    assert_eq!(pool.worker_state(0), Some(WorkerState::Idle));
}

#[test]
fn idle_worker_waits_on_empty_queue() {
    let mut pool: PoolState<u32> = PoolState::new(2);
    assert!(matches!(pool.take(1), Assignment::Wait));
    assert_eq!(pool.worker_state(1), Some(WorkerState::Idle));
}

#[test]
fn two_workers_finish_five_jobs_in_three_rounds() {
    let mut pool: PoolState<u32> = PoolState::new(2);
    let mut pending: Vec<u32> = (0..5).collect();
    let mut log = Vec::new();
    let mut rounds = 0;
    while log.len() < 5 {
        // Producers fill the queue as far as it accepts.
        while !pending.is_empty() {
            match pool.submit(pending[0]) {
                Submission::Queued => {
                    pending.remove(0);
                }
                _ => break,
            }
        }
        // One round: every idle worker takes a job, then all of them end.
        let mut running = Vec::new();
        for id in 0..pool.size() {
            if let Some(job) = run_job(pool.take(id)) {
                running.push((id, job));
            }
        }
        for (id, job) in running {
            log.push(job);
            pool.finish(id, JobOutcome::Completed);
        }
        rounds += 1;
    }
    assert_eq!(rounds, 3);
    let mut seen = log.clone();
    seen.sort();
    assert_eq!(seen, vec![0, 1, 2, 3, 4]);
}

#[test]
fn closed_pool_refuses_jobs_and_stops_after_draining() {
    let mut pool: PoolState<u32> = PoolState::new(2);
    assert!(is_queued(&pool.submit(5)));
    pool.close();
    assert!(!pool.is_open());
    match pool.submit(6) {
        Submission::Closed(j) => assert_eq!(j, 6),
        _ => panic!("a closed pool accepts nothing"),
    }
    assert_eq!(run_job(pool.take(0)), Some(5));
    assert!(matches!(pool.take(1), Assignment::Stop));
    assert_eq!(pool.worker_state(1), Some(WorkerState::Stopped));
    pool.finish(0, JobOutcome::Completed);
    assert!(matches!(pool.take(0), Assignment::Stop));
    assert_eq!(pool.worker_state(0), Some(WorkerState::Stopped));
}
