use workpool::CreationFailure;
use workpool::ExecuteError;
use workpool::JobOutcome;
use workpool::PoolCreationError;
use workpool::PoolPhase;
use workpool::ThreadPool;
use workpool::WorkerPoll;

#[test]
fn pool_size_zero() {
    assert!(ThreadPool::build(0).is_err())
}

#[test]
fn zero_size_error_message() {
    let err = ThreadPool::build(0).unwrap_err();
    assert!(matches!(err.kind, CreationFailure::ZeroSize));
    assert_eq!(err.message(), "size must be greater than zero");
}

#[test]
fn spawn_failure_carries_its_cause() {
    let err = PoolCreationError::spawn_failure(String::from("no more threads"));
    assert!(matches!(err.kind, CreationFailure::SpawnFailure { .. }));
    assert_eq!(err.message(), "no more threads");
}

#[test]
fn build_spawns_exactly_the_requested_workers() {
    let mut n: usize = 1;
    while n <= 5 {
        let pool = ThreadPool::build(n).unwrap();
        assert_eq!(pool.num_workers(), n);
        assert!(pool.is_running());
        assert_eq!(pool.pending_count(), 0);
        assert_eq!(pool.jobs_submitted(), 0);
        let mut w: usize = 0;
        while w < n {
            assert!(pool.worker_is_alive(w));
            assert!(pool.worker_is_idle(w));
            w += 1;
        }
        n += 1;
    }
}

#[test]
fn jobs_are_delivered_in_submission_order() {
    let mut pool = ThreadPool::build(2).unwrap();
    let a = pool.execute().unwrap();
    let b = pool.execute().unwrap();
    let c = pool.execute().unwrap();
    assert_eq!((a, b, c), (0, 1, 2));
    assert_eq!(pool.worker_poll(0), WorkerPoll::Run(0));
    pool.worker_finish(0, JobOutcome::Completed);
    assert_eq!(pool.worker_poll(1), WorkerPoll::Run(1));
    pool.worker_finish(1, JobOutcome::Completed);
    assert_eq!(pool.worker_poll(0), WorkerPoll::Run(2));
    pool.worker_finish(0, JobOutcome::Completed);
    assert_eq!(pool.worker_poll(0), WorkerPoll::Wait);
}

#[test]
fn log_names_the_worker_and_the_outcome() {
    let mut pool = ThreadPool::build(2).unwrap();
    let first = pool.execute().unwrap();
    let second = pool.execute().unwrap();
    assert_eq!(pool.worker_poll(1), WorkerPoll::Run(first));
    pool.worker_finish(1, JobOutcome::Aborted);
    assert_eq!(pool.worker_poll(0), WorkerPoll::Run(second));
    pool.worker_finish(0, JobOutcome::Completed);
    assert_eq!(pool.executed_count(), 2);
    let r0 = pool.record_at(0);
    assert_eq!(r0.job, first);
    assert_eq!(r0.worker, 1);
    assert_eq!(r0.outcome, JobOutcome::Aborted);
    let r1 = pool.record_at(1);
    assert_eq!(r1.job, second);
    assert_eq!(r1.worker, 0);
    assert_eq!(r1.outcome, JobOutcome::Completed);
}

#[test]
fn execute_after_teardown_returns_channel_closed() {
    let mut pool = ThreadPool::build(2).unwrap();
    let queued = pool.execute().unwrap();
    pool.begin_teardown();
    assert_eq!(pool.execute(), Err(ExecuteError::ChannelClosed));
    assert_eq!(pool.execute(), Err(ExecuteError::ChannelClosed));
    // work queued before teardown still runs to completion
    assert_eq!(pool.pending_count(), 1);
    assert_eq!(pool.worker_poll(0), WorkerPoll::Run(queued));
    pool.worker_finish(0, JobOutcome::Completed);
    assert_eq!(pool.worker_poll(0), WorkerPoll::Exit);
    assert_eq!(pool.worker_poll(1), WorkerPoll::Exit);
    assert!(pool.workers_terminated());
    pool.finish_teardown();
    assert_eq!(pool.current_phase(), PoolPhase::Terminated);
    assert!(pool.was_executed(queued));
}

#[test]
fn teardown_ends_only_after_every_worker_exits() {
    let mut pool = ThreadPool::build(3).unwrap();
    pool.begin_teardown();
    assert_eq!(pool.current_phase(), PoolPhase::ShuttingDown);
    assert_eq!(pool.worker_poll(0), WorkerPoll::Exit);
    assert_eq!(pool.worker_poll(1), WorkerPoll::Exit);
    assert!(!pool.workers_terminated());
    assert_eq!(pool.worker_poll(2), WorkerPoll::Exit);
    assert!(pool.workers_terminated());
    pool.finish_teardown();
    assert_eq!(pool.current_phase(), PoolPhase::Terminated);
    let mut w: usize = 0;
    while w < 3 {
        assert!(!pool.worker_is_alive(w));
        w += 1;
    }
}

#[test]
fn ten_counter_jobs_on_four_workers() {
    let mut pool = ThreadPool::build(4).unwrap();
    assert_eq!(pool.num_workers(), 4);
    let mut ids: Vec<u64> = Vec::new();
    let mut i: usize = 0;
    while i < 10 {
        ids.push(pool.execute().unwrap());
        i += 1;
    }
    pool.begin_teardown();
    // the workers drain the queue in turn; each job increments the counter
    let mut counter: u64 = 0;
    let mut alive: usize = 4;
    let mut w: usize = 0;
    while alive > 0 {
        if pool.worker_is_alive(w) {
            match pool.worker_poll(w) {
                WorkerPoll::Run(_job) => {
                    counter += 1;
                    pool.worker_finish(w, JobOutcome::Completed);
                }
                WorkerPoll::Exit => {
                    alive -= 1;
                }
                WorkerPoll::Wait => {}
            }
        }
        w = (w + 1) % 4;
    }
    assert!(pool.workers_terminated());
    pool.finish_teardown();
    assert_eq!(counter, 10);
    assert_eq!(pool.num_workers(), 4);
    for id in ids {
        assert!(pool.was_executed(id));
    }
}

#[test]
fn aborting_job_does_not_block_the_next_one() {
    let mut pool = ThreadPool::build(1).unwrap();
    let aborting = pool.execute().unwrap();
    let counting = pool.execute().unwrap();
    let mut counter: u64 = 0;
    assert_eq!(pool.worker_poll(0), WorkerPoll::Run(aborting));
    // the first job aborts abnormally; the worker survives and resumes
    pool.worker_finish(0, JobOutcome::Aborted);
    assert!(pool.worker_is_alive(0));
    assert_eq!(pool.num_workers(), 1);
    assert_eq!(pool.worker_poll(0), WorkerPoll::Run(counting));
    counter += 1;
    pool.worker_finish(0, JobOutcome::Completed);
    pool.begin_teardown();
    assert_eq!(pool.worker_poll(0), WorkerPoll::Exit);
    pool.finish_teardown();
    assert_eq!(counter, 1);
    assert!(pool.was_executed(counting));
    assert!(pool.was_executed(aborting));
}
