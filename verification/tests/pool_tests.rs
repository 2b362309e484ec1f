use redis_rust::event_loop::{worker_decide, Command, PoolState, WorkerStep};

#[test]
fn worker_runs_tasks_and_exits_on_shutdown() {
    let step = worker_decide::<u32, ()>(Ok(Command::Task(5)));
    assert_eq!(step, WorkerStep::Run(5));
    let step = worker_decide::<u32, ()>(Ok(Command::Shutdown));
    assert_eq!(step, WorkerStep::Exit);
    let step = worker_decide::<u32, ()>(Err(()));
    assert_eq!(step, WorkerStep::Wait);
}

#[test]
fn pool_admits_at_most_its_size() {
    // three long-lived connections against two workers
    let mut pool = PoolState::new(2);
    pool.submit();
    pool.submit();
    pool.submit();
    pool.begin();
    pool.begin();
    pool.begin();
    assert_eq!(pool.running, 2);
    assert_eq!(pool.waiting, 1);
    // the extra connection waits until a slot frees
    pool.finish();
    pool.begin();
    assert_eq!(pool.running, 2);
    assert_eq!(pool.waiting, 0);
}
