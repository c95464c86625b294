use ferris::concurrency::pool::{PoolState, WorkerState};
use ferris::concurrency::rayon::RayonThreadPool;
use ferris::kvstore::KvStore;
use std::sync::mpsc;
use std::sync::{Arc, Mutex};
use std::time::Duration;

#[test]
fn pool_runs_every_job_exactly_once() {
    let mut pool = PoolState::new(2);
    assert_eq!(pool.worker_count(), 2);
    let a = pool.submit();
    let b = pool.submit();
    let c = pool.submit();
    assert_eq!((a, b, c), (0, 1, 2));
    assert_eq!(pool.queue_len(), 3);

    assert_eq!(pool.claim(0), 0);
    assert_eq!(pool.worker(0), WorkerState::Running { job: 0 });
    pool.complete(0);
    assert_eq!(pool.worker(0), WorkerState::Idle);

    assert_eq!(pool.claim(1), 1);
    pool.complete(1);
    assert_eq!(pool.claim(0), 2);
    pool.complete(0);

    assert_eq!(pool.queue_len(), 0);
    assert_eq!(pool.done_jobs().as_slice(), &[0, 1, 2]);
    assert!(pool.crashed_jobs().is_empty());
}

#[test]
fn crashed_worker_is_replaced_and_pool_keeps_serving() {
    let mut pool = PoolState::new(3);
    let first = pool.submit();
    let second = pool.submit();

    assert_eq!(pool.claim(1), first);
    pool.crash(1);
    assert_eq!(pool.worker(1), WorkerState::Dead);
    assert_eq!(pool.worker_count(), 3);
    assert_eq!(pool.crashed_jobs().as_slice(), &[first]);

    // the monitor's pass restores full capacity
    pool.replace_dead();
    assert_eq!(pool.worker_count(), 3);
    assert_eq!(pool.worker(1), WorkerState::Idle);
    for w in 0..3 {
        assert!(pool.worker(w) != WorkerState::Dead);
    }

    // the pool still accepts and completes jobs afterwards
    assert_eq!(pool.claim(1), second);
    pool.complete(1);
    let third = pool.submit();
    assert_eq!(pool.claim(2), third);
    pool.complete(2);
    assert_eq!(pool.done_jobs().as_slice(), &[second, third]);
}

#[test]
fn replace_dead_leaves_running_workers_alone() {
    let mut pool = PoolState::new(2);
    pool.submit();
    pool.submit();
    let a = pool.claim(0);
    let b = pool.claim(1);
    pool.crash(0);
    pool.replace_dead();
    assert_eq!(pool.worker(0), WorkerState::Idle);
    assert_eq!(pool.worker(1), WorkerState::Running { job: b });
    assert_eq!(pool.crashed_jobs().as_slice(), &[a]);
}

#[test]
fn shutdown_lets_workers_drain_the_queue() {
    let mut pool = PoolState::new(1);
    let a = pool.submit();
    let b = pool.submit();
    pool.begin_shutdown();
    assert!(pool.is_shutting_down());
    assert_eq!(pool.claim(0), a);
    pool.complete(0);
    assert_eq!(pool.claim(0), b);
    pool.complete(0);
    assert_eq!(pool.queue_len(), 0);
    assert_eq!(pool.done_jobs().as_slice(), &[a, b]);
}

fn concurrent_sets(n_workers: i32) {
    let pool = RayonThreadPool::new(n_workers).unwrap();
    let store = Arc::new(Mutex::new(KvStore::new(10_000_000)));
    let (tx, rx) = mpsc::channel();
    for i in 0..100 {
        let store = Arc::clone(&store);
        let tx = tx.clone();
        pool.spawn(move || {
            let mut guard = store.lock().unwrap();
            guard.set(format!("key{}", i), format!("val{}", i)).unwrap();
            drop(guard);
            tx.send(()).unwrap();
        });
    }
    for _ in 0..100 {
        rx.recv_timeout(Duration::from_secs(10)).unwrap();
    }
    let guard = store.lock().unwrap();
    for i in 0..100 {
        assert_eq!(
            guard.get(format!("key{}", i)).unwrap(),
            Some(format!("val{}", i))
        );
    }
    // the log holds no corrupted records: replaying it succeeds and
    // yields the same state
    let bytes = guard.log_bytes().clone();
    let reopened = KvStore::open(bytes, 10_000_000).unwrap();
    for i in 0..100 {
        assert_eq!(
            reopened.get(format!("key{}", i)).unwrap(),
            Some(format!("val{}", i))
        );
    }
}

#[test]
fn hundred_concurrent_sets_one_worker() {
    concurrent_sets(1);
}

#[test]
fn hundred_concurrent_sets_four_workers() {
    concurrent_sets(4);
}

#[test]
fn hundred_concurrent_sets_eight_workers() {
    concurrent_sets(8);
}
