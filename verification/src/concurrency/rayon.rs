//! A thread pool backed by the rayon crate, for running submitted jobs.
//!
//! The pool itself is an outside component: this crate only declares it
//! and wraps the two calls the server makes, so nothing is proved about
//! where or when a job runs — only the crash-isolation bookkeeping in
//! `concurrency::pool` is verified.

use crate::kvstore::KvError;
use vstd::prelude::*;

verus! {

#[verifier::external_type_specification]
#[verifier::external_body]
pub struct ExRayonPool(rayon::ThreadPool);

/// A fixed-size pool of rayon worker threads.
pub struct RayonThreadPool {
    pool: rayon::ThreadPool,
}

impl RayonThreadPool {
    /// Relies on rayon::ThreadPoolBuilder::build: it yields a pool with
    /// the requested number of threads, or a build error.  The count is
    /// kept small enough that building cannot exhaust the address space.
    #[verifier::external_body]
    pub fn new(n: i32) -> (r: Result<RayonThreadPool, KvError>)
        requires
            0 <= n <= 1024,
    {
        match rayon::ThreadPoolBuilder::new().num_threads(n as usize).build() {
            Ok(pool) => Ok(RayonThreadPool { pool }),
            Err(_) => Err(KvError::IoFailure),
        }
    }

    /// Relies on rayon::ThreadPool::spawn: it runs the closure once, on
    /// some thread of the pool, at some later time.
    #[verifier::external_body]
    pub fn spawn<F: FnOnce() + Send + 'static>(&self, f: F) {
        self.pool.spawn(f)
    }
}

} // verus!
