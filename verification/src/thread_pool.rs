//! The worker-pool interface behind the server's accept loop, and an
//! implementation that delegates to rayon's work-stealing pool.

use vstd::prelude::*;
use crate::error::{KvsError, Result};

verus! {

/// A pool of workers that runs submitted jobs.
pub trait ThreadPool: Sized {
    /// A pool with `threads` workers; a failure to spawn them comes back as
    /// the crate's textual error kind.
    fn new(threads: u32) -> (r: Result<Self>)
        ensures
            r is Err ==> r->Err_0 is StringError,
    ;

    /// Submits one job. Spawning always succeeds; a panicking job must not
    /// reduce the effective worker count.
    fn spawn<F: FnOnce() + Send + 'static>(&self, job: F);
}

/// Holds rayon's pool. Its type shares a name with the trait above, which
/// keeps it from being declared to the verifier directly, so the holder as a
/// whole is opaque.
#[verifier::external_body]
struct RayonPoolHolder {
    pool: rayon::ThreadPool,
}

/// Relies on rayon's `ThreadPoolBuilder::build`: a pool with the requested
/// thread count, or a build error rendered as a message. A panic handler is
/// installed, so a job that panics is swallowed by its worker and the pool
/// keeps its thread count.
#[verifier::external_body]
fn rayon_build(threads: u32) -> (r: Result<RayonPoolHolder>)
    ensures
        r is Err ==> r->Err_0 is StringError,
{
    let builder = rayon::ThreadPoolBuilder::new().num_threads(threads as usize).panic_handler(
        |_| {},
    );
    match builder.build() {
        Ok(pool) => Ok(RayonPoolHolder { pool }),
        Err(e) => Err(KvsError::StringError(format!("{}", e))),
    }
}

/// Relies on rayon's `ThreadPool::spawn`: runs the job on a worker thread;
/// with the panic handler installed at build time, a panicking job is
/// handed to it instead of taking the worker down.
#[verifier::external_body]
fn rayon_spawn<F: FnOnce() + Send + 'static>(holder: &RayonPoolHolder, job: F) {
    holder.pool.spawn(job)
}

/// The pool that delegates to rayon's general-purpose work-stealing pool.
pub struct RayonThreadPool(RayonPoolHolder);

impl ThreadPool for RayonThreadPool {
    fn new(threads: u32) -> (r: Result<RayonThreadPool>) {
        match rayon_build(threads) {
            Ok(p) => Ok(RayonThreadPool(p)),
            Err(e) => Err(e),
        }
    }

    fn spawn<F: FnOnce() + Send + 'static>(&self, job: F) {
        rayon_spawn(&self.0, job)
    }
}

} // verus!
