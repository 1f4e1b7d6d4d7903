//! The capability of running jobs on threads.

use vstd::prelude::*;
use crate::error::Result;

verus! {

/// A pool of threads that runs independent jobs, in no particular order.
pub trait ThreadPool {
    /// A pool of `threads` workers.
    fn new(threads: u32) -> Result<Self> where Self: Sized;

    /// Runs `job` on one of the pool's threads.
    fn spawn<F>(&self, job: F) where F: FnOnce() + Send + 'static;
}

} // verus!
