//! A pool that runs blocking work off the caller's thread.
use vstd::prelude::*;

verus! {

/// Runs blocking tasks on the runtime's blocking threads.
pub struct WorkerPool {}

impl WorkerPool {
    /// Creates the pool.
    pub fn new() -> (r: Self) {
        WorkerPool {}
    }
}

} // verus!
