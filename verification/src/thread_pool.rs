//! A pool of worker threads, by its size. Starting the threads is the
//! caller's part.

use vstd::prelude::*;
use crate::error::Result;

verus! {

/// A pool of worker threads.
#[derive(Debug)]
pub struct ThreadPool {
    pool_size: u32,
}

impl ThreadPool {
    /// The number of threads of the pool.
    pub closed spec fn size(&self) -> u32 {
        self.pool_size
    }

    /// A pool of `threads` threads.
    pub fn new(threads: u32) -> (r: Result<ThreadPool>)
        ensures
            r matches Ok(pool) && pool.size() == threads,
    {
        Ok(ThreadPool { pool_size: threads })
    }

    /// The number of threads of the pool.
    pub fn pool_size(&self) -> (n: u32)
        ensures
            n == self.size(),
    {
        self.pool_size
    }
}

} // verus!
