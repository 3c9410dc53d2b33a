//! Per-client request rate limiting.

use vstd::prelude::*;

verus! {

/// Rate limiter; every request is currently admitted.
pub struct RateLimiter;

impl RateLimiter {
    /// Create a limiter for the given number of requests per minute.
    pub fn new(_max_rpm: u64) -> (r: Self) {
        RateLimiter
    }

    /// Check a request against the limit: every request is admitted.
    pub fn check(&self) -> (r: Result<(), ()>)
        ensures
            r is Ok,
    {
        Ok(())
    }
}

} // verus!
