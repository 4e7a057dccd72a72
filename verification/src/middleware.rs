//! Request-level rate limiting.

use vstd::prelude::*;
use crate::managers::{DefaultRateLimiter, RateLimitError};

verus! {

/// Wraps a rate limiter for request handlers.
pub struct RateLimitService {
    /// The limiter behind the service.
    pub rate_limiter: DefaultRateLimiter,
}

impl RateLimitService {
    /// A service around the given limiter.
    pub fn new(rate_limiter: DefaultRateLimiter) -> (r: RateLimitService)
        ensures
            r.rate_limiter@ == rate_limiter@,
            r.rate_limiter.wf() == rate_limiter.wf(),
    {
        RateLimitService { rate_limiter }
    }

    /// Whether one more request from `identifier` is allowed now,
    /// counting it if so.
    pub fn check_rate_limit(&mut self, identifier: &str, now_ms: u64) -> (r: Result<
        (),
        RateLimitError,
    >)
        requires
            old(self).rate_limiter.wf(),
        ensures
            final(self).rate_limiter.wf(),
            r is Ok <==> crate::managers::limiter_admits(
                old(self).rate_limiter@,
                identifier@,
                now_ms,
            ),
    {
        self.rate_limiter.is_allowed(identifier, now_ms)
    }

    /// How many requests `identifier` has left in its window.
    pub fn get_remaining_requests(&mut self, identifier: &str, now_ms: u64) -> (r: u32)
        requires
            old(self).rate_limiter.wf(),
        ensures
            final(self).rate_limiter.wf(),
            final(self).rate_limiter == old(self).rate_limiter,
            r == crate::managers::limiter_remaining(
                old(self).rate_limiter@,
                identifier@,
                now_ms,
            ),
    {
        self.rate_limiter.get_remaining(identifier, now_ms)
    }
}

/// The authenticated caller, as handlers see it.
#[derive(Debug, Clone, Copy, PartialEq, Eq, Structural)]
pub struct UserId(pub i64);

/// How a request exposes its authenticated caller.
pub trait RequestExt {
    fn user_id(&self) -> Option<i64>;
}

} // verus!
