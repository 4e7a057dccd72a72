//! Surface types of one live subscriber session.

use vstd::prelude::*;

verus! {

/// How often the stream-only binding probes liveness, in
/// milliseconds.
pub const PING_INTERVAL_MS: u64 = 5000;

/// How long a probe of the stream-only binding may stay
/// unanswered, in milliseconds.
pub const PONG_TIMEOUT_MS: u64 = 10000;

/// Missed probes before the stream-only binding gives a session up.
pub const MAX_MISSED_PONGS: usize = 3;

/// Terminal failure of one subscriber session, with its reason.
#[derive(Debug, Clone)]
pub struct SessionError(pub String);

} // verus!
