//! Operational managers: file storage surfaces, login lockout,
//! request rate limiting, password policy types and text logging.
//!
//! The lockout and rate limiting state machines are pure: the clock
//! enters as a millisecond argument and entries live in plain lists,
//! first match winning.

use vstd::prelude::*;

verus! {

/// Why a file operation failed.
#[derive(Debug, Clone)]
pub enum FileError {
    Io(String),
    NotFound(i64),
    TransactionFailed(String),
}

/// One open unit of file work: staged uploads commit or vanish
/// together.
pub trait FileTransaction {
    fn stage_upload(&mut self, id: i64, data: &[u8]) -> Result<(), FileError>;

    fn commit(self) -> Result<(), FileError>;

    fn rollback(self) -> Result<(), FileError>;
}

/// A store of files by numeric id.
pub trait FileManager {
    type Transaction: FileTransaction;

    fn begin(&self) -> Result<Self::Transaction, FileError>;

    fn upload_file(&self, id: i64, data: &[u8]) -> Result<(), FileError>;

    fn get_file(&self, id: i64) -> Result<Vec<u8>, FileError>;

    fn delete_file(&self, id: i64) -> Result<(), FileError>;
}

/// Files on a local directory; the I/O itself lives with the caller.
#[derive(Debug, Clone)]
pub struct LocalFileManager {
    pub base_directory: String,
}

impl LocalFileManager {
    /// A manager rooted at `base_directory`.
    pub fn new(base_directory: &str) -> (r: LocalFileManager)
        ensures
            r.base_directory@ == base_directory@,
    {
        LocalFileManager { base_directory: base_directory.to_owned() }
    }
}

/// The staged side of one local file transaction.
#[derive(Debug, Clone)]
pub struct LocalFileTransaction {
    pub base_directory: String,
    pub staged_files: Vec<i64>,
    pub committed: bool,
}

/// One identifier's failed-login record.
#[derive(Debug, Clone, Copy, PartialEq, Eq, Structural)]
pub struct LockoutAttempt {
    pub attempts: u32,
    pub last_attempt_ms: u64,
    pub locked_until_ms: Option<u64>,
}

/// Guards logins against brute force.
pub trait LockoutManager {
    fn record_failed_attempt(&mut self, identifier: &str, now_ms: u64);

    fn record_successful_login(&mut self, identifier: &str);

    fn is_locked_out(&mut self, identifier: &str, now_ms: u64) -> Option<u64>;

    fn unlock_account(&mut self, identifier: &str);
}

/// The first record under `identifier`, if any.
pub open spec fn find_lockout(entries: Seq<(String, LockoutAttempt)>, id: Seq<char>) -> Option<
    LockoutAttempt,
>
    decreases entries.len(),
{
    if entries.len() == 0 {
        None
    } else if entries[0].0@ == id {
        Some(entries[0].1)
    } else {
        find_lockout(entries.drop_first(), id)
    }
}

/// Whether `identifier` is locked out at `now_ms`, and until when.
pub open spec fn lockout_until(
    entries: Seq<(String, LockoutAttempt)>,
    id: Seq<char>,
    now_ms: u64,
) -> Option<u64> {
    match find_lockout(entries, id) {
        Some(a) => match a.locked_until_ms {
            Some(until) => if now_ms < until {
                Some(until)
            } else {
                None
            },
            None => None,
        },
        None => None,
    }
}

/// Counts failed logins per identifier and locks the account after
/// too many inside the window.
#[derive(Debug)]
pub struct DefaultLockoutManager {
    /// The per-identifier records, first match winning.
    pub attempts: Vec<(String, LockoutAttempt)>,
    /// Failures inside the window that trigger a lockout.
    pub max_attempts: u32,
    /// How long a lockout lasts, in milliseconds.
    pub lockout_duration_ms: u64,
    /// How far apart failures still count together, in milliseconds.
    pub attempt_window_ms: u64,
}

impl DefaultLockoutManager {
    /// The record list, for specifications.
    pub open spec fn entries(&self) -> Seq<(String, LockoutAttempt)> {
        self.attempts@
    }

    /// A manager locking out after `max_attempts` failures within
    /// `attempt_window_minutes`, for `lockout_duration_minutes`.
    pub fn new(
        max_attempts: u32,
        lockout_duration_minutes: u64,
        attempt_window_minutes: u64,
    ) -> (r: DefaultLockoutManager)
        requires
            lockout_duration_minutes <= 0xFFFF_FFFF,
            attempt_window_minutes <= 0xFFFF_FFFF,
        ensures
            r.entries().len() == 0,
            r.max_attempts == max_attempts,
            r.lockout_duration_ms == lockout_duration_minutes * 60000,
            r.attempt_window_ms == attempt_window_minutes * 60000,
    {
        proof {
            assert(lockout_duration_minutes * 60000 <= 0xFFFF_FFFFu64 * 60000)
                by (nonlinear_arith)
                requires
                    lockout_duration_minutes <= 0xFFFF_FFFFu64,
            ;
            assert(attempt_window_minutes * 60000 <= 0xFFFF_FFFFu64 * 60000) by (nonlinear_arith)
                requires
                    attempt_window_minutes <= 0xFFFF_FFFFu64,
            ;
        }
        DefaultLockoutManager {
            attempts: Vec::new(),
            max_attempts,
            lockout_duration_ms: lockout_duration_minutes * 60000,
            attempt_window_ms: attempt_window_minutes * 60000,
        }
    }

    /// The stock policy: five failures in five minutes lock an
    /// account for fifteen minutes.
    pub fn default() -> (r: DefaultLockoutManager)
        ensures
            r.entries().len() == 0,
            r.max_attempts == 5,
            r.lockout_duration_ms == 900000,
            r.attempt_window_ms == 300000,
    {
        DefaultLockoutManager::new(5, 15, 5)
    }

    /// Where `identifier` sits in the record list.
    fn position(&self, identifier: &str) -> (r: Option<usize>)
        ensures
            match r {
                Some(i) => i < self.entries().len() && self.entries()[i as int].0@ == identifier@
                    && (forall|j: int| 0 <= j < i ==> self.entries()[j].0@ != identifier@),
                None => forall|j: int|
                    0 <= j < self.entries().len() ==> self.entries()[j].0@ != identifier@,
            },
    {
        let key: String = identifier.to_owned();
        let mut i: usize = 0;
        while i < self.attempts.len()
            invariant
                i <= self.attempts@.len(),
                key@ == identifier@,
                forall|j: int| 0 <= j < i ==> self.attempts@[j].0@ != identifier@,
            decreases self.attempts@.len() - i,
        {
            if self.attempts[i].0 == key {
                return Some(i);
            }
            i = i + 1;
        }
        None
    }

    /// Count one failed login: within a live lockout nothing
    /// changes; a stale window restarts the count; reaching
    /// `max_attempts` sets the lockout clock.
    pub fn record_failed_attempt(&mut self, identifier: &str, now_ms: u64)
        requires
            now_ms + old(self).lockout_duration_ms <= u64::MAX,
        ensures
            final(self).max_attempts == old(self).max_attempts,
            final(self).lockout_duration_ms == old(self).lockout_duration_ms,
            final(self).attempt_window_ms == old(self).attempt_window_ms,
            ({
                let before = find_lockout(old(self).entries(), identifier@);
                let after = find_lockout(final(self).entries(), identifier@);
                match before {
                    None => after == Some(
                        record_step(
                            LockoutAttempt {
                                attempts: 0,
                                last_attempt_ms: now_ms,
                                locked_until_ms: None,
                            },
                            old(self).max_attempts,
                            old(self).lockout_duration_ms,
                            old(self).attempt_window_ms,
                            now_ms,
                        ),
                    ),
                    Some(a) => after == Some(
                        record_step(
                            a,
                            old(self).max_attempts,
                            old(self).lockout_duration_ms,
                            old(self).attempt_window_ms,
                            now_ms,
                        ),
                    ),
                }
            }),
    {
        let max_attempts = self.max_attempts;
        let lockout_duration_ms = self.lockout_duration_ms;
        let attempt_window_ms = self.attempt_window_ms;
        let found = self.position(identifier);
        match found {
            Some(i) => {
                let current = self.attempts[i].1;
                let updated = step_attempt(
                    current,
                    max_attempts,
                    lockout_duration_ms,
                    attempt_window_ms,
                    now_ms,
                );
                let key: String = identifier.to_owned();
                proof {
                    lemma_find_lockout_position(old(self).entries(), i as int, identifier@);
                }
                self.attempts.set(i, (key, updated));
                proof {
                    lemma_find_lockout_update_one(
                        old(self).entries(),
                        i as int,
                        identifier@,
                        key,
                        updated,
                    );
                }
            },
            None => {
                let fresh = LockoutAttempt { attempts: 0, last_attempt_ms: now_ms, locked_until_ms: None };
                let updated = step_attempt(
                    fresh,
                    max_attempts,
                    lockout_duration_ms,
                    attempt_window_ms,
                    now_ms,
                );
                let key: String = identifier.to_owned();
                proof {
                    lemma_find_lockout_absent(old(self).entries(), identifier@);
                }
                self.attempts.push((key, updated));
                proof {
                    lemma_find_lockout_append_one(
                        old(self).entries(),
                        identifier@,
                        key,
                        updated,
                    );
                }
            },
        }
    }

    /// Forget `identifier` after a successful login.
    pub fn record_successful_login(&mut self, identifier: &str)
        ensures
            find_lockout(final(self).entries(), identifier@) is None,
            final(self).max_attempts == old(self).max_attempts,
            final(self).lockout_duration_ms == old(self).lockout_duration_ms,
            final(self).attempt_window_ms == old(self).attempt_window_ms,
    {
        self.unlock_account(identifier);
    }

    /// Whether `identifier` is locked out, and for how many more
    /// milliseconds.
    pub fn is_locked_out(&self, identifier: &str, now_ms: u64) -> (r: Option<u64>)
        ensures
            r == (match lockout_until(self.entries(), identifier@, now_ms) {
                Some(until) => Some((until - now_ms) as u64),
                None => None::<u64>,
            }),
    {
        match self.position(identifier) {
            Some(i) => {
                proof {
                    lemma_find_lockout_position(self.entries(), i as int, identifier@);
                }
                match self.attempts[i].1.locked_until_ms {
                    Some(until) => {
                        if now_ms < until {
                            Some(until - now_ms)
                        } else {
                            None
                        }
                    },
                    None => None,
                }
            },
            None => {
                proof {
                    lemma_find_lockout_absent(self.entries(), identifier@);
                }
                None
            },
        }
    }

    /// Drop every record under `identifier`.
    pub fn unlock_account(&mut self, identifier: &str)
        ensures
            find_lockout(final(self).entries(), identifier@) is None,
            final(self).max_attempts == old(self).max_attempts,
            final(self).lockout_duration_ms == old(self).lockout_duration_ms,
            final(self).attempt_window_ms == old(self).attempt_window_ms,
    {
        let key: String = identifier.to_owned();
        let mut kept: Vec<(String, LockoutAttempt)> = Vec::new();
        while self.attempts.len() > 0
            invariant
                key@ == identifier@,
                self.max_attempts == old(self).max_attempts,
                self.lockout_duration_ms == old(self).lockout_duration_ms,
                self.attempt_window_ms == old(self).attempt_window_ms,
                forall|j: int| 0 <= j < kept@.len() ==> (#[trigger] kept@[j]).0@ != identifier@,
            decreases self.attempts@.len(),
        {
            let entry = self.attempts.pop().unwrap();
            if !(entry.0 == key) {
                kept.push(entry);
            }
        }
        self.attempts = kept;
        proof {
            lemma_find_lockout_none(self.entries(), identifier@);
        }
    }
}

/// One failed login folded into a record.
pub open spec fn record_step(
    a: LockoutAttempt,
    max_attempts: u32,
    lockout_duration_ms: u64,
    attempt_window_ms: u64,
    now_ms: u64,
) -> LockoutAttempt {
    match a.locked_until_ms {
        Some(until) => if now_ms < until {
            a
        } else {
            freshened_step(
                LockoutAttempt { attempts: 0, last_attempt_ms: a.last_attempt_ms, locked_until_ms: None },
                max_attempts,
                lockout_duration_ms,
                attempt_window_ms,
                now_ms,
            )
        },
        None => freshened_step(a, max_attempts, lockout_duration_ms, attempt_window_ms, now_ms),
    }
}

/// A failed login folded into an unlocked record: a stale window
/// restarts the count; reaching the cap sets the lockout clock.
pub open spec fn freshened_step(
    a: LockoutAttempt,
    max_attempts: u32,
    lockout_duration_ms: u64,
    attempt_window_ms: u64,
    now_ms: u64,
) -> LockoutAttempt {
    let base = if now_ms > a.last_attempt_ms && now_ms - a.last_attempt_ms > attempt_window_ms {
        0u32
    } else {
        a.attempts
    };
    let grown = if base >= 0xFFFF_FFFFu32 {
        base
    } else {
        (base + 1) as u32
    };
    LockoutAttempt {
        attempts: grown,
        last_attempt_ms: now_ms,
        locked_until_ms: if grown >= max_attempts {
            Some((now_ms + lockout_duration_ms) as u64)
        } else {
            None
        },
    }
}

/// One failed login folded into a record, as executable code.
fn step_attempt(
    a: LockoutAttempt,
    max_attempts: u32,
    lockout_duration_ms: u64,
    attempt_window_ms: u64,
    now_ms: u64,
) -> (r: LockoutAttempt)
    requires
        now_ms + lockout_duration_ms <= u64::MAX,
    ensures
        r == record_step(a, max_attempts, lockout_duration_ms, attempt_window_ms, now_ms),
{
    let unlocked = match a.locked_until_ms {
        Some(until) => {
            if now_ms < until {
                return a;
            }
            LockoutAttempt { attempts: 0, last_attempt_ms: a.last_attempt_ms, locked_until_ms: None }
        },
        None => a,
    };
    let base: u32 = if now_ms > unlocked.last_attempt_ms && now_ms - unlocked.last_attempt_ms
        > attempt_window_ms {
        0
    } else {
        unlocked.attempts
    };
    let grown: u32 = if base >= 0xFFFF_FFFF {
        base
    } else {
        base + 1
    };
    LockoutAttempt {
        attempts: grown,
        last_attempt_ms: now_ms,
        locked_until_ms: if grown >= max_attempts {
            Some(now_ms + lockout_duration_ms)
        } else {
            None
        },
    }
}

/// Updating the first record under `id` updates what a lookup sees,
/// for one replacement key.
proof fn lemma_find_lockout_update_one(
    entries: Seq<(String, LockoutAttempt)>,
    i: int,
    id: Seq<char>,
    key: String,
    updated: LockoutAttempt,
)
    requires
        0 <= i < entries.len(),
        entries[i].0@ == id,
        key@ == id,
        forall|j: int| 0 <= j < i ==> entries[j].0@ != id,
    ensures
        find_lockout(entries.update(i, (key, updated)), id) == Some(updated),
    decreases i,
{
    let upd = entries.update(i, (key, updated));
    if i == 0 {
        assert(upd[0].0@ == id);
    } else {
        assert(upd[0] == entries[0]);
        assert(upd.drop_first() =~= entries.drop_first().update(i - 1, (key, updated)));
        assert(forall|j: int|
            0 <= j < i - 1 ==> (#[trigger] entries.drop_first()[j]).0@ != id);
        lemma_find_lockout_update_one(entries.drop_first(), i - 1, id, key, updated);
    }
}

/// Appending a record under `id` to a list without one makes it the
/// lookup's answer.
proof fn lemma_find_lockout_append_one(
    entries: Seq<(String, LockoutAttempt)>,
    id: Seq<char>,
    key: String,
    updated: LockoutAttempt,
)
    requires
        key@ == id,
        forall|j: int| 0 <= j < entries.len() ==> (#[trigger] entries[j]).0@ != id,
    ensures
        find_lockout(entries.push((key, updated)), id) == Some(updated),
    decreases entries.len(),
{
    if entries.len() == 0 {
        assert(entries.push((key, updated))[0].0@ == id);
    } else {
        assert(entries.push((key, updated))[0] == entries[0]);
        assert(entries.push((key, updated)).drop_first() =~= entries.drop_first().push(
            (key, updated),
        ));
        assert(forall|j: int|
            0 <= j < entries.len() - 1 ==> (#[trigger] entries.drop_first()[j]).0@ != id);
        lemma_find_lockout_append_one(entries.drop_first(), id, key, updated);
    }
}

/// A lookup sees the first record under `id`.
proof fn lemma_find_lockout_position(entries: Seq<(String, LockoutAttempt)>, i: int, id: Seq<char>)
    requires
        0 <= i < entries.len(),
        entries[i].0@ == id,
        forall|j: int| 0 <= j < i ==> entries[j].0@ != id,
    ensures
        find_lockout(entries, id) == Some(entries[i].1),
    decreases i,
{
    if i > 0 {
        assert(forall|j: int|
            0 <= j < i - 1 ==> (#[trigger] entries.drop_first()[j]).0@ != id);
        lemma_find_lockout_position(entries.drop_first(), i - 1, id);
    }
}

/// A lookup sees nothing when no record carries `id`.
proof fn lemma_find_lockout_absent(entries: Seq<(String, LockoutAttempt)>, id: Seq<char>)
    requires
        forall|j: int| 0 <= j < entries.len() ==> (#[trigger] entries[j]).0@ != id,
    ensures
        find_lockout(entries, id) is None,
    decreases entries.len(),
{
    if entries.len() > 0 {
        assert(forall|j: int|
            0 <= j < entries.len() - 1 ==> (#[trigger] entries.drop_first()[j]).0@ != id);
        lemma_find_lockout_absent(entries.drop_first(), id);
    }
}

/// A lookup sees nothing when no record carries `id` — stated over
/// the final list of a rebuild.
proof fn lemma_find_lockout_none(entries: Seq<(String, LockoutAttempt)>, id: Seq<char>)
    requires
        forall|j: int| 0 <= j < entries.len() ==> (#[trigger] entries[j]).0@ != id,
    ensures
        find_lockout(entries, id) is None,
{
    lemma_find_lockout_absent(entries, id);
}


/// Why a request was rate limited.
#[derive(Debug, Clone, PartialEq, Eq, Structural)]
pub enum RateLimitError {
    RateLimitExceeded,
    InvalidConfiguration,
}

/// One identifier's request count inside its window.
#[derive(Debug, Clone, Copy, PartialEq, Eq, Structural)]
pub struct RateLimitEntry {
    pub requests: u32,
    pub window_start_ms: u64,
}

/// Admits or refuses requests per identifier and window.
pub trait RateLimiter {
    fn is_allowed(&mut self, identifier: &str, now_ms: u64) -> Result<(), RateLimitError>;

    fn reset(&mut self, identifier: &str);

    fn get_remaining(&mut self, identifier: &str, now_ms: u64) -> u32;
}

/// Mathematical image of the limiter.
pub struct LimiterView {
    pub entries: Seq<(Seq<char>, RateLimitEntry)>,
    pub max_requests: u32,
    pub window_ms: u64,
}

/// The first entry under `id`, if any.
pub open spec fn find_limit(
    entries: Seq<(Seq<char>, RateLimitEntry)>,
    id: Seq<char>,
) -> Option<RateLimitEntry>
    decreases entries.len(),
{
    if entries.len() == 0 {
        None
    } else if entries[0].0 == id {
        Some(entries[0].1)
    } else {
        find_limit(entries.drop_first(), id)
    }
}

/// The live request count of `id` at `now_ms`: an absent or expired
/// window counts zero.
pub open spec fn live_requests(v: LimiterView, id: Seq<char>, now_ms: u64) -> u32 {
    match find_limit(v.entries, id) {
        None => 0u32,
        Some(e) => if now_ms >= e.window_start_ms && now_ms - e.window_start_ms >= v.window_ms {
            0u32
        } else {
            e.requests
        },
    }
}

/// Whether one more request from `id` fits its window at `now_ms`.
pub open spec fn limiter_admits(v: LimiterView, id: Seq<char>, now_ms: u64) -> bool {
    live_requests(v, id, now_ms) < v.max_requests
}

/// How many requests `id` has left in its window at `now_ms`.
pub open spec fn limiter_remaining(v: LimiterView, id: Seq<char>, now_ms: u64) -> u32 {
    if live_requests(v, id, now_ms) >= v.max_requests {
        0u32
    } else {
        (v.max_requests - live_requests(v, id, now_ms)) as u32
    }
}

/// Admits a bounded number of requests per identifier and window.
#[derive(Debug)]
pub struct DefaultRateLimiter {
    /// The per-identifier windows, first match winning.
    pub entries: Vec<(String, RateLimitEntry)>,
    /// Requests one identifier may make per window.
    pub max_requests: u32,
    /// The window length, in milliseconds.
    pub window_ms: u64,
}

impl View for DefaultRateLimiter {
    type V = LimiterView;

    open spec fn view(&self) -> LimiterView {
        LimiterView {
            entries: self.entries@.map_values(
                |e: (String, RateLimitEntry)| (e.0@, e.1),
            ),
            max_requests: self.max_requests,
            window_ms: self.window_ms,
        }
    }
}

impl DefaultRateLimiter {
    /// One entry per identifier.
    pub open spec fn wf(&self) -> bool {
        forall|i: int, j: int|
            0 <= i < j < self.entries@.len() ==> (#[trigger] self.entries@[i]).0@ != (
            #[trigger] self.entries@[j]).0@
    }

    /// A limiter admitting `max_requests` per identifier every
    /// `window_duration_seconds`.
    pub fn new(max_requests: u32, window_duration_seconds: u64) -> (r: DefaultRateLimiter)
        requires
            window_duration_seconds <= 0xFFFF_FFFF,
        ensures
            r.wf(),
            r@.entries.len() == 0,
            r@.max_requests == max_requests,
            r@.window_ms == window_duration_seconds * 1000,
    {
        proof {
            assert(window_duration_seconds * 1000 <= 0xFFFF_FFFFu64 * 1000) by (nonlinear_arith)
                requires
                    window_duration_seconds <= 0xFFFF_FFFFu64,
            ;
        }
        DefaultRateLimiter {
            entries: Vec::new(),
            max_requests,
            window_ms: window_duration_seconds * 1000,
        }
    }

    /// The stock policy: a hundred requests a minute.
    pub fn default() -> (r: DefaultRateLimiter)
        ensures
            r.wf(),
            r@.entries.len() == 0,
            r@.max_requests == 100,
            r@.window_ms == 60000,
    {
        DefaultRateLimiter::new(100, 60)
    }

    /// A per-minute policy.
    pub fn per_minute(max_requests: u32) -> (r: DefaultRateLimiter)
        ensures
            r.wf(),
            r@.entries.len() == 0,
            r@.max_requests == max_requests,
            r@.window_ms == 60000,
    {
        DefaultRateLimiter::new(max_requests, 60)
    }

    /// A per-hour policy.
    pub fn per_hour(max_requests: u32) -> (r: DefaultRateLimiter)
        ensures
            r.wf(),
            r@.entries.len() == 0,
            r@.max_requests == max_requests,
            r@.window_ms == 3600000,
    {
        DefaultRateLimiter::new(max_requests, 3600)
    }

    /// Where `identifier` sits in the entry list.
    fn position(&self, identifier: &str) -> (r: Option<usize>)
        ensures
            match r {
                Some(i) => i < self.entries@.len() && self.entries@[i as int].0@ == identifier@
                    && (forall|j: int| 0 <= j < i ==> self.entries@[j].0@ != identifier@),
                None => forall|j: int|
                    0 <= j < self.entries@.len() ==> (#[trigger] self.entries@[j]).0@
                        != identifier@,
            },
    {
        let key: String = identifier.to_owned();
        let mut i: usize = 0;
        while i < self.entries.len()
            invariant
                i <= self.entries@.len(),
                key@ == identifier@,
                forall|j: int| 0 <= j < i ==> (#[trigger] self.entries@[j]).0@ != identifier@,
            decreases self.entries@.len() - i,
        {
            if self.entries[i].0 == key {
                return Some(i);
            }
            i = i + 1;
        }
        None
    }

    /// Admit one more request from `identifier` if its window has
    /// room — counting it — else refuse.
    pub fn is_allowed(&mut self, identifier: &str, now_ms: u64) -> (r: Result<
        (),
        RateLimitError,
    >)
        requires
            old(self).wf(),
        ensures
            final(self).wf(),
            final(self).max_requests == old(self).max_requests,
            final(self).window_ms == old(self).window_ms,
            r is Ok <==> limiter_admits(old(self)@, identifier@, now_ms),
            r is Ok && old(self).window_ms > 0 ==> live_requests(final(self)@, identifier@, now_ms)
                == live_requests(old(self)@, identifier@, now_ms) + 1,
            r is Err ==> *final(self) == *old(self),
    {
        let max_requests = self.max_requests;
        let window_ms = self.window_ms;
        let found = self.position(identifier);
        let key: String = identifier.to_owned();
        match found {
            Some(i) => {
                proof {
                    assert(self@.entries[i as int].0 == identifier@);
                    assert forall|j: int| 0 <= j < i implies (#[trigger] self@.entries[j]).0
                        != identifier@ by {
                        assert(self@.entries[j].0 == self.entries@[j].0@);
                    }
                    lemma_find_limit_position(self@.entries, i as int, identifier@);
                }
                let current = self.entries[i].1;
                let live: RateLimitEntry = if now_ms >= current.window_start_ms && now_ms
                    - current.window_start_ms >= window_ms {
                    RateLimitEntry { requests: 0, window_start_ms: now_ms }
                } else {
                    current
                };
                if live.requests >= max_requests {
                    if now_ms >= current.window_start_ms && now_ms - current.window_start_ms
                        >= window_ms {
                        // the stale window would have admitted, so this
                        // branch is unreachable when max_requests > 0
                        assert(live.requests == 0 && max_requests == 0);
                    }
                    return Err(RateLimitError::RateLimitExceeded);
                }
                let next = RateLimitEntry {
                    requests: live.requests + 1,
                    window_start_ms: live.window_start_ms,
                };
                self.entries.set(i, (key, next));
                proof {
                    assert(self.wf()) by {
                        assert(forall|t: int|
                            0 <= t < self.entries@.len() && t != i ==> (
                            #[trigger] self.entries@[t]) == old(self).entries@[t]);
                    }
                    assert(old(self)@.entries[i as int].0 == identifier@);
                    assert forall|j: int| 0 <= j < i implies (
                    #[trigger] old(self)@.entries[j]).0 != identifier@ by {
                        assert(old(self)@.entries[j].0 == old(self).entries@[j].0@);
                    }
                    lemma_find_limit_update(old(self)@.entries, i as int, identifier@, next);
                    assert(self@.entries =~= old(self)@.entries.update(
                        i as int,
                        (identifier@, next),
                    ));
                }
                Ok(())
            },
            None => {
                proof {
                    assert forall|j: int| 0 <= j < self@.entries.len() implies (
                    #[trigger] self@.entries[j]).0 != identifier@ by {
                        assert(self@.entries[j].0 == self.entries@[j].0@);
                    }
                    lemma_find_limit_absent(self@.entries, identifier@);
                }
                if max_requests == 0 {
                    return Err(RateLimitError::RateLimitExceeded);
                }
                let next = RateLimitEntry { requests: 1, window_start_ms: now_ms };
                self.entries.push((key, next));
                proof {
                    assert(self.wf()) by {
                        assert(forall|t: int|
                            0 <= t < old(self).entries@.len() ==> (#[trigger] self.entries@[t])
                                == old(self).entries@[t]);
                    }
                    assert forall|j: int| 0 <= j < old(self)@.entries.len() implies (
                    #[trigger] old(self)@.entries[j]).0 != identifier@ by {
                        assert(old(self)@.entries[j].0 == old(self).entries@[j].0@);
                    }
                    lemma_find_limit_append(old(self)@.entries, identifier@, next);
                    assert(self@.entries =~= old(self)@.entries.push((identifier@, next)));
                }
                Ok(())
            },
        }
    }

    /// Forget `identifier`'s window.
    pub fn reset(&mut self, identifier: &str)
        requires
            old(self).wf(),
        ensures
            final(self).wf(),
            final(self).max_requests == old(self).max_requests,
            final(self).window_ms == old(self).window_ms,
            find_limit(final(self)@.entries, identifier@) is None,
    {
        let key: String = identifier.to_owned();
        let mut kept: Vec<(String, RateLimitEntry)> = Vec::new();
        while self.entries.len() > 0
            invariant
                key@ == identifier@,
                self.max_requests == old(self).max_requests,
                self.window_ms == old(self).window_ms,
                forall|j: int| 0 <= j < kept@.len() ==> (#[trigger] kept@[j]).0@ != identifier@,
                forall|i: int, j: int|
                    0 <= i < j < kept@.len() ==> (#[trigger] kept@[i]).0@ != (
                    #[trigger] kept@[j]).0@,
            decreases self.entries@.len(),
        {
            let entry = self.entries.pop().unwrap();
            if !(entry.0 == key) {
                let mut duplicate = false;
                let mut t: usize = 0;
                while t < kept.len()
                    invariant
                        t <= kept@.len(),
                        duplicate ==> exists|j: int|
                            0 <= j < kept@.len() && (#[trigger] kept@[j]).0@ == entry.0@,
                        !duplicate ==> forall|j: int|
                            0 <= j < t ==> (#[trigger] kept@[j]).0@ != entry.0@,
                    decreases kept@.len() - t,
                {
                    if kept[t].0 == entry.0 {
                        duplicate = true;
                    }
                    t = t + 1;
                }
                if !duplicate {
                    kept.push(entry);
                }
            }
        }
        self.entries = kept;
        proof {
            assert forall|j: int| 0 <= j < self@.entries.len() implies (
            #[trigger] self@.entries[j]).0 != identifier@ by {
                assert(self@.entries[j].0 == self.entries@[j].0@);
            }
            lemma_find_limit_absent(self@.entries, identifier@);
        }
    }

    /// How many requests `identifier` has left in its window.
    pub fn get_remaining(&mut self, identifier: &str, now_ms: u64) -> (r: u32)
        requires
            old(self).wf(),
        ensures
            final(self).wf(),
            *final(self) == *old(self),
            r == limiter_remaining(old(self)@, identifier@, now_ms),
    {
        let max_requests = self.max_requests;
        let window_ms = self.window_ms;
        match self.position(identifier) {
            Some(i) => {
                proof {
                    assert(self@.entries[i as int].0 == identifier@);
                    assert forall|j: int| 0 <= j < i implies (#[trigger] self@.entries[j]).0
                        != identifier@ by {
                        assert(self@.entries[j].0 == self.entries@[j].0@);
                    }
                    lemma_find_limit_position(self@.entries, i as int, identifier@);
                }
                let current = self.entries[i].1;
                let live: u32 = if now_ms >= current.window_start_ms && now_ms
                    - current.window_start_ms >= window_ms {
                    0
                } else {
                    current.requests
                };
                if live >= max_requests {
                    0
                } else {
                    max_requests - live
                }
            },
            None => {
                proof {
                    assert forall|j: int| 0 <= j < self@.entries.len() implies (
                    #[trigger] self@.entries[j]).0 != identifier@ by {
                        assert(self@.entries[j].0 == self.entries@[j].0@);
                    }
                    lemma_find_limit_absent(self@.entries, identifier@);
                }
                max_requests
            },
        }
    }
}

/// A lookup sees the first entry under `id`.
proof fn lemma_find_limit_position(
    entries: Seq<(Seq<char>, RateLimitEntry)>,
    i: int,
    id: Seq<char>,
)
    requires
        0 <= i < entries.len(),
        entries[i].0 == id,
        forall|j: int| 0 <= j < i ==> entries[j].0 != id,
    ensures
        find_limit(entries, id) == Some(entries[i].1),
    decreases i,
{
    if i > 0 {
        assert(forall|j: int|
            0 <= j < i - 1 ==> (#[trigger] entries.drop_first()[j]).0 != id);
        lemma_find_limit_position(entries.drop_first(), i - 1, id);
    }
}

/// A lookup sees nothing when no entry carries `id`.
proof fn lemma_find_limit_absent(entries: Seq<(Seq<char>, RateLimitEntry)>, id: Seq<char>)
    requires
        forall|j: int| 0 <= j < entries.len() ==> (#[trigger] entries[j]).0 != id,
    ensures
        find_limit(entries, id) is None,
    decreases entries.len(),
{
    if entries.len() > 0 {
        assert(forall|j: int|
            0 <= j < entries.len() - 1 ==> (#[trigger] entries.drop_first()[j]).0 != id);
        lemma_find_limit_absent(entries.drop_first(), id);
    }
}

/// Updating the first entry under `id` updates what a lookup sees.
proof fn lemma_find_limit_update(
    entries: Seq<(Seq<char>, RateLimitEntry)>,
    i: int,
    id: Seq<char>,
    next: RateLimitEntry,
)
    requires
        0 <= i < entries.len(),
        entries[i].0 == id,
        forall|j: int| 0 <= j < i ==> entries[j].0 != id,
    ensures
        find_limit(entries.update(i, (id, next)), id) == Some(next),
    decreases i,
{
    let upd = entries.update(i, (id, next));
    if i == 0 {
    } else {
        assert(upd[0] == entries[0]);
        assert(upd.drop_first() =~= entries.drop_first().update(i - 1, (id, next)));
        assert(forall|j: int|
            0 <= j < i - 1 ==> (#[trigger] entries.drop_first()[j]).0 != id);
        lemma_find_limit_update(entries.drop_first(), i - 1, id, next);
    }
}

/// Appending an entry under `id` to a list without one makes it the
/// lookup's answer.
proof fn lemma_find_limit_append(
    entries: Seq<(Seq<char>, RateLimitEntry)>,
    id: Seq<char>,
    next: RateLimitEntry,
)
    requires
        forall|j: int| 0 <= j < entries.len() ==> (#[trigger] entries[j]).0 != id,
    ensures
        find_limit(entries.push((id, next)), id) == Some(next),
    decreases entries.len(),
{
    if entries.len() == 0 {
    } else {
        assert(entries.push((id, next))[0] == entries[0]);
        assert(entries.push((id, next)).drop_first() =~= entries.drop_first().push((id, next)));
        assert(forall|j: int|
            0 <= j < entries.len() - 1 ==> (#[trigger] entries.drop_first()[j]).0 != id);
        lemma_find_limit_append(entries.drop_first(), id, next);
    }
}

/// Why a password was refused.
#[derive(Debug, Clone, Copy, PartialEq, Eq, Structural)]
pub enum PasswordValidationError {
    TooShort { min: usize },
    TooLong { max: usize },
    NoUppercase,
    NoLowercase,
    NoDigit,
    NoSpecialChar,
    ForbiddenChars,
    TooCommon,
}

/// What a password must look like.
#[derive(Debug, Clone)]
pub struct PasswordRequirements {
    pub min_length: usize,
    pub max_length: usize,
    pub require_uppercase: bool,
    pub require_lowercase: bool,
    pub require_digit: bool,
    pub require_special_char: bool,
    pub allowed_special_chars: String,
    pub forbidden_passwords: Vec<String>,
}

/// Judges passwords against a policy.
pub trait PasswordValidator {
    fn validate_password(&self, password: &str) -> Result<(), PasswordValidationError>;
}

/// The stock password policy.
#[derive(Debug, Clone)]
pub struct DefaultPasswordValidator {
    pub requirements: PasswordRequirements,
}

impl DefaultPasswordValidator {
    /// A validator for the given policy.
    pub fn new(requirements: PasswordRequirements) -> (r: DefaultPasswordValidator)
        ensures
            r.requirements == requirements,
    {
        DefaultPasswordValidator { requirements }
    }

    /// A validator for the stock policy: fourteen characters and
    /// up, every class required.
    pub fn default() -> (r: DefaultPasswordValidator)
        ensures
            r.requirements.min_length == 14,
            r.requirements.max_length == 128,
            r.requirements.require_uppercase,
            r.requirements.require_lowercase,
            r.requirements.require_digit,
            r.requirements.require_special_char,
            r.requirements.forbidden_passwords@.len() == 5,
    {
        let mut forbidden_passwords: Vec<String> = Vec::new();
        forbidden_passwords.push(String::from_str("password"));
        forbidden_passwords.push(String::from_str("123456"));
        forbidden_passwords.push(String::from_str("password123"));
        forbidden_passwords.push(String::from_str("admin"));
        forbidden_passwords.push(String::from_str("qwerty"));
        DefaultPasswordValidator {
            requirements: PasswordRequirements {
                min_length: 14,
                max_length: 128,
                require_uppercase: true,
                require_lowercase: true,
                require_digit: true,
                require_special_char: true,
                allowed_special_chars: String::from_str("!@#$%^&*()_+-=[]{}|;:,.<>?"),
                forbidden_passwords,
            },
        }
    }
}

/// Why a notification failed.
#[derive(Debug, Clone, Copy, PartialEq, Eq, Structural)]
pub enum NotifierError {
    SendFailed,
    ServiceUnavailable,
}

/// Why a log operation failed.
#[derive(Debug, Clone)]
pub enum LogError {
    Io(String),
    ParseError(String),
}

/// Logs to a plain text file; the I/O itself lives with the caller.
#[derive(Debug, Clone)]
pub struct TextLogManager {
    pub file_path: String,
}

impl TextLogManager {
    /// A manager writing to `file_path`.
    pub fn new(file_path: &str) -> (r: TextLogManager)
        ensures
            r.file_path@ == file_path@,
    {
        TextLogManager { file_path: file_path.to_owned() }
    }

    /// A manager writing to the stock location.
    pub fn default() -> (r: TextLogManager)
        ensures
            r.file_path@ == "server/logs/app.log"@,
    {
        TextLogManager::new("server/logs/app.log")
    }
}

} // verus!
