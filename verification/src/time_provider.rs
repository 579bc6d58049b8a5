//! Clock abstraction: a source of the current time in integer milliseconds
//! since the Unix epoch, injectable so that tests can fix or advance time
//! deterministically.

use vstd::prelude::*;

verus! {

/// A source of the current wall-clock time, as milliseconds since the Unix
/// epoch. Nothing is promised of the value returned: the pool algorithms take
/// the sampled time as an explicit argument and are verified for every value.
pub trait TimeProvider {
    fn unix_ts_ms(&self) -> i64;
}

/// The live clock: reads the system time.
pub struct SystemTimeProvider {}

/// Relies on std::time::SystemTime::now, SystemTime::duration_since and
/// Duration::as_millis to read the wall clock as milliseconds since the Unix
/// epoch. The result depends on the machine's clock, so nothing is stated of
/// it. A clock before the epoch yields 0 rather than a panic.
#[verifier::external_body]
fn system_unix_ts_ms() -> i64 {
    match std::time::SystemTime::now().duration_since(std::time::UNIX_EPOCH) {
        Ok(dur) => dur.as_millis() as i64,
        Err(_) => 0,
    }
}

impl TimeProvider for SystemTimeProvider {
    fn unix_ts_ms(&self) -> i64 {
        system_unix_ts_ms()
    }
}

/// A controllable clock for deterministic tests: always reports the time it
/// was last set to.
pub struct FixedTimeProvider {
    pub fixed_unix_ts_ms: i64,
}

impl FixedTimeProvider {
    pub fn new(fixed_unix_ts_ms: i64) -> (p: Self)
        ensures
            p.fixed_unix_ts_ms == fixed_unix_ts_ms,
    {
        Self { fixed_unix_ts_ms }
    }

    pub fn set(&mut self, ms: i64)
        ensures
            final(self).fixed_unix_ts_ms == ms,
    {
        self.fixed_unix_ts_ms = ms;
    }

    pub fn add(&mut self, ms: i64)
        requires
            i64::MIN <= old(self).fixed_unix_ts_ms + ms <= i64::MAX,
        ensures
            final(self).fixed_unix_ts_ms == old(self).fixed_unix_ts_ms + ms,
    {
        self.fixed_unix_ts_ms = self.fixed_unix_ts_ms + ms;
    }
}

impl TimeProvider for FixedTimeProvider {
    fn unix_ts_ms(&self) -> (r: i64)
        ensures
            r == self.fixed_unix_ts_ms,
    {
        self.fixed_unix_ts_ms
    }
}

/// A clock that always reports time 0.
pub struct ZeroTimeProvider {}

impl TimeProvider for ZeroTimeProvider {
    fn unix_ts_ms(&self) -> (r: i64)
        ensures
            r == 0,
    {
        0
    }
}

} // verus!
