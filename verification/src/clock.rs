//! Sources of the current time.
use std::time::{UNIX_EPOCH, SystemTime};
use vstd::prelude::*;

verus! {

/// Something that tells the current time in epoch milliseconds.
///
/// The engine and the risk checker read the time through a clock, so a caller
/// can put a fixed or a simulated time in place of the system time.
pub trait Clock: Send + Sync {
    /// The clock can tell `now`. A clock that does not say otherwise can tell any
    /// time.
    open spec fn tells(&self, now: u64) -> bool {
        true
    }

    fn now_ms(&self) -> (now: u64)
        ensures
            self.tells(now),
    ;
}

/// A value that is kept as it came.
pub(crate) struct Held<T>(pub(crate) T);

/// The clock of the machine.
#[derive(Debug, Clone, Copy)]
pub struct SystemClock;

impl Clock for SystemClock {
    fn now_ms(&self) -> u64 {
        current_time_ms()
    }
}

/// A clock that stands still.
#[derive(Debug, Clone, Copy)]
pub struct FixedClock(pub u64);

impl Clock for FixedClock {
    open spec fn tells(&self, now: u64) -> bool {
        now == self.0
    }

    fn now_ms(&self) -> (now: u64)
        ensures
            now == self.0,
    {
        self.0
    }
}

/// The system time in epoch milliseconds, from `std::time::SystemTime::now`; 0
/// where the system time lies before the epoch. Nothing is claimed of the value.
#[verifier::external_body]
pub(crate) fn current_time_ms() -> (now: u64)
{
    SystemTime::now().duration_since(UNIX_EPOCH).unwrap_or_default().as_millis() as u64
}

} // verus!
