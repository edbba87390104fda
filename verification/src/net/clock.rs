//! The monotonic clock, read at the edge so that every decision about time
//! is a function of a timestamp handed to it. Times are milliseconds since
//! a [`Clock`] was started. A clock remembers its last reading and never
//! reads earlier than it, so an expiry once reached stays reached.
use vstd::prelude::*;
use std::time::Instant;

verus! {

#[verifier::external_type_specification]
#[verifier::external_body]
pub struct ExInstant(Instant);

/// `Instant::now`: a reading of the monotonic clock. Nothing is promised of
/// its value.
#[verifier::external_body]
fn instant_now() -> (r: Instant) {
    Instant::now()
}

/// `Instant::elapsed` of `start`, in whole milliseconds by
/// `Duration::as_millis`. Nothing is promised of the value: it is what the
/// monotonic clock says, which never goes backwards between readings of one
/// process, but how far it has gone depends on the machine.
#[verifier::external_body]
fn millis_since(start: &Instant) -> (r: u128) {
    start.elapsed().as_millis()
}

/// A monotonic clock, counting milliseconds from when it was started, and
/// remembering the last reading it was advanced to.
#[derive(Clone, Copy)]
pub struct Clock {
    start: Instant,
    last: u64,
}

impl Clock {
    /// The reading the clock was last advanced to.
    pub closed spec fn last(&self) -> u64 {
        self.last
    }

    /// A clock started now.
    pub fn started() -> (r: Clock)
        ensures
            r.last() == 0,
    {
        Clock { start: instant_now(), last: 0 }
    }

    /// Milliseconds since the clock was started, saturating at the end of
    /// `u64`, and never earlier than its last reading.
    pub fn read(&self) -> (r: u64)
        ensures
            r >= self.last(),
    {
        let ms = millis_since(&self.start);
        let now = if ms > u64::MAX as u128 {
            u64::MAX
        } else {
            ms as u64
        };
        if now > self.last {
            now
        } else {
            self.last
        }
    }

    /// Read the clock: the reading, and the clock that remembers it.
    pub fn advanced(self) -> (r: (Clock, u64))
        ensures
            r.1 >= self.last(),
            r.0.last() == r.1,
    {
        let now = self.read();
        (Clock { start: self.start, last: now }, now)
    }
}

} // verus!
