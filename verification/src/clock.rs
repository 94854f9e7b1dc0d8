//! Moments of a monotonic clock.
use vstd::prelude::*;

verus! {

/// Nanoseconds in a second.
pub const SECOND: u64 = 1_000_000_000;

/// A reading of the monotonic clock, in nanoseconds since its start.
#[derive(Clone, Copy, Debug, PartialEq, Eq, Structural)]
pub struct Moment {
    pub nanos: u64,
}

/// The nanoseconds from `earlier` to `now`; none if `earlier` is the later one.
pub open spec fn elapsed(now: Moment, earlier: Moment) -> u64 {
    if now.nanos >= earlier.nanos {
        (now.nanos - earlier.nanos) as u64
    } else {
        0
    }
}

impl Moment {
    pub fn since(self, earlier: Moment) -> (r: u64)
        ensures
            r == elapsed(self, earlier),
            earlier.nanos <= self.nanos ==> earlier.nanos + r == self.nanos,
            self.nanos < earlier.nanos ==> r == 0,
    {
        if self.nanos >= earlier.nanos {
            self.nanos - earlier.nanos
        } else {
            0
        }
    }
}

} // verus!
