//! Spans of time and monotonic instants, in nanoseconds.

use vstd::prelude::*;

use crate::binary64::{law_proper_fractions, law_whole_numbers_are_finite, of_int, Binary64};

verus! {

/// A span of time.
#[derive(Debug, Clone, Copy, PartialEq, Eq, Structural)]
pub struct Duration {
    pub nanos: u128,
}

/// A reading of a monotonic clock, counted from an arbitrary origin.
///
/// Monotonic, not wall clock: a clock step must never be able to produce a
/// negative elapsed time and therefore a nonsensical rate.
#[derive(Debug, Clone, Copy, PartialEq, Eq, Structural)]
pub struct Instant {
    pub nanos: u128,
}

/// `nanos` nanoseconds as a number of seconds: the whole seconds plus the
/// remaining nanoseconds divided by a thousand million, each step rounded.
pub open spec fn secs_real(nanos: nat) -> Binary64 {
    of_int((nanos / 1_000_000_000) as int).sum(
        of_int((nanos % 1_000_000_000) as int).quotient(of_int(1_000_000_000)),
    )
}

impl Duration {
    /// No time at all.
    pub fn zero() -> (r: Duration)
        ensures
            r.nanos == 0,
    {
        Duration { nanos: 0 }
    }

    pub fn from_secs(secs: u64) -> (r: Duration)
        ensures
            r.nanos == secs * 1_000_000_000,
    {
        Duration { nanos: secs as u128 * 1_000_000_000 }
    }

    pub fn from_millis(millis: u64) -> (r: Duration)
        ensures
            r.nanos == millis * 1_000_000,
    {
        Duration { nanos: millis as u128 * 1_000_000 }
    }

    pub fn from_micros(micros: u64) -> (r: Duration)
        ensures
            r.nanos == micros * 1_000,
    {
        Duration { nanos: micros as u128 * 1_000 }
    }

    /// Whole microseconds.
    pub fn as_micros(&self) -> (r: u128)
        ensures
            r == self.nanos / 1_000,
    {
        self.nanos / 1_000
    }

    /// The number of seconds.
    pub fn as_secs_real(&self) -> (r: Binary64)
        ensures
            r == secs_real(self.nanos as nat),
    {
        let secs = Binary64::from_u128(self.nanos / 1_000_000_000);
        let rest = Binary64::from_u128(self.nanos % 1_000_000_000);
        let giga = Binary64::from_u128(1_000_000_000);
        proof {
            law_whole_numbers_are_finite((self.nanos / 1_000_000_000) as nat);
            law_proper_fractions((self.nanos % 1_000_000_000) as nat, 1_000_000_000);
        }
        secs.plus(&rest.over(&giga))
    }
}

impl Instant {
    /// The time since `earlier`, or none where it is later.
    pub open spec fn since(self, earlier: Instant) -> Duration {
        if self.nanos >= earlier.nanos {
            Duration { nanos: (self.nanos - earlier.nanos) as u128 }
        } else {
            Duration { nanos: 0 }
        }
    }

    /// The time since `earlier`, or none where it is later.
    pub fn saturating_duration_since(&self, earlier: Instant) -> (r: Duration)
        ensures
            r == self.since(earlier),
    {
        if self.nanos >= earlier.nanos {
            Duration { nanos: self.nanos - earlier.nanos }
        } else {
            Duration { nanos: 0 }
        }
    }
}

} // verus!
