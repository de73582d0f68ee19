//! Points in time and lengths of time.

use vstd::prelude::*;

verus! {

/// A length of time: whole seconds, and nanoseconds below one second.
#[derive(Debug, Clone, Copy, PartialEq, Eq, PartialOrd, Ord, Structural)]
pub struct Duration {
    pub secs: u64,
    pub subsec_nanos: u32,
}

/// A point in time, in nanoseconds from the start of the system.
#[derive(Debug, Clone, Copy, PartialEq, Eq, PartialOrd, Ord, Structural)]
pub struct Time {
    pub nanos: u64,
}

impl Duration {
    /// The length in nanoseconds.
    pub open spec fn total_nanos(self) -> int {
        self.secs * 1_000_000_000 + self.subsec_nanos
    }

    /// The nanoseconds beside the seconds are below one second.
    pub open spec fn wf(self) -> bool {
        self.subsec_nanos < 1_000_000_000
    }

    pub fn from_secs(secs: u64) -> (d: Self)
        ensures
            d.wf(),
            d.total_nanos() == secs * 1_000_000_000,
    {
        Duration { secs, subsec_nanos: 0 }
    }

    pub fn from_millis(millis: u64) -> (d: Self)
        ensures
            d.wf(),
            d.total_nanos() == millis * 1_000_000,
    {
        Duration { secs: millis / 1_000, subsec_nanos: (millis % 1_000) as u32 * 1_000_000 }
    }

    pub fn from_micros(micros: u64) -> (d: Self)
        ensures
            d.wf(),
            d.total_nanos() == micros * 1_000,
    {
        Duration { secs: micros / 1_000_000, subsec_nanos: (micros % 1_000_000) as u32 * 1_000 }
    }

    pub fn from_nanos(nanos: u64) -> (d: Self)
        ensures
            d.wf(),
            d.total_nanos() == nanos,
    {
        Duration {
            secs: nanos / 1_000_000_000,
            subsec_nanos: (nanos % 1_000_000_000) as u32,
        }
    }
}

/// A length of time is determined by its nanoseconds.
pub proof fn lemma_duration_by_nanos(a: Duration, b: Duration)
    requires
        a.wf(),
        b.wf(),
        a.total_nanos() == b.total_nanos(),
    ensures
        a == b,
{
}

impl Time {
    /// The start of the system.
    pub fn zero() -> (t: Self)
        ensures
            t.nanos == 0,
    {
        Time { nanos: 0 }
    }

    /// The time `d` after this one.
    pub fn plus(self, d: Duration) -> (t: Self)
        requires
            self.nanos + d.total_nanos() <= u64::MAX,
        ensures
            t.nanos == self.nanos + d.total_nanos(),
    {
        Time { nanos: self.nanos + (d.secs * 1_000_000_000 + d.subsec_nanos as u64) }
    }

    /// How long this time is after the other; nothing if it is not.
    pub fn saturating_duration_since(self, earlier: Time) -> (d: Duration)
        ensures
            d.wf(),
            d.total_nanos() == if self.nanos > earlier.nanos {
                self.nanos - earlier.nanos
            } else {
                0
            },
    {
        Duration::from_nanos(self.nanos.saturating_sub(earlier.nanos))
    }
}

} // verus!
