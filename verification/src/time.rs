//! Points in time and spans between them, counted in nanoseconds.
use vstd::prelude::*;

verus! {

/// A span of time, in nanoseconds
#[derive(Debug, Clone, Copy, PartialEq, Eq, PartialOrd, Ord, Hash)]
pub struct Duration {
    pub nanos: u64,
}

/// A point on a monotonic clock, in nanoseconds since the clock's origin
#[derive(Debug, Clone, Copy, PartialEq, Eq, PartialOrd, Ord, Hash)]
pub struct Instant {
    pub nanos: u64,
}

impl View for Duration {
    type V = int;

    open spec fn view(&self) -> int {
        self.nanos as int
    }
}

impl View for Instant {
    type V = int;

    open spec fn view(&self) -> int {
        self.nanos as int
    }
}

/// The time from `earlier` to `later`, zero where `later` does not come after it
pub open spec fn elapsed(earlier: int, later: int) -> int {
    if later > earlier {
        later - earlier
    } else {
        0
    }
}

impl Duration {
    pub fn from_nanos(nanos: u64) -> (d: Duration)
        ensures
            d@ == nanos,
            d.nanos == nanos,
    {
        Duration { nanos }
    }

    pub fn from_millis(millis: u64) -> (d: Duration)
        requires
            millis * 1_000_000 <= u64::MAX,
        ensures
            d@ == millis * 1_000_000,
            d.nanos == millis * 1_000_000,
    {
        Duration { nanos: millis * 1_000_000 }
    }

    pub fn from_secs(secs: u64) -> (d: Duration)
        requires
            secs * 1_000_000_000 <= u64::MAX,
        ensures
            d@ == secs * 1_000_000_000,
            d.nanos == secs * 1_000_000_000,
    {
        Duration { nanos: secs * 1_000_000_000 }
    }
}

impl Instant {
    /// The point `span` after this one
    pub fn after(self, span: Duration) -> (t: Instant)
        requires
            self@ + span@ <= u64::MAX,
        ensures
            t@ == self@ + span@,
            t.nanos == self.nanos + span.nanos,
    {
        Instant { nanos: self.nanos + span.nanos }
    }

    /// The time since `earlier`, zero where that point is still to come
    pub fn saturating_duration_since(self, earlier: Instant) -> (d: Duration)
        ensures
            d@ == elapsed(earlier@, self@),
            self.nanos >= earlier.nanos ==> d.nanos == self.nanos - earlier.nanos,
            self.nanos <= earlier.nanos ==> d.nanos == 0,
    {
        Duration { nanos: self.nanos.saturating_sub(earlier.nanos) }
    }
}

/// Time that has passed undoes time that was added, and none has passed before a
/// point is reached.
pub proof fn law_elapsed_undoes_after(t: int, span: int)
    requires
        span >= 0,
    ensures
        elapsed(t, t + span) == span,
        elapsed(t + span, t) == 0,
{
}

} // verus!
