//! Spans of time and points in time, in nanoseconds.

use vstd::prelude::*;

verus! {

/// A span of time.
#[derive(Clone, Copy, Debug, PartialEq, Eq, PartialOrd, Ord, Hash, Structural)]
pub struct Duration {
    pub nanos: u128,
}

/// A point in time, counted from an arbitrary start.
#[derive(Clone, Copy, Debug, PartialEq, Eq, PartialOrd, Ord, Hash, Structural)]
pub struct Instant {
    pub nanos: u64,
}

/// How `std::fmt::Debug` shows a span of that many seconds and nanoseconds.
pub uninterp spec fn shown_span(secs: u64, nanos: u32) -> Seq<char>;

/// Calls `std::format!` with the `std::fmt::Debug` output of the
/// `std::time::Duration` of that many seconds and nanoseconds, which is a function
/// of the two.
#[verifier::external_body]
fn span_output(secs: u64, nanos: u32) -> (r: String)
    requires
        nanos < 1_000_000_000,
    ensures
        r@ == shown_span(secs, nanos),
{
    format!("{:?}", std::time::Duration::new(secs, nanos))
}

impl Duration {
    /// The span is one that `std::time::Duration` can hold.
    pub open spec fn is_holdable(self) -> bool {
        self.nanos / 1_000_000_000 <= u64::MAX
    }

    /// How debug output shows the span.
    pub open spec fn shown(self) -> Seq<char> {
        shown_span(
            (self.nanos / 1_000_000_000) as u64,
            (self.nanos % 1_000_000_000) as u32,
        )
    }

    /// What debug output shows of the span.
    pub fn debug_text(self) -> (r: String)
        requires
            self.is_holdable(),
        ensures
            r@ == self.shown(),
    {
        span_output((self.nanos / 1_000_000_000) as u64, (self.nanos % 1_000_000_000) as u32)
    }

    pub open spec fn spec_from_secs(secs: u64) -> Duration {
        Duration { nanos: (secs * 1_000_000_000) as u128 }
    }

    pub fn from_secs(secs: u64) -> (r: Duration)
        ensures
            r == Duration::spec_from_secs(secs),
            r.nanos == secs * 1_000_000_000,
    {
        Duration { nanos: secs as u128 * 1_000_000_000 }
    }

    pub fn from_millis(millis: u64) -> (r: Duration)
        ensures
            r.nanos == millis * 1_000_000,
    {
        Duration { nanos: millis as u128 * 1_000_000 }
    }

    pub fn is_zero(self) -> (r: bool)
        ensures
            r == (self.nanos == 0),
    {
        self.nanos == 0
    }

    pub open spec fn spec_min(self, other: Duration) -> Duration {
        if other.nanos < self.nanos {
            other
        } else {
            self
        }
    }

    /// The shorter of the two.
    pub fn shorter(self, other: Duration) -> (r: Duration)
        ensures
            r == self.spec_min(other),
    {
        if other.nanos < self.nanos {
            other
        } else {
            self
        }
    }
}

impl Instant {
    /// The time since `earlier`, or nothing where that is later.
    pub fn since(self, earlier: Instant) -> (r: Duration)
        ensures
            r.nanos == if self.nanos >= earlier.nanos {
                self.nanos - earlier.nanos
            } else {
                0
            },
    {
        if self.nanos >= earlier.nanos {
            Duration { nanos: (self.nanos - earlier.nanos) as u128 }
        } else {
            Duration { nanos: 0 }
        }
    }
}

/// The time since a moment is how much later it is now, and nothing where it is earlier.
pub proof fn law_time_since_is_the_difference(now: Instant, earlier: Instant, r: Duration)
    requires
        call_ensures(Instant::since, (now, earlier), r),
    ensures
        earlier.nanos <= now.nanos ==> earlier.nanos + r.nanos == now.nanos,
        earlier.nanos > now.nanos ==> r.nanos == 0,
{
}

/// A second has a thousand milliseconds, and a millisecond a million nanoseconds.
pub proof fn law_units_of_time(n: u64, secs: Duration, millis: Duration)
    requires
        call_ensures(Duration::from_secs, (n,), secs),
        call_ensures(Duration::from_millis, (n,), millis),
    ensures
        secs.nanos == n * 1_000_000_000,
        millis.nanos == n * 1_000_000,
        secs.nanos == 1000 * millis.nanos,
        secs == Duration::spec_from_secs(n),
{
}

/// Of two times the shorter is taken.
pub proof fn law_shorter_time_is_taken(a: Duration, b: Duration)
    ensures
        a.spec_min(b).nanos <= a.nanos,
        a.spec_min(b).nanos <= b.nanos,
        a.spec_min(b) == a || a.spec_min(b) == b,
{
}

} // verus!
