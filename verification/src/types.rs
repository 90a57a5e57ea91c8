//! Plain values that travel through the collector: clock readings, elapsed
//! times and completed-span messages.

use vstd::prelude::*;

verus! {

/// Nanoseconds in one second.
pub const NANOS_PER_SEC: u32 = 1_000_000_000;

/// A reading of a monotonic clock: the time elapsed since a fixed origin.
#[derive(Debug, Clone, Copy, PartialEq, Eq, Structural)]
pub struct Timestamp {
    pub secs: u64,
    pub nanos: u32,
}

/// The wall-clock time between the activation and the completion of a span.
#[derive(Debug, Clone, Copy, PartialEq, Eq, Structural)]
pub struct SpanDuration {
    pub secs: u64,
    pub nanos: u32,
}

/// One completed timed operation.
#[derive(Debug, Clone, Copy, PartialEq, Eq)]
pub struct SpanMsg {
    pub span_id: u64,
    /// `0` for a span without a parent.
    pub parent_id: u64,
    /// The position of the span's name in the name registry.
    pub name_id: u32,
    pub scope: &'static str,
    pub duration: SpanDuration,
}

/// The nanoseconds from `start` to `end`; zero where `end` is not after
/// `start`.
pub open spec fn nanos_between(start: Timestamp, end: Timestamp) -> nat {
    if end.total_nanos() >= start.total_nanos() {
        (end.total_nanos() - start.total_nanos()) as nat
    } else {
        0
    }
}

/// The time from `start` to `end`, split into whole seconds and the
/// nanoseconds that remain.
pub open spec fn elapsed_between(start: Timestamp, end: Timestamp) -> SpanDuration {
    SpanDuration {
        secs: (nanos_between(start, end) / (NANOS_PER_SEC as nat)) as u64,
        nanos: (nanos_between(start, end) % (NANOS_PER_SEC as nat)) as u32,
    }
}

impl Timestamp {
    /// The sub-second part is less than a second.
    pub open spec fn wf(self) -> bool {
        self.nanos < NANOS_PER_SEC
    }

    /// The reading in nanoseconds.
    pub open spec fn total_nanos(self) -> nat {
        (self.secs * NANOS_PER_SEC + self.nanos) as nat
    }

    /// The time from `earlier` to `self`, or zero if `earlier` is the later
    /// of the two.
    pub fn duration_since(&self, earlier: &Timestamp) -> (elapsed: SpanDuration)
        requires
            self.wf(),
            earlier.wf(),
        ensures
            elapsed == elapsed_between(*earlier, *self),
            elapsed.wf(),
            elapsed.total_nanos() == nanos_between(*earlier, *self),
    {
        if self.secs < earlier.secs || (self.secs == earlier.secs && self.nanos < earlier.nanos) {
            SpanDuration { secs: 0, nanos: 0 }
        } else if self.nanos >= earlier.nanos {
            SpanDuration { secs: self.secs - earlier.secs, nanos: self.nanos - earlier.nanos }
        } else {
            SpanDuration {
                secs: self.secs - earlier.secs - 1,
                nanos: self.nanos + (NANOS_PER_SEC - earlier.nanos),
            }
        }
    }
}

impl SpanDuration {
    /// The sub-second part is less than a second.
    pub open spec fn wf(self) -> bool {
        self.nanos < NANOS_PER_SEC
    }

    /// The elapsed time in nanoseconds.
    pub open spec fn total_nanos(self) -> nat {
        (self.secs * NANOS_PER_SEC + self.nanos) as nat
    }
}

} // verus!
