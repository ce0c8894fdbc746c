//! Instants and durations with whole-second plus sub-second parts.
//!
//! Both are modelled in specifications as a single integer count of
//! nanoseconds, so that arithmetic contracts are exact.
use vstd::prelude::*;

verus! {

/// Number of nanoseconds in one second.
pub const NANOS_PER_SEC: u32 = 1_000_000_000;

/// An absolute point in time: seconds since an arbitrary epoch, plus
/// a sub-second part.
#[derive(Clone, Copy, PartialEq, Eq, Structural, Debug)]
pub struct Timestamp {
    pub secs: u64,
    pub nanos: u32,
}

/// A span of time: whole seconds plus a sub-second part.
#[derive(Clone, Copy, PartialEq, Eq, Structural, Debug)]
pub struct Duration {
    pub secs: u64,
    pub nanos: u32,
}

impl View for Timestamp {
    type V = int;

    open spec fn view(&self) -> int {
        self.secs as int * (NANOS_PER_SEC as int) + self.nanos as int
    }
}

impl View for Duration {
    type V = int;

    open spec fn view(&self) -> int {
        self.secs as int * (NANOS_PER_SEC as int) + self.nanos as int
    }
}

/// The sub-second part is a genuine sub-second part.
pub open spec fn ts_wf(t: Timestamp) -> bool {
    t.nanos < NANOS_PER_SEC
}

/// The sub-second part is a genuine sub-second part.
pub open spec fn dur_wf(d: Duration) -> bool {
    d.nanos < NANOS_PER_SEC
}

/// The largest duration value this representation can hold, in nanoseconds.
pub open spec fn dur_max_nanos() -> int {
    u64::MAX as int * (NANOS_PER_SEC as int) + (NANOS_PER_SEC - 1) as int
}

impl Timestamp {
    /// Whether `self` is no later than `other`.
    pub fn le(&self, other: &Timestamp) -> (r: bool)
        requires
            ts_wf(*self),
            ts_wf(*other),
        ensures
            r == (self@ <= other@),
    {
        self.secs < other.secs || (self.secs == other.secs && self.nanos <= other.nanos)
    }

    /// Time elapsed from `earlier` to `self`, exact to the nanosecond.
    pub fn duration_since(&self, earlier: &Timestamp) -> (r: Duration)
        requires
            ts_wf(*self),
            ts_wf(*earlier),
            earlier@ <= self@,
        ensures
            dur_wf(r),
            r@ == self@ - earlier@,
    {
        if self.nanos >= earlier.nanos {
            Duration { secs: self.secs - earlier.secs, nanos: self.nanos - earlier.nanos }
        } else {
            Duration {
                secs: self.secs - earlier.secs - 1,
                nanos: NANOS_PER_SEC - earlier.nanos + self.nanos,
            }
        }
    }
}

impl Duration {
    /// The zero duration.
    pub fn zero() -> (r: Duration)
        ensures
            r@ == 0,
            dur_wf(r),
            r.secs == 0,
            r.nanos == 0,
    {
        Duration { secs: 0, nanos: 0 }
    }

    /// Exact sum of two durations.
    pub fn add(self, other: Duration) -> (r: Duration)
        requires
            dur_wf(self),
            dur_wf(other),
            self@ + other@ <= dur_max_nanos(),
        ensures
            dur_wf(r),
            r@ == self@ + other@,
    {
        let nanos_sum: u32 = self.nanos + other.nanos;
        if nanos_sum >= NANOS_PER_SEC {
            Duration { secs: self.secs + other.secs + 1, nanos: nanos_sum - NANOS_PER_SEC }
        } else {
            Duration { secs: self.secs + other.secs, nanos: nanos_sum }
        }
    }
}

} // verus!
