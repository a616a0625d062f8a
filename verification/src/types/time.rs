//! Points in time (since the Unix epoch) and spans of time, as whole
//! seconds plus nanoseconds.
use vstd::prelude::*;

verus! {

/// Nanoseconds in a second.
pub const NANOS_PER_SEC: u32 = 1_000_000_000;

/// A point in time: `secs` seconds and `nanos` nanoseconds after the Unix epoch.
#[derive(Debug, Clone, Copy, PartialEq, Eq, Hash, PartialOrd, Ord)]
pub struct Timestamp {
    pub secs: u64,
    pub nanos: u32,
}

/// A span of time of `secs` seconds and `nanos` nanoseconds.
#[derive(Debug, Clone, Copy, PartialEq, Eq, Hash, PartialOrd, Ord)]
pub struct TimeSpan {
    pub secs: u64,
    pub nanos: u32,
}

/// A timestamp in nanoseconds since the epoch.
pub open spec fn ts_nanos(t: Timestamp) -> int {
    t.secs * 1_000_000_000 + t.nanos
}

/// A span in nanoseconds.
pub open spec fn span_nanos(d: TimeSpan) -> int {
    d.secs * 1_000_000_000 + d.nanos
}

/// The largest representable number of nanoseconds.
pub open spec fn max_nanos() -> int {
    u64::MAX * 1_000_000_000 + 999_999_999
}

impl Timestamp {
    /// Well-formed: the nanoseconds are within a second.
    pub open spec fn wf(self) -> bool {
        self.nanos < NANOS_PER_SEC
    }

    /// The timestamp `secs` seconds and `nanos` nanoseconds after the epoch.
    pub fn new(secs: u64, nanos: u32) -> (r: Timestamp)
        requires
            nanos < NANOS_PER_SEC,
        ensures
            r == (Timestamp { secs, nanos }),
            r.wf(),
    {
        Timestamp { secs, nanos }
    }

    /// Whether `self` is not later than `other`.
    pub fn le(&self, other: &Timestamp) -> (r: bool)
        requires
            self.wf(),
            other.wf(),
        ensures
            r == (ts_nanos(*self) <= ts_nanos(*other)),
    {
        self.secs < other.secs || (self.secs == other.secs && self.nanos <= other.nanos)
    }

    /// Whether two timestamps are the same instant.
    pub fn same(&self, other: &Timestamp) -> (r: bool)
        ensures
            r == (*self == *other),
    {
        self.secs == other.secs && self.nanos == other.nanos
    }

    /// `self + d`, or `None` when that is not representable.
    pub fn checked_add(&self, d: &TimeSpan) -> (r: Option<Timestamp>)
        requires
            self.wf(),
            d.nanos < NANOS_PER_SEC,
        ensures
            match r {
                Some(t) => t.wf() && ts_nanos(t) == ts_nanos(*self) + span_nanos(*d),
                None => ts_nanos(*self) + span_nanos(*d) > max_nanos(),
            },
    {
        let n = self.nanos + d.nanos;
        let carry: u64 = if n >= NANOS_PER_SEC { 1 } else { 0 };
        let nanos: u32 = if n >= NANOS_PER_SEC { n - NANOS_PER_SEC } else { n };
        if self.secs > u64::MAX - d.secs {
            return None;
        }
        let s = self.secs + d.secs;
        if s > u64::MAX - carry {
            return None;
        }
        Some(Timestamp { secs: s + carry, nanos })
    }

    /// `self - d`, or `None` when that would fall before the epoch.
    pub fn checked_sub(&self, d: &TimeSpan) -> (r: Option<Timestamp>)
        requires
            self.wf(),
            d.nanos < NANOS_PER_SEC,
        ensures
            match r {
                Some(t) => t.wf() && ts_nanos(t) == ts_nanos(*self) - span_nanos(*d),
                None => ts_nanos(*self) < span_nanos(*d),
            },
    {
        if self.secs < d.secs {
            return None;
        }
        let s = self.secs - d.secs;
        if self.nanos >= d.nanos {
            Some(Timestamp { secs: s, nanos: self.nanos - d.nanos })
        } else if s == 0 {
            None
        } else {
            Some(Timestamp { secs: s - 1, nanos: NANOS_PER_SEC - (d.nanos - self.nanos) })
        }
    }

    /// The timestamp `s` seconds later.
    pub fn plus_secs(&self, s: u64) -> (r: Timestamp)
        requires
            self.secs + s <= u64::MAX,
        ensures
            r == (Timestamp { secs: (self.secs + s) as u64, nanos: self.nanos }),
    {
        Timestamp { secs: self.secs + s, nanos: self.nanos }
    }

    /// The timestamp `s` seconds earlier.
    pub fn minus_secs(&self, s: u64) -> (r: Timestamp)
        requires
            self.secs >= s,
        ensures
            r == (Timestamp { secs: (self.secs - s) as u64, nanos: self.nanos }),
    {
        Timestamp { secs: self.secs - s, nanos: self.nanos }
    }
}

impl TimeSpan {
    /// Well-formed: the nanoseconds are within a second.
    pub open spec fn wf(self) -> bool {
        self.nanos < NANOS_PER_SEC
    }

    /// A span of whole seconds.
    pub fn from_secs(secs: u64) -> (r: TimeSpan)
        ensures
            r == (TimeSpan { secs, nanos: 0 }),
            r.wf(),
    {
        TimeSpan { secs, nanos: 0 }
    }

    /// Whether `self` is not longer than `other`.
    pub fn le(&self, other: &TimeSpan) -> (r: bool)
        requires
            self.wf(),
            other.wf(),
        ensures
            r == (span_nanos(*self) <= span_nanos(*other)),
    {
        self.secs < other.secs || (self.secs == other.secs && self.nanos <= other.nanos)
    }
}

} // verus!
