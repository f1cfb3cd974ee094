use vstd::prelude::*;

verus! {

/// A point in time, counted in nanoseconds.
#[derive(Debug, Clone, Copy, PartialEq, Eq, Structural, PartialOrd, Ord, Hash, Default)]
pub struct Timestamp(pub i64);

/// A half-open span of time `[start, stop)`.
///
/// An interval is *valid* when `start <= stop`; it is empty when the two
/// coincide. Every operation below that builds an interval from valid ones
/// gives back a valid one: where the plain formula would put `start` after
/// `stop`, the result collapses to an empty interval instead.
#[derive(Debug, Clone, Copy, PartialEq, Eq, Structural, PartialOrd, Ord, Hash, Default)]
pub struct Interval {
    pub start: Timestamp,
    pub stop: Timestamp,
}

/// The larger of two timestamps' nanosecond counts.
pub open spec fn later(a: int, b: int) -> int {
    if a >= b {
        a
    } else {
        b
    }
}

/// The smaller of two timestamps' nanosecond counts.
pub open spec fn earlier(a: int, b: int) -> int {
    if a <= b {
        a
    } else {
        b
    }
}

impl Interval {
    /// `start <= stop`.
    pub open spec fn is_valid(self) -> bool {
        self.start.0 <= self.stop.0
    }

    /// `stop - start`, as a mathematical integer.
    pub open spec fn duration(self) -> int {
        self.stop.0 - self.start.0
    }

    /// The duration can be held in an `i64`.
    pub open spec fn duration_fits(self) -> bool {
        i64::MIN <= self.duration() <= i64::MAX
    }

    /// The instant `t` lies in `[start, stop)`.
    pub open spec fn has_point(self, t: int) -> bool {
        self.start.0 <= t < self.stop.0
    }

    /// `[max(starts), min(stops))`, collapsed to the empty interval at
    /// `max(starts)` when the two do not meet.
    pub open spec fn spec_intersection(self, other: Interval) -> Interval {
        let start = later(self.start.0 as int, other.start.0 as int);
        let stop = earlier(self.stop.0 as int, other.stop.0 as int);
        Interval {
            start: Timestamp(start as i64),
            stop: Timestamp(later(start, stop) as i64),
        }
    }

    /// `[min(starts), max(stops))`.
    pub open spec fn spec_union(self, other: Interval) -> Interval {
        Interval {
            start: Timestamp(earlier(self.start.0 as int, other.start.0 as int) as i64),
            stop: Timestamp(later(self.stop.0 as int, other.stop.0 as int) as i64),
        }
    }

    /// `inner` lies wholly inside `self`.
    pub open spec fn spec_contains_interval(self, inner: Interval) -> bool {
        self.start.0 <= inner.start.0 && inner.stop.0 <= self.stop.0
    }

    /// The two share more than a boundary point.
    pub open spec fn spec_overlaps(self, other: Interval) -> bool {
        self.start.0 < other.stop.0 && other.start.0 < self.stop.0
    }

    /// Both endpoints moved by `delta_ns`.
    pub open spec fn spec_translate(self, delta_ns: int) -> Interval {
        Interval {
            start: Timestamp((self.start.0 + delta_ns) as i64),
            stop: Timestamp((self.stop.0 + delta_ns) as i64),
        }
    }

    /// Both endpoints stay within `i64` when moved by `delta_ns`.
    pub open spec fn translate_fits(self, delta_ns: int) -> bool {
        &&& i64::MIN <= self.start.0 + delta_ns <= i64::MAX
        &&& i64::MIN <= self.stop.0 + delta_ns <= i64::MAX
    }

    /// `[start, min(stop, cut))`, collapsed to the empty interval at `start`
    /// when `cut` lies before it.
    pub open spec fn spec_subtract_after(self, cut: Timestamp) -> Interval {
        let stop = earlier(self.stop.0 as int, cut.0 as int);
        Interval { start: self.start, stop: Timestamp(later(self.start.0 as int, stop) as i64) }
    }

    /// `[max(start, cut), stop)`, collapsed to the empty interval at `stop`
    /// when `cut` lies after it.
    pub open spec fn spec_subtract_before(self, cut: Timestamp) -> Interval {
        let start = later(self.start.0 as int, cut.0 as int);
        Interval { start: Timestamp(earlier(start, self.stop.0 as int) as i64), stop: self.stop }
    }

    pub fn new(start: Timestamp, stop: Timestamp) -> (r: Interval)
        ensures
            r.start == start,
            r.stop == stop,
    {
        Interval { start, stop }
    }

    /// The length of the interval in nanoseconds.
    pub fn duration_ns(self) -> (d: i64)
        requires
            self.duration_fits(),
        ensures
            d == self.duration(),
    {
        self.stop.0 - self.start.0
    }

    pub fn intersection(self, other: Interval) -> (r: Interval)
        ensures
            r == self.spec_intersection(other),
            r.is_valid(),
            self.spec_contains_interval(other) && other.is_valid() ==> r == other,
            r.duration() == later(
                0,
                earlier(self.stop.0 as int, other.stop.0 as int) - later(
                    self.start.0 as int,
                    other.start.0 as int,
                ),
            ),
            forall|t: int| r.has_point(t) <==> self.has_point(t) && other.has_point(t),
    {
        let start: i64 = if self.start.0 >= other.start.0 {
            self.start.0
        } else {
            other.start.0
        };
        let stop: i64 = if self.stop.0 <= other.stop.0 {
            self.stop.0
        } else {
            other.stop.0
        };
        let stop: i64 = if start >= stop {
            start
        } else {
            stop
        };
        Interval { start: Timestamp(start), stop: Timestamp(stop) }
    }

    pub fn union(self, other: Interval) -> (r: Interval)
        ensures
            r == self.spec_union(other),
            r.spec_contains_interval(self),
            r.spec_contains_interval(other),
            self.is_valid() || other.is_valid() ==> r.is_valid(),
    {
        let start: i64 = if self.start.0 <= other.start.0 {
            self.start.0
        } else {
            other.start.0
        };
        let stop: i64 = if self.stop.0 >= other.stop.0 {
            self.stop.0
        } else {
            other.stop.0
        };
        Interval { start: Timestamp(start), stop: Timestamp(stop) }
    }

    pub fn contains_interval(self, inner: Interval) -> (b: bool)
        ensures
            b == self.spec_contains_interval(inner),
    {
        self.start.0 <= inner.start.0 && inner.stop.0 <= self.stop.0
    }

    pub fn overlaps(self, other: Interval) -> (b: bool)
        ensures
            b == self.spec_overlaps(other),
            self.duration() > 0 && other.duration() > 0 ==> (b <==> exists|t: int|
                self.has_point(t) && other.has_point(t)),
    {
        let b = self.start.0 < other.stop.0 && other.start.0 < self.stop.0;
        proof {
            if b && self.duration() > 0 && other.duration() > 0 {
                let t = later(self.start.0 as int, other.start.0 as int);
                assert(self.has_point(t) && other.has_point(t));
            }
        }
        b
    }

    pub fn translate(self, delta_ns: i64) -> (r: Interval)
        requires
            self.translate_fits(delta_ns as int),
        ensures
            r == self.spec_translate(delta_ns as int),
            r.start.0 == self.start.0 + delta_ns,
            r.stop.0 == self.stop.0 + delta_ns,
            r.duration() == self.duration(),
    {
        Interval {
            start: Timestamp(self.start.0 + delta_ns),
            stop: Timestamp(self.stop.0 + delta_ns),
        }
    }

    /// What of `self` lies before `cut`.
    pub fn subtract_after(self, cut: Timestamp) -> (r: Interval)
        ensures
            r == self.spec_subtract_after(cut),
            r.is_valid(),
            forall|t: int| r.has_point(t) <==> self.has_point(t) && t < cut.0,
    {
        let stop: i64 = if self.stop.0 <= cut.0 {
            self.stop.0
        } else {
            cut.0
        };
        let stop: i64 = if self.start.0 >= stop {
            self.start.0
        } else {
            stop
        };
        Interval { start: self.start, stop: Timestamp(stop) }
    }

    /// What of `self` lies at or after `cut`.
    pub fn subtract_before(self, cut: Timestamp) -> (r: Interval)
        ensures
            r == self.spec_subtract_before(cut),
            r.is_valid(),
            forall|t: int| r.has_point(t) <==> self.has_point(t) && cut.0 <= t,
    {
        let start: i64 = if self.start.0 >= cut.0 {
            self.start.0
        } else {
            cut.0
        };
        let start: i64 = if start <= self.stop.0 {
            start
        } else {
            self.stop.0
        };
        Interval { start: Timestamp(start), stop: self.stop }
    }
}

} // verus!
