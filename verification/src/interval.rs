//! Closed integer intervals, the `L2` layer's view of a single variable.

use vstd::prelude::*;

verus! {

/// Closed interval `[lo, hi]` over `i128`; `lo > hi` is the empty interval,
/// the signal for a contradiction. `i128::MIN` / `i128::MAX` stand for an
/// unbounded side.
#[derive(Debug, Clone, Copy, PartialEq, Eq, Structural)]
pub struct Interval {
    pub lo: i128,
    pub hi: i128,
}

impl Interval {
    /// Whether the integer `v` lies in this interval.
    pub open spec fn has(self, v: int) -> bool {
        self.lo <= v <= self.hi
    }

    pub fn point(v: i128) -> (r: Interval)
        ensures
            r == (Interval { lo: v, hi: v }),
    {
        Interval { lo: v, hi: v }
    }

    pub fn at_least(v: i128) -> (r: Interval)
        ensures
            r == (Interval { lo: v, hi: i128::MAX }),
    {
        Interval { lo: v, hi: i128::MAX }
    }

    pub fn at_most(v: i128) -> (r: Interval)
        ensures
            r == (Interval { lo: i128::MIN, hi: v }),
    {
        Interval { lo: i128::MIN, hi: v }
    }

    pub open spec fn spec_intersect(self, other: Interval) -> Interval {
        Interval {
            lo: if self.lo >= other.lo { self.lo } else { other.lo },
            hi: if self.hi <= other.hi { self.hi } else { other.hi },
        }
    }

    pub fn intersect(self, other: Interval) -> (r: Interval)
        ensures
            r == self.spec_intersect(other),
            forall|v: int| r.has(v) <==> (self.has(v) && other.has(v)),
    {
        Interval {
            lo: if self.lo >= other.lo { self.lo } else { other.lo },
            hi: if self.hi <= other.hi { self.hi } else { other.hi },
        }
    }

    pub open spec fn spec_is_empty(self) -> bool {
        self.lo > self.hi
    }

    pub fn is_empty(self) -> (r: bool)
        ensures
            r == self.spec_is_empty(),
            r <==> !(exists|v: int| self.has(v)),
    {
        if self.lo > self.hi {
            true
        } else {
            assert(self.has(self.lo as int));
            false
        }
    }

    pub open spec fn spec_contains(self, other: Interval) -> bool {
        self.lo <= other.lo && other.hi <= self.hi
    }

    /// Whether every value of `other` is also in `self` (`other ⊆ self`).
    pub fn contains(self, other: Interval) -> (r: bool)
        ensures
            r == self.spec_contains(other),
            r ==> forall|v: int| other.has(v) ==> self.has(v),
    {
        self.lo <= other.lo && other.hi <= self.hi
    }
}

} // verus!
