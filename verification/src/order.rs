//! Ordering of double-precision numbers. Not-a-number is unordered.
use crate::double::{lemma_mag_ordered, signed, Double, SIGN};
use vstd::prelude::*;

verus! {

/// `a < b`.
pub open spec fn lt(a: Double, b: Double) -> bool {
    !a.nan() && !b.nan() && a.val() < b.val()
}

/// `a <= b`.
pub open spec fn le(a: Double, b: Double) -> bool {
    !a.nan() && !b.nan() && a.val() <= b.val()
}

/// `a == b`, as numbers: the two zeros are equal.
pub open spec fn same(a: Double, b: Double) -> bool {
    !a.nan() && !b.nan() && a.val() == b.val()
}

/// The greater of two numbers; the other one where one is not-a-number.
pub open spec fn larger(a: Double, b: Double) -> Double {
    if a.nan() || lt(a, b) {
        b
    } else {
        a
    }
}

/// The lesser of two numbers; the other one where one is not-a-number.
pub open spec fn smaller(a: Double, b: Double) -> Double {
    if a.nan() || lt(b, a) {
        b
    } else {
        a
    }
}

/// `a` brought into the range from `lo` to `hi`.
pub open spec fn within(a: Double, lo: Double, hi: Double) -> Double {
    if lt(a, lo) {
        lo
    } else if lt(hi, a) {
        hi
    } else {
        a
    }
}

/// `|a|`.
pub open spec fn magnitude(a: Double) -> Double {
    signed(false, a.low())
}

impl Double {
    /// `self < other`.
    pub fn less(self, other: Double) -> (res: bool)
        ensures
            res == lt(self, other),
    {
        proof {
            lemma_mag_ordered(self.low(), other.low());
            lemma_mag_ordered(0, self.low());
            lemma_mag_ordered(0, other.low());
        }
        if self.is_nan() || other.is_nan() {
            return false;
        }
        let a: u64 = self.bits % SIGN;
        let b: u64 = other.bits % SIGN;
        if self.bits >= SIGN {
            if other.bits >= SIGN {
                b < a
            } else {
                a > 0 || b > 0
            }
        } else {
            other.bits < SIGN && a < b
        }
    }

    /// `self <= other`.
    pub fn at_most(self, other: Double) -> (res: bool)
        ensures
            res == le(self, other),
    {
        !self.is_nan() && !other.is_nan() && !other.less(self)
    }

    /// `self == other`, as numbers.
    pub fn equals(self, other: Double) -> (res: bool)
        ensures
            res == same(self, other),
    {
        self.at_most(other) && other.at_most(self)
    }

    /// The greater of the two.
    pub fn max(self, other: Double) -> (res: Double)
        ensures
            res == larger(self, other),
    {
        if self.is_nan() || self.less(other) {
            other
        } else {
            self
        }
    }

    /// The lesser of the two.
    pub fn min(self, other: Double) -> (res: Double)
        ensures
            res == smaller(self, other),
    {
        if self.is_nan() || other.less(self) {
            other
        } else {
            self
        }
    }

    /// The number brought into the range from `lo` to `hi`.
    pub fn clamp(self, lo: Double, hi: Double) -> (res: Double)
        requires
            le(lo, hi),
        ensures
            res == within(self, lo, hi),
    {
        if self.less(lo) {
            lo
        } else if hi.less(self) {
            hi
        } else {
            self
        }
    }

    /// `|self|`.
    pub fn abs(self) -> (res: Double)
        ensures
            res == magnitude(self),
    {
        Double::pack(false, self.bits % SIGN)
    }
}

impl PartialEq for Double {
    fn eq(&self, other: &Double) -> (res: bool) {
        self.equals(*other)
    }
}

impl vstd::std_specs::cmp::PartialEqSpecImpl for Double {
    open spec fn obeys_eq_spec() -> bool {
        true
    }

    open spec fn eq_spec(&self, other: &Double) -> bool {
        same(*self, *other)
    }
}

} // verus!
