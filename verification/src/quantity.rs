//! Troop counts and the like: single-precision quantities, held by their bit patterns so that
//! they can be carried, compared and stored without being computed with.

use vstd::prelude::*;

verus! {

/// A single-precision quantity, by its IEEE 754 bit pattern.
#[derive(Clone, Copy, PartialEq, Eq, Structural, Debug)]
pub struct Quantity {
    pub bits: u32,
}

impl Quantity {
    /// Is the pattern one of those that stand for no number?
    pub open spec fn is_nan_spec(self) -> bool {
        self.bits as int % 0x8000_0000 > 0x7F80_0000
    }

    /// An integer that orders numbers as the quantities they stand for are ordered: the
    /// magnitude's pattern, negated for a negative quantity.
    pub open spec fn rank(self) -> int {
        if self.bits < 0x8000_0000 {
            self.bits as int
        } else {
            0x8000_0000 - self.bits
        }
    }

    /// Is this quantity smaller than the other? Never so where one of them is no number.
    pub open spec fn lt_spec(self, other: Quantity) -> bool {
        &&& !self.is_nan_spec()
        &&& !other.is_nan_spec()
        &&& self.rank() < other.rank()
    }

    /// The quantity, or zero where it is below zero or no number.
    pub open spec fn at_least_zero_spec(self) -> Quantity {
        if self.is_nan_spec() || self.lt_spec(zero_quantity()) {
            zero_quantity()
        } else {
            self
        }
    }

    /// The quantity, or the limit where the quantity is above it or no number.
    pub open spec fn at_most_spec(self, limit: Quantity) -> Quantity {
        if self.is_nan_spec() || limit.lt_spec(self) {
            limit
        } else {
            self
        }
    }

    /// Does the pattern stand for no number?
    pub fn is_nan(self) -> (r: bool)
        ensures
            r == self.is_nan_spec(),
    {
        self.bits % 0x8000_0000 > 0x7F80_0000
    }

    /// Is this quantity smaller than the other?
    pub fn less_than(self, other: Quantity) -> (r: bool)
        ensures
            r == self.lt_spec(other),
    {
        let a: i64 = if self.bits < 0x8000_0000 {
            self.bits as i64
        } else {
            0x8000_0000i64 - self.bits as i64
        };
        let b: i64 = if other.bits < 0x8000_0000 {
            other.bits as i64
        } else {
            0x8000_0000i64 - other.bits as i64
        };
        !self.is_nan() && !other.is_nan() && a < b
    }

    /// The quantity, or zero where it is below zero or no number.
    pub fn at_least_zero(self) -> (r: Quantity)
        ensures
            r == self.at_least_zero_spec(),
            !r.lt_spec(zero_quantity()),
            !r.is_nan_spec(),
    {
        if self.is_nan() || self.less_than(zero()) {
            zero()
        } else {
            self
        }
    }

    /// The quantity, or the limit where the quantity is above it or no number.
    pub fn at_most(self, limit: Quantity) -> (r: Quantity)
        ensures
            r == self.at_most_spec(limit),
            !limit.lt_spec(r),
    {
        if self.is_nan() || limit.less_than(self) {
            limit
        } else {
            self
        }
    }
}

/// Zero.
pub open spec fn zero_quantity() -> Quantity {
    Quantity { bits: 0 }
}

/// One.
pub open spec fn one_quantity() -> Quantity {
    Quantity { bits: 0x3F80_0000 }
}

/// Zero.
pub fn zero() -> (r: Quantity)
    ensures
        r == zero_quantity(),
{
    Quantity { bits: 0 }
}

/// One.
pub fn one() -> (r: Quantity)
    ensures
        r == one_quantity(),
{
    Quantity { bits: 0x3F80_0000 }
}

} // verus!
