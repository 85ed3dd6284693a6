//! Integers whose valid range is fixed by the type.

use crate::bounded_int::iter::{BoundedIntRange, BoundedIntRangeInclusive};
use crate::random::random_between;
use vstd::prelude::*;

pub mod iter;
pub mod ops;

verus! {

/// An integer constrained to the closed range `[LOW, HIGH]`.
///
/// Every value of this type holds a number inside the range: the constructors
/// check or clamp, and nothing else can build one.
#[derive(Debug, Clone, Copy, Eq, Hash, PartialOrd, Ord)]
pub struct BoundedInt<const LOW: u32, const HIGH: u32>(pub(crate) i32);

/// Why a raw integer was refused by [`BoundedInt::new`].
#[derive(Debug, Clone, Copy, PartialEq, Eq, Hash, PartialOrd, Ord, Structural)]
pub enum BoundedIntError {
    /// The value lies above the upper bound.
    TooHigh(i32),
    /// The value lies below the lower bound.
    TooLow(i32),
}

impl<const LOW: u32, const HIGH: u32> PartialEq for BoundedInt<LOW, HIGH> {
    fn eq(&self, other: &Self) -> (r: bool) {
        self.0 == other.0
    }
}

impl<const LOW: u32, const HIGH: u32> vstd::std_specs::cmp::PartialEqSpecImpl for BoundedInt<LOW, HIGH> {
    open spec fn obeys_eq_spec() -> bool {
        true
    }

    open spec fn eq_spec(&self, other: &Self) -> bool {
        self.value() == other.value()
    }
}

/// `n` clamped into `[low, high]`.
pub open spec fn clamp(n: int, low: int, high: int) -> int {
    if n < low {
        low
    } else if n > high {
        high
    } else {
        n
    }
}

impl<const LOW: u32, const HIGH: u32> BoundedInt<LOW, HIGH> {
    #[verifier::type_invariant]
    pub closed spec fn in_range(self) -> bool {
        LOW <= self.0 <= HIGH
    }

    /// The number held.
    pub closed spec fn value(self) -> int {
        self.0 as int
    }

    /// The value of this type that holds `n`.
    pub closed spec fn of(n: int) -> Self {
        BoundedInt(n as i32)
    }

    /// Two values that hold the same number are the same value, and `of`
    /// inverts `value`.
    pub broadcast proof fn lemma_value_of(n: int)
        requires
            i32::MIN <= n <= i32::MAX,
        ensures
            #[trigger] Self::of(n).value() == n,
    {
    }

    /// `of` rebuilds a value from the number it holds.
    pub broadcast proof fn lemma_of_value(self)
        ensures
            Self::of(#[trigger] self.value()) == self,
    {
    }

    /// Builds the value nearest to `n` inside the range.
    pub fn new_clamped(n: i32) -> (r: Self)
        requires
            LOW < HIGH <= i32::MAX,
        ensures
            r.value() == clamp(n as int, LOW as int, HIGH as int),
    {
        if (n as i64) < (LOW as i64) {
            BoundedInt(LOW as i32)
        } else if (n as i64) > (HIGH as i64) {
            BoundedInt(HIGH as i32)
        } else {
            BoundedInt(n)
        }
    }

    /// Builds a value from `n`, or says on which side `n` leaves the range.
    pub fn new(n: i32) -> (r: Result<Self, BoundedIntError>)
        requires
            LOW < HIGH,
        ensures
            n < LOW ==> r == Err::<Self, BoundedIntError>(BoundedIntError::TooLow(n)),
            n > HIGH ==> r == Err::<Self, BoundedIntError>(BoundedIntError::TooHigh(n)),
            LOW <= n <= HIGH ==> r is Ok && r->Ok_0.value() == n,
    {
        if (n as i64) < (LOW as i64) {
            Err(BoundedIntError::TooLow(n))
        } else if (n as i64) > (HIGH as i64) {
            Err(BoundedIntError::TooHigh(n))
        } else {
            Ok(BoundedInt(n))
        }
    }

    /// The number held, as a plain integer.
    #[inline(always)]
    pub fn as_unbounded(&self) -> (r: i32)
        ensures
            r == self.value(),
            LOW <= r <= HIGH,
    {
        proof {
            use_type_invariant(self);
        }
        self.0
    }

    /// Draws a value at random: any number from `LOW` to `HIGH` can come.
    pub fn random() -> (r: Self)
        requires
            LOW <= HIGH <= i32::MAX,
        ensures
            LOW <= r.value() <= HIGH,
    {
        BoundedInt(random_between(LOW as i32, HIGH as i32))
    }

    /// The half-open range from `self` up to, and without, `to`.
    pub fn range_to(&self, to: &Self) -> (r: BoundedIntRange<LOW, HIGH>)
        ensures
            r.remaining() == BoundedIntRange::<LOW, HIGH>::span(self.value(), to.value()),
    {
        BoundedIntRange::between(*self, *to)
    }

    /// The half-open range from `from` up to, and without, `self`.
    pub fn range_from(&self, from: &Self) -> (r: BoundedIntRange<LOW, HIGH>)
        ensures
            r.remaining() == BoundedIntRange::<LOW, HIGH>::span(from.value(), self.value()),
    {
        BoundedIntRange::between(*from, *self)
    }

    /// The closed range from `self` up to `to`.
    pub fn range_to_inclusive(&self, to: &Self) -> (r: BoundedIntRangeInclusive<LOW, HIGH>)
        ensures
            r.remaining() == BoundedIntRange::<LOW, HIGH>::span(self.value(), to.value() + 1),
    {
        BoundedIntRangeInclusive::between(*self, *to)
    }

    /// The closed range from `from` up to `self`.
    pub fn range_from_inclusive(&self, from: &Self) -> (r: BoundedIntRangeInclusive<LOW, HIGH>)
        ensures
            r.remaining() == BoundedIntRange::<LOW, HIGH>::span(from.value(), self.value() + 1),
    {
        BoundedIntRangeInclusive::between(*from, *self)
    }

    /// The same number under a wider upper bound.
    pub fn expand_upper<const HIGHER: u32>(self) -> (r: BoundedInt<LOW, HIGHER>)
        requires
            HIGHER >= HIGH,
        ensures
            r.value() == self.value(),
    {
        proof {
            use_type_invariant(self);
        }
        BoundedInt(self.0)
    }

    /// The same number under a wider lower bound.
    pub fn expand_lower<const LOWER: u32>(self) -> (r: BoundedInt<LOWER, HIGH>)
        requires
            LOWER <= LOW,
        ensures
            r.value() == self.value(),
    {
        proof {
            use_type_invariant(self);
        }
        BoundedInt(self.0)
    }

    /// Builds a value from a number known to lie inside the range.
    pub fn new_unwrapped(from: i32) -> (r: Self)
        requires
            LOW < HIGH,
            LOW <= from <= HIGH,
        ensures
            r.value() == from,
    {
        BoundedInt(from)
    }

    /// The same number under bounds that are wider on both sides.
    pub fn expand_bounds<const LOWER: u32, const HIGHER: u32>(self) -> (r: BoundedInt<
        LOWER,
        HIGHER,
    >)
        requires
            LOWER <= LOW,
            HIGHER >= HIGH,
            LOWER < HIGHER,
        ensures
            r.value() == self.value(),
    {
        proof {
            use_type_invariant(self);
        }
        BoundedInt(self.0)
    }

    /// Subtraction that stops at the bounds of the range.
    pub fn saturating_sub(&self, rhs: i32) -> (r: Self)
        requires
            LOW < HIGH <= i32::MAX,
        ensures
            r.value() == clamp(self.value() - rhs, LOW as int, HIGH as int),
    {
        let wide: i64 = (self.as_unbounded() as i64) - (rhs as i64);
        if wide < (LOW as i64) {
            BoundedInt(LOW as i32)
        } else if wide > (HIGH as i64) {
            BoundedInt(HIGH as i32)
        } else {
            BoundedInt(wide as i32)
        }
    }

    /// Addition that stops at the bounds of the range.
    pub fn saturating_add(&self, rhs: i32) -> (r: Self)
        requires
            LOW < HIGH <= i32::MAX,
        ensures
            r.value() == clamp(self.value() + rhs, LOW as int, HIGH as int),
    {
        let wide: i64 = (self.as_unbounded() as i64) + (rhs as i64);
        if wide < (LOW as i64) {
            BoundedInt(LOW as i32)
        } else if wide > (HIGH as i64) {
            BoundedInt(HIGH as i32)
        } else {
            BoundedInt(wide as i32)
        }
    }
}

impl<const LOW: u32, const HIGH: u32> TryFrom<i32> for BoundedInt<LOW, HIGH> {
    type Error = BoundedIntError;

    fn try_from(value: i32) -> (r: Result<Self, BoundedIntError>) {
        if (value as i64) < (LOW as i64) {
            Err(BoundedIntError::TooLow(value))
        } else if (value as i64) > (HIGH as i64) {
            Err(BoundedIntError::TooHigh(value))
        } else {
            Ok(BoundedInt(value))
        }
    }
}

impl<const LOW: u32, const HIGH: u32> vstd::std_specs::convert::TryFromSpecImpl<i32> for BoundedInt<LOW, HIGH> {
    open spec fn obeys_try_from_spec() -> bool {
        true
    }

    open spec fn try_from_spec(v: i32) -> Result<Self, BoundedIntError> {
        if v < LOW {
            Err(BoundedIntError::TooLow(v))
        } else if v > HIGH {
            Err(BoundedIntError::TooHigh(v))
        } else {
            Ok(Self::of(v as int))
        }
    }
}

} // verus!
