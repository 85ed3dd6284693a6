//! Checked addition and subtraction on bounded integers.

use crate::bounded_int::BoundedInt;
use vstd::prelude::*;

verus! {

/// Returned when an operation would take a [`BoundedInt`] above its bounds.
#[derive(Debug, Clone, Copy, PartialEq, Eq, Hash, Structural)]
pub struct BoundedIntOverflowError {
    /// How far above the upper bound the result would lie.
    overflowed_by: i64,
}

/// Returned when an operation would take a [`BoundedInt`] below its bounds.
#[derive(Debug, Clone, Copy, PartialEq, Eq, Hash, Structural)]
pub struct BoundedIntUnderflowError {
    /// How far below the lower bound the result would lie.
    underflowed_by: i64,
}

impl BoundedIntOverflowError {
    /// How far above the upper bound the result would lie.
    pub closed spec fn amount(self) -> int {
        self.overflowed_by as int
    }

    /// The error that reports an overshoot of `amount`.
    pub closed spec fn of_amount(amount: int) -> Self {
        BoundedIntOverflowError { overflowed_by: amount as i64 }
    }

    /// The error made for an amount reports that amount.
    pub broadcast proof fn lemma_amount(amount: int)
        requires
            i64::MIN <= amount <= i64::MAX,
        ensures
            #[trigger] Self::of_amount(amount).amount() == amount,
    {
    }

    /// How far above the upper bound the result would lie.
    pub fn overflowed_by(&self) -> (r: i64)
        ensures
            r == self.amount(),
    {
        self.overflowed_by
    }
}

impl BoundedIntUnderflowError {
    /// How far below the lower bound the result would lie.
    pub closed spec fn amount(self) -> int {
        self.underflowed_by as int
    }

    /// The error that reports a shortfall of `amount`.
    pub closed spec fn of_amount(amount: int) -> Self {
        BoundedIntUnderflowError { underflowed_by: amount as i64 }
    }

    /// The error made for an amount reports that amount.
    pub broadcast proof fn lemma_amount(amount: int)
        requires
            i64::MIN <= amount <= i64::MAX,
        ensures
            #[trigger] Self::of_amount(amount).amount() == amount,
    {
    }

    /// How far below the lower bound the result would lie.
    pub fn underflowed_by(&self) -> (r: i64)
        ensures
            r == self.amount(),
    {
        self.underflowed_by
    }
}

impl<const LOW: u32, const HIGH: u32> BoundedInt<LOW, HIGH> {
    /// What adding `rhs` to `self` gives: the sum where it does not pass the
    /// upper bound, else the overshoot.
    pub open spec fn checked_add_spec(self, rhs: int) -> Result<Self, BoundedIntOverflowError> {
        if self.value() + rhs > HIGH {
            Err(BoundedIntOverflowError::of_amount(self.value() + rhs - HIGH))
        } else {
            Ok(Self::of(self.value() + rhs))
        }
    }

    /// What taking `rhs` from `self` gives: the difference where it does not
    /// pass the lower bound, else the shortfall.
    pub open spec fn checked_sub_spec(self, rhs: int) -> Result<Self, BoundedIntUnderflowError> {
        if self.value() - rhs < LOW {
            Err(BoundedIntUnderflowError::of_amount(LOW - (self.value() - rhs)))
        } else {
            Ok(Self::of(self.value() - rhs))
        }
    }

    fn checked_add(self, rhs: i64) -> (r: Result<Self, BoundedIntOverflowError>)
        requires
            0 <= rhs <= i32::MAX,
            HIGH <= i32::MAX,
        ensures
            r == self.checked_add_spec(rhs as int),
    {
        let sum: i64 = (self.as_unbounded() as i64) + rhs;
        if sum > (HIGH as i64) {
            Err(BoundedIntOverflowError { overflowed_by: sum - (HIGH as i64) })
        } else {
            Ok(BoundedInt(sum as i32))
        }
    }

    fn checked_sub(self, rhs: i64) -> (r: Result<Self, BoundedIntUnderflowError>)
        requires
            0 <= rhs <= i32::MAX,
        ensures
            r == self.checked_sub_spec(rhs as int),
    {
        let difference: i64 = (self.as_unbounded() as i64) - rhs;
        if difference < (LOW as i64) {
            Err(BoundedIntUnderflowError { underflowed_by: (LOW as i64) - difference })
        } else {
            Ok(BoundedInt(difference as i32))
        }
    }
}

impl<const LOW: u32, const HIGH: u32> std::ops::Add for BoundedInt<LOW, HIGH> {
    type Output = Result<Self, BoundedIntOverflowError>;

    fn add(self, rhs: Self) -> (r: Self::Output) {
        self.checked_add(rhs.as_unbounded() as i64)
    }
}

impl<const LOW: u32, const HIGH: u32> vstd::std_specs::ops::AddSpecImpl for BoundedInt<LOW, HIGH> {
    open spec fn obeys_add_spec() -> bool {
        true
    }

    open spec fn add_req(self, rhs: Self) -> bool {
        HIGH <= i32::MAX
    }

    open spec fn add_spec(self, rhs: Self) -> Self::Output {
        self.checked_add_spec(rhs.value())
    }
}

impl<const LOW: u32, const HIGH: u32> std::ops::Add<u16> for BoundedInt<LOW, HIGH> {
    type Output = Result<Self, BoundedIntOverflowError>;

    fn add(self, rhs: u16) -> (r: Self::Output) {
        self.checked_add(rhs as i64)
    }
}

impl<const LOW: u32, const HIGH: u32> vstd::std_specs::ops::AddSpecImpl<u16> for BoundedInt<LOW, HIGH> {
    open spec fn obeys_add_spec() -> bool {
        true
    }

    open spec fn add_req(self, rhs: u16) -> bool {
        HIGH <= i32::MAX
    }

    open spec fn add_spec(self, rhs: u16) -> Self::Output {
        self.checked_add_spec(rhs as int)
    }
}

impl<const LOW: u32, const HIGH: u32> std::ops::Sub for BoundedInt<LOW, HIGH> {
    type Output = Result<Self, BoundedIntUnderflowError>;

    fn sub(self, rhs: Self) -> (r: Self::Output) {
        self.checked_sub(rhs.as_unbounded() as i64)
    }
}

impl<const LOW: u32, const HIGH: u32> vstd::std_specs::ops::SubSpecImpl for BoundedInt<LOW, HIGH> {
    open spec fn obeys_sub_spec() -> bool {
        true
    }

    open spec fn sub_req(self, rhs: Self) -> bool {
        true
    }

    open spec fn sub_spec(self, rhs: Self) -> Self::Output {
        self.checked_sub_spec(rhs.value())
    }
}

impl<const LOW: u32, const HIGH: u32> std::ops::Sub<u16> for BoundedInt<LOW, HIGH> {
    type Output = Result<Self, BoundedIntUnderflowError>;

    fn sub(self, rhs: u16) -> (r: Self::Output) {
        self.checked_sub(rhs as i64)
    }
}

impl<const LOW: u32, const HIGH: u32> vstd::std_specs::ops::SubSpecImpl<u16> for BoundedInt<LOW, HIGH> {
    open spec fn obeys_sub_spec() -> bool {
        true
    }

    open spec fn sub_req(self, rhs: u16) -> bool {
        true
    }

    open spec fn sub_spec(self, rhs: u16) -> Self::Output {
        self.checked_sub_spec(rhs as int)
    }
}

} // verus!
