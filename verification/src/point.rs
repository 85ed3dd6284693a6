//! Positions on a floor.

use crate::bounded_int::ops::{BoundedIntOverflowError, BoundedIntUnderflowError};
use crate::bounded_int::{clamp, BoundedInt};
use crate::floor_builder::MAX_FLOOR_SIZE;
use vstd::prelude::*;

verus! {

/// A point somewhere in a floor.
#[derive(Debug, Clone, Copy, Eq, Hash, PartialOrd, Ord)]
pub struct Point {
    /// How many columns across the point is, counted along the width.
    pub column: Column,
    /// How many rows down the point is, counted along the height.
    pub row: Row,
}

/// The row of a [`Point`]. Its bounds are those of any floor, not of one
/// floor's own size.
#[derive(Debug, Clone, Copy, Eq, Hash, PartialOrd, Ord)]
pub struct Row(pub(super) BoundedInt<0, MAX_FLOOR_SIZE>);

/// The column of a [`Point`]. Its bounds are those of any floor, not of one
/// floor's own size.
#[derive(Debug, Clone, Copy, Eq, Hash, PartialOrd, Ord)]
pub struct Column(pub(super) BoundedInt<0, MAX_FLOOR_SIZE>);

impl PartialEq for Row {
    fn eq(&self, other: &Self) -> (r: bool) {
        proof {
            self.0.lemma_of_value();
            other.0.lemma_of_value();
        }
        self.0.as_unbounded() == other.0.as_unbounded()
    }
}

impl vstd::std_specs::cmp::PartialEqSpecImpl for Row {
    open spec fn obeys_eq_spec() -> bool {
        true
    }

    open spec fn eq_spec(&self, other: &Self) -> bool {
        *self == *other
    }
}

impl PartialEq for Column {
    fn eq(&self, other: &Self) -> (r: bool) {
        proof {
            self.0.lemma_of_value();
            other.0.lemma_of_value();
        }
        self.0.as_unbounded() == other.0.as_unbounded()
    }
}

impl vstd::std_specs::cmp::PartialEqSpecImpl for Column {
    open spec fn obeys_eq_spec() -> bool {
        true
    }

    open spec fn eq_spec(&self, other: &Self) -> bool {
        *self == *other
    }
}

impl PartialEq for Point {
    fn eq(&self, other: &Self) -> (r: bool) {
        self.row == other.row && self.column == other.column
    }
}

impl vstd::std_specs::cmp::PartialEqSpecImpl for Point {
    open spec fn obeys_eq_spec() -> bool {
        true
    }

    open spec fn eq_spec(&self, other: &Self) -> bool {
        *self == *other
    }
}

impl Row {
    /// The number of the row.
    pub closed spec fn value(self) -> int {
        self.0.value()
    }

    /// The row with the number `n`.
    pub closed spec fn of(n: int) -> Self {
        Row(BoundedInt::of(n))
    }

    /// `value` inverts `of`.
    pub broadcast proof fn lemma_value_of(n: int)
        requires
            i32::MIN <= n <= i32::MAX,
        ensures
            #[trigger] Self::of(n).value() == n,
    {
        BoundedInt::<0, MAX_FLOOR_SIZE>::lemma_value_of(n);
    }

    /// `of` inverts `value`: a row is known by its number.
    pub broadcast proof fn lemma_of_value(self)
        ensures
            Self::of(#[trigger] self.value()) == self,
    {
        self.0.lemma_of_value();
    }

    /// What adding `rhs` gives: the row that far down, or the overshoot.
    pub closed spec fn checked_add_spec(self, rhs: int) -> Result<Self, BoundedIntOverflowError> {
        match self.0.checked_add_spec(rhs) {
            Ok(value) => Ok(Row(value)),
            Err(error) => Err(error),
        }
    }

    /// What taking `rhs` away gives: the row that far up, or the error.
    pub closed spec fn checked_sub_spec(self, rhs: int) -> Result<Self, BoundedIntUnderflowError> {
        match self.0.checked_sub_spec(rhs) {
            Ok(value) => Ok(Row(value)),
            Err(error) => Err(error),
        }
    }

    /// The sum is a row exactly when it stays on the largest floor.
    pub proof fn lemma_checked_add(self, rhs: int)
        requires
            0 <= rhs <= i32::MAX,
        ensures
            self.value() + rhs <= MAX_FLOOR_SIZE ==> self.checked_add_spec(rhs) == Ok::<
                Self,
                BoundedIntOverflowError,
            >(Self::of(self.value() + rhs)),
            self.value() + rhs > MAX_FLOOR_SIZE ==> self.checked_add_spec(rhs) == Err::<
                Self,
                BoundedIntOverflowError,
            >(BoundedIntOverflowError::of_amount(self.value() + rhs - MAX_FLOOR_SIZE)),
    {
    }

    /// The difference is a row exactly when it does not fall below zero.
    pub proof fn lemma_checked_sub(self, rhs: int)
        requires
            0 <= rhs <= i32::MAX,
        ensures
            self.value() - rhs >= 0 ==> self.checked_sub_spec(rhs) == Ok::<
                Self,
                BoundedIntUnderflowError,
            >(Self::of(self.value() - rhs)),
            self.value() - rhs < 0 ==> self.checked_sub_spec(rhs) == Err::<
                Self,
                BoundedIntUnderflowError,
            >(BoundedIntUnderflowError::of_amount(rhs - self.value())),
    {
    }

    /// Wraps a bounded integer as a row.
    pub fn new(value: BoundedInt<0, MAX_FLOOR_SIZE>) -> (r: Self)
        ensures
            r.value() == value.value(),
    {
        Row(value)
    }

    /// The number of the row, as a bounded integer.
    pub fn get(&self) -> (r: BoundedInt<0, MAX_FLOOR_SIZE>)
        ensures
            r.value() == self.value(),
            0 <= r.value() <= MAX_FLOOR_SIZE,
    {
        let inner = self.0;
        let _ = inner.as_unbounded();
        inner
    }

    /// Addition that stops at the bounds instead of leaving them.
    pub fn saturating_add(self, n: i32) -> (r: Self)
        ensures
            r.value() == clamp(self.value() + n, 0, MAX_FLOOR_SIZE as int),
    {
        Row(self.0.saturating_add(n))
    }

    /// Subtraction that stops at the bounds instead of leaving them.
    pub fn saturating_sub(self, n: i32) -> (r: Self)
        ensures
            r.value() == clamp(self.value() - n, 0, MAX_FLOOR_SIZE as int),
    {
        Row(self.0.saturating_sub(n))
    }
}

impl Column {
    /// The number of the column.
    pub closed spec fn value(self) -> int {
        self.0.value()
    }

    /// The column with the number `n`.
    pub closed spec fn of(n: int) -> Self {
        Column(BoundedInt::of(n))
    }

    /// `value` inverts `of`.
    pub broadcast proof fn lemma_value_of(n: int)
        requires
            i32::MIN <= n <= i32::MAX,
        ensures
            #[trigger] Self::of(n).value() == n,
    {
        BoundedInt::<0, MAX_FLOOR_SIZE>::lemma_value_of(n);
    }

    /// `of` inverts `value`: a column is known by its number.
    pub broadcast proof fn lemma_of_value(self)
        ensures
            Self::of(#[trigger] self.value()) == self,
    {
        self.0.lemma_of_value();
    }

    /// What adding `rhs` gives: the column that far right, or the overshoot.
    pub closed spec fn checked_add_spec(self, rhs: int) -> Result<Self, BoundedIntOverflowError> {
        match self.0.checked_add_spec(rhs) {
            Ok(value) => Ok(Column(value)),
            Err(error) => Err(error),
        }
    }

    /// What taking `rhs` away gives: the column that far left, or the error.
    pub closed spec fn checked_sub_spec(self, rhs: int) -> Result<Self, BoundedIntUnderflowError> {
        match self.0.checked_sub_spec(rhs) {
            Ok(value) => Ok(Column(value)),
            Err(error) => Err(error),
        }
    }

    /// The sum is a column exactly when it stays on the largest floor.
    pub proof fn lemma_checked_add(self, rhs: int)
        requires
            0 <= rhs <= i32::MAX,
        ensures
            self.value() + rhs <= MAX_FLOOR_SIZE ==> self.checked_add_spec(rhs) == Ok::<
                Self,
                BoundedIntOverflowError,
            >(Self::of(self.value() + rhs)),
            self.value() + rhs > MAX_FLOOR_SIZE ==> self.checked_add_spec(rhs) == Err::<
                Self,
                BoundedIntOverflowError,
            >(BoundedIntOverflowError::of_amount(self.value() + rhs - MAX_FLOOR_SIZE)),
    {
    }

    /// The difference is a column exactly when it does not fall below zero.
    pub proof fn lemma_checked_sub(self, rhs: int)
        requires
            0 <= rhs <= i32::MAX,
        ensures
            self.value() - rhs >= 0 ==> self.checked_sub_spec(rhs) == Ok::<
                Self,
                BoundedIntUnderflowError,
            >(Self::of(self.value() - rhs)),
            self.value() - rhs < 0 ==> self.checked_sub_spec(rhs) == Err::<
                Self,
                BoundedIntUnderflowError,
            >(BoundedIntUnderflowError::of_amount(rhs - self.value())),
    {
    }

    /// Wraps a bounded integer as a column.
    pub fn new(value: BoundedInt<0, MAX_FLOOR_SIZE>) -> (r: Self)
        ensures
            r.value() == value.value(),
    {
        Column(value)
    }

    /// The number of the column, as a bounded integer.
    pub fn get(&self) -> (r: BoundedInt<0, MAX_FLOOR_SIZE>)
        ensures
            r.value() == self.value(),
            0 <= r.value() <= MAX_FLOOR_SIZE,
    {
        let inner = self.0;
        let _ = inner.as_unbounded();
        inner
    }

    /// Addition that stops at the bounds instead of leaving them.
    pub fn saturating_add(self, n: i32) -> (r: Self)
        ensures
            r.value() == clamp(self.value() + n, 0, MAX_FLOOR_SIZE as int),
    {
        Column(self.0.saturating_add(n))
    }

    /// Subtraction that stops at the bounds instead of leaving them.
    pub fn saturating_sub(self, n: i32) -> (r: Self)
        ensures
            r.value() == clamp(self.value() - n, 0, MAX_FLOOR_SIZE as int),
    {
        Column(self.0.saturating_sub(n))
    }
}

impl std::ops::Add<u16> for Row {
    type Output = Result<Self, BoundedIntOverflowError>;

    fn add(self, rhs: u16) -> (r: Self::Output) {
        match self.0 + rhs {
            Ok(value) => Ok(Row(value)),
            Err(error) => Err(error),
        }
    }
}

impl vstd::std_specs::ops::AddSpecImpl<u16> for Row {
    open spec fn obeys_add_spec() -> bool {
        true
    }

    open spec fn add_req(self, rhs: u16) -> bool {
        true
    }

    open spec fn add_spec(self, rhs: u16) -> Self::Output {
        self.checked_add_spec(rhs as int)
    }
}

impl std::ops::Sub<u16> for Row {
    type Output = Result<Self, BoundedIntUnderflowError>;

    fn sub(self, rhs: u16) -> (r: Self::Output) {
        match self.0 - rhs {
            Ok(value) => Ok(Row(value)),
            Err(error) => Err(error),
        }
    }
}

impl vstd::std_specs::ops::SubSpecImpl<u16> for Row {
    open spec fn obeys_sub_spec() -> bool {
        true
    }

    open spec fn sub_req(self, rhs: u16) -> bool {
        true
    }

    open spec fn sub_spec(self, rhs: u16) -> Self::Output {
        self.checked_sub_spec(rhs as int)
    }
}

impl std::ops::Add for Row {
    type Output = Result<Self, BoundedIntOverflowError>;

    fn add(self, rhs: Self) -> (r: Self::Output) {
        match self.0 + rhs.0 {
            Ok(value) => Ok(Row(value)),
            Err(error) => Err(error),
        }
    }
}

impl vstd::std_specs::ops::AddSpecImpl for Row {
    open spec fn obeys_add_spec() -> bool {
        true
    }

    open spec fn add_req(self, rhs: Self) -> bool {
        true
    }

    open spec fn add_spec(self, rhs: Self) -> Self::Output {
        self.checked_add_spec(rhs.value())
    }
}

impl std::ops::Sub for Row {
    type Output = Result<Self, BoundedIntUnderflowError>;

    fn sub(self, rhs: Self) -> (r: Self::Output) {
        match self.0 - rhs.0 {
            Ok(value) => Ok(Row(value)),
            Err(error) => Err(error),
        }
    }
}

impl vstd::std_specs::ops::SubSpecImpl for Row {
    open spec fn obeys_sub_spec() -> bool {
        true
    }

    open spec fn sub_req(self, rhs: Self) -> bool {
        true
    }

    open spec fn sub_spec(self, rhs: Self) -> Self::Output {
        self.checked_sub_spec(rhs.value())
    }
}

impl std::ops::Add<u16> for Column {
    type Output = Result<Self, BoundedIntOverflowError>;

    fn add(self, rhs: u16) -> (r: Self::Output) {
        match self.0 + rhs {
            Ok(value) => Ok(Column(value)),
            Err(error) => Err(error),
        }
    }
}

impl vstd::std_specs::ops::AddSpecImpl<u16> for Column {
    open spec fn obeys_add_spec() -> bool {
        true
    }

    open spec fn add_req(self, rhs: u16) -> bool {
        true
    }

    open spec fn add_spec(self, rhs: u16) -> Self::Output {
        self.checked_add_spec(rhs as int)
    }
}

impl std::ops::Sub<u16> for Column {
    type Output = Result<Self, BoundedIntUnderflowError>;

    fn sub(self, rhs: u16) -> (r: Self::Output) {
        match self.0 - rhs {
            Ok(value) => Ok(Column(value)),
            Err(error) => Err(error),
        }
    }
}

impl vstd::std_specs::ops::SubSpecImpl<u16> for Column {
    open spec fn obeys_sub_spec() -> bool {
        true
    }

    open spec fn sub_req(self, rhs: u16) -> bool {
        true
    }

    open spec fn sub_spec(self, rhs: u16) -> Self::Output {
        self.checked_sub_spec(rhs as int)
    }
}

impl std::ops::Add for Column {
    type Output = Result<Self, BoundedIntOverflowError>;

    fn add(self, rhs: Self) -> (r: Self::Output) {
        match self.0 + rhs.0 {
            Ok(value) => Ok(Column(value)),
            Err(error) => Err(error),
        }
    }
}

impl vstd::std_specs::ops::AddSpecImpl for Column {
    open spec fn obeys_add_spec() -> bool {
        true
    }

    open spec fn add_req(self, rhs: Self) -> bool {
        true
    }

    open spec fn add_spec(self, rhs: Self) -> Self::Output {
        self.checked_add_spec(rhs.value())
    }
}

impl std::ops::Sub for Column {
    type Output = Result<Self, BoundedIntUnderflowError>;

    fn sub(self, rhs: Self) -> (r: Self::Output) {
        match self.0 - rhs.0 {
            Ok(value) => Ok(Column(value)),
            Err(error) => Err(error),
        }
    }
}

impl vstd::std_specs::ops::SubSpecImpl for Column {
    open spec fn obeys_sub_spec() -> bool {
        true
    }

    open spec fn sub_req(self, rhs: Self) -> bool {
        true
    }

    open spec fn sub_spec(self, rhs: Self) -> Self::Output {
        self.checked_sub_spec(rhs.value())
    }
}

impl Point {
    /// The number of the point's row.
    pub open spec fn r(self) -> int {
        self.row.value()
    }

    /// The number of the point's column.
    pub open spec fn c(self) -> int {
        self.column.value()
    }

    /// The point in row `row` and column `column`.
    pub open spec fn of(row: int, column: int) -> Point {
        Point { row: Row::of(row), column: Column::of(column) }
    }

    /// A point is known by the numbers of its row and column.
    pub broadcast proof fn lemma_of_coordinates(self)
        ensures
            #[trigger] Point::of(self.r(), self.c()) == self,
    {
        self.row.lemma_of_value();
        self.column.lemma_of_value();
    }

    /// `of` puts the point where it is told to.
    pub broadcast proof fn lemma_coordinates_of(row: int, column: int)
        requires
            i32::MIN <= row <= i32::MAX,
            i32::MIN <= column <= i32::MAX,
        ensures
            (#[trigger] Point::of(row, column)).r() == row,
            Point::of(row, column).c() == column,
    {
        Row::lemma_value_of(row);
        Column::lemma_value_of(column);
    }

    /// Builds the point in row `row` and column `column`.
    pub(crate) fn at_coordinates(row: i32, column: i32) -> (r: Point)
        requires
            0 <= row <= MAX_FLOOR_SIZE,
            0 <= column <= MAX_FLOOR_SIZE,
        ensures
            r == Point::of(row as int, column as int),
            r.r() == row,
            r.c() == column,
    {
        let point = Point {
            row: Row(BoundedInt::new_unwrapped(row)),
            column: Column(BoundedInt::new_unwrapped(column)),
        };
        proof {
            point.lemma_of_coordinates();
        }
        point
    }

    /// The numbers of the point's row and column.
    pub(crate) fn coordinates(self) -> (r: (i32, i32))
        ensures
            r.0 == self.r(),
            r.1 == self.c(),
            0 <= r.0 <= MAX_FLOOR_SIZE,
            0 <= r.1 <= MAX_FLOOR_SIZE,
    {
        (self.row.0.as_unbounded(), self.column.0.as_unbounded())
    }

    /// Moves the point `n` rows down, stopping at the bounds.
    pub fn saturating_add_row(self, n: i32) -> (r: Self)
        ensures
            r == Point::of(clamp(self.r() + n, 0, MAX_FLOOR_SIZE as int), self.c()),
    {
        let moved = Point { row: self.row.saturating_add(n), column: self.column };
        proof {
            moved.lemma_of_coordinates();
        }
        moved
    }

    /// Moves the point `n` rows up, stopping at the bounds.
    pub fn saturating_sub_row(self, n: i32) -> (r: Self)
        ensures
            r == Point::of(clamp(self.r() - n, 0, MAX_FLOOR_SIZE as int), self.c()),
    {
        let moved = Point { row: self.row.saturating_sub(n), column: self.column };
        proof {
            moved.lemma_of_coordinates();
        }
        moved
    }

    /// Moves the point `n` columns right, stopping at the bounds.
    pub fn saturating_add_column(self, n: i32) -> (r: Self)
        ensures
            r == Point::of(self.r(), clamp(self.c() + n, 0, MAX_FLOOR_SIZE as int)),
    {
        let moved = Point { column: self.column.saturating_add(n), row: self.row };
        proof {
            moved.lemma_of_coordinates();
        }
        moved
    }

    /// Moves the point `n` columns left, stopping at the bounds.
    pub fn saturating_sub_column(self, n: i32) -> (r: Self)
        ensures
            r == Point::of(self.r(), clamp(self.c() - n, 0, MAX_FLOOR_SIZE as int)),
    {
        let moved = Point { column: self.column.saturating_sub(n), row: self.row };
        proof {
            moved.lemma_of_coordinates();
        }
        moved
    }

    /// Moves the point `n` rows down, or reports how far that would leave
    /// the bounds.
    pub fn add_row(self, n: u16) -> (r: Result<Self, BoundedIntOverflowError>)
        ensures
            self.r() + n <= MAX_FLOOR_SIZE ==> r == Ok::<Self, BoundedIntOverflowError>(
                Point::of(self.r() + n, self.c()),
            ),
            self.r() + n > MAX_FLOOR_SIZE ==> r == Err::<Self, BoundedIntOverflowError>(
                BoundedIntOverflowError::of_amount(self.r() + n - MAX_FLOOR_SIZE),
            ),
    {
        proof {
            self.row.lemma_checked_add(n as int);
            self.column.lemma_of_value();
        }
        match self.row + n {
            Ok(row) => Ok(Point { row, column: self.column }),
            Err(error) => Err(error),
        }
    }

    /// Moves the point `n` rows up, or reports how far that would leave
    /// the bounds.
    pub fn sub_row(self, n: u16) -> (r: Result<Self, BoundedIntUnderflowError>)
        ensures
            self.r() - n >= 0 ==> r == Ok::<Self, BoundedIntUnderflowError>(
                Point::of(self.r() - n, self.c()),
            ),
            self.r() - n < 0 ==> r == Err::<Self, BoundedIntUnderflowError>(
                BoundedIntUnderflowError::of_amount(n - self.r()),
            ),
    {
        proof {
            self.row.lemma_checked_sub(n as int);
            self.column.lemma_of_value();
        }
        match self.row - n {
            Ok(row) => Ok(Point { row, column: self.column }),
            Err(error) => Err(error),
        }
    }

    /// Moves the point `n` columns right, or reports how far that would
    /// leave the bounds.
    pub fn add_column(self, n: u16) -> (r: Result<Self, BoundedIntOverflowError>)
        ensures
            self.c() + n <= MAX_FLOOR_SIZE ==> r == Ok::<Self, BoundedIntOverflowError>(
                Point::of(self.r(), self.c() + n),
            ),
            self.c() + n > MAX_FLOOR_SIZE ==> r == Err::<Self, BoundedIntOverflowError>(
                BoundedIntOverflowError::of_amount(self.c() + n - MAX_FLOOR_SIZE),
            ),
    {
        proof {
            self.column.lemma_checked_add(n as int);
            self.row.lemma_of_value();
        }
        match self.column + n {
            Ok(column) => Ok(Point { column, row: self.row }),
            Err(error) => Err(error),
        }
    }

    /// Moves the point `n` columns left, or reports how far that would
    /// leave the bounds.
    pub fn sub_column(self, n: u16) -> (r: Result<Self, BoundedIntUnderflowError>)
        ensures
            self.c() - n >= 0 ==> r == Ok::<Self, BoundedIntUnderflowError>(
                Point::of(self.r(), self.c() - n),
            ),
            self.c() - n < 0 ==> r == Err::<Self, BoundedIntUnderflowError>(
                BoundedIntUnderflowError::of_amount(n - self.c()),
            ),
    {
        proof {
            self.column.lemma_checked_sub(n as int);
            self.row.lemma_of_value();
        }
        match self.column - n {
            Ok(column) => Ok(Point { column, row: self.row }),
            Err(error) => Err(error),
        }
    }

    /// The sum of two points, coordinate by coordinate, where it stays
    /// inside the bounds.
    pub open spec fn sum(self, rhs: Point) -> Option<Point> {
        if self.c() + rhs.c() <= MAX_FLOOR_SIZE && self.r() + rhs.r() <= MAX_FLOOR_SIZE {
            Some(Point::of(self.r() + rhs.r(), self.c() + rhs.c()))
        } else {
            None
        }
    }

    /// The difference of two points, coordinate by coordinate, where it
    /// stays inside the bounds.
    pub open spec fn difference(self, rhs: Point) -> Option<Point> {
        if self.c() - rhs.c() >= 0 && self.r() - rhs.r() >= 0 {
            Some(Point::of(self.r() - rhs.r(), self.c() - rhs.c()))
        } else {
            None
        }
    }
}

impl std::ops::Add for Point {
    type Output = Option<Self>;

    fn add(self, rhs: Self) -> (r: Self::Output) {
        let _ = rhs.coordinates();
        proof {
            self.column.lemma_checked_add(rhs.c());
            self.row.lemma_checked_add(rhs.r());
        }
        let column = match self.column + rhs.column {
            Ok(value) => value,
            Err(_) => {
                return None;
            },
        };
        let row = match self.row + rhs.row {
            Ok(value) => value,
            Err(_) => {
                return None;
            },
        };
        Some(Point { column, row })
    }
}

impl vstd::std_specs::ops::AddSpecImpl for Point {
    open spec fn obeys_add_spec() -> bool {
        true
    }

    open spec fn add_req(self, rhs: Self) -> bool {
        true
    }

    open spec fn add_spec(self, rhs: Self) -> Self::Output {
        self.sum(rhs)
    }
}

impl std::ops::Sub for Point {
    type Output = Option<Self>;

    fn sub(self, rhs: Self) -> (r: Self::Output) {
        let _ = rhs.coordinates();
        proof {
            self.column.lemma_checked_sub(rhs.c());
            self.row.lemma_checked_sub(rhs.r());
        }
        let column = match self.column - rhs.column {
            Ok(value) => value,
            Err(_) => {
                return None;
            },
        };
        let row = match self.row - rhs.row {
            Ok(value) => value,
            Err(_) => {
                return None;
            },
        };
        Some(Point { column, row })
    }
}

impl vstd::std_specs::ops::SubSpecImpl for Point {
    open spec fn obeys_sub_spec() -> bool {
        true
    }

    open spec fn sub_req(self, rhs: Self) -> bool {
        true
    }

    open spec fn sub_spec(self, rhs: Self) -> Self::Output {
        self.difference(rhs)
    }
}

} // verus!
