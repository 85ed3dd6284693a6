use dungeon::bounded_int::ops::{BoundedIntOverflowError, BoundedIntUnderflowError};
use dungeon::bounded_int::{BoundedInt, BoundedIntError};

fn numbers<const LOW: u32, const HIGH: u32>(items: Vec<BoundedInt<LOW, HIGH>>) -> Vec<i32> {
    items.iter().map(|item| item.as_unbounded()).collect()
}

#[test]
fn lib_test_range_to() {
    let start = BoundedInt::<20, 25>::new(20).unwrap();
    let end = BoundedInt::<20, 25>::new(25).unwrap();

    let v: Vec<_> = start.range_to(&end).collect();

    assert_eq!(numbers(v), vec![20, 21, 22, 23, 24]);
}

#[test]
fn lib_test_range_to_inclusive() {
    let start = BoundedInt::<0, 25>::new(20).unwrap();
    let end = BoundedInt::<0, 25>::new(25).unwrap();

    let v: Vec<_> = start.range_to_inclusive(&end).collect();

    assert_eq!(numbers(v), vec![20, 21, 22, 23, 24, 25]);
}

#[test]
fn lib_test_range_from() {
    let start = BoundedInt::<0, 100>::new(20).unwrap();
    let end = BoundedInt::<0, 100>::new(25).unwrap();

    let v: Vec<_> = end.range_from(&start).collect();

    assert_eq!(numbers(v), vec![20, 21, 22, 23, 24]);
}

#[test]
fn lib_test_range_from_inclusive() {
    let start = BoundedInt::<0, 25>::new(20).unwrap();
    let end = BoundedInt::<0, 25>::new(25).unwrap();

    let v: Vec<_> = end.range_from_inclusive(&start).collect();

    assert_eq!(numbers(v), vec![20, 21, 22, 23, 24, 25]);
}

#[test]
fn bounded_int_test_range_to() {
    let start = BoundedInt::<0, 100>::new(20).unwrap();
    let end = BoundedInt::<0, 100>::new(25).unwrap();

    let v: Vec<_> = start.range_to(&end).collect();

    assert_eq!(numbers(v), vec![20, 21, 22, 23, 24]);
}

#[test]
fn bounded_int_test_range_to_inclusive() {
    let start = BoundedInt::<0, 25>::new(20).unwrap();
    let end = BoundedInt::<0, 25>::new(25).unwrap();

    let v: Vec<_> = start.range_to_inclusive(&end).collect();

    assert_eq!(numbers(v), vec![20, 21, 22, 23, 24, 25]);
}

#[test]
fn bounded_int_test_range_from() {
    let start = BoundedInt::<0, 100>::new(20).unwrap();
    let end = BoundedInt::<0, 100>::new(25).unwrap();

    let v: Vec<_> = end.range_from(&start).collect();

    assert_eq!(numbers(v), vec![20, 21, 22, 23, 24]);
}

#[test]
fn bounded_int_test_range_from_inclusive() {
    let start = BoundedInt::<0, 25>::new(20).unwrap();
    let end = BoundedInt::<0, 25>::new(25).unwrap();

    let v: Vec<_> = end.range_from_inclusive(&start).collect();

    assert_eq!(numbers(v), vec![20, 21, 22, 23, 24, 25]);
}

#[test]
fn new_accepts_exactly_the_range() {
    for n in -5..40 {
        let made = BoundedInt::<10, 30>::new(n);
        if n < 10 {
            assert_eq!(made, Err(BoundedIntError::TooLow(n)));
        } else if n > 30 {
            assert_eq!(made, Err(BoundedIntError::TooHigh(n)));
        } else {
            assert_eq!(made.unwrap().as_unbounded(), n);
        }
    }
}

#[test]
fn new_at_the_edges() {
    assert_eq!(BoundedInt::<10, 200>::new(10).unwrap().as_unbounded(), 10);
    assert_eq!(BoundedInt::<10, 200>::new(200).unwrap().as_unbounded(), 200);
    assert_eq!(
        BoundedInt::<10, 200>::new(9),
        Err(BoundedIntError::TooLow(9))
    );
    assert_eq!(
        BoundedInt::<10, 200>::new(201),
        Err(BoundedIntError::TooHigh(201))
    );
    assert_eq!(
        BoundedInt::<10, 200>::new(i32::MIN),
        Err(BoundedIntError::TooLow(i32::MIN))
    );
    assert_eq!(
        BoundedInt::<10, 200>::new(i32::MAX),
        Err(BoundedIntError::TooHigh(i32::MAX))
    );
}

#[test]
fn try_from_agrees_with_new() {
    for n in [-1, 0, 9, 10, 11, 199, 200, 201] {
        let converted: Result<BoundedInt<10, 200>, BoundedIntError> = n.try_into();
        assert_eq!(converted, BoundedInt::<10, 200>::new(n));
    }
}

#[test]
fn new_clamped_stops_at_the_bounds() {
    assert_eq!(BoundedInt::<10, 15>::new_clamped(3).as_unbounded(), 10);
    assert_eq!(BoundedInt::<10, 15>::new_clamped(12).as_unbounded(), 12);
    assert_eq!(BoundedInt::<10, 15>::new_clamped(99).as_unbounded(), 15);
    assert_eq!(
        BoundedInt::<10, 15>::new_clamped(i32::MIN).as_unbounded(),
        10
    );
}

#[test]
fn new_unwrapped_keeps_the_number() {
    assert_eq!(BoundedInt::<10, 15>::new_unwrapped(13).as_unbounded(), 13);
}

#[test]
fn saturating_arithmetic_never_leaves_the_range() {
    let five = BoundedInt::<0, 200>::new(5).unwrap();
    assert_eq!(five.saturating_sub(1).as_unbounded(), 4);
    assert_eq!(five.saturating_sub(9).as_unbounded(), 0);
    assert_eq!(five.saturating_add(100).as_unbounded(), 105);
    assert_eq!(five.saturating_add(1000).as_unbounded(), 200);
    assert_eq!(five.saturating_add(-7).as_unbounded(), 0);
    assert_eq!(five.saturating_sub(-7).as_unbounded(), 12);
    assert_eq!(five.saturating_add(i32::MAX).as_unbounded(), 200);
    assert_eq!(five.saturating_sub(i32::MIN).as_unbounded(), 200);
    assert_eq!(five.saturating_add(i32::MIN).as_unbounded(), 0);
}

#[test]
fn expanding_bounds_keeps_the_number() {
    let small = BoundedInt::<10, 15>::new(12).unwrap();
    let upper: BoundedInt<10, 20> = small.expand_upper();
    let lower: BoundedInt<5, 15> = small.expand_lower();
    let both: BoundedInt<5, 20> = small.expand_bounds();
    assert_eq!(upper.as_unbounded(), 12);
    assert_eq!(lower.as_unbounded(), 12);
    assert_eq!(both.as_unbounded(), 12);
}

#[test]
fn ranges_that_run_backwards_are_empty() {
    let low = BoundedInt::<0, 25>::new(3).unwrap();
    let high = BoundedInt::<0, 25>::new(9).unwrap();
    assert!(high.range_to(&low).collect().is_empty());
    assert!(high.range_to_inclusive(&low).collect().is_empty());
    assert!(low.range_to(&low).collect().is_empty());
    assert_eq!(numbers(low.range_to_inclusive(&low).collect()), vec![3]);
}

#[test]
fn next_steps_through_a_range() {
    let low = BoundedInt::<0, 25>::new(23).unwrap();
    let high = BoundedInt::<0, 25>::new(25).unwrap();
    let mut range = low.range_to_inclusive(&high);
    assert_eq!(range.next().map(|b| b.as_unbounded()), Some(23));
    assert_eq!(range.next().map(|b| b.as_unbounded()), Some(24));
    assert_eq!(range.next().map(|b| b.as_unbounded()), Some(25));
    assert_eq!(range.next().map(|b| b.as_unbounded()), None);
    assert_eq!(range.next().map(|b| b.as_unbounded()), None);
    let mut open = low.range_to(&high);
    assert_eq!(open.next().map(|b| b.as_unbounded()), Some(23));
    assert_eq!(open.next().map(|b| b.as_unbounded()), Some(24));
    assert_eq!(open.next().map(|b| b.as_unbounded()), None);
}

#[test]
fn checked_addition_reports_the_overshoot() {
    let a = BoundedInt::<0, 200>::new(150).unwrap();
    let b = BoundedInt::<0, 200>::new(50).unwrap();
    let c = BoundedInt::<0, 200>::new(51).unwrap();
    assert_eq!((a + b).unwrap().as_unbounded(), 200);
    let too_far: Result<BoundedInt<0, 200>, BoundedIntOverflowError> = a + c;
    assert!(too_far.is_err());
    assert_eq!((a + 7_u16).unwrap().as_unbounded(), 157);
    assert!((a + 51_u16).is_err());
    assert_eq!(a + 51_u16, a + c);
    assert_ne!(a + 51_u16, a + 52_u16);
}

#[test]
fn checked_subtraction_reports_the_underflow() {
    let a = BoundedInt::<10, 200>::new(50).unwrap();
    let b = BoundedInt::<10, 200>::new(40).unwrap();
    let c = BoundedInt::<10, 200>::new(41).unwrap();
    assert_eq!((a - b).unwrap().as_unbounded(), 10);
    let too_far: Result<BoundedInt<10, 200>, BoundedIntUnderflowError> = a - c;
    assert!(too_far.is_err());
    assert_eq!((a - 7_u16).unwrap().as_unbounded(), 43);
    assert!((a - 41_u16).is_err());
    assert_eq!(a - 41_u16, a - c);
    // The amount is measured from the lower bound, here 10.
    assert_eq!(too_far.unwrap_err().underflowed_by(), 1);
    assert_eq!((a - 45_u16).unwrap_err().underflowed_by(), 5);
}

#[test]
fn random_values_lie_in_the_range() {
    for _ in 0..200 {
        let drawn = BoundedInt::<10, 12>::random().as_unbounded();
        assert!((10..=12).contains(&drawn));
    }
}

#[test]
fn random_values_differ() {
    let drawn: Vec<i32> = (0..200)
        .map(|_| BoundedInt::<10, 12>::random().as_unbounded())
        .collect();
    assert!(drawn.iter().any(|&n| n != drawn[0]));
}
