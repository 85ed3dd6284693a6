use dungeon::bounded_int::BoundedInt;
use dungeon::floor_builder::{MAX_FLOOR_SIZE, MIN_FLOOR_SIZE};
use dungeon::point_index::{iter_points, PointIndex};
use dungeon::{Column, Point, Row};

fn point(row: i32, column: i32) -> Point {
    Point {
        row: Row::new(row.try_into().unwrap()),
        column: Column::new(column.try_into().unwrap()),
    }
}

#[test]
fn point_index_test_point_index() {
    const WIDTH: i32 = 10;
    const HEIGHT: i32 = 20;
    const MAP: [i32; (WIDTH * HEIGHT) as usize] = [
        0, 0, 0, 0, 0, 0, 0, 0, 0, 0,
        0, 0, 0, 0, 0, 0, 0, 0, 0, 0,
        0, 0, 0, 0, 0, 0, 0, 0, 0, 0,
        0, 0, 0, 0, 1, 0, 0, 0, 0, 0,
        0, 0, 0, 0, 0, 0, 0, 0, 0, 0,
        0, 0, 0, 0, 0, 0, 0, 0, 0, 0,
        0, 0, 0, 0, 0, 0, 0, 0, 0, 0,
        0, 0, 0, 0, 0, 0, 0, 0, 0, 0,
        0, 0, 0, 0, 0, 0, 0, 0, 0, 0,
        0, 0, 0, 0, 0, 0, 0, 0, 0, 0,
        0, 0, 0, 0, 0, 0, 0, 0, 0, 0,
        0, 0, 0, 0, 0, 0, 0, 0, 0, 0,
        0, 0, 0, 0, 0, 0, 0, 0, 0, 0,
        0, 0, 0, 0, 0, 0, 0, 0, 0, 0,
        0, 0, 0, 0, 0, 0, 0, 0, 0, 0,
        0, 0, 0, 0, 0, 0, 0, 0, 0, 0,
        0, 0, 0, 0, 0, 0, 0, 0, 0, 0,
        0, 0, 0, 0, 0, 0, 0, 0, 0, 0,
        0, 0, 0, 0, 0, 0, 0, 0, 0, 0,
        0, 0, 0, 0, 0, 0, 0, 0, 0, 0,
    ];

    let mut map = Vec::from(MAP);

    assert!(matches!(
        map.at(
            Point {
                row: Row::new(3.try_into().unwrap()),
                column: Column::new(4.try_into().unwrap()),
            },
            BoundedInt::<MIN_FLOOR_SIZE, MAX_FLOOR_SIZE>::new(WIDTH).unwrap()
        ),
        &1
    ));

    *map.at_mut(
        Point {
            row: Row::new(7.try_into().unwrap()),
            column: Column::new(2.try_into().unwrap()),
        },
        BoundedInt::<MIN_FLOOR_SIZE, MAX_FLOOR_SIZE>::new(WIDTH).unwrap(),
    ) = 1;

    assert!(matches!(
        map.at(
            Point {
                row: Row::new(7.try_into().unwrap()),
                column: Column::new(2.try_into().unwrap()),
            },
            BoundedInt::<MIN_FLOOR_SIZE, MAX_FLOOR_SIZE>::new(WIDTH).unwrap(),
        ),
        &1
    ));
}

#[test]
fn test_point_index() {
    const WIDTH: i32 = 10;
    const HEIGHT: i32 = 20;
    const MAP: [i32; (WIDTH * HEIGHT) as usize] = [
        0, 0, 0, 0, 0, 0, 0, 0, 0, 0,
        0, 0, 0, 0, 0, 0, 0, 0, 0, 0,
        0, 0, 0, 0, 0, 0, 0, 0, 0, 0,
        0, 0, 0, 0, 1, 0, 0, 0, 0, 0,
        0, 0, 0, 0, 0, 0, 0, 0, 0, 0,
        0, 0, 0, 0, 0, 0, 0, 0, 0, 0,
        0, 0, 0, 0, 0, 0, 0, 0, 0, 0,
        0, 0, 0, 0, 0, 0, 0, 0, 0, 0,
        0, 0, 0, 0, 0, 0, 0, 0, 0, 0,
        0, 0, 0, 0, 0, 0, 0, 0, 0, 0,
        0, 0, 0, 0, 0, 0, 0, 0, 0, 0,
        0, 0, 0, 0, 0, 0, 0, 0, 0, 0,
        0, 0, 0, 0, 0, 0, 0, 0, 0, 0,
        0, 0, 0, 0, 0, 0, 0, 0, 0, 0,
        0, 0, 0, 0, 0, 0, 0, 0, 0, 0,
        0, 0, 0, 0, 0, 0, 0, 0, 0, 0,
        0, 0, 0, 0, 0, 0, 0, 0, 0, 0,
        0, 0, 0, 0, 0, 0, 0, 0, 0, 0,
        0, 0, 0, 0, 0, 0, 0, 0, 0, 0,
        0, 0, 0, 0, 0, 0, 0, 0, 0, 0,
    ];

    let mut map = Vec::from(MAP);

    assert!(matches!(
        map.at(
            Point {
                row: Row::new(3.try_into().unwrap()),
                column: Column::new(4.try_into().unwrap()),
            },
            BoundedInt::<MIN_FLOOR_SIZE, MAX_FLOOR_SIZE>::new(WIDTH).unwrap()
        ),
        &1
    ));

    *map.at_mut(
        Point {
            row: Row::new(7.try_into().unwrap()),
            column: Column::new(2.try_into().unwrap()),
        },
        BoundedInt::<MIN_FLOOR_SIZE, MAX_FLOOR_SIZE>::new(WIDTH).unwrap(),
    ) = 1;

    assert!(matches!(
        map.at(
            Point {
                row: Row::new(7.try_into().unwrap()),
                column: Column::new(2.try_into().unwrap()),
            },
            BoundedInt::<MIN_FLOOR_SIZE, MAX_FLOOR_SIZE>::new(WIDTH).unwrap(),
        ),
        &1
    ));
}

#[test]
fn index_is_row_times_width_plus_column() {
    let width = BoundedInt::<0, 20>::new(4).unwrap();
    let mut map: Vec<u8> = (0..12).collect();
    assert_eq!(*map.at(point(1, 2), width), 6);
    assert_eq!(*map.at(point(0, 0), width), 0);
    assert_eq!(*map.at(point(2, 3), width), 11);
    *map.at_mut(point(2, 1), width) = 77;
    assert_eq!(map[9], 77);
    let slice: &mut [u8] = map.as_mut_slice();
    assert_eq!(*slice.at(point(2, 1), width), 77);
    *slice.at_mut(point(0, 3), width) = 5;
    assert_eq!(slice[3], 5);
}

#[test]
fn iter_points_walks_column_after_column() {
    let width = BoundedInt::<MIN_FLOOR_SIZE, MAX_FLOOR_SIZE>::new(10).unwrap();
    let height = BoundedInt::<MIN_FLOOR_SIZE, MAX_FLOOR_SIZE>::new(12).unwrap();
    let points = iter_points(width, height);
    assert_eq!(points.len(), 120);
    assert_eq!(points[0], point(0, 0));
    assert_eq!(points[1], point(1, 0));
    assert_eq!(points[11], point(11, 0));
    assert_eq!(points[12], point(0, 1));
    assert_eq!(points[119], point(11, 9));
}

#[test]
fn saturating_moves_stop_at_the_bounds() {
    let p = point(1, 199);
    assert_eq!(p.saturating_sub_row(1), point(0, 199));
    assert_eq!(p.saturating_sub_row(5), point(0, 199));
    assert_eq!(p.saturating_add_row(4), point(5, 199));
    assert_eq!(p.saturating_add_column(1), point(1, 200));
    assert_eq!(p.saturating_add_column(9), point(1, 200));
    assert_eq!(p.saturating_sub_column(200), point(1, 0));
    assert_eq!(p.saturating_add_row(-3), point(0, 199));
}

#[test]
fn checked_moves_report_leaving_the_bounds() {
    let p = point(3, 198);
    assert_eq!(p.add_row(2).unwrap(), point(5, 198));
    assert_eq!(p.add_row(197).unwrap(), point(200, 198));
    assert!(p.add_row(198).is_err());
    assert_eq!(p.sub_row(3).unwrap(), point(0, 198));
    assert!(p.sub_row(4).is_err());
    assert_eq!(p.add_column(2).unwrap(), point(3, 200));
    assert!(p.add_column(3).is_err());
    assert_eq!(p.sub_column(198).unwrap(), point(3, 0));
    assert!(p.sub_column(199).is_err());
}

#[test]
fn points_add_and_subtract_by_coordinate() {
    assert_eq!(point(3, 4) + point(10, 20), Some(point(13, 24)));
    assert_eq!(point(150, 4) + point(51, 20), None);
    assert_eq!(point(3, 190) + point(10, 11), None);
    assert_eq!(point(13, 24) - point(10, 20), Some(point(3, 4)));
    assert_eq!(point(13, 24) - point(14, 20), None);
    assert_eq!(point(13, 24) - point(10, 25), None);
}

#[test]
fn rows_and_columns_wrap_bounded_integers() {
    let row = Row::new(7.try_into().unwrap());
    assert_eq!(row.get().as_unbounded(), 7);
    assert_eq!(row.saturating_add(500).get().as_unbounded(), 200);
    assert_eq!(row.saturating_sub(8).get().as_unbounded(), 0);
    assert_eq!((row + 3_u16).unwrap().get().as_unbounded(), 10);
    assert!((row - 8_u16).is_err());
    assert_eq!((row + row).unwrap().get().as_unbounded(), 14);
    assert_eq!((row - row).unwrap().get().as_unbounded(), 0);
    let column = Column::new(199.try_into().unwrap());
    assert_eq!(column.get().as_unbounded(), 199);
    assert_eq!(column.saturating_add(1).get().as_unbounded(), 200);
    assert_eq!(column.saturating_sub(1).get().as_unbounded(), 198);
    assert!((column + 2_u16).is_err());
    assert_eq!((column - 9_u16).unwrap().get().as_unbounded(), 190);
    assert!((column + column).is_err());
    assert_eq!((column - column).unwrap().get().as_unbounded(), 0);
}

#[test]
fn checked_moves_report_by_how_much() {
    assert_eq!(point(1, 200).add_column(1).unwrap_err().overflowed_by(), 1);
    assert_eq!(point(199, 3).add_row(7).unwrap_err().overflowed_by(), 6);
    assert_eq!(point(0, 3).sub_row(1).unwrap_err().underflowed_by(), 1);
    assert_eq!(point(5, 2).sub_column(4).unwrap_err().underflowed_by(), 2);
}
