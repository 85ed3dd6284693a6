//! The directions in which a player moves over a floor.

use crate::floor_builder::{in_grid, MAX_FLOOR_SIZE};
use crate::point::Point;
use crate::point_index::grid_index;
use crate::Floor;
use vstd::prelude::*;

verus! {

/// The direction in which a player faces and moves.
#[derive(Debug, PartialEq, Eq, Clone, Copy, Structural)]
pub enum PlayerDirection {
    /// Towards the first row.
    Up,
    /// Towards the first column.
    Left,
    /// Towards the last row.
    Down,
    /// Towards the last column.
    Right,
}

impl PlayerDirection {
    /// The point one step from `from` in this direction, or `None` where
    /// the step leaves the bounds of the largest floor.
    pub open spec fn target(self, from: Point) -> Option<Point> {
        match self {
            PlayerDirection::Up => if from.r() - 1 >= 0 {
                Some(Point::of(from.r() - 1, from.c()))
            } else {
                None
            },
            PlayerDirection::Right => if from.c() + 1 <= MAX_FLOOR_SIZE {
                Some(Point::of(from.r(), from.c() + 1))
            } else {
                None
            },
            PlayerDirection::Down => if from.r() + 1 <= MAX_FLOOR_SIZE {
                Some(Point::of(from.r() + 1, from.c()))
            } else {
                None
            },
            PlayerDirection::Left => if from.c() - 1 >= 0 {
                Some(Point::of(from.r(), from.c() - 1))
            } else {
                None
            },
        }
    }

    /// Where a step from `from` in this direction leads on `floor`: the
    /// point one step on, unless the step leaves the bounds or the point
    /// holds a wall.
    pub open spec fn moved(self, from: Point, floor: Floor) -> Option<Point> {
        match self.target(from) {
            Some(point) => if floor.data@[grid_index(point, floor.width.value())] is Wall {
                None
            } else {
                Some(point)
            },
            None => None,
        }
    }

    /// Tries to move from `from` one step in this direction: hands out the
    /// point that the step leads to, or `None` where the step leaves the
    /// bounds or runs into a wall.
    pub fn try_move_to_point(&self, from: &Point, floor: &Floor) -> (r: Option<Point>)
        requires
            floor.wf(),
            self.target(*from) matches Some(point) ==> in_grid(
                point,
                floor.width.value(),
                floor.height.value(),
            ),
        ensures
            r == self.moved(*from, *floor),
    {
        let stepped = match self {
            PlayerDirection::Up => match from.sub_row(1) {
                Ok(point) => Some(point),
                Err(_) => None,
            },
            PlayerDirection::Right => match from.add_column(1) {
                Ok(point) => Some(point),
                Err(_) => None,
            },
            PlayerDirection::Down => match from.add_row(1) {
                Ok(point) => Some(point),
                Err(_) => None,
            },
            PlayerDirection::Left => match from.sub_column(1) {
                Ok(point) => Some(point),
                Err(_) => None,
            },
        };
        match stepped {
            Some(new_point) => {
                if floor.at(new_point).is_wall() {
                    None
                } else {
                    Some(new_point)
                }
            },
            None => None,
        }
    }
}

} // verus!
