//! Addressing a flat buffer as a grid of rows.

use crate::bounded_int::BoundedInt;
use crate::floor_builder::{MAX_FLOOR_SIZE, MIN_FLOOR_SIZE};
use crate::point::Point;
use vstd::prelude::*;

verus! {

/// Where the item at `point` lies in a buffer that stores a grid of the
/// given width row after row: `row * width + column`.
pub open spec fn grid_index(point: Point, width: int) -> int {
    point.r() * width + point.c()
}

/// The point that a buffer of the given width stores at `index`.
pub open spec fn grid_point(index: int, width: int) -> Point {
    Point::of(index / width, index % width)
}

/// `grid_point` inverts `grid_index` on the points of a grid.
pub proof fn lemma_grid_point_of_index(point: Point, width: int)
    requires
        0 <= point.c() < width,
        0 <= point.r(),
    ensures
        grid_point(grid_index(point, width), width) == point,
{
    let index = grid_index(point, width);
    assert(index / width == point.r() && index % width == point.c()) by (nonlinear_arith)
        requires
            index == point.r() * width + point.c(),
            0 <= point.c() < width,
            0 <= point.r(),
    ;
    point.lemma_of_coordinates();
}

/// Two points of a grid that share an index are the same point.
pub proof fn lemma_grid_index_injective(a: Point, b: Point, width: int)
    requires
        0 <= a.c() < width,
        0 <= b.c() < width,
        0 <= a.r(),
        0 <= b.r(),
        grid_index(a, width) == grid_index(b, width),
    ensures
        a == b,
{
    lemma_grid_point_of_index(a, width);
    lemma_grid_point_of_index(b, width);
}

/// The index of a point of a grid lies inside the grid's buffer.
pub proof fn lemma_grid_index_bounds(point: Point, width: int, height: int)
    requires
        0 <= point.c() < width,
        0 <= point.r() < height,
    ensures
        0 <= grid_index(point, width) < width * height,
{
    assert(0 <= point.r() * width + point.c() < width * height) by (nonlinear_arith)
        requires
            0 <= point.c() < width,
            0 <= point.r() < height,
    ;
}

/// A one-dimensional buffer that holds a two-dimensional grid, row after
/// row, and can be addressed by a [`Point`] once the grid's width is given.
///
/// For a grid of width 4 and height 3 the buffer
/// `[a, b, c, d, e, f, g, h, i, j, k, l]` stands for the rows `[a, b, c, d]`,
/// `[e, f, g, h]` and `[i, j, k, l]`; the item in row 1 and column 2 lies at
/// index `1 * 4 + 2 = 6`.
pub trait PointIndex {
    /// The type of the items of the buffer.
    type Output;

    /// The items of the buffer, in storage order.
    spec fn cells(&self) -> Seq<Self::Output>;

    /// The item at `point`.
    fn at<const L: u32, const H: u32>(&self, point: Point, width: BoundedInt<L, H>) -> (r:
        &Self::Output)
        requires
            0 <= grid_index(point, width.value()) < self.cells().len(),
        ensures
            *r == self.cells()[grid_index(point, width.value())],
    ;

    /// The item at `point`, to be changed in place.
    fn at_mut<const L: u32, const H: u32>(&mut self, point: Point, width: BoundedInt<L, H>) -> (r:
        &mut Self::Output)
        requires
            0 <= grid_index(point, width.value()) < old(self).cells().len(),
        ensures
            *r == old(self).cells()[grid_index(point, width.value())],
            final(self).cells() == old(self).cells().update(
                grid_index(point, width.value()),
                *final(r),
            ),
    ;
}

/// The index of `point` in a buffer that is known to hold it.
fn offset<const L: u32, const H: u32>(point: Point, width: BoundedInt<L, H>, len: usize) -> (r:
    usize)
    requires
        0 <= grid_index(point, width.value()) < len,
    ensures
        r == grid_index(point, width.value()),
{
    let (row, column) = point.coordinates();
    let w: i32 = width.as_unbounded();
    assert(0 <= row * w <= 200 * 0x7fff_ffff) by (nonlinear_arith)
        requires
            0 <= row <= 200,
            0 <= w <= 0x7fff_ffff,
    ;
    let wide: i64 = (row as i64) * (w as i64) + (column as i64);
    wide as usize
}

impl<T> PointIndex for Vec<T> {
    type Output = T;

    open spec fn cells(&self) -> Seq<T> {
        self@
    }

    fn at<const L: u32, const H: u32>(&self, point: Point, width: BoundedInt<L, H>) -> (r: &T) {
        &self[offset(point, width, self.len())]
    }

    fn at_mut<const L: u32, const H: u32>(&mut self, point: Point, width: BoundedInt<L, H>) -> (r:
        &mut T) {
        let index = offset(point, width, self.len());
        &mut self[index]
    }
}

impl<T> PointIndex for [T] {
    type Output = T;

    open spec fn cells(&self) -> Seq<T> {
        self@
    }

    fn at<const L: u32, const H: u32>(&self, point: Point, width: BoundedInt<L, H>) -> (r: &T) {
        &self[offset(point, width, self.len())]
    }

    fn at_mut<const L: u32, const H: u32>(&mut self, point: Point, width: BoundedInt<L, H>) -> (r:
        &mut T) {
        let index = offset(point, width, self.len());
        &mut self[index]
    }
}

/// The `k`-th point of a grid of the given height when its points are
/// walked column after column, each column from the top down.
pub open spec fn scan_point(k: int, height: int) -> Point {
    Point::of(k % height, k / height)
}

/// All the points of a grid of the given width and height, column after
/// column, each column from the top down.
pub fn iter_points(
    width: BoundedInt<MIN_FLOOR_SIZE, MAX_FLOOR_SIZE>,
    height: BoundedInt<MIN_FLOOR_SIZE, MAX_FLOOR_SIZE>,
) -> (r: Vec<Point>)
    ensures
        r@.len() == width.value() * height.value(),
        forall|k: int| 0 <= k < r@.len() ==> #[trigger] r@[k] == scan_point(k, height.value()),
{
    let w: i32 = width.as_unbounded();
    let h: i32 = height.as_unbounded();
    let mut points: Vec<Point> = Vec::new();
    let mut column: i32 = 0;
    while column < w
        invariant
            0 <= column <= w,
            MIN_FLOOR_SIZE <= w <= MAX_FLOOR_SIZE,
            MIN_FLOOR_SIZE <= h <= MAX_FLOOR_SIZE,
            h == height.value(),
            points@.len() == column * h,
            forall|k: int| 0 <= k < points@.len() ==> #[trigger] points@[k] == scan_point(k, h as int),
        decreases w - column,
    {
        let mut row: i32 = 0;
        while row < h
            invariant
                0 <= column < w,
                0 <= row <= h,
                MIN_FLOOR_SIZE <= w <= MAX_FLOOR_SIZE,
                MIN_FLOOR_SIZE <= h <= MAX_FLOOR_SIZE,
                points@.len() == column * h + row,
                forall|k: int|
                    0 <= k < points@.len() ==> #[trigger] points@[k] == scan_point(k, h as int),
            decreases h - row,
        {
            let ghost k = column * h + row;
            assert(k % (h as int) == row && k / (h as int) == column) by (nonlinear_arith)
                requires
                    k == column * h + row,
                    0 <= row < h,
                    0 <= column,
            ;
            points.push(Point::at_coordinates(row, column));
            row += 1;
        }
        assert((column + 1) * h == column * h + h) by (nonlinear_arith);
        column += 1;
    }
    assert(w * h == width.value() * height.value());
    points
}

} // verus!
