//! The stage of a builder whose floor has been filled at random.

use crate::dungeon_tile::DungeonTile;
use crate::floor_builder::floor_builder_state::filled::Filled;
use crate::floor_builder::floor_builder_state::FloorBuilderState;
use crate::floor_builder::search::{
    dijkstra_path, ends_search, is_cheapest, is_walk, lemma_straight_walk, lemma_walk_in_bounds,
    straight_walk,
};
use crate::floor_builder::{has_one, in_grid, legal_neighbors_down_and_right, on_largest_floor, out_of_bounds, rim_is_wall, FloorBuilder, MAX_FLOOR_SIZE, MIN_FLOOR_SIZE, frames_extend, lemma_frames_stay, records, lemma_records_nothing, lemma_records_push};
use crate::point::Point;
use crate::point_index::{
    grid_index, grid_point, lemma_grid_index_bounds, lemma_grid_point_of_index, PointIndex,
};
use crate::random::{random_between, shuffle};
use crate::{squared_distance, squared_distance_between};
use vstd::prelude::*;

verus! {

/// A builder in this stage holds the random seed of walls from which the
/// cellular automaton grows caves.
#[derive(Debug)]
pub struct RandomFilled {}

impl FloorBuilderState for RandomFilled {

}

/// The larger of the two sizes of a floor.
pub open spec fn larger_dimension(w: int, h: int) -> int {
    if w > h {
        w
    } else {
        h
    }
}

/// Whether the way out may lie at `end` when the way in lies at `start`:
/// their distance is more than half the larger size of the floor, and less
/// than that size.
pub open spec fn far_enough_apart(start: Point, end: Point, w: int, h: int) -> bool {
    let larger = larger_dimension(w, h);
    4 * squared_distance(end, start) > larger * larger && squared_distance(end, start) < larger
        * larger
}

/// The `k`-th of the points inside the rim of a floor of width `w`, row
/// after row.
pub open spec fn inner_point(k: int, w: int) -> Point {
    Point::of(1 + k / (w - 2), 1 + k % (w - 2))
}

/// The point inside the rim that lies at the far end of the longer side,
/// seen from the upper left corner.
pub open spec fn far_from_corner(w: int, h: int) -> Point {
    if w > h {
        Point::of(1, w - 2)
    } else {
        Point::of(h - 2, 1)
    }
}

/// The upper left corner inside the rim can be the way in: the far end of
/// the longer side can be the way out.
pub proof fn lemma_corner_has_a_partner(w: int, h: int)
    requires
        MIN_FLOOR_SIZE <= w <= MAX_FLOOR_SIZE,
        MIN_FLOOR_SIZE <= h <= MAX_FLOOR_SIZE,
    ensures
        inner_point(0, w) == Point::of(1, 1),
        on_largest_floor(far_from_corner(w, h)),
        !out_of_bounds(far_from_corner(w, h), w, h),
        far_enough_apart(inner_point(0, w), far_from_corner(w, h), w, h),
{
    broadcast use Point::lemma_coordinates_of;

    let start = inner_point(0, w);
    let end = far_from_corner(w, h);
    let l = larger_dimension(w, h);
    assert(0int / (w - 2) == 0 && 0int % (w - 2) == 0) by (nonlinear_arith)
        requires
            w >= 10,
    ;
    assert(squared_distance(end, start) == (l - 3) * (l - 3)) by (nonlinear_arith)
        requires
            squared_distance(end, start) == (end.r() - start.r()) * (end.r() - start.r()) + (end.c()
                - start.c()) * (end.c() - start.c()),
            (end.r() - start.r() == 0 && end.c() - start.c() == l - 3) || (end.r() - start.r() == l
                - 3 && end.c() - start.c() == 0),
    ;
    assert(4 * ((l - 3) * (l - 3)) > l * l && (l - 3) * (l - 3) < l * l) by (nonlinear_arith)
        requires
            10 <= l <= 200,
    ;
}

/// Whether the path point `on_path` clears `target`: it is neither end of
/// the path, and `target` is the point itself or the legal neighbour below
/// or right of it.
pub open spec fn clears(on_path: Point, start: Point, end: Point, w: int, h: int, target: Point) -> bool {
    on_path != start && on_path != end && (on_path == target || legal_neighbors_down_and_right(
        on_path,
        w,
        h,
    ).contains(target))
}

/// Whether some point of `path` clears `target`.
pub open spec fn carves(path: Seq<Point>, start: Point, end: Point, w: int, h: int, target: Point) -> bool {
    exists|k: int| 0 <= k < path.len() && clears(#[trigger] path[k], start, end, w, h, target)
}

/// The map with the path from `start` to `end` carved into it: the way in
/// lies at `start`, the way out at `end`, and every solid tile that the path
/// clears is empty. Everything else is as it was.
pub open spec fn carved(
    tiles: Seq<DungeonTile>,
    w: int,
    h: int,
    path: Seq<Point>,
    start: Point,
    end: Point,
) -> Seq<DungeonTile> {
    Seq::new(
        tiles.len(),
        |i: int|
            if i == grid_index(end, w) {
                DungeonTile::Exit
            } else if i == grid_index(start, w) {
                DungeonTile::Entrance
            } else if tiles[i].solid() && carves(path, start, end, w, h, grid_point(i, w)) {
                DungeonTile::Empty
            } else {
                tiles[i]
            },
    )
}

/// The pictures taken while the first `n` points of a path are carved:
/// one after each point, of the map with the path carved as far as that
/// point, shown for a hundredth of a second.
pub open spec fn carve_steps(
    tiles: Seq<DungeonTile>,
    w: int,
    h: int,
    path: Seq<Point>,
    start: Point,
    end: Point,
    n: int,
) -> Seq<(Seq<DungeonTile>, u16)> {
    Seq::new(n as nat, |k: int| (carved(tiles, w, h, path.subrange(0, k + 1), start, end), 1u16))
}

/// The pictures taken while a path is carved: one after each point of the
/// path, and at the end one of the whole, shown for a second.
pub open spec fn carve_shots(
    tiles: Seq<DungeonTile>,
    w: int,
    h: int,
    path: Seq<Point>,
    start: Point,
    end: Point,
) -> Seq<(Seq<DungeonTile>, u16)> {
    carve_steps(tiles, w, h, path, start, end, path.len() as int).push(
        (carved(tiles, w, h, path, start, end), 100u16),
    )
}

/// The map in which nothing is blocked.
pub open spec fn nothing_blocked(w: int, h: int) -> Seq<bool> {
    Seq::new((w * h) as nat, |i: int| false)
}

/// A map without a way in or out has exactly one of each once a path has
/// been carved into it.
pub proof fn lemma_carved_has_one_way_in_and_out(
    tiles: Seq<DungeonTile>,
    w: int,
    h: int,
    path: Seq<Point>,
    start: Point,
    end: Point,
)
    requires
        0 < w,
        0 < h,
        tiles.len() == w * h,
        in_grid(start, w, h),
        in_grid(end, w, h),
        start != end,
        forall|i: int|
            0 <= i < tiles.len() ==> !(#[trigger] tiles[i] is Entrance) && !(tiles[i] is Exit),
    ensures
        has_one(carved(tiles, w, h, path, start, end), DungeonTile::Entrance),
        has_one(carved(tiles, w, h, path, start, end), DungeonTile::Exit),
{
    let after = carved(tiles, w, h, path, start, end);
    lemma_grid_index_bounds(start, w, h);
    lemma_grid_index_bounds(end, w, h);
    if grid_index(start, w) == grid_index(end, w) {
        crate::point_index::lemma_grid_index_injective(start, end, w);
    }
    assert(after[grid_index(start, w)] == DungeonTile::Entrance);
    assert(after[grid_index(end, w)] == DungeonTile::Exit);
}

/// Carving a path that stays inside the rim leaves a rim of walls a rim of
/// walls.
pub proof fn lemma_carved_keeps_rim(
    tiles: Seq<DungeonTile>,
    w: int,
    h: int,
    path: Seq<Point>,
    start: Point,
    end: Point,
)
    requires
        0 < w <= MAX_FLOOR_SIZE,
        0 < h <= MAX_FLOOR_SIZE,
        tiles.len() == w * h,
        !out_of_bounds(start, w, h),
        !out_of_bounds(end, w, h),
        forall|k: int|
            0 <= k < path.len() ==> on_largest_floor(#[trigger] path[k]) && !out_of_bounds(
                path[k],
                w,
                h,
            ),
        rim_is_wall(tiles, w, h),
    ensures
        rim_is_wall(carved(tiles, w, h, path, start, end), w, h),
{
    let after = carved(tiles, w, h, path, start, end);
    assert forall|i: int|
        0 <= i < after.len() && out_of_bounds(grid_point(i, w), w, h) implies #[trigger] after[i] is Wall by {
        let target = grid_point(i, w);
        lemma_index_of_grid_point(i, w, h);
        lemma_grid_point_of_index(start, w);
        lemma_grid_point_of_index(end, w);
        assert(tiles[i] is Wall);
        if carves(path, start, end, w, h, target) {
            let k = choose|k: int|
                0 <= k < path.len() && clears(#[trigger] path[k], start, end, w, h, target);
            if path[k] != target {
                lemma_down_and_right_in_bounds(path[k], target, w, h);
            }
        }
    }
}

/// What clearing around one more point of a path does to a map into which
/// the points before it have been carved.
proof fn lemma_carve_step(
    tiles: Seq<DungeonTile>,
    w: int,
    h: int,
    path: Seq<Point>,
    start: Point,
    end: Point,
    k: int,
    before: Seq<DungeonTile>,
    after: Seq<DungeonTile>,
)
    requires
        0 <= k < path.len(),
        before == carved(tiles, w, h, path.subrange(0, k), start, end),
        after.len() == before.len(),
        forall|i: int|
            0 <= i < before.len() ==> #[trigger] after[i] == if before[i].solid() && clears(
                path[k],
                start,
                end,
                w,
                h,
                grid_point(i, w),
            ) {
                DungeonTile::Empty
            } else {
                before[i]
            },
    ensures
        after == carved(tiles, w, h, path.subrange(0, k + 1), start, end),
{
    let shorter = path.subrange(0, k);
    let longer = path.subrange(0, k + 1);
    let goal = carved(tiles, w, h, longer, start, end);
    assert forall|i: int| 0 <= i < after.len() implies after[i] == goal[i] by {
        let target = grid_point(i, w);
        if carves(shorter, start, end, w, h, target) {
            let j = choose|j: int|
                0 <= j < shorter.len() && clears(#[trigger] shorter[j], start, end, w, h, target);
            assert(longer[j] == shorter[j]);
        }
        if clears(path[k], start, end, w, h, target) {
            assert(longer[k] == path[k]);
        }
        if carves(longer, start, end, w, h, target) {
            let j = choose|j: int|
                0 <= j < longer.len() && clears(#[trigger] longer[j], start, end, w, h, target);
            if j < k {
                assert(shorter[j] == longer[j]);
            }
        }
    }
    assert(after =~= goal);
}

impl<S: FloorBuilderState> FloorBuilder<S> {
    /// Whether the way out may lie at `end` when the way in lies at
    /// `start`.
    pub fn is_far_enough_apart(&self, start: Point, end: Point) -> (r: bool)
        ensures
            r == far_enough_apart(start, end, self.w(), self.h()),
    {
        let w: i32 = self.width.as_unbounded();
        let h: i32 = self.height.as_unbounded();
        let larger: u32 = if w > h {
            w as u32
        } else {
            h as u32
        };
        let apart: u32 = squared_distance_between(end, start);
        assert(larger * larger <= 40000) by (nonlinear_arith)
            requires
                larger <= 200,
        ;
        4 * apart > larger * larger && apart < larger * larger
    }

    /// Every point at which the way out may lie when the way in lies at
    /// `start`: the points inside the rim that are far enough from it.
    pub fn end_candidates(&self, start: Point) -> (r: Vec<Point>)
        ensures
            r@.len() <= 40000,
            forall|i: int|
                0 <= i < r@.len() ==> !out_of_bounds(#[trigger] r@[i], self.w(), self.h())
                    && far_enough_apart(start, r@[i], self.w(), self.h()),
            forall|p: Point|
                on_largest_floor(p) && !out_of_bounds(p, self.w(), self.h()) && far_enough_apart(
                    start,
                    p,
                    self.w(),
                    self.h(),
                ) ==> r@.contains(p),
    {
        let w: i32 = self.width.as_unbounded();
        let h: i32 = self.height.as_unbounded();
        let mut out: Vec<Point> = Vec::new();
        let mut row: i32 = 1;
        while row < h - 1
            invariant
                1 <= row <= h - 1,
                10 <= w <= 200,
                10 <= h <= 200,
                w == self.w(),
                h == self.h(),
                out@.len() <= (row - 1) * 200,
                forall|i: int|
                    0 <= i < out@.len() ==> !out_of_bounds(#[trigger] out@[i], self.w(), self.h())
                        && far_enough_apart(start, out@[i], self.w(), self.h()),
                forall|p: Point|
                    on_largest_floor(p) && !out_of_bounds(p, self.w(), self.h()) && p.r() < row
                        && far_enough_apart(start, p, self.w(), self.h()) ==> out@.contains(p),
            decreases h - row,
        {
            let mut column: i32 = 1;
            while column < w - 1
                invariant
                    1 <= row < h - 1,
                    1 <= column <= w - 1,
                    10 <= w <= 200,
                    10 <= h <= 200,
                    w == self.w(),
                    h == self.h(),
                    out@.len() <= (row - 1) * 200 + (column - 1),
                    forall|i: int|
                        0 <= i < out@.len() ==> !out_of_bounds(
                            #[trigger] out@[i],
                            self.w(),
                            self.h(),
                        ) && far_enough_apart(start, out@[i], self.w(), self.h()),
                    forall|p: Point|
                        on_largest_floor(p) && !out_of_bounds(p, self.w(), self.h()) && (p.r() < row
                            || (p.r() == row && p.c() < column)) && far_enough_apart(
                            start,
                            p,
                            self.w(),
                            self.h(),
                        ) ==> out@.contains(p),
                decreases w - column,
            {
                let candidate = Point::at_coordinates(row, column);
                let ghost before = out@;
                if self.is_far_enough_apart(start, candidate) {
                    out.push(candidate);
                    assert(out@.last() == candidate);
                }
                assert forall|p: Point|
                    on_largest_floor(p) && !out_of_bounds(p, self.w(), self.h()) && (p.r() < row
                        || (p.r() == row && p.c() < column + 1)) && far_enough_apart(
                        start,
                        p,
                        self.w(),
                        self.h(),
                    ) implies out@.contains(p) by {
                    if p.r() == row && p.c() == column {
                        p.lemma_of_coordinates();
                        assert(p == candidate);
                        assert(out@[out@.len() - 1] == candidate);
                    } else {
                        assert(before.contains(p));
                        let i = choose|i: int| 0 <= i < before.len() && before[i] == p;
                        assert(out@[i] == p);
                    }
                }
                column += 1;
            }
            row += 1;
        }
        out
    }

    /// Every point that lies inside the rim, row after row.
    pub fn interior_points(&self) -> (r: Vec<Point>)
        ensures
            r@.len() == (self.w() - 2) * (self.h() - 2),
            forall|k: int| 0 <= k < r@.len() ==> #[trigger] r@[k] == inner_point(k, self.w()),
            forall|k: int|
                0 <= k < r@.len() ==> !out_of_bounds(#[trigger] r@[k], self.w(), self.h()),
    {
        let w: i32 = self.width.as_unbounded();
        let h: i32 = self.height.as_unbounded();
        let mut out: Vec<Point> = Vec::new();
        let mut row: i32 = 1;
        while row < h - 1
            invariant
                1 <= row <= h - 1,
                10 <= w <= 200,
                10 <= h <= 200,
                w == self.w(),
                h == self.h(),
                out@.len() == (w - 2) * (row - 1),
                forall|k: int| 0 <= k < out@.len() ==> #[trigger] out@[k] == inner_point(k, w as int),
                forall|k: int|
                    0 <= k < out@.len() ==> !out_of_bounds(#[trigger] out@[k], self.w(), self.h()),
            decreases h - row,
        {
            let mut column: i32 = 1;
            while column < w - 1
                invariant
                    1 <= row < h - 1,
                    1 <= column <= w - 1,
                    10 <= w <= 200,
                    10 <= h <= 200,
                    w == self.w(),
                    h == self.h(),
                    out@.len() == (w - 2) * (row - 1) + (column - 1),
                    forall|k: int|
                        0 <= k < out@.len() ==> #[trigger] out@[k] == inner_point(k, w as int),
                    forall|k: int|
                        0 <= k < out@.len() ==> !out_of_bounds(
                            #[trigger] out@[k],
                            self.w(),
                            self.h(),
                        ),
                decreases w - column,
            {
                let ghost k = (w - 2) * (row - 1) + (column - 1);
                assert(k / (w - 2) == row - 1 && k % (w - 2) == column - 1) by (nonlinear_arith)
                    requires
                        k == (w - 2) * (row - 1) + (column - 1),
                        0 <= column - 1 < w - 2,
                        0 <= row - 1,
                ;
                out.push(Point::at_coordinates(row, column));
                column += 1;
            }
            assert((w - 2) * (row + 1 - 1) == (w - 2) * (row - 1) + (w - 2)) by (nonlinear_arith);
            row += 1;
        }
        assert((w - 2) * (h - 2) == (self.w() - 2) * (self.h() - 2));
        out
    }

    /// Picks where the way in and the way out lie: two points inside the
    /// rim that are far enough apart. The points inside the rim are tried
    /// as the way in, in a random order, until one has a point that can be
    /// the way out; the way out is picked at random among those that can.
    /// The corner of the floor is a way in that has one, so the search
    /// finds a pair.
    pub fn pick_endpoints(&self) -> (r: (Point, Point))
        requires
            self.wf(),
        ensures
            !out_of_bounds(r.0, self.w(), self.h()),
            !out_of_bounds(r.1, self.w(), self.h()),
            far_enough_apart(r.0, r.1, self.w(), self.h()),
    {
        let mut starts = self.interior_points();
        let ghost unshuffled = starts@;
        let ghost w = self.w();
        let ghost h = self.h();
        shuffle(&mut starts);
        proof {
            broadcast use vstd::seq_lib::group_to_multiset_ensures;

            assert forall|i: int| 0 <= i < starts@.len() implies !out_of_bounds(
                #[trigger] starts@[i],
                w,
                h,
            ) by {
                let p = starts@[i];
                assert(starts@.contains(p));
                assert(starts@.to_multiset().count(p) > 0);
                assert(unshuffled.to_multiset().count(p) > 0);
                assert(unshuffled.contains(p));
            }
            assert((w - 2) * (h - 2) > 0) by (nonlinear_arith)
                requires
                    w >= 10,
                    h >= 10,
            ;
            assert(unshuffled[0] == inner_point(0, w));
            assert(unshuffled.contains(inner_point(0, w)));
            assert(starts@.to_multiset().count(inner_point(0, w)) > 0);
            assert(starts@.contains(inner_point(0, w)));
        }
        let mut i: usize = 0;
        while i < starts.len()
            invariant
                0 <= i <= starts.len(),
                self.wf(),
                w == self.w(),
                h == self.h(),
                forall|i: int| 0 <= i < starts@.len() ==> !out_of_bounds(#[trigger] starts@[i], w, h),
                forall|j: int, p: Point|
                    0 <= j < i && on_largest_floor(p) && !out_of_bounds(p, w, h)
                        ==> !#[trigger] far_enough_apart(starts@[j], p, w, h),
            decreases starts.len() - i,
        {
            let start = starts[i];
            let ends = self.end_candidates(start);
            if ends.len() > 0 {
                let chosen: i32 = random_between(0, (ends.len() - 1) as i32);
                let end = ends[chosen as usize];
                return (start, end);
            }
            proof {
                assert forall|p: Point|
                    on_largest_floor(p) && !out_of_bounds(p, w, h) implies !#[trigger] far_enough_apart(
                    start,
                    p,
                    w,
                    h,
                ) by {
                    if far_enough_apart(start, p, w, h) {
                        assert(ends@.contains(p));
                    }
                }
            }
            i += 1;
        }
        proof {
            let corner = inner_point(0, w);
            let j = choose|j: int| 0 <= j < starts@.len() && starts@[j] == corner;
            lemma_corner_has_a_partner(w, h);
            assert(far_enough_apart(starts@[j], far_from_corner(w, h), w, h));
        }
        vstd::pervasive::unreached()
    }

    /// Makes the tile at `point` empty where it is solid.
    fn clear_if_solid(&mut self, point: Point)
        requires
            old(self).wf(),
            in_grid(point, old(self).w(), old(self).h()),
        ensures
            final(self).wf(),
            final(self).width == old(self).width,
            final(self).height == old(self).height,
            final(self).noise_map == old(self).noise_map,
            final(self).extra == old(self).extra,
            final(self).frames == old(self).frames,
            final(self).id == old(self).id,
            final(self).map@ == if old(self).tile(point).solid() {
                old(self).map@.update(grid_index(point, old(self).w()), DungeonTile::Empty)
            } else {
                old(self).map@
            },
    {
        proof {
            lemma_grid_index_bounds(point, self.w(), self.h());
        }
        let width = self.width;
        if self.map.at(point, width).is_solid() {
            *self.map.at_mut(point, width) = DungeonTile::Empty;
        }
    }

    /// Clears the point `path[k]` and its legal neighbours below and to
    /// the right, unless the point is an end of the path.
    fn carve_around(&mut self, path: &Vec<Point>, k: usize, start: Point, end: Point)
        requires
            old(self).wf(),
            k < path@.len(),
            in_grid(path@[k as int], old(self).w(), old(self).h()),
        ensures
            final(self).wf(),
            final(self).width == old(self).width,
            final(self).height == old(self).height,
            final(self).noise_map == old(self).noise_map,
            final(self).extra == old(self).extra,
            final(self).frames == old(self).frames,
            final(self).id == old(self).id,
            forall|i: int|
                0 <= i < old(self).map@.len() ==> #[trigger] final(self).map@[i] == if old(
                    self,
                ).map@[i].solid() && clears(
                    path@[k as int],
                    start,
                    end,
                    old(self).w(),
                    old(self).h(),
                    grid_point(i, old(self).w()),
                ) {
                    DungeonTile::Empty
                } else {
                    old(self).map@[i]
                },
    {
        let point = path[k];
        let ghost w = self.w();
        let ghost h = self.h();
        let ghost tiles = self.map@;
        if point == start || point == end {
            return ;
        }
        let _ = point.coordinates();
        let neighbors = self.get_legal_neighbors_down_and_right(point);
        self.clear_if_solid(point);
        proof {
            lemma_grid_point_of_index(point, w);
            lemma_grid_index_bounds(point, w, h);
            assert(neighbors@.subrange(0, 0) =~= Seq::<Point>::empty());
            assert forall|i: int| 0 <= i < tiles.len() implies #[trigger] self.map@[i] == if tiles[i].solid()
                && (grid_point(i, w) == point || neighbors@.subrange(0, 0).contains(
                grid_point(i, w),
            )) {
                DungeonTile::Empty
            } else {
                tiles[i]
            } by {
                lemma_index_of_grid_point(i, w, h);
            }
        }
        let mut j: usize = 0;
        while j < neighbors.len()
            invariant
                0 <= j <= neighbors.len(),
                self.wf(),
                w == self.w(),
                h == self.h(),
                tiles.len() == w * h,
                self.width == old(self).width,
                self.height == old(self).height,
                self.noise_map == old(self).noise_map,
                self.extra == old(self).extra,
                self.frames == old(self).frames,
                self.id == old(self).id,
                neighbors@ == legal_neighbors_down_and_right(point, w, h),
                on_largest_floor(point),
                forall|i: int|
                    0 <= i < tiles.len() ==> #[trigger] self.map@[i] == if tiles[i].solid() && (
                    grid_point(i, w) == point || neighbors@.subrange(0, j as int).contains(
                        grid_point(i, w),
                    )) {
                        DungeonTile::Empty
                    } else {
                        tiles[i]
                    },
            decreases neighbors.len() - j,
        {
            let neighbor = neighbors[j];
            let ghost before = self.map@;
            proof {
                assert(neighbors@.contains(neighbor));
                lemma_down_and_right_in_bounds(point, neighbor, w, h);
                lemma_grid_point_of_index(neighbor, w);
                lemma_grid_index_bounds(neighbor, w, h);
            }
            self.clear_if_solid(neighbor);
            proof {
                let shorter = neighbors@.subrange(0, j as int);
                let longer = neighbors@.subrange(0, j + 1);
                assert(longer == shorter.push(neighbor));
                assert forall|i: int| 0 <= i < tiles.len() implies #[trigger] self.map@[i] == if tiles[i].solid()
                    && (grid_point(i, w) == point || longer.contains(grid_point(i, w))) {
                    DungeonTile::Empty
                } else {
                    tiles[i]
                } by {
                    let target = grid_point(i, w);
                    if shorter.contains(target) {
                        let m = choose|m: int| 0 <= m < shorter.len() && shorter[m] == target;
                        assert(longer[m] == target);
                    }
                    if longer.contains(target) && !shorter.contains(target) {
                        let m = choose|m: int| 0 <= m < longer.len() && longer[m] == target;
                        if m < j {
                            assert(shorter[m] == target);
                        }
                        assert(target == neighbor);
                    }
                    if target == neighbor {
                        assert(longer[j as int] == neighbor);
                        lemma_index_of_grid_point(i, w, h);
                        assert(i == grid_index(neighbor, w));
                    }
                }
            }
            j += 1;
        }
        assert(neighbors@.subrange(0, j as int) == neighbors@);
    }

    /// Carves the path from `start` to `end` into the map: puts the way in
    /// at `start` and the way out at `end`, and clears every solid tile on
    /// the path between them, together with its legal neighbours below and
    /// to the right.
    pub fn carve_original_path(&mut self, start: Point, end: Point, path: &Vec<Point>)
        requires
            old(self).wf(),
            in_grid(start, old(self).w(), old(self).h()),
            in_grid(end, old(self).w(), old(self).h()),
            forall|k: int|
                0 <= k < path@.len() ==> in_grid(#[trigger] path@[k], old(self).w(), old(self).h()),
        ensures
            final(self).wf(),
            final(self).width == old(self).width,
            final(self).height == old(self).height,
            final(self).noise_map == old(self).noise_map,
            final(self).extra == old(self).extra,
            final(self).id == old(self).id,
            frames_extend(old(self).frames, final(self).frames),
            records(
                old(self).frames,
                final(self).frames,
                carve_shots(old(self).map@, old(self).w(), old(self).h(), path@, start, end),
                old(self).w(),
                old(self).h(),
            ),
            final(self).map@ == carved(
                old(self).map@,
                old(self).w(),
                old(self).h(),
                path@,
                start,
                end,
            ),
    {
        let ghost tiles = self.map@;
        let ghost w = self.w();
        let ghost h = self.h();
        proof {
            lemma_grid_index_bounds(start, w, h);
            lemma_grid_index_bounds(end, w, h);
        }
        let width = self.width;
        *self.map.at_mut(start, width) = DungeonTile::Entrance;
        *self.map.at_mut(end, width) = DungeonTile::Exit;
        assert(self.map@ =~= carved(tiles, w, h, path@.subrange(0, 0), start, end));
        proof {
            lemma_frames_stay(self.frames);
            lemma_records_nothing(self.frames, w, h);
            assert(carve_steps(tiles, w, h, path@, start, end, 0) =~= Seq::empty());
        }

        let mut k: usize = 0;
        while k < path.len()
            invariant
                0 <= k <= path.len(),
                self.wf(),
                w == self.w(),
                h == self.h(),
                tiles == old(self).map@,
                self.width == old(self).width,
                self.height == old(self).height,
                self.noise_map == old(self).noise_map,
                self.extra == old(self).extra,
                self.id == old(self).id,
                frames_extend(old(self).frames, self.frames),
                records(
                    old(self).frames,
                    self.frames,
                    carve_steps(tiles, w, h, path@, start, end, k as int),
                    w,
                    h,
                ),
                forall|k: int| 0 <= k < path@.len() ==> in_grid(#[trigger] path@[k], w, h),
                self.map@ == carved(tiles, w, h, path@.subrange(0, k as int), start, end),
            decreases path.len() - k,
        {
            let ghost before = self.map@;
            self.carve_around(path, k, start, end);
            proof {
                lemma_carve_step(tiles, w, h, path@, start, end, k as int, before, self.map@);
            }
            let ghost taken = self.frames;
            self.frame_from_current_state(1);
            proof {
                lemma_records_push(
                    old(self).frames,
                    taken,
                    self.frames,
                    carve_steps(tiles, w, h, path@, start, end, k as int),
                    self.map@,
                    w,
                    h,
                    1u16,
                );
                assert(carve_steps(tiles, w, h, path@, start, end, k + 1) =~= carve_steps(
                    tiles,
                    w,
                    h,
                    path@,
                    start,
                    end,
                    k as int,
                ).push((self.map@, 1u16)));
            }
            k += 1;
        }
        assert(path@.subrange(0, k as int) == path@);
        let ghost taken = self.frames;
        self.frame_from_current_state(100);
        proof {
            lemma_records_push(
                old(self).frames,
                taken,
                self.frames,
                carve_steps(tiles, w, h, path@, start, end, path@.len() as int),
                self.map@,
                w,
                h,
                100u16,
            );
        }
    }
}

/// The index of the point that lies at `index` is `index`.
pub proof fn lemma_index_of_grid_point(index: int, w: int, h: int)
    requires
        0 <= index < w * h,
        0 < w <= MAX_FLOOR_SIZE,
        0 < h <= MAX_FLOOR_SIZE,
    ensures
        grid_index(grid_point(index, w), w) == index,
        in_grid(grid_point(index, w), w, h),
{
    assert(0 <= index % w < w && 0 <= index / w < h && (index / w) * w + index % w == index) by (nonlinear_arith)
        requires
            0 <= index < w * h,
            0 < w,
            0 < h,
    ;
    Point::lemma_coordinates_of(index / w, index % w);
}

/// A legal neighbour below or right of a point lies inside the rim.
pub proof fn lemma_down_and_right_in_bounds(point: Point, neighbor: Point, w: int, h: int)
    requires
        legal_neighbors_down_and_right(point, w, h).contains(neighbor),
        on_largest_floor(point),
    ensures
        !out_of_bounds(neighbor, w, h),
        in_grid(neighbor, w, h),
        on_largest_floor(neighbor),
{
    broadcast use Point::lemma_coordinates_of;

    let n = legal_neighbors_down_and_right(point, w, h);
    let i = choose|i: int| 0 <= i < n.len() && n[i] == neighbor;
}

impl<S: FloorBuilderState> FloorBuilder<S> {
    /// Finds a cheapest path from `start` to `end` along the noise map,
    /// with nothing blocked: no walk from the one to the other costs less,
    /// and the path holds no point twice. Between two points inside the
    /// rim there always is one.
    pub fn find_original_path(&self, start: Point, end: Point) -> (r: Vec<Point>)
        requires
            self.wf(),
            !out_of_bounds(start, self.w(), self.h()),
            !out_of_bounds(end, self.w(), self.h()),
        ensures
            Some(r@) == dijkstra_path(
                self.map@,
                self.noise_map@,
                self.w(),
                self.h(),
                nothing_blocked(self.w(), self.h()),
                start,
                end,
                true,
                false,
            ),
            forall|k: int|
                0 <= k < r@.len() ==> in_grid(#[trigger] r@[k], self.w(), self.h())
                    && !out_of_bounds(r@[k], self.w(), self.h()),
            r@.len() > 0,
            r@[0] == start,
            r@.last() == end,
            is_walk(self.w(), self.h(), nothing_blocked(self.w(), self.h()), end, r@),
            r@.no_duplicates(),
            is_cheapest(
                self.map@,
                self.noise_map@,
                self.w(),
                self.h(),
                nothing_blocked(self.w(), self.h()),
                start,
                end,
                true,
                false,
                r@,
            ),
    {
        let ghost w = self.w();
        let ghost h = self.h();
        let size: usize = self.map.len();
        let blocked: Vec<bool> = vec![false; size];
        assert(blocked@ =~= nothing_blocked(w, h));
        let found = self.shortest_path(start, end, &blocked, true, false);
        let _ = start.coordinates();
        let _ = end.coordinates();
        proof {
            lemma_straight_walk(w, h, blocked@, start, end);
            let walk = straight_walk(start.r(), start.c(), end.r(), end.c());
            assert(is_walk(w, h, blocked@, end, walk));
            assert(ends_search(self.map@, w, h, end, false, walk.last()));
        }
        match found {
            Some(path) => {
                proof {
                    lemma_walk_in_bounds(w, h, blocked@, end, path@);
                }
                path
            },
            None => vstd::pervasive::unreached(),
        }
    }
}

impl FloorBuilder<RandomFilled> {
    /// Traces the first path through the map, from a way in to a way out
    /// that are picked at random, along the valleys of the noise map, and
    /// carves it.
    pub fn trace_original_path(self) -> (r: FloorBuilder<Filled>)
        requires
            self.wf(),
        ensures
            r.wf(),
            r.width == self.width,
            r.height == self.height,
            r.noise_map == self.noise_map,
            r.id == self.id,
            frames_extend(self.frames, r.frames),
            traces_original_path(self.map@, self.noise_map@, self.w(), self.h(), r.map@),
            exists|shots: Seq<(Seq<DungeonTile>, u16)>| #[trigger]
                shoots_original_path(
                    self.map@,
                    self.noise_map@,
                    self.w(),
                    self.h(),
                    r.map@,
                    shots,
                ) && records(self.frames, r.frames, shots, self.w(), self.h()),
            (forall|i: int|
                0 <= i < self.map@.len() ==> !(#[trigger] self.map@[i] is Entrance)
                    && !(self.map@[i] is Exit)) ==> has_one(r.map@, DungeonTile::Entrance)
                && has_one(r.map@, DungeonTile::Exit),
            rim_is_wall(self.map@, self.w(), self.h()) ==> rim_is_wall(r.map@, r.w(), r.h()),
            has_open_way(r.map@, self.w(), self.h()),
    {
        let ghost w = self.w();
        let ghost h = self.h();
        let (start, end) = self.pick_endpoints();
        let path = self.find_original_path(start, end);
        let mut builder = self;
        builder.carve_original_path(start, end, &path);
        proof {
            assert(original_path(self.map@, self.noise_map@, w, h, start, end) == Some(path@));
            assert(far_enough_apart(start, end, w, h));
            reveal(joins_ways);
            lemma_carved_path_is_open(self.map@, w, h, path@, start, end);
            assert(joins_ways(w, h, path@, start, end, builder.map@));
            lemma_far_apart_differ(start, end, w, h);
            lemma_grid_index_bounds(start, w, h);
            lemma_grid_index_bounds(end, w, h);
            if grid_index(start, w) == grid_index(end, w) {
                crate::point_index::lemma_grid_index_injective(start, end, w);
            }
            assert(has_open_way(builder.map@, w, h));
            assert(traces_original_path(self.map@, self.noise_map@, w, h, builder.map@));
            assert(shoots_original_path(
                self.map@,
                self.noise_map@,
                w,
                h,
                builder.map@,
                carve_shots(self.map@, w, h, path@, start, end),
            ));
            if forall|i: int|
                0 <= i < self.map@.len() ==> !(#[trigger] self.map@[i] is Entrance)
                    && !(self.map@[i] is Exit) {
                lemma_far_apart_differ(start, end, w, h);
                lemma_carved_has_one_way_in_and_out(self.map@, w, h, path@, start, end);
            }
            if rim_is_wall(self.map@, w, h) {
                lemma_carved_keeps_rim(self.map@, w, h, path@, start, end);
            }
        }
        builder.into_state(Filled {  })
    }
}

/// Whether `path` joins the way in at `start` to the way out at `end` on
/// the map `after`: it starts at the one and ends at the other, each of its
/// points is a step along a row or a column from the one before, and none
/// of its points holds a solid tile.
#[verifier::opaque]
pub open spec fn joins_ways(
    w: int,
    h: int,
    path: Seq<Point>,
    start: Point,
    end: Point,
    after: Seq<DungeonTile>,
) -> bool {
    &&& path.len() > 0
    &&& path[0] == start
    &&& path.last() == end
    &&& is_walk(w, h, nothing_blocked(w, h), end, path)
    &&& forall|k: int| 0 <= k < path.len() ==> !after[grid_index(#[trigger] path[k], w)].solid()
}

/// Whether the map holds a way in and a way out inside its rim that a run
/// of tiles joins, each a step along a row or a column from the one
/// before, and none of them solid.
pub open spec fn has_open_way(after: Seq<DungeonTile>, w: int, h: int) -> bool {
    exists|start: Point, end: Point, path: Seq<Point>|
        {
            &&& !out_of_bounds(start, w, h)
            &&& !out_of_bounds(end, w, h)
            &&& after[grid_index(start, w)] == DungeonTile::Entrance
            &&& after[grid_index(end, w)] == DungeonTile::Exit
            &&& #[trigger] joins_ways(w, h, path, start, end, after)
        }
}

/// A map with an open way holds a way in, a way out, and a walk from the
/// one to the other on which no tile is solid.
pub proof fn lemma_open_way(after: Seq<DungeonTile>, w: int, h: int)
    requires
        has_open_way(after, w, h),
    ensures
        exists|path: Seq<Point>|
            {
                &&& path.len() > 0
                &&& !out_of_bounds(path[0], w, h)
                &&& !out_of_bounds(path.last(), w, h)
                &&& after[grid_index(path[0], w)] == DungeonTile::Entrance
                &&& after[grid_index(path.last(), w)] == DungeonTile::Exit
                &&& #[trigger] is_walk(w, h, nothing_blocked(w, h), path.last(), path)
                &&& forall|k: int|
                    0 <= k < path.len() ==> !after[grid_index(#[trigger] path[k], w)].solid()
            },
{
    reveal(joins_ways);
    let (start, end, path) = choose|start: Point, end: Point, path: Seq<Point>|
        {
            &&& !out_of_bounds(start, w, h)
            &&& !out_of_bounds(end, w, h)
            &&& after[grid_index(start, w)] == DungeonTile::Entrance
            &&& after[grid_index(end, w)] == DungeonTile::Exit
            &&& #[trigger] joins_ways(w, h, path, start, end, after)
        };
    assert(is_walk(w, h, nothing_blocked(w, h), path.last(), path));
}

/// A path that is carved into a map is open from end to end: none of its
/// points holds a solid tile.
pub proof fn lemma_carved_path_is_open(
    tiles: Seq<DungeonTile>,
    w: int,
    h: int,
    path: Seq<Point>,
    start: Point,
    end: Point,
)
    requires
        0 < w <= MAX_FLOOR_SIZE,
        0 < h <= MAX_FLOOR_SIZE,
        tiles.len() == w * h,
        in_grid(start, w, h),
        in_grid(end, w, h),
        forall|k: int| 0 <= k < path.len() ==> in_grid(#[trigger] path[k], w, h),
    ensures
        forall|k: int|
            0 <= k < path.len() ==> !carved(tiles, w, h, path, start, end)[grid_index(
                #[trigger] path[k],
                w,
            )].solid(),
{
    let after = carved(tiles, w, h, path, start, end);
    assert forall|k: int| 0 <= k < path.len() implies !after[grid_index(
        #[trigger] path[k],
        w,
    )].solid() by {
        let here = path[k];
        let i = grid_index(here, w);
        lemma_grid_index_bounds(here, w, h);
        lemma_grid_point_of_index(here, w);
        if i != grid_index(end, w) && i != grid_index(start, w) {
            assert(clears(path[k], start, end, w, h, grid_point(i, w)));
            assert(carves(path, start, end, w, h, grid_point(i, w)));
        }
    }
}

/// Whether `after` can be what tracing the first path makes of a map: the
/// way in and the way out lie inside the rim, far enough apart, and the
/// path that the search finds between them along the noise map is carved
/// into the map, so that it joins the two by a run of tiles that are not
/// solid.
pub open spec fn traces_original_path(
    tiles: Seq<DungeonTile>,
    noise: Seq<u16>,
    w: int,
    h: int,
    after: Seq<DungeonTile>,
) -> bool {
    exists|start: Point, end: Point|
        #![trigger far_enough_apart(start, end, w, h)]
        {
            &&& !out_of_bounds(start, w, h)
            &&& !out_of_bounds(end, w, h)
            &&& far_enough_apart(start, end, w, h)
            &&& original_path(tiles, noise, w, h, start, end) is Some
            &&& after == carved(
                tiles,
                w,
                h,
                original_path(tiles, noise, w, h, start, end)->Some_0,
                start,
                end,
            )
            &&& joins_ways(
                w,
                h,
                original_path(tiles, noise, w, h, start, end)->Some_0,
                start,
                end,
                after,
            )
        }
}

/// Whether `after` and the pictures `shots` can be what tracing the first
/// path makes of a map: the way in and the way out lie inside the rim, far
/// enough apart, the path that the search finds between them is carved
/// into the map, and the pictures of the carving are taken.
pub open spec fn shoots_original_path(
    tiles: Seq<DungeonTile>,
    noise: Seq<u16>,
    w: int,
    h: int,
    after: Seq<DungeonTile>,
    shots: Seq<(Seq<DungeonTile>, u16)>,
) -> bool {
    exists|start: Point, end: Point|
        #![trigger far_enough_apart(start, end, w, h)]
        {
            &&& !out_of_bounds(start, w, h)
            &&& !out_of_bounds(end, w, h)
            &&& far_enough_apart(start, end, w, h)
            &&& original_path(tiles, noise, w, h, start, end) is Some
            &&& after == carved(
                tiles,
                w,
                h,
                original_path(tiles, noise, w, h, start, end)->Some_0,
                start,
                end,
            )
            &&& joins_ways(
                w,
                h,
                original_path(tiles, noise, w, h, start, end)->Some_0,
                start,
                end,
                after,
            )
            &&& shots == carve_shots(
                tiles,
                w,
                h,
                original_path(tiles, noise, w, h, start, end)->Some_0,
                start,
                end,
            )
        }
}

/// The path of the first search between `start` and `end`: the cheapest
/// one along the noise map, with nothing blocked.
pub open spec fn original_path(
    tiles: Seq<DungeonTile>,
    noise: Seq<u16>,
    w: int,
    h: int,
    start: Point,
    end: Point,
) -> Option<Seq<Point>> {
    dijkstra_path(tiles, noise, w, h, nothing_blocked(w, h), start, end, true, false)
}

/// Two points that are far enough apart are two points.
pub proof fn lemma_far_apart_differ(start: Point, end: Point, w: int, h: int)
    requires
        far_enough_apart(start, end, w, h),
    ensures
        start != end,
{
    if start == end {
        assert(squared_distance(end, start) == 0) by (nonlinear_arith)
            requires
                squared_distance(end, start) == (end.r() - start.r()) * (end.r() - start.r()) + (
                end.c() - start.c()) * (end.c() - start.c()),
                end.r() == start.r(),
                end.c() == start.c(),
        ;
        assert(larger_dimension(w, h) * larger_dimension(w, h) >= 0) by (nonlinear_arith);
    }
}

} // verus!
