//! Shortest paths over the tiles of a floor.

use crate::dungeon_tile::DungeonTile;
use crate::floor_builder::floor_builder_state::FloorBuilderState;
use crate::floor_builder::{adjacent, in_grid, legal_neighbors, lemma_legal_neighbors, out_of_bounds, FloorBuilder, MAX_FLOOR_SIZE, MIN_FLOOR_SIZE};
use crate::point::Point;
use crate::point_index::{grid_index, lemma_grid_index_bounds, PointIndex};
use pathfinding::prelude::dijkstra;
use vstd::prelude::*;

verus! {

/// Whether a path may step onto `point`: the goal is always open, any
/// other point only while it is not blocked.
pub open spec fn may_enter(blocked: Seq<bool>, w: int, goal: Point, point: Point) -> bool {
    point == goal || !blocked[grid_index(point, w)]
}

/// What a step onto `point` costs: its noise where the noise map is used,
/// else one.
pub open spec fn step_cost(noise: Seq<u16>, w: int, use_noise_map: bool, point: Point) -> u32 {
    if use_noise_map {
        noise[grid_index(point, w)] as u32
    } else {
        1u32
    }
}

/// The steps that a path can take from `point`, each with its cost: onto
/// the legal neighbours that may be entered, in the order of
/// [`legal_neighbors`].
pub open spec fn successors(
    noise: Seq<u16>,
    w: int,
    h: int,
    blocked: Seq<bool>,
    goal: Point,
    use_noise_map: bool,
    point: Point,
) -> Seq<(Point, u32)> {
    legal_neighbors(point, w, h).filter(|q: Point| may_enter(blocked, w, goal, q)).map_values(
        |q: Point| (q, step_cost(noise, w, use_noise_map, q)),
    )
}

/// Whether a path can step from `from` onto `to`.
pub open spec fn is_step(w: int, h: int, blocked: Seq<bool>, goal: Point, from: Point, to: Point) -> bool {
    legal_neighbors(from, w, h).contains(to) && may_enter(blocked, w, goal, to)
}

/// Whether `path` is a walk: it has a first point, and each of its points
/// is a step away from the one before.
pub open spec fn is_walk(w: int, h: int, blocked: Seq<bool>, goal: Point, path: Seq<Point>) -> bool {
    path.len() > 0 && forall|i: int|
        0 <= i < path.len() - 1 ==> is_step(w, h, blocked, goal, #[trigger] path[i], path[i + 1])
}

/// Whether a search may stop at `point`: at the goal, where it lies inside
/// the rim, and, where secret tiles are accepted, on any secret door or
/// secret passage.
pub open spec fn ends_search(
    tiles: Seq<DungeonTile>,
    w: int,
    h: int,
    goal: Point,
    accept_secret: bool,
    point: Point,
) -> bool {
    (!out_of_bounds(point, w, h) && point == goal) || (accept_secret && in_grid(point, w, h) && (
    tiles[grid_index(point, w)] is SecretDoor || tiles[grid_index(point, w)] is SecretPassage))
}

/// What a walk costs: the sum of what its steps cost, each step what the
/// point costs that it leads onto.
pub open spec fn walk_cost(noise: Seq<u16>, w: int, use_noise_map: bool, walk: Seq<Point>) -> int
    decreases walk.len(),
{
    if walk.len() <= 1 {
        0
    } else {
        walk_cost(noise, w, use_noise_map, walk.drop_last()) + step_cost(
            noise,
            w,
            use_noise_map,
            walk.last(),
        )
    }
}

/// Whether `path` costs no more than any walk that leads from `start` to a
/// point at which the search may stop.
pub open spec fn is_cheapest(
    tiles: Seq<DungeonTile>,
    noise: Seq<u16>,
    w: int,
    h: int,
    blocked: Seq<bool>,
    start: Point,
    goal: Point,
    use_noise_map: bool,
    accept_secret: bool,
    path: Seq<Point>,
) -> bool {
    forall|walk: Seq<Point>|
        #![trigger is_walk(w, h, blocked, goal, walk)]
        is_walk(w, h, blocked, goal, walk) && walk[0] == start && ends_search(
            tiles,
            w,
            h,
            goal,
            accept_secret,
            walk.last(),
        ) ==> walk_cost(noise, w, use_noise_map, path) <= walk_cost(noise, w, use_noise_map, walk)
}

/// The path that the search of [`FloorBuilder::shortest_path`] finds on the
/// given floor, or `None` where it finds none.
pub uninterp spec fn dijkstra_path(
    tiles: Seq<DungeonTile>,
    noise: Seq<u16>,
    w: int,
    h: int,
    blocked: Seq<bool>,
    start: Point,
    goal: Point,
    use_noise_map: bool,
    accept_secret: bool,
) -> Option<Seq<Point>>;

/// The distance between two numbers.
pub open spec fn gap(a: int, b: int) -> int {
    if a > b {
        a - b
    } else {
        b - a
    }
}

/// The walk from the point in row `row` and column `column` to the point
/// in row `to_row` and column `to_column` that first moves along the
/// column, row by row, and then along the row.
pub open spec fn straight_walk(row: int, column: int, to_row: int, to_column: int) -> Seq<Point>
    decreases gap(row, to_row) + gap(column, to_column),
{
    if row < to_row {
        seq![Point::of(row, column)] + straight_walk(row + 1, column, to_row, to_column)
    } else if row > to_row {
        seq![Point::of(row, column)] + straight_walk(row - 1, column, to_row, to_column)
    } else if column < to_column {
        seq![Point::of(row, column)] + straight_walk(row, column + 1, to_row, to_column)
    } else if column > to_column {
        seq![Point::of(row, column)] + straight_walk(row, column - 1, to_row, to_column)
    } else {
        seq![Point::of(row, column)]
    }
}

/// Any two points inside the rim of a floor are joined by a walk, as long
/// as no point is blocked.
pub proof fn lemma_straight_walk(w: int, h: int, blocked: Seq<bool>, from: Point, to: Point)
    requires
        MIN_FLOOR_SIZE <= w <= MAX_FLOOR_SIZE,
        MIN_FLOOR_SIZE <= h <= MAX_FLOOR_SIZE,
        !out_of_bounds(from, w, h),
        !out_of_bounds(to, w, h),
        forall|i: int| 0 <= i < blocked.len() ==> !blocked[i],
        blocked.len() == w * h,
    ensures
        is_walk(w, h, blocked, to, straight_walk(from.r(), from.c(), to.r(), to.c())),
        straight_walk(from.r(), from.c(), to.r(), to.c())[0] == from,
        straight_walk(from.r(), from.c(), to.r(), to.c()).last() == to,
    decreases gap(from.r(), to.r()) + gap(from.c(), to.c()),
{
    broadcast use Point::lemma_coordinates_of, Point::lemma_of_coordinates;

    let next = if from.r() < to.r() {
        Point::of(from.r() + 1, from.c())
    } else if from.r() > to.r() {
        Point::of(from.r() - 1, from.c())
    } else if from.c() < to.c() {
        Point::of(from.r(), from.c() + 1)
    } else {
        Point::of(from.r(), from.c() - 1)
    };
    assert(from == Point::of(from.r(), from.c()));
    assert(to == Point::of(to.r(), to.c()));
    if from.r() != to.r() || from.c() != to.c() {
        lemma_straight_walk(w, h, blocked, next, to);
        let rest = straight_walk(next.r(), next.c(), to.r(), to.c());
        let walk = straight_walk(from.r(), from.c(), to.r(), to.c());
        assert(walk == seq![from] + rest);
        lemma_legal_neighbors(from, w, h);
        assert(adjacent(from, next));
        assert(legal_neighbors(from, w, h).contains(next));
        lemma_grid_index_bounds(next, w, h);
        assert(is_step(w, h, blocked, to, from, next));
        assert forall|i: int| 0 <= i < walk.len() - 1 implies is_step(
            w,
            h,
            blocked,
            to,
            #[trigger] walk[i],
            walk[i + 1],
        ) by {
            if i > 0 {
                assert(walk[i] == rest[i - 1]);
                assert(walk[i + 1] == rest[i]);
            } else {
                assert(walk[1] == rest[0]);
            }
        }
        assert(walk.last() == rest.last());
    }
}

impl<S: FloorBuilderState> FloorBuilder<S> {
    /// The steps that a path can take from `point`, each with its cost.
    pub fn path_successors(
        &self,
        point: Point,
        goal: Point,
        blocked: &Vec<bool>,
        use_noise_map: bool,
    ) -> (r: Vec<(Point, u32)>)
        requires
            self.wf(),
            blocked@.len() == self.w() * self.h(),
        ensures
            r@ == successors(
                self.noise_map@,
                self.w(),
                self.h(),
                blocked@,
                goal,
                use_noise_map,
                point,
            ),
    {
        let neighbors = self.get_legal_neighbors(point);
        let ghost keep = |q: Point| may_enter(blocked@, self.w(), goal, q);
        let ghost price = |q: Point| (q, step_cost(self.noise_map@, self.w(), use_noise_map, q));
        let mut out: Vec<(Point, u32)> = Vec::new();
        let mut i: usize = 0;
        let _ = point.coordinates();
        proof {
            lemma_legal_neighbors(point, self.w(), self.h());
            assert(neighbors@.subrange(0, 0) =~= Seq::<Point>::empty());
            assert(Seq::<Point>::empty().filter(keep) =~= Seq::<Point>::empty());
        }
        while i < neighbors.len()
            invariant
                0 <= i <= neighbors.len(),
                self.wf(),
                blocked@.len() == self.w() * self.h(),
                neighbors@ == legal_neighbors(point, self.w(), self.h()),
                forall|q: Point| #[trigger]
                    neighbors@.contains(q) ==> !out_of_bounds(q, self.w(), self.h()),
                keep == |q: Point| may_enter(blocked@, self.w(), goal, q),
                price == |q: Point| (q, step_cost(self.noise_map@, self.w(), use_noise_map, q)),
                out@ == neighbors@.subrange(0, i as int).filter(keep).map_values(price),
            decreases neighbors.len() - i,
        {
            let q = neighbors[i];
            proof {
                assert(neighbors@.contains(q));
                lemma_grid_index_bounds(q, self.w(), self.h());
                let before = neighbors@.subrange(0, i as int);
                assert(neighbors@.subrange(0, i + 1) == before.push(q));
                lemma_filter_push(before, q, keep);
            }
            if q == goal || !*blocked.at(q, self.width) {
                let cost: u32 = if use_noise_map {
                    *self.noise_map.at(q, self.width) as u32
                } else {
                    1
                };
                out.push((q, cost));
                assert(out@ == neighbors@.subrange(0, i + 1).filter(keep).map_values(price));
            }
            i += 1;
        }
        assert(neighbors@.subrange(0, i as int) == neighbors@);
        out
    }

    /// Whether a search for `goal` may stop at `point`.
    pub fn path_ends_at(&self, point: Point, goal: Point, accept_secret: bool) -> (r: bool)
        requires
            self.wf(),
        ensures
            r == ends_search(self.map@, self.w(), self.h(), goal, accept_secret, point),
    {
        if !self.is_out_of_bounds(point) && point == goal {
            return true;
        }
        if !accept_secret {
            return false;
        }
        let (row, column) = point.coordinates();
        if row >= self.height.as_unbounded() || column >= self.width.as_unbounded() {
            return false;
        }
        proof {
            lemma_grid_index_bounds(point, self.w(), self.h());
        }
        let tile = *self.map.at(point, self.width);
        tile.is_secret_door() || tile.is_secret_passage()
    }

    /// Searches for the cheapest path from `start` to a point at which the
    /// search may stop.
    ///
    /// Calls `pathfinding::directed::dijkstra::dijkstra` with `start`, with
    /// [`FloorBuilder::path_successors`] as its successors and
    /// [`FloorBuilder::path_ends_at`] as its test of success, and drops the
    /// cost from what comes back. The crate documents that the path it
    /// returns starts at `start`, follows the successors, ends where the
    /// test holds, holds no point twice and is a cheapest one, and that
    /// `None` comes back only where no such path can be found. Which of
    /// several cheapest paths it picks is not documented; it depends on
    /// nothing but the arguments, so the path has a name,
    /// [`dijkstra_path`]. The costs are added up as `u32`: a floor
    /// has at most 40000 tiles and a step costs at most 65535, so no sum
    /// leaves the type.
    #[verifier::external_body]
    pub(crate) fn shortest_path(
        &self,
        start: Point,
        goal: Point,
        blocked: &Vec<bool>,
        use_noise_map: bool,
        accept_secret: bool,
    ) -> (r: Option<Vec<Point>>)
        requires
            self.wf(),
            blocked@.len() == self.w() * self.h(),
        ensures
            r is Some <==> dijkstra_path(
                self.map@,
                self.noise_map@,
                self.w(),
                self.h(),
                blocked@,
                start,
                goal,
                use_noise_map,
                accept_secret,
            ) is Some,
            r matches Some(path) ==> {
                &&& Some(path@) == dijkstra_path(
                    self.map@,
                    self.noise_map@,
                    self.w(),
                    self.h(),
                    blocked@,
                    start,
                    goal,
                    use_noise_map,
                    accept_secret,
                )
                &&& path@[0] == start
                &&& is_walk(self.w(), self.h(), blocked@, goal, path@)
                &&& ends_search(self.map@, self.w(), self.h(), goal, accept_secret, path@.last())
                &&& path@.no_duplicates()
                &&& is_cheapest(
                    self.map@,
                    self.noise_map@,
                    self.w(),
                    self.h(),
                    blocked@,
                    start,
                    goal,
                    use_noise_map,
                    accept_secret,
                    path@,
                )
            },
            r is None ==> forall|walk: Seq<Point>|
                #![trigger is_walk(self.w(), self.h(), blocked@, goal, walk)]
                is_walk(self.w(), self.h(), blocked@, goal, walk) && walk[0] == start
                    ==> !ends_search(
                    self.map@,
                    self.w(),
                    self.h(),
                    goal,
                    accept_secret,
                    walk.last(),
                ),
    {
        dijkstra(
            &start,
            |point| self.path_successors(*point, goal, blocked, use_noise_map),
            |point| self.path_ends_at(*point, goal, accept_secret),
        ).map(|found| found.0)
    }
}

/// A legal neighbour of a point lies inside the rim and is another point.
pub proof fn lemma_legal_neighbor_in_bounds(point: Point, neighbor: Point, w: int, h: int)
    requires
        legal_neighbors(point, w, h).contains(neighbor),
    ensures
        !out_of_bounds(neighbor, w, h),
        neighbor != point,
{
    let n = legal_neighbors(point, w, h);
    let i = choose|i: int| 0 <= i < n.len() && n[i] == neighbor;
}

/// Every point of a walk that starts inside the rim lies inside the rim.
pub proof fn lemma_walk_in_bounds(w: int, h: int, blocked: Seq<bool>, goal: Point, path: Seq<Point>)
    requires
        is_walk(w, h, blocked, goal, path),
        !out_of_bounds(path[0], w, h),
    ensures
        forall|k: int|
            0 <= k < path.len() ==> !out_of_bounds(#[trigger] path[k], w, h) && in_grid(
                path[k],
                w,
                h,
            ),
{
    assert forall|k: int| 0 <= k < path.len() implies !out_of_bounds(#[trigger] path[k], w, h)
        && in_grid(path[k], w, h) by {
        if k > 0 {
            assert(is_step(w, h, blocked, goal, path[k - 1], path[k - 1 + 1]));
            lemma_legal_neighbor_in_bounds(path[k - 1], path[k], w, h);
        }
    }
}

/// Filtering a sequence with one more item keeps that item exactly where
/// the filter accepts it.
pub proof fn lemma_filter_push<A>(s: Seq<A>, item: A, keep: spec_fn(A) -> bool)
    ensures
        s.push(item).filter(keep) == if keep(item) {
            s.filter(keep).push(item)
        } else {
            s.filter(keep)
        },
{
    reveal(Seq::filter);
    assert(s.push(item).drop_last() == s);
    assert(s.push(item).last() == item);
}

} // verus!
