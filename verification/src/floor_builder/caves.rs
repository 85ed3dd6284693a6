//! Caves: the connected empty regions of a floor, and the tiles that
//! enclose them.

use crate::border::{Border, BorderId};
use crate::dungeon_tile::DungeonTile;
use crate::floor_builder::floor_builder_state::random_filled::lemma_index_of_grid_point;
use crate::floor_builder::floor_builder_state::FloorBuilderState;
use crate::floor_builder::{in_grid, legal_neighbors, lemma_legal_neighbors, on_largest_floor, out_of_bounds, FloorBuilder, MAX_FLOOR_SIZE, MIN_FLOOR_SIZE};
use crate::point::Point;
use crate::point_index::{
    grid_index, grid_point, lemma_grid_index_bounds, lemma_grid_point_of_index, scan_point,
    PointIndex,
};
use std::collections::VecDeque;
use vstd::prelude::*;

verus! {

/// The search for one cave: a map, the points that earlier searches have
/// visited, and the empty, unvisited point from which this one sets out.
pub struct CaveSearch {
    /// The tiles of the map, row after row.
    pub tiles: Seq<DungeonTile>,
    /// The width of the map.
    pub w: int,
    /// The height of the map.
    pub h: int,
    /// For each tile, whether an earlier search has visited it.
    pub visited: Seq<bool>,
    /// The point from which the search sets out.
    pub seed: Point,
}

/// How far a search has come.
pub struct CaveProgress {
    /// For each tile, whether it has been visited by now.
    pub visited: Seq<bool>,
    /// The points that wait to be looked at, oldest first.
    pub queue: Seq<Point>,
    /// The points of the border that have been found.
    pub border: Seq<Point>,
    /// For each tile, the number of the last search that put it into a
    /// border.
    pub marks: Seq<usize>,
    /// The points of the cave that have been found.
    pub explored: Set<Point>,
}

impl CaveSearch {
    /// The search is set on a map of its size, and its seed is an empty
    /// point of the map that nothing has visited.
    pub open spec fn valid(self) -> bool {
        &&& MIN_FLOOR_SIZE <= self.w <= MAX_FLOOR_SIZE
        &&& MIN_FLOOR_SIZE <= self.h <= MAX_FLOOR_SIZE
        &&& self.tiles.len() == self.w * self.h
        &&& self.visited.len() == self.w * self.h
        &&& in_grid(self.seed, self.w, self.h)
        &&& self.empty_at(self.seed)
        &&& !self.visited[grid_index(self.seed, self.w)]
    }

    /// Whether the tile at `point` is empty.
    pub open spec fn empty_at(self, point: Point) -> bool {
        self.tiles[grid_index(point, self.w)] is Empty
    }

    /// Whether the tile at `point` is solid: a wall or a treasure chest.
    pub open spec fn solid_at(self, point: Point) -> bool {
        self.tiles[grid_index(point, self.w)].solid()
    }

    /// Whether the search can step from `from` onto `to`: `to` is a legal
    /// neighbour, empty, and not visited by an earlier search.
    pub open spec fn is_step(self, from: Point, to: Point) -> bool {
        legal_neighbors(from, self.w, self.h).contains(to) && self.empty_at(to)
            && !self.visited[grid_index(to, self.w)]
    }

    /// Whether `walk` is a walk of the search: a run of steps.
    pub open spec fn is_walk(self, walk: Seq<Point>) -> bool {
        walk.len() > 0 && forall|i: int|
            0 <= i < walk.len() - 1 ==> self.is_step(#[trigger] walk[i], walk[i + 1])
    }

    /// Whether `point` belongs to the cave of the seed: a walk leads from
    /// the seed to it.
    pub open spec fn explores(self, point: Point) -> bool {
        exists|walk: Seq<Point>| #[trigger]
            self.is_walk(walk) && walk[0] == self.seed && walk.last() == point
    }

    /// Whether `point` is a legal neighbour of a point of `cave`.
    pub open spec fn touches(self, cave: Set<Point>, point: Point) -> bool {
        exists|q: Point| #[trigger]
            cave.contains(q) && legal_neighbors(q, self.w, self.h).contains(point)
    }

    /// The cave of the seed.
    pub open spec fn cave(self) -> Set<Point> {
        Set::new(|q: Point| self.explores(q))
    }

    /// The border of the cave of the seed: the solid tiles, walls and
    /// treasure chests, that are a legal neighbour of a point of the cave.
    /// A way in, a way out or a secret tile beside the cave is no part of
    /// it.
    pub open spec fn border(self) -> Set<Point> {
        Set::new(|p: Point| self.solid_at(p) && self.touches(self.cave(), p))
    }

    /// What has been visited once the search is over: what was visited
    /// before, and the cave of the seed.
    pub open spec fn visited_after(self) -> Seq<bool> {
        Seq::new(
            self.visited.len(),
            |i: int| self.visited[i] || self.explores(grid_point(i, self.w)),
        )
    }

    /// Whether the search knows what to make of `point`: it waits in the
    /// queue, or it is empty and visited, or it is solid and in the border,
    /// or it is neither empty nor solid, and then nothing is made of it.
    pub open spec fn settled(self, s: CaveProgress, point: Point) -> bool {
        s.queue.contains(point) || (self.empty_at(point) && s.visited[grid_index(point, self.w)])
            || (!self.empty_at(point) && !self.solid_at(point)) || (self.solid_at(point)
            && s.border.contains(point))
    }

    /// What holds of a search at every moment.
    #[verifier::opaque]
    pub open spec fn inv(self, s: CaveProgress, stamp: usize) -> bool {
        &&& self.valid()
        &&& s.visited.len() == self.w * self.h
        &&& s.marks.len() == self.w * self.h
        &&& s.explored.contains(self.seed)
        &&& forall|q: Point| #[trigger]
            s.explored.contains(q) ==> in_grid(q, self.w, self.h) && on_largest_floor(q)
                && self.explores(q) && !self.visited[grid_index(q, self.w)]
        &&& forall|i: int|
            0 <= i < s.visited.len() ==> #[trigger] s.visited[i] == (self.visited[i]
                || s.explored.contains(grid_point(i, self.w)))
        &&& forall|k: int|
            0 <= k < s.queue.len() ==> self.touches(s.explored, #[trigger] s.queue[k])
        &&& forall|q: Point, p: Point|
            s.explored.contains(q) && #[trigger] legal_neighbors(q, self.w, self.h).contains(p)
                ==> self.settled(s, p)
        &&& s.border.no_duplicates()
        &&& forall|k: int|
            0 <= k < s.border.len() ==> self.solid_at(#[trigger] s.border[k]) && self.touches(
                s.explored,
                s.border[k],
            )
        &&& forall|i: int|
            0 <= i < s.marks.len() ==> #[trigger] s.marks[i] <= stamp && ((s.marks[i] == stamp)
                == s.border.contains(grid_point(i, self.w)))
    }

    /// A point that touches an explored point lies inside the rim.
    pub proof fn lemma_touches_in_bounds(self, s: CaveProgress, stamp: usize, point: Point)
        requires
            self.inv(s, stamp),
            self.touches(s.explored, point),
        ensures
            !out_of_bounds(point, self.w, self.h),
            in_grid(point, self.w, self.h),
            on_largest_floor(point),
            0 <= grid_index(point, self.w) < self.w * self.h,
            grid_point(grid_index(point, self.w), self.w) == point,
    {
        reveal(CaveSearch::inv);
        let q = choose|q: Point| #[trigger]
            s.explored.contains(q) && legal_neighbors(q, self.w, self.h).contains(point);
        lemma_legal_neighbors(q, self.w, self.h);
        lemma_grid_index_bounds(point, self.w, self.h);
        lemma_grid_point_of_index(point, self.w);
    }

    /// The state in which a search sets out: the seed is visited, and its
    /// legal neighbours wait in the queue.
    pub proof fn lemma_start(self, s: CaveProgress, stamp: usize)
        requires
            self.valid(),
            on_largest_floor(self.seed),
            s.visited == self.visited.update(grid_index(self.seed, self.w), true),
            s.queue == legal_neighbors(self.seed, self.w, self.h),
            s.border == Seq::<Point>::empty(),
            s.marks.len() == self.w * self.h,
            forall|i: int| 0 <= i < s.marks.len() ==> #[trigger] s.marks[i] < stamp,
            s.explored == Set::<Point>::empty().insert(self.seed),
        ensures
            self.inv(s, stamp),
    {
        reveal(CaveSearch::inv);
        let walk = seq![self.seed];
        assert(self.is_walk(walk) && walk[0] == self.seed && walk.last() == self.seed);
        lemma_grid_point_of_index(self.seed, self.w);
        lemma_grid_index_bounds(self.seed, self.w, self.h);
        assert forall|i: int| 0 <= i < s.visited.len() implies #[trigger] s.visited[i] == (
        self.visited[i] || s.explored.contains(grid_point(i, self.w))) by {
            lemma_index_of_grid_point(i, self.w, self.h);
        }
        assert forall|k: int| 0 <= k < s.queue.len() implies self.touches(
            s.explored,
            #[trigger] s.queue[k],
        ) by {
            assert(s.explored.contains(self.seed) && legal_neighbors(
                self.seed,
                self.w,
                self.h,
            ).contains(s.queue[k]));
        }
    }

    /// What is left once the oldest point of the queue has been taken out
    /// and found to be settled already, or to be neither empty nor solid.
    pub proof fn lemma_skip(self, s: CaveProgress, t: CaveProgress, stamp: usize)
        requires
            self.inv(s, stamp),
            s.queue.len() > 0,
            (self.empty_at(s.queue[0]) && s.visited[grid_index(s.queue[0], self.w)]) || (
            !self.empty_at(s.queue[0]) && !self.solid_at(s.queue[0])) || (self.solid_at(s.queue[0])
                && s.marks[grid_index(s.queue[0], self.w)] == stamp),
            t.visited == s.visited,
            t.queue == s.queue.subrange(1, s.queue.len() as int),
            t.border == s.border,
            t.marks == s.marks,
            t.explored == s.explored,
        ensures
            self.inv(t, stamp),
    {
        self.lemma_front(s, stamp);
        reveal(CaveSearch::inv);
        assert forall|k: int| 0 <= k < t.queue.len() implies self.touches(
            t.explored,
            #[trigger] t.queue[k],
        ) by {
            assert(t.queue[k] == s.queue[k + 1]);
        }
        assert forall|q: Point, p: Point|
            t.explored.contains(q) && #[trigger] legal_neighbors(q, self.w, self.h).contains(
                p,
            ) implies self.settled(t, p) by {
            assert(self.settled(s, p));
            lemma_rest_of_queue(s.queue, p);
        }
    }

    /// The oldest point of the queue touches the cave, and so lies inside
    /// the rim.
    pub proof fn lemma_front(self, s: CaveProgress, stamp: usize)
        requires
            self.inv(s, stamp),
            s.queue.len() > 0,
        ensures
            self.touches(s.explored, s.queue[0]),
            !out_of_bounds(s.queue[0], self.w, self.h),
            in_grid(s.queue[0], self.w, self.h),
            on_largest_floor(s.queue[0]),
            0 <= grid_index(s.queue[0], self.w) < self.w * self.h,
            grid_point(grid_index(s.queue[0], self.w), self.w) == s.queue[0],
            s.visited.len() == self.w * self.h,
            s.marks.len() == self.w * self.h,
            self.valid(),
    {
        assert(self.touches(s.explored, s.queue[0])) by {
            reveal(CaveSearch::inv);
        }
        self.lemma_touches_in_bounds(s, stamp, s.queue[0]);
        reveal(CaveSearch::inv);
    }

    /// What is left once the oldest point of the queue, empty and not yet
    /// visited, has been added to the cave.
    pub proof fn lemma_expand(self, s: CaveProgress, t: CaveProgress, stamp: usize)
        requires
            self.inv(s, stamp),
            s.queue.len() > 0,
            self.empty_at(s.queue[0]),
            !s.visited[grid_index(s.queue[0], self.w)],
            t.visited == s.visited.update(grid_index(s.queue[0], self.w), true),
            t.queue == s.queue.subrange(1, s.queue.len() as int) + legal_neighbors(
                s.queue[0],
                self.w,
                self.h,
            ),
            t.border == s.border,
            t.marks == s.marks,
            t.explored == s.explored.insert(s.queue[0]),
        ensures
            self.inv(t, stamp),
    {
        let p = s.queue[0];
        let rest = s.queue.subrange(1, s.queue.len() as int);
        let more = legal_neighbors(p, self.w, self.h);
        self.lemma_front(s, stamp);
        reveal(CaveSearch::inv);
        let from = choose|q: Point| #[trigger]
            s.explored.contains(q) && legal_neighbors(q, self.w, self.h).contains(p);
        assert(self.explores(p)) by {
            let walk = choose|walk: Seq<Point>| #[trigger]
                self.is_walk(walk) && walk[0] == self.seed && walk.last() == from;
            let longer = walk.push(p);
            assert(self.is_step(from, p));
            assert forall|i: int| 0 <= i < longer.len() - 1 implies self.is_step(
                #[trigger] longer[i],
                longer[i + 1],
            ) by {
                if i < walk.len() - 1 {
                    assert(longer[i] == walk[i]);
                    assert(longer[i + 1] == walk[i + 1]);
                }
            }
            assert(self.is_walk(longer) && longer[0] == self.seed && longer.last() == p);
        }
        assert forall|i: int| 0 <= i < t.visited.len() implies #[trigger] t.visited[i] == (
        self.visited[i] || t.explored.contains(grid_point(i, self.w))) by {
            lemma_index_of_grid_point(i, self.w, self.h);
        }
        assert forall|k: int| 0 <= k < t.queue.len() implies self.touches(
            t.explored,
            #[trigger] t.queue[k],
        ) by {
            if k < rest.len() {
                assert(t.queue[k] == s.queue[k + 1]);
                let q = choose|q: Point| #[trigger]
                    s.explored.contains(q) && legal_neighbors(q, self.w, self.h).contains(
                        s.queue[k + 1],
                    );
                assert(t.explored.contains(q));
            } else {
                assert(t.queue[k] == more[k - rest.len()]);
                assert(t.explored.contains(p) && more.contains(t.queue[k]));
            }
        }
        assert forall|q: Point, x: Point|
            t.explored.contains(q) && #[trigger] legal_neighbors(q, self.w, self.h).contains(
                x,
            ) implies self.settled(t, x) by {
            if q == p {
                let i = choose|i: int| 0 <= i < more.len() && more[i] == x;
                assert(t.queue[rest.len() + i] == x);
            } else {
                assert(self.settled(s, x));
                assert(self.touches(s.explored, x));
                self.lemma_touches_in_bounds(s, stamp, x);
                if s.queue.contains(x) {
                    lemma_rest_of_queue(s.queue, x);
                    if rest.contains(x) {
                        let i = choose|i: int| 0 <= i < rest.len() && rest[i] == x;
                        assert(t.queue[i] == x);
                    }
                }
            }
        }
        assert forall|k: int| 0 <= k < t.border.len() implies self.solid_at(
            #[trigger] t.border[k],
        ) && self.touches(t.explored, t.border[k]) by {
            let q = choose|q: Point| #[trigger]
                s.explored.contains(q) && legal_neighbors(q, self.w, self.h).contains(s.border[k]);
            assert(t.explored.contains(q));
        }
    }

    /// What is left once the oldest point of the queue, solid and not yet
    /// in the border, has been added to the border.
    pub proof fn lemma_extend_border(self, s: CaveProgress, t: CaveProgress, stamp: usize)
        requires
            self.inv(s, stamp),
            s.queue.len() > 0,
            self.solid_at(s.queue[0]),
            s.marks[grid_index(s.queue[0], self.w)] != stamp,
            t.visited == s.visited,
            t.queue == s.queue.subrange(1, s.queue.len() as int),
            t.border == s.border.push(s.queue[0]),
            t.marks == s.marks.update(grid_index(s.queue[0], self.w), stamp),
            t.explored == s.explored,
        ensures
            self.inv(t, stamp),
    {
        let p = s.queue[0];
        self.lemma_front(s, stamp);
        reveal(CaveSearch::inv);
        assert(!s.border.contains(p));
        assert forall|k: int| 0 <= k < t.queue.len() implies self.touches(
            t.explored,
            #[trigger] t.queue[k],
        ) by {
            assert(t.queue[k] == s.queue[k + 1]);
        }
        assert forall|q: Point, x: Point|
            t.explored.contains(q) && #[trigger] legal_neighbors(q, self.w, self.h).contains(
                x,
            ) implies self.settled(t, x) by {
            assert(self.settled(s, x));
            lemma_rest_of_queue(s.queue, x);
            if x == p {
                assert(t.border[s.border.len() as int] == p);
            } else if s.border.contains(x) {
                let i = choose|i: int| 0 <= i < s.border.len() && s.border[i] == x;
                assert(t.border[i] == x);
            }
        }
        assert forall|i: int| 0 <= i < t.marks.len() implies #[trigger] t.marks[i] <= stamp && ((
        t.marks[i] == stamp) == t.border.contains(grid_point(i, self.w))) by {
            lemma_index_of_grid_point(i, self.w, self.h);
            let x = grid_point(i, self.w);
            if s.border.contains(x) {
                let k = choose|k: int| 0 <= k < s.border.len() && s.border[k] == x;
                assert(t.border[k] == x);
            }
            if i == grid_index(p, self.w) {
                assert(t.border[s.border.len() as int] == p);
            }
            if t.border.contains(x) && !s.border.contains(x) {
                let k = choose|k: int| 0 <= k < t.border.len() && t.border[k] == x;
                if k < s.border.len() {
                    assert(s.border[k] == x);
                }
            }
        }
        assert forall|k: int| 0 <= k < t.border.len() implies self.solid_at(
            #[trigger] t.border[k],
        ) && self.touches(t.explored, t.border[k]) by {
            if k < s.border.len() {
                assert(t.border[k] == s.border[k]);
            }
        }
    }

    /// Every point of the cave of the seed is explored once the queue is
    /// empty.
    proof fn lemma_complete(self, s: CaveProgress, stamp: usize, walk: Seq<Point>)
        requires
            self.inv(s, stamp),
            s.queue.len() == 0,
            self.is_walk(walk),
            walk[0] == self.seed,
        ensures
            s.explored.contains(walk.last()),
        decreases walk.len(),
    {
        reveal(CaveSearch::inv);
        if walk.len() > 1 {
            let shorter = walk.drop_last();
            assert forall|i: int| 0 <= i < shorter.len() - 1 implies self.is_step(
                #[trigger] shorter[i],
                shorter[i + 1],
            ) by {
                assert(shorter[i] == walk[i]);
                assert(shorter[i + 1] == walk[i + 1]);
            }
            self.lemma_complete(s, stamp, shorter);
            let from = shorter.last();
            let to = walk.last();
            assert(from == walk[walk.len() - 2]);
            assert(self.is_step(walk[walk.len() - 2], walk[walk.len() - 2 + 1]));
            assert(legal_neighbors(from, self.w, self.h).contains(to));
            assert(self.settled(s, to));
            assert(self.touches(s.explored, to));
            self.lemma_touches_in_bounds(s, stamp, to);
        }
    }

    /// What a search has found once its queue is empty: the cave of the
    /// seed, and its border.
    pub proof fn lemma_done(self, s: CaveProgress, stamp: usize)
        requires
            self.inv(s, stamp),
            s.queue.len() == 0,
        ensures
            s.visited == self.visited_after(),
            s.border.to_set() == self.border(),
            s.explored == self.cave(),
            s.border.no_duplicates(),
            s.marks.len() == self.w * self.h,
            forall|i: int| 0 <= i < s.marks.len() ==> #[trigger] s.marks[i] <= stamp,
            forall|k: int|
                0 <= k < s.border.len() ==> !out_of_bounds(#[trigger] s.border[k], self.w, self.h),
    {
        reveal(CaveSearch::inv);
        assert forall|k: int| 0 <= k < s.border.len() implies !out_of_bounds(
            #[trigger] s.border[k],
            self.w,
            self.h,
        ) by {
            assert(self.touches(s.explored, s.border[k]));
            self.lemma_touches_in_bounds(s, stamp, s.border[k]);
        }
        assert forall|q: Point| s.explored.contains(q) == self.explores(q) by {
            if self.explores(q) {
                let walk = choose|walk: Seq<Point>| #[trigger]
                    self.is_walk(walk) && walk[0] == self.seed && walk.last() == q;
                self.lemma_complete(s, stamp, walk);
            }
        }
        assert(s.explored =~= self.cave());
        assert(s.visited =~= self.visited_after());
        assert forall|p: Point| s.border.to_set().contains(p) == self.border().contains(p) by {
            if s.border.to_set().contains(p) {
                let k = choose|k: int| 0 <= k < s.border.len() && s.border[k] == p;
                assert(self.touches(s.explored, s.border[k]));
            }
            if self.border().contains(p) {
                let q = choose|q: Point| #[trigger]
                    self.cave().contains(q) && legal_neighbors(q, self.w, self.h).contains(p);
                assert(s.explored.contains(q));
                assert(self.settled(s, p));
            }
        }
        assert(s.border.to_set() =~= self.border());
    }
}

/// A point of a queue is its first point or lies in the rest of it.
pub proof fn lemma_rest_of_queue(queue: Seq<Point>, point: Point)
    requires
        queue.len() > 0,
    ensures
        queue.contains(point) ==> point == queue[0] || queue.subrange(
            1,
            queue.len() as int,
        ).contains(point),
{
    if queue.contains(point) {
        let i = choose|i: int| 0 <= i < queue.len() && queue[i] == point;
        if i > 0 {
            assert(queue.subrange(1, queue.len() as int)[i - 1] == point);
        }
    }
}

/// How many tiles have not been visited.
pub open spec fn unvisited(visited: Seq<bool>) -> nat
    decreases visited.len(),
{
    if visited.len() == 0 {
        0
    } else {
        unvisited(visited.drop_last()) + if visited.last() {
            0nat
        } else {
            1nat
        }
    }
}

/// Visiting one more tile leaves one tile fewer to visit.
pub proof fn lemma_visit(visited: Seq<bool>, i: int)
    requires
        0 <= i < visited.len(),
        !visited[i],
    ensures
        unvisited(visited.update(i, true)) + 1 == unvisited(visited),
    decreases visited.len(),
{
    let after = visited.update(i, true);
    if i == visited.len() - 1 {
        assert(after.drop_last() == visited.drop_last());
    } else {
        assert(after.drop_last() == visited.drop_last().update(i, true));
        lemma_visit(visited.drop_last(), i);
    }
}

/// The borders found, and what has been visited, once the first `n`
/// points of the map, walked column after column, have been looked at. A
/// point that is empty and not yet visited starts a search, which visits
/// its cave and adds the border of the cave where it is not empty.
pub open spec fn scan_caves(tiles: Seq<DungeonTile>, w: int, h: int, n: nat) -> (
    Seq<Set<Point>>,
    Seq<bool>,
)
    decreases n,
{
    if n == 0 {
        (Seq::empty(), Seq::new(tiles.len(), |i: int| false))
    } else {
        let (borders, visited) = scan_caves(tiles, w, h, (n - 1) as nat);
        let point = scan_point(n - 1, h);
        let index = grid_index(point, w);
        let search = CaveSearch { tiles, w, h, visited, seed: point };
        if visited[index] {
            (borders, visited)
        } else if tiles[index] is Empty {
            (
                if search.border() == Set::<Point>::empty() {
                    borders
                } else {
                    borders.push(search.border())
                },
                search.visited_after(),
            )
        } else {
            (borders, visited.update(index, true))
        }
    }
}

/// Two lists of the borders of one map hold the same borders, place by
/// place: what is found depends on the map alone.
pub proof fn lemma_caves_depend_on_map_alone(
    first: Seq<Border>,
    second: Seq<Border>,
    tiles: Seq<DungeonTile>,
    w: int,
    h: int,
)
    requires
        lists_borders(first, cave_borders(tiles, w, h), w, h),
        lists_borders(second, cave_borders(tiles, w, h), w, h),
    ensures
        first.len() == second.len(),
        forall|i: int|
            0 <= i < first.len() ==> (#[trigger] first[i]).point_set() == second[i].point_set()
                && first[i].id == second[i].id,
{
    assert forall|i: int| 0 <= i < first.len() implies (#[trigger] first[i]).point_set()
        == second[i].point_set() && first[i].id == second[i].id by {
        assert(lists_border(first[i], cave_borders(tiles, w, h)[i], w, h));
        assert(lists_border(second[i], cave_borders(tiles, w, h)[i], w, h));
        first[i].id.lemma_value_injective(second[i].id);
    }
}

/// The borders of the caves of a map, in the order in which a walk over the
/// map, column after column, comes upon the caves.
pub open spec fn cave_borders(tiles: Seq<DungeonTile>, w: int, h: int) -> Seq<Set<Point>> {
    scan_caves(tiles, w, h, (w * h) as nat).0
}

impl<S: FloorBuilderState> FloorBuilder<S> {
    /// Searches the cave of `seed` and hands out its border. Marks the
    /// cave as visited.
    pub(crate) fn explore_cave(
        &self,
        seed: Point,
        visited: &mut Vec<bool>,
        marks: &mut Vec<usize>,
        stamp: usize,
    ) -> (border: Vec<Point>)
        requires
            self.wf(),
            (CaveSearch {
                tiles: self.map@,
                w: self.w(),
                h: self.h(),
                visited: old(visited)@,
                seed,
            }).valid(),
            old(marks)@.len() == self.w() * self.h(),
            forall|i: int| 0 <= i < old(marks)@.len() ==> #[trigger] old(marks)@[i] < stamp,
        ensures
            final(visited)@ == (CaveSearch {
                tiles: self.map@,
                w: self.w(),
                h: self.h(),
                visited: old(visited)@,
                seed,
            }).visited_after(),
            border@.to_set() == (CaveSearch {
                tiles: self.map@,
                w: self.w(),
                h: self.h(),
                visited: old(visited)@,
                seed,
            }).border(),
            border@.no_duplicates(),
            forall|k: int|
                0 <= k < border@.len() ==> !out_of_bounds(#[trigger] border@[k], self.w(), self.h()),
            final(marks)@.len() == self.w() * self.h(),
            forall|i: int| 0 <= i < final(marks)@.len() ==> #[trigger] final(marks)@[i] <= stamp,
    {
        let ghost search = CaveSearch {
            tiles: self.map@,
            w: self.w(),
            h: self.h(),
            visited: visited@,
            seed,
        };
        let _ = seed.coordinates();
        let width = self.width;
        proof {
            lemma_grid_index_bounds(seed, self.w(), self.h());
        }
        *visited.at_mut(seed, width) = true;
        let mut border: Vec<Point> = Vec::new();
        let mut queue: VecDeque<Point> = VecDeque::new();
        let neighbors = self.get_legal_neighbors(seed);
        let mut n: usize = 0;
        while n < neighbors.len()
            invariant
                0 <= n <= neighbors.len(),
                queue@ == neighbors@.subrange(0, n as int),
            decreases neighbors.len() - n,
        {
            queue.push_back(neighbors[n]);
            assert(neighbors@.subrange(0, n + 1) == neighbors@.subrange(0, n as int).push(
                neighbors@[n as int],
            ));
            n += 1;
        }
        assert(neighbors@.subrange(0, n as int) == neighbors@);
        let ghost mut explored: Set<Point> = Set::<Point>::empty().insert(seed);
        proof {
            search.lemma_start(
                CaveProgress {
                    visited: visited@,
                    queue: queue@,
                    border: border@,
                    marks: marks@,
                    explored,
                },
                stamp,
            );
        }
        loop
            invariant
                self.wf(),
                width == self.width,
                search.tiles == self.map@,
                search.w == self.w(),
                search.h == self.h(),
                search.inv(
                    CaveProgress {
                        visited: visited@,
                        queue: queue@,
                        border: border@,
                        marks: marks@,
                        explored,
                    },
                    stamp,
                ),
            ensures
                queue@.len() == 0,
                search.inv(
                    CaveProgress {
                        visited: visited@,
                        queue: queue@,
                        border: border@,
                        marks: marks@,
                        explored,
                    },
                    stamp,
                ),
            decreases unvisited(visited@), queue@.len(),
        {
            let ghost before = CaveProgress {
                visited: visited@,
                queue: queue@,
                border: border@,
                marks: marks@,
                explored,
            };
            let point = match queue.pop_front() {
                Some(point) => point,
                None => {
                    break ;
                },
            };
            proof {
                search.lemma_front(before, stamp);
            }
            if self.map.at(point, width).is_empty() {
                if *visited.at(point, width) {
                    proof {
                        search.lemma_skip(
                            before,
                            CaveProgress {
                                visited: visited@,
                                queue: queue@,
                                border: border@,
                                marks: marks@,
                                explored,
                            },
                            stamp,
                        );
                    }
                    continue ;
                }
                *visited.at_mut(point, width) = true;
                let more = self.get_legal_neighbors(point);
                let ghost rest = queue@;
                let mut m: usize = 0;
                while m < more.len()
                    invariant
                        0 <= m <= more.len(),
                        queue@ == rest + more@.subrange(0, m as int),
                    decreases more.len() - m,
                {
                    queue.push_back(more[m]);
                    assert(more@.subrange(0, m + 1) == more@.subrange(0, m as int).push(
                        more@[m as int],
                    ));
                    m += 1;
                }
                proof {
                    assert(more@.subrange(0, m as int) == more@);
                    explored = explored.insert(point);
                    lemma_visit(before.visited, grid_index(point, self.w()));
                    search.lemma_expand(
                        before,
                        CaveProgress {
                            visited: visited@,
                            queue: queue@,
                            border: border@,
                            marks: marks@,
                            explored,
                        },
                        stamp,
                    );
                }
            } else if self.map.at(point, width).is_solid() && *marks.at(point, width) != stamp {
                *marks.at_mut(point, width) = stamp;
                border.push(point);
                proof {
                    search.lemma_extend_border(
                        before,
                        CaveProgress {
                            visited: visited@,
                            queue: queue@,
                            border: border@,
                            marks: marks@,
                            explored,
                        },
                        stamp,
                    );
                }
            } else {
                proof {
                    search.lemma_skip(
                        before,
                        CaveProgress {
                            visited: visited@,
                            queue: queue@,
                            border: border@,
                            marks: marks@,
                            explored,
                        },
                        stamp,
                    );
                }
            }
        }
        proof {
            let done = CaveProgress {
                visited: visited@,
                queue: queue@,
                border: border@,
                marks: marks@,
                explored,
            };
            search.lemma_done(done, stamp);
        }
        border
    }
}

/// Whether `border` lists the points of `points`, each of them once, and
/// all of them inside the rim.
pub open spec fn lists_border(border: Border, points: Set<Point>, w: int, h: int) -> bool {
    &&& border.points@.to_set() == points
    &&& border.points@.no_duplicates()
    &&& border.points@.len() > 0
    &&& forall|k: int|
        0 <= k < border.points@.len() ==> !out_of_bounds(#[trigger] border.points@[k], w, h)
}

/// Whether `found` lists the borders `borders` in their order, each under
/// the number of its place as its id.
pub open spec fn lists_borders(found: Seq<Border>, borders: Seq<Set<Point>>, w: int, h: int) -> bool {
    &&& found.len() == borders.len()
    &&& forall|i: int|
        0 <= i < found.len() ==> (#[trigger] found[i]).id.value() == i && lists_border(
            found[i],
            borders[i],
            w,
            h,
        )
}

impl<S: FloorBuilderState> FloorBuilder<S> {
    /// Finds the caves of the map and hands out the border of each, in the
    /// order in which a walk over the map, column after column, comes upon
    /// the caves. A cave without a border is left out.
    pub fn find_caves(&self) -> (r: Vec<Border>)
        requires
            self.wf(),
        ensures
            lists_borders(r@, cave_borders(self.map@, self.w(), self.h()), self.w(), self.h()),
    {
        let w: i32 = self.width.as_unbounded();
        let h: i32 = self.height.as_unbounded();
        let ghost tiles = self.map@;
        let size: usize = self.map.len();
        let mut visited: Vec<bool> = vec![false; size];
        let mut marks: Vec<usize> = vec![0usize; size];
        let mut searches: usize = 0;
        let mut borders: Vec<Border> = Vec::new();
        assert(visited@ =~= Seq::new(tiles.len(), |i: int| false));
        let mut column: i32 = 0;
        while column < w
            invariant
                0 <= column <= w,
                self.wf(),
                w == self.w(),
                h == self.h(),
                tiles == self.map@,
                marks@.len() == w * h,
                searches <= column * h,
                forall|i: int| 0 <= i < marks@.len() ==> #[trigger] marks@[i] <= searches,
                visited@ == scan_caves(tiles, w as int, h as int, (column * h) as nat).1,
                visited@.len() == w * h,
                lists_borders(
                    borders@,
                    scan_caves(tiles, w as int, h as int, (column * h) as nat).0,
                    w as int,
                    h as int,
                ),
            decreases w - column,
        {
            let mut row: i32 = 0;
            while row < h
                invariant
                    0 <= column < w,
                    0 <= row <= h,
                    self.wf(),
                    w == self.w(),
                    h == self.h(),
                    tiles == self.map@,
                    marks@.len() == w * h,
                    searches <= column * h + row,
                    forall|i: int| 0 <= i < marks@.len() ==> #[trigger] marks@[i] <= searches,
                    visited@ == scan_caves(tiles, w as int, h as int, (column * h + row) as nat).1,
                    visited@.len() == w * h,
                    lists_borders(
                        borders@,
                        scan_caves(tiles, w as int, h as int, (column * h + row) as nat).0,
                        w as int,
                        h as int,
                    ),
                decreases h - row,
            {
                let point = Point::at_coordinates(row, column);
                let ghost k = column * h + row;
                let ghost before = scan_caves(tiles, w as int, h as int, k as nat);
                let ghost found = borders@;
                proof {
                    assert(k % (h as int) == row && k / (h as int) == column && 0 <= k) by (nonlinear_arith)
                        requires
                            k == column * h + row,
                            0 <= row < h,
                            0 <= column,
                    ;
                    assert(k < 40000) by (nonlinear_arith)
                        requires
                            k == column * h + row,
                            0 <= row < h,
                            0 <= column < w,
                            w <= 200,
                            h <= 200,
                    ;
                    assert(point == scan_point(k, h as int));
                    lemma_grid_index_bounds(point, w as int, h as int);
                }
                let width = self.width;
                if !*visited.at(point, width) {
                    if self.map.at(point, width).is_empty() {
                        searches += 1;
                        let border = self.explore_cave(point, &mut visited, &mut marks, searches);
                        if border.len() > 0 {
                            proof {
                                assert(border@.to_set().contains(border@[0]));
                            }
                            let ghost points = border@;
                            borders.push(Border { id: BorderId::new(borders.len()), points: border });
                            proof {
                                let after = scan_caves(tiles, w as int, h as int, (k + 1) as nat);
                                assert(after.0 == before.0.push(points.to_set()));
                                assert forall|i: int| 0 <= i < borders@.len() implies (
                                #[trigger] borders@[i]).id.value() == i && lists_border(
                                    borders@[i],
                                    after.0[i],
                                    w as int,
                                    h as int,
                                ) by {
                                    if i < found.len() {
                                        assert(borders@[i] == found[i]);
                                    }
                                }
                            }
                        } else {
                            proof {
                                assert(border@.to_set() =~= Set::<Point>::empty());
                            }
                        }
                    } else {
                        *visited.at_mut(point, width) = true;
                    }
                }
                row += 1;
            }
            assert((column + 1) * h == column * h + h) by (nonlinear_arith);
            column += 1;
        }
        assert(w * h == self.w() * self.h());
        borders
    }
}

} // verus!
