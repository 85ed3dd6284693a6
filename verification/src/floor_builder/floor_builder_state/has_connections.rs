//! The stage of a builder that knows which caves to join.

use crate::border::Border;
use crate::connection_path::{ConnectionPath, ConnectionPathLength};
use crate::floor_builder::floor_builder_state::drawable::{path_wf, Drawable};
use crate::floor_builder::floor_builder_state::has_borders::owner_of;
use crate::floor_builder::floor_builder_state::random_filled::lemma_index_of_grid_point;
use crate::floor_builder::floor_builder_state::FloorBuilderState;
use crate::floor_builder::search::{dijkstra_path, ends_search, is_cheapest, is_walk};
use crate::floor_builder::search::lemma_legal_neighbor_in_bounds;
use crate::floor_builder::search::lemma_walk_in_bounds;
use crate::floor_builder::{in_grid, legal_neighbors, lemma_legal_neighbors, out_of_bounds, FloorBuilder};
use crate::point::Point;
use crate::point_index::{grid_point, lemma_grid_index_bounds, lemma_grid_point_of_index, PointIndex};
use crate::Connection;
use vstd::prelude::*;

verus! {

/// A builder in this stage holds the borders of its caves and the
/// connections that were found between them.
#[derive(Debug)]
pub struct HasConnections {
    /// The connections between the borders, in the order in which they
    /// were found.
    pub connections: Vec<Connection>,
    /// The borders of the floor.
    pub borders: Vec<Border>,
}

impl FloorBuilderState for HasConnections {

}

impl HasConnections {
    /// Every border lists its points once, and every connection joins two
    /// points inside the rim of the floor.
    pub open spec fn wf(self, w: int, h: int) -> bool {
        &&& forall|i: int|
            0 <= i < self.borders@.len() ==> (#[trigger] self.borders@[i]).wf() && forall|k: int|
                0 <= k < self.borders@[i].points@.len() ==> in_grid(
                    #[trigger] self.borders@[i].points@[k],
                    w,
                    h,
                )
        &&& forall|i: int|
            0 <= i < self.connections@.len() ==> !out_of_bounds(
                (#[trigger] self.connections@[i]).from.0,
                w,
                h,
            ) && !out_of_bounds(self.connections@[i].to.0, w, h)
    }
}

impl Default for HasConnections {
    fn default() -> (r: Self)
        ensures
            r.connections@.len() == 0,
            r.borders@.len() == 0,
    {
        HasConnections { connections: Vec::new(), borders: Vec::new() }
    }
}

/// For each tile, whether it lies on one of the borders.
pub open spec fn blocked_by(borders: Seq<Border>, w: int, h: int) -> Seq<bool> {
    Seq::new((w * h) as nat, |i: int| owner_of(borders, grid_point(i, w)) is Some)
}

/// Whether `point` lies between the ends of the drawn path: it is neither
/// `from` nor `to`, and it lies on the found path or, where the path is
/// drawn wide, is a legal neighbour of one of its points.
pub open spec fn lies_between(
    path: Seq<Point>,
    from: Point,
    to: Point,
    wide: bool,
    w: int,
    h: int,
    point: Point,
) -> bool {
    point != from && point != to && (path.contains(point) || (wide && exists|k: int|
        0 <= k < path.len() && #[trigger] legal_neighbors(path[k], w, h).contains(point)))
}

/// Whether `drawn` is the path to draw for the connection `c`, given the
/// path that the search found. A found path of one or two points is drawn
/// as it is. A longer one is drawn from the start of `c` to its end, with
/// every point that lies between, each of them once.
pub open spec fn follows(
    drawn: ConnectionPath,
    c: Connection,
    path: Seq<Point>,
    wide: bool,
    w: int,
    h: int,
) -> bool {
    &&& drawn.start_border_id == c.from.1
    &&& drawn.end_border_id == c.to.1
    &&& path.len() == 1 ==> drawn.path == (ConnectionPathLength::Length1 { point: path[0] })
    &&& path.len() == 2 ==> drawn.path == (ConnectionPathLength::Length2 {
        start: path[0],
        end: path[1],
    })
    &&& path.len() != 1 && path.len() != 2 ==> (drawn.path matches ConnectionPathLength::Length3Plus {
        start,
        end,
        points,
    } && start == c.from.0 && end == c.to.0 && points@.no_duplicates() && forall|point: Point| #[trigger]
        points@.contains(point) <==> lies_between(path, c.from.0, c.to.0, wide, w, h, point))
}

/// Whether `path` is what a search for the connection `c` may find: a walk
/// from the start of `c` that keeps off what is blocked, ends where the
/// search may stop, holds no point twice and costs no more than any other
/// such walk.
pub open spec fn found_well(
    tiles: Seq<crate::dungeon_tile::DungeonTile>,
    noise: Seq<u16>,
    w: int,
    h: int,
    blocked: Seq<bool>,
    c: Connection,
    use_noise_map: bool,
    path: Seq<Point>,
) -> bool {
    &&& path.len() > 0
    &&& path[0] == c.from.0
    &&& is_walk(w, h, blocked, c.to.0, path)
    &&& ends_search(tiles, w, h, c.to.0, true, path.last())
    &&& path.no_duplicates()
    &&& is_cheapest(tiles, noise, w, h, blocked, c.from.0, c.to.0, use_noise_map, true, path)
}

/// A path that is drawn narrow has, between its ends, the points of the
/// found path but for the two ends of the connection: where the found
/// path holds no point twice, their number is that of its points, less one
/// for each end of the connection that lies on it.
pub proof fn lemma_narrow_path_count(
    drawn: ConnectionPath,
    c: Connection,
    path: Seq<Point>,
    w: int,
    h: int,
)
    requires
        follows(drawn, c, path, false, w, h),
        path.no_duplicates(),
        path.len() > 2,
    ensures
        drawn.path matches ConnectionPathLength::Length3Plus { points, .. } && points@.len()
            == path.len() - (if path.contains(c.from.0) {
            1int
        } else {
            0int
        }) - (if c.to.0 != c.from.0 && path.contains(c.to.0) {
            1int
        } else {
            0int
        }),
{
    broadcast use vstd::seq_lib::seq_to_set_is_finite;
    broadcast use vstd::set::group_set_axioms;

    let points = drawn.path->Length3Plus_points@;
    path.unique_seq_to_set();
    points.unique_seq_to_set();
    assert forall|x: Point|
        points.to_set().contains(x) == path.to_set().remove(c.from.0).remove(c.to.0).contains(x) by {
        assert(points.contains(x) <==> lies_between(path, c.from.0, c.to.0, false, w, h, x));
    }
    assert(points.to_set() =~= path.to_set().remove(c.from.0).remove(c.to.0));
}

/// Whether `to_draw` holds, in order, the path to draw for each of the
/// connections between which the search finds a path at all, and each path
/// that the search finds is a cheapest walk without a point twice.
pub open spec fn traces(
    to_draw: Seq<ConnectionPath>,
    connections: Seq<Connection>,
    tiles: Seq<crate::dungeon_tile::DungeonTile>,
    noise: Seq<u16>,
    w: int,
    h: int,
    blocked: Seq<bool>,
    wide: bool,
    use_noise_map: bool,
) -> bool
    decreases connections.len(),
{
    if connections.len() == 0 {
        to_draw.len() == 0
    } else {
        let c = connections.last();
        match dijkstra_path(tiles, noise, w, h, blocked, c.from.0, c.to.0, use_noise_map, true) {
            None => traces(
                to_draw,
                connections.drop_last(),
                tiles,
                noise,
                w,
                h,
                blocked,
                wide,
                use_noise_map,
            ),
            Some(path) => to_draw.len() > 0 && found_well(
                tiles,
                noise,
                w,
                h,
                blocked,
                c,
                use_noise_map,
                path,
            ) && follows(to_draw.last(), c, path, wide, w, h) && traces(
                to_draw.drop_last(),
                connections.drop_last(),
                tiles,
                noise,
                w,
                h,
                blocked,
                wide,
                use_noise_map,
            ),
        }
    }
}

/// Whether `mask` says of each tile whether `points` holds it, and
/// `points` holds points of the floor, each of them once.
pub open spec fn tracks(points: Seq<Point>, mask: Seq<bool>, w: int, h: int) -> bool {
    &&& mask.len() == w * h
    &&& points.no_duplicates()
    &&& forall|k: int| 0 <= k < points.len() ==> in_grid(#[trigger] points[k], w, h)
    &&& forall|i: int| 0 <= i < mask.len() ==> #[trigger] mask[i] == points.contains(grid_point(i, w))
}

impl<S: FloorBuilderState> FloorBuilder<S> {
    /// Appends `point` to `points` unless it is `from`, `to` or there
    /// already.
    fn add_new_point(
        &self,
        points: &mut Vec<Point>,
        mask: &mut Vec<bool>,
        point: Point,
        from: Point,
        to: Point,
    )
        requires
            self.wf(),
            in_grid(point, self.w(), self.h()),
            tracks(old(points)@, old(mask)@, self.w(), self.h()),
        ensures
            tracks(final(points)@, final(mask)@, self.w(), self.h()),
            forall|x: Point| #[trigger]
                final(points)@.contains(x) <==> old(points)@.contains(x) || (x == point && point
                    != from && point != to),
    {
        let ghost w = self.w();
        let ghost h = self.h();
        proof {
            lemma_grid_index_bounds(point, w, h);
            lemma_grid_point_of_index(point, w);
        }
        let width = self.width;
        if point != from && point != to && !*mask.at(point, width) {
            *mask.at_mut(point, width) = true;
            points.push(point);
            proof {
                let before = old(points)@;
                let after = points@;
                assert(after == before.push(point));
                assert forall|x: Point| #[trigger]
                    after.contains(x) <==> before.contains(x) || x == point by {
                    if before.contains(x) {
                        let j = choose|j: int| 0 <= j < before.len() && before[j] == x;
                        assert(after[j] == x);
                    }
                    if x == point {
                        assert(after[before.len() as int] == x);
                    }
                    if after.contains(x) {
                        let j = choose|j: int| 0 <= j < after.len() && after[j] == x;
                        if j < before.len() {
                            assert(before[j] == x);
                        }
                    }
                }
                assert forall|i: int| 0 <= i < mask@.len() implies #[trigger] mask@[i]
                    == after.contains(grid_point(i, w)) by {
                    lemma_index_of_grid_point(i, w, h);
                }
            }
        }
    }

    /// The path to draw for the connection `c`, given the path that the
    /// search found between its ends.
    pub fn connection_path_from(&self, c: Connection, path: &Vec<Point>, wide: bool) -> (r:
        ConnectionPath)
        requires
            self.wf(),
            !out_of_bounds(c.from.0, self.w(), self.h()),
            !out_of_bounds(c.to.0, self.w(), self.h()),
            forall|k: int|
                0 <= k < path@.len() ==> !out_of_bounds(#[trigger] path@[k], self.w(), self.h()),
        ensures
            follows(r, c, path@, wide, self.w(), self.h()),
            path_wf(r, self.w(), self.h()),
    {
        let ghost w = self.w();
        let ghost h = self.h();
        let (from, from_id) = c.from;
        let (to, to_id) = c.to;
        if path.len() == 1 {
            let drawn = ConnectionPath {
                start_border_id: from_id,
                end_border_id: to_id,
                path: ConnectionPathLength::Length1 { point: path[0] },
            };
            assert(drawn.points_seq() =~= seq![path@[0]]);
            return drawn;
        }
        if path.len() == 2 {
            let drawn = ConnectionPath {
                start_border_id: from_id,
                end_border_id: to_id,
                path: ConnectionPathLength::Length2 { start: path[0], end: path[1] },
            };
            assert(drawn.points_seq() =~= seq![path@[0], path@[1]]);
            return drawn;
        }
        let size: usize = self.map.len();
        let mut mask: Vec<bool> = vec![false; size];
        let mut points: Vec<Point> = Vec::new();
        let mut k: usize = 0;
        assert(path@.subrange(0, 0) =~= Seq::<Point>::empty());
        while k < path.len()
            invariant
                0 <= k <= path.len(),
                self.wf(),
                w == self.w(),
                h == self.h(),
                forall|k: int| 0 <= k < path@.len() ==> !out_of_bounds(#[trigger] path@[k], w, h),
                tracks(points@, mask@, w, h),
                forall|x: Point| #[trigger]
                    points@.contains(x) <==> x != from && x != to && path@.subrange(
                        0,
                        k as int,
                    ).contains(x),
            decreases path.len() - k,
        {
            let ghost shorter = path@.subrange(0, k as int);
            let ghost longer = path@.subrange(0, k + 1);
            let ghost before = points@;
            self.add_new_point(&mut points, &mut mask, path[k], from, to);
            proof {
                assert(longer == shorter.push(path@[k as int]));
                assert forall|x: Point| #[trigger]
                    points@.contains(x) <==> x != from && x != to && longer.contains(x) by {
                    if shorter.contains(x) {
                        let j = choose|j: int| 0 <= j < shorter.len() && shorter[j] == x;
                        assert(longer[j] == x);
                    }
                    if x == path@[k as int] {
                        assert(longer[k as int] == x);
                    }
                    if longer.contains(x) {
                        let j = choose|j: int| 0 <= j < longer.len() && longer[j] == x;
                        if j < k {
                            assert(shorter[j] == x);
                        }
                    }
                }
            }
            k += 1;
        }
        assert(path@.subrange(0, k as int) == path@);
        if wide {
            let mut k: usize = 0;
            while k < path.len()
                invariant
                    0 <= k <= path.len(),
                    self.wf(),
                    w == self.w(),
                    h == self.h(),
                    forall|k: int|
                        0 <= k < path@.len() ==> !out_of_bounds(#[trigger] path@[k], w, h),
                    tracks(points@, mask@, w, h),
                    forall|x: Point| #[trigger]
                        points@.contains(x) <==> x != from && x != to && (path@.contains(x)
                            || exists|j: int|
                            0 <= j < k && #[trigger] legal_neighbors(path@[j], w, h).contains(x)),
                decreases path.len() - k,
            {
                let here = path[k];
                let _ = here.coordinates();
                let neighbors = self.get_legal_neighbors(here);
                proof {
                    lemma_legal_neighbors(here, w, h);
                }
                let mut n: usize = 0;
                while n < neighbors.len()
                    invariant
                        0 <= n <= neighbors.len(),
                        0 <= k < path.len(),
                        self.wf(),
                        w == self.w(),
                        h == self.h(),
                        here == path@[k as int],
                        neighbors@ == legal_neighbors(here, w, h),
                        forall|q: Point| #[trigger]
                            neighbors@.contains(q) ==> !crate::floor_builder::out_of_bounds(q, w, h),
                        tracks(points@, mask@, w, h),
                        forall|x: Point| #[trigger]
                            points@.contains(x) <==> x != from && x != to && (path@.contains(x) || (
                            exists|j: int|
                                0 <= j < k && #[trigger] legal_neighbors(path@[j], w, h).contains(x))
                                || neighbors@.subrange(0, n as int).contains(x)),
                    decreases neighbors.len() - n,
                {
                    let neighbor = neighbors[n];
                    let ghost shorter = neighbors@.subrange(0, n as int);
                    let ghost longer = neighbors@.subrange(0, n + 1);
                    proof {
                        assert(neighbors@.contains(neighbor));
                        assert(longer == shorter.push(neighbor));
                    }
                    self.add_new_point(&mut points, &mut mask, neighbor, from, to);
                    proof {
                        assert forall|x: Point| #[trigger]
                            points@.contains(x) <==> x != from && x != to && (path@.contains(x) || (
                            exists|j: int|
                                0 <= j < k && #[trigger] legal_neighbors(path@[j], w, h).contains(x))
                                || longer.contains(x)) by {
                            if shorter.contains(x) {
                                let j = choose|j: int| 0 <= j < shorter.len() && shorter[j] == x;
                                assert(longer[j] == x);
                            }
                            if x == neighbor {
                                assert(longer[n as int] == x);
                            }
                            if longer.contains(x) {
                                let j = choose|j: int| 0 <= j < longer.len() && longer[j] == x;
                                if j < n {
                                    assert(shorter[j] == x);
                                }
                            }
                        }
                    }
                    n += 1;
                }
                proof {
                    assert(neighbors@.subrange(0, n as int) == neighbors@);
                    assert forall|x: Point| #[trigger]
                        points@.contains(x) <==> x != from && x != to && (path@.contains(x)
                            || exists|j: int|
                            0 <= j < k + 1 && #[trigger] legal_neighbors(path@[j], w, h).contains(
                                x,
                            )) by {
                        if neighbors@.contains(x) {
                            assert(legal_neighbors(path@[k as int], w, h).contains(x));
                        }
                        if exists|j: int|
                            0 <= j < k + 1 && #[trigger] legal_neighbors(path@[j], w, h).contains(x) {
                            let j = choose|j: int|
                                0 <= j < k + 1 && #[trigger] legal_neighbors(
                                    path@[j],
                                    w,
                                    h,
                                ).contains(x);
                            if j == k {
                                assert(neighbors@.contains(x));
                            }
                        }
                    }
                }
                k += 1;
            }
        }
        let drawn = ConnectionPath {
            start_border_id: from_id,
            end_border_id: to_id,
            path: ConnectionPathLength::Length3Plus { points, start: from, end: to },
        };
        proof {
            let all = drawn.points_seq();
            let between = drawn.path->Length3Plus_points@;
            assert forall|k: int| 0 <= k < all.len() implies !out_of_bounds(#[trigger] all[k], w, h) by {
                if 0 < k < all.len() - 1 {
                    let x = between[k - 1];
                    assert(all[k] == x);
                    assert(between.contains(x));
                    if path@.contains(x) {
                        let j = choose|j: int| 0 <= j < path@.len() && path@[j] == x;
                        assert(!out_of_bounds(path@[j], w, h));
                    } else {
                        let j = choose|j: int|
                            0 <= j < path@.len() && #[trigger] legal_neighbors(
                                path@[j],
                                w,
                                h,
                            ).contains(x);
                        lemma_legal_neighbor_in_bounds(path@[j], x, w, h);
                    }
                }
            }
        }
        drawn
    }
}

impl FloorBuilder<HasConnections> {
    /// The connections that were found between the borders.
    pub fn connections(&self) -> (r: &Vec<Connection>)
        ensures
            *r == self.extra.connections,
    {
        &self.extra.connections
    }

    /// Searches a path for each connection, from its start to its end,
    /// that keeps off the borders and may end early on a secret door or a
    /// secret passage. Steps cost what the noise map says where
    /// `use_noise_map` is set, else one each. Where `wide` is set, the paths
    /// of three and more points take the legal neighbours of their points
    /// along. A connection for which no path is found is dropped.
    pub fn trace_connection_paths(self, wide: bool, use_noise_map: bool) -> (r: FloorBuilder<
        Drawable,
    >)
        requires
            self.wf(),
            self.extra.wf(self.w(), self.h()),
        ensures
            r.wf(),
            r.extra.wf(r.w(), r.h()),
            r.width == self.width,
            r.height == self.height,
            r.map == self.map,
            r.noise_map == self.noise_map,
            r.frames == self.frames,
            r.id == self.id,
            traces(
                r.extra.to_draw@,
                self.extra.connections@,
                self.map@,
                self.noise_map@,
                self.w(),
                self.h(),
                blocked_by(self.extra.borders@, self.w(), self.h()),
                wide,
                use_noise_map,
            ),
    {
        let ghost w = self.w();
        let ghost h = self.h();
        proof {
            assert forall|i: int, k: int|
                0 <= i < self.extra.borders@.len() && 0 <= k
                    < self.extra.borders@[i].points@.len() implies in_grid(
                #[trigger] self.extra.borders@[i].points@[k],
                w,
                h,
            ) by {
                assert(self.extra.borders@[i].wf());
            }
        }
        let owners = self.border_owners(&self.extra.borders);
        let mut blocked: Vec<bool> = Vec::new();
        let mut i: usize = 0;
        while i < owners.len()
            invariant
                0 <= i <= owners.len(),
                blocked@.len() == i,
                forall|j: int| 0 <= j < i ==> #[trigger] blocked@[j] == (owners@[j] is Some),
            decreases owners.len() - i,
        {
            blocked.push(owners[i].is_some());
            i += 1;
        }
        assert(blocked@ =~= blocked_by(self.extra.borders@, w, h));
        let mut to_draw: Vec<ConnectionPath> = Vec::new();
        let mut n: usize = 0;
        assert(self.extra.connections@.subrange(0, 0) =~= Seq::<Connection>::empty());
        while n < self.extra.connections.len()
            invariant
                0 <= n <= self.extra.connections.len(),
                self.wf(),
                self.extra.wf(w, h),
                w == self.w(),
                h == self.h(),
                blocked@ == blocked_by(self.extra.borders@, w, h),
                forall|i: int| 0 <= i < to_draw@.len() ==> path_wf(#[trigger] to_draw@[i], w, h),
                traces(
                    to_draw@,
                    self.extra.connections@.subrange(0, n as int),
                    self.map@,
                    self.noise_map@,
                    w,
                    h,
                    blocked@,
                    wide,
                    use_noise_map,
                ),
            decreases self.extra.connections.len() - n,
        {
            let c = self.extra.connections[n];
            let ghost shorter = self.extra.connections@.subrange(0, n as int);
            let ghost longer = self.extra.connections@.subrange(0, n + 1);
            proof {
                assert(longer.drop_last() == shorter);
                assert(longer.last() == c);
            }
            let found = self.shortest_path(c.from.0, c.to.0, &blocked, use_noise_map, true);
            if let Some(path) = found {
                proof {
                    lemma_walk_in_bounds(w, h, blocked@, c.to.0, path@);
                }
                let drawn = self.connection_path_from(c, &path, wide);
                let ghost before = to_draw@;
                to_draw.push(drawn);
                proof {
                    assert(to_draw@.drop_last() == before);
                    assert(to_draw@.last() == drawn);
                }
            }
            n += 1;
        }
        assert(self.extra.connections@.subrange(0, n as int) == self.extra.connections@);
        self.into_state(Drawable { to_draw })
    }
}

} // verus!
