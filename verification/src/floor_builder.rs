//! The builder that grows a floor, stage by stage.

use crate::bounded_int::{clamp, BoundedInt};
use crate::dungeon_tile::DungeonTile;
use crate::floor_builder::floor_builder_state::blank::Blank;
use crate::floor_builder::floor_builder_state::smoothed::Smoothed;
use crate::floor_builder::floor_builder_state::{FloorBuilderState, Smoothable};
use crate::point::Point;
use crate::point_index::{grid_index, grid_point, lemma_grid_index_bounds, scan_point, PointIndex};
use crate::FloorId;
use vstd::prelude::*;

pub mod caves;
pub mod floor_builder_state;
pub mod graph;
pub mod search;
pub mod to_block_character;

verus! {

/// The smallest width or height that a floor can have.
pub const MIN_FLOOR_SIZE: u32 = 10;

/// The largest width or height that a floor can have.
pub const MAX_FLOOR_SIZE: u32 = 200;

/// Out of a hundred and one rolls, how many make a wall when a floor is
/// first filled at random.
pub const RANDOM_FILL_WALL_PERCENT_CHANCE: u8 = 52;

/// One picture of a floor under construction: the colour index of every
/// tile, row after row, and how long the picture is shown.
#[derive(Debug, Clone, PartialEq, Eq)]
pub struct Frame {
    /// The width of the picture, in tiles.
    pub width: u16,
    /// The height of the picture, in tiles.
    pub height: u16,
    /// The colour index of each tile, row after row.
    pub buffer: Vec<u8>,
    /// How long the picture is shown, in hundredths of a second.
    pub delay: u16,
}

/// Builds a floor in stages.
///
/// The state `S` says which stage the builder has reached, and with it which
/// step can be taken next.
///
/// See <http://roguebasin.roguelikedevelopment.org/index.php?title=Cellular_Automata_Method_for_Generating_Random_Cave-Like_Levels>
#[derive(Debug)]
pub struct FloorBuilder<S: FloorBuilderState> {
    /// The width of the floor.
    pub width: BoundedInt<MIN_FLOOR_SIZE, MAX_FLOOR_SIZE>,
    /// The height of the floor.
    pub height: BoundedInt<MIN_FLOOR_SIZE, MAX_FLOOR_SIZE>,
    /// The tiles of the floor, row after row.
    pub map: Vec<DungeonTile>,
    /// The noise of the floor, one value for each tile, row after row.
    pub noise_map: Vec<u16>,
    /// What the builder holds at its stage.
    pub extra: S,
    /// The pictures taken while building, where they were asked for.
    pub frames: Option<Vec<Frame>>,
    /// The number of the floor.
    pub id: FloorId,
}

/// Whether `point` lies on or outside the one tile wide rim of a grid of
/// width `w` and height `h`.
pub open spec fn out_of_bounds(point: Point, w: int, h: int) -> bool {
    point.c() <= 0 || point.r() <= 0 || point.c() >= w - 1 || point.r() >= h - 1
}

/// Whether `point` is one of the points of a grid of width `w` and height
/// `h`.
pub open spec fn in_grid(point: Point, w: int, h: int) -> bool {
    0 <= point.r() < h && 0 <= point.c() < w
}

/// Whether `point` counts as a wall: anything on or outside the rim does,
/// and so does a solid tile.
pub open spec fn wall_at(tiles: Seq<DungeonTile>, w: int, h: int, point: Point) -> bool {
    out_of_bounds(point, w, h) || tiles[grid_index(point, w)].solid()
}

/// How many of the rows `from, from + 1, ..` below `to` hold, in the given
/// column, a wall that is not `center`.
pub open spec fn walls_in_column(
    tiles: Seq<DungeonTile>,
    w: int,
    h: int,
    center: Point,
    column: int,
    from: int,
    to: int,
) -> nat
    decreases to - from,
{
    if from >= to {
        0
    } else {
        let here = Point::of(to - 1, column);
        walls_in_column(tiles, w, h, center, column, from, to - 1) + if here != center && wall_at(
            tiles,
            w,
            h,
            here,
        ) {
            1nat
        } else {
            0nat
        }
    }
}

/// How many points of the rectangle of the columns `column_from ..
/// column_to` and the rows `row_from .. row_to` (upper ends left out) hold a
/// wall that is not `center`.
pub open spec fn walls_in_rectangle(
    tiles: Seq<DungeonTile>,
    w: int,
    h: int,
    center: Point,
    column_from: int,
    column_to: int,
    row_from: int,
    row_to: int,
) -> nat
    decreases column_to - column_from,
{
    if column_from >= column_to {
        0
    } else {
        walls_in_rectangle(tiles, w, h, center, column_from, column_to - 1, row_from, row_to)
            + walls_in_column(tiles, w, h, center, column_to - 1, row_from, row_to)
    }
}

/// How many walls lie around `point`, at most `distance_x` rows and
/// `distance_y` columns away: the point itself is left out, and what would
/// lie beyond the largest floor is cut off.
pub open spec fn adjacent_walls(
    tiles: Seq<DungeonTile>,
    w: int,
    h: int,
    point: Point,
    distance_x: int,
    distance_y: int,
) -> nat {
    let top = MAX_FLOOR_SIZE as int;
    walls_in_rectangle(
        tiles,
        w,
        h,
        point,
        clamp(point.c() - distance_y, 0, top),
        clamp(point.c() + distance_y, 0, top) + 1,
        clamp(point.r() - distance_x, 0, top),
        clamp(point.r() + distance_x, 0, top) + 1,
    )
}

/// What one step of the cellular automaton makes of the tile at `point`.
///
/// Only walls and empty tiles change. A tile on the rim becomes a wall. A
/// wall with four or more walls around it stays; where new walls are wanted,
/// so does one with fewer than two walls within two tiles; otherwise it
/// falls. An empty tile with five or more walls around it becomes a wall.
pub open spec fn wall_logic(
    tiles: Seq<DungeonTile>,
    w: int,
    h: int,
    point: Point,
    create_new_walls: bool,
) -> DungeonTile {
    let current = tiles[grid_index(point, w)];
    let near = adjacent_walls(tiles, w, h, point, 1, 1);
    if !(current is Empty || current is Wall) {
        current
    } else if out_of_bounds(point, w, h) {
        DungeonTile::Wall
    } else if current is Wall {
        if near >= 4 {
            DungeonTile::Wall
        } else if create_new_walls && adjacent_walls(tiles, w, h, point, 2, 2) < 2 {
            DungeonTile::Wall
        } else {
            DungeonTile::Empty
        }
    } else if near >= 5 {
        DungeonTile::Wall
    } else {
        DungeonTile::Empty
    }
}

/// The point `rows` rows below and `columns` columns to the right of
/// `point`, each coordinate stopped at the bounds of the largest floor.
pub open spec fn step(point: Point, rows: int, columns: int) -> Point {
    Point::of(
        clamp(point.r() + rows, 0, MAX_FLOOR_SIZE as int),
        clamp(point.c() + columns, 0, MAX_FLOOR_SIZE as int),
    )
}

/// Whether `candidate` can be walked to from `point`: it lies inside the
/// rim and is not `point` itself.
pub open spec fn legal(point: Point, candidate: Point, w: int, h: int) -> bool {
    !out_of_bounds(candidate, w, h) && candidate != point
}

/// `candidate` alone where it is legal, else nothing.
pub open spec fn keep_legal(point: Point, candidate: Point, w: int, h: int) -> Seq<Point> {
    if legal(point, candidate, w, h) {
        seq![candidate]
    } else {
        Seq::empty()
    }
}

/// The legal ones of the four points below, right of, above and left of
/// `point`, in that order.
pub open spec fn legal_neighbors(point: Point, w: int, h: int) -> Seq<Point> {
    keep_legal(point, step(point, 1, 0), w, h) + keep_legal(point, step(point, 0, 1), w, h)
        + keep_legal(point, step(point, -1, 0), w, h) + keep_legal(point, step(point, 0, -1), w, h)
}

/// The legal ones of the eight points around `point`, row by row from the
/// upper left to the lower right.
pub open spec fn legal_neighbors_with_diagonals(point: Point, w: int, h: int) -> Seq<Point> {
    keep_legal(point, step(point, -1, -1), w, h) + keep_legal(point, step(point, -1, 0), w, h)
        + keep_legal(point, step(point, -1, 1), w, h) + keep_legal(point, step(point, 0, -1), w, h)
        + keep_legal(point, step(point, 0, 1), w, h) + keep_legal(point, step(point, 1, -1), w, h)
        + keep_legal(point, step(point, 1, 0), w, h) + keep_legal(point, step(point, 1, 1), w, h)
}

/// The legal ones of the two points below and right of `point`, in that
/// order.
pub open spec fn legal_neighbors_down_and_right(point: Point, w: int, h: int) -> Seq<Point> {
    keep_legal(point, step(point, 1, 0), w, h) + keep_legal(point, step(point, 0, 1), w, h)
}

/// Whether two points lie side by side: one step apart along a row or a
/// column.
pub open spec fn adjacent(a: Point, b: Point) -> bool {
    (a.r() == b.r() && (a.c() - b.c() == 1 || b.c() - a.c() == 1)) || (a.c() == b.c() && (a.r()
        - b.r() == 1 || b.r() - a.r() == 1))
}

/// Whether the coordinates of `point` lie within the largest floor, as
/// those of every point that a program holds do.
pub open spec fn on_largest_floor(point: Point) -> bool {
    0 <= point.r() <= MAX_FLOOR_SIZE && 0 <= point.c() <= MAX_FLOOR_SIZE
}

/// The legal neighbours of a point are the points inside the rim that lie
/// side by side with it, each of them once.
pub proof fn lemma_legal_neighbors(point: Point, w: int, h: int)
    requires
        on_largest_floor(point),
        MIN_FLOOR_SIZE <= w <= MAX_FLOOR_SIZE,
        MIN_FLOOR_SIZE <= h <= MAX_FLOOR_SIZE,
    ensures
        forall|q: Point| #[trigger]
            legal_neighbors(point, w, h).contains(q) <==> on_largest_floor(q) && !out_of_bounds(
                q,
                w,
                h,
            ) && adjacent(point, q),
        legal_neighbors(point, w, h).no_duplicates(),
        legal_neighbors(point, w, h).len() <= 4,
{
    broadcast use Point::lemma_coordinates_of, Point::lemma_of_coordinates;

    let n = legal_neighbors(point, w, h);
    let down = step(point, 1, 0);
    let right = step(point, 0, 1);
    let up = step(point, -1, 0);
    let left = step(point, 0, -1);
    assert forall|q: Point| #[trigger]
        n.contains(q) <==> on_largest_floor(q) && !out_of_bounds(q, w, h) && adjacent(
            point,
            q,
        ) by {
        if n.contains(q) {
            let i = choose|i: int| 0 <= i < n.len() && n[i] == q;
            assert(q == down || q == right || q == up || q == left);
        }
        if on_largest_floor(q) && !out_of_bounds(q, w, h) && adjacent(point, q) {
            assert(q == Point::of(q.r(), q.c()));
            if q.r() == point.r() + 1 {
                assert(q == down);
                assert(n[0] == q);
            } else if q.c() == point.c() + 1 {
                assert(q == right);
                assert(n[keep_legal(point, down, w, h).len() as int] == q);
            } else if q.r() == point.r() - 1 {
                assert(q == up);
                assert(n[(keep_legal(point, down, w, h).len() + keep_legal(
                    point,
                    right,
                    w,
                    h,
                ).len()) as int] == q);
            } else {
                assert(q == left);
                assert(n[(keep_legal(point, down, w, h).len() + keep_legal(
                    point,
                    right,
                    w,
                    h,
                ).len() + keep_legal(point, up, w, h).len()) as int] == q);
            }
        }
    }
    assert(n.no_duplicates()) by {
        assert forall|i: int, j: int| 0 <= i < n.len() && 0 <= j < n.len() && i != j implies n[i]
            != n[j] by {
            assert(down.r() >= point.r() && right.c() >= point.c() && up.r() <= point.r()
                && left.c() <= point.c());
        }
    }
}

/// The map after the first `n` points, walked column after column, have
/// each been given what [`wall_logic`] makes of them: every step sees what
/// the steps before it have written.
pub open spec fn smooth_prefix(
    tiles: Seq<DungeonTile>,
    w: int,
    h: int,
    create_new_walls: bool,
    n: nat,
) -> Seq<DungeonTile>
    decreases n,
{
    if n == 0 {
        tiles
    } else {
        let before = smooth_prefix(tiles, w, h, create_new_walls, (n - 1) as nat);
        let point = scan_point(n - 1, h);
        before.update(grid_index(point, w), wall_logic(before, w, h, point, create_new_walls))
    }
}

/// The map after one pass of the cellular automaton over all its points.
pub open spec fn smooth_pass(tiles: Seq<DungeonTile>, w: int, h: int, create_new_walls: bool) -> Seq<
    DungeonTile,
> {
    smooth_prefix(tiles, w, h, create_new_walls, (w * h) as nat)
}

/// The map after one pass for each item of `flags`, in order, each pass
/// making new walls where its flag says so.
pub open spec fn smooth_passes(tiles: Seq<DungeonTile>, w: int, h: int, flags: Seq<bool>) -> Seq<
    DungeonTile,
>
    decreases flags.len(),
{
    if flags.len() == 0 {
        tiles
    } else {
        smooth_pass(smooth_passes(tiles, w, h, flags.drop_last()), w, h, flags.last())
    }
}

/// The pictures that smoothing takes: one after each pass, of the map as
/// the pass has left it, shown for a second.
pub open spec fn smooth_shots(tiles: Seq<DungeonTile>, w: int, h: int, flags: Seq<bool>) -> Seq<
    (Seq<DungeonTile>, u16),
> {
    Seq::new(
        flags.len(),
        |k: int| (smooth_passes(tiles, w, h, flags.subrange(0, k + 1)), 100u16),
    )
}

/// Whether a tile is one that the cellular automaton leaves alone.
pub open spec fn is_feature(tile: DungeonTile) -> bool {
    !(tile is Empty || tile is Wall)
}

/// The `k`-th point of the walk over a grid is a point of the grid.
pub proof fn lemma_scan_point_in_grid(k: int, w: int, h: int)
    requires
        0 <= k < w * h,
        0 < w <= MAX_FLOOR_SIZE,
        0 < h <= MAX_FLOOR_SIZE,
    ensures
        in_grid(scan_point(k, h), w, h),
        on_largest_floor(scan_point(k, h)),
        0 <= grid_index(scan_point(k, h), w) < w * h,
{
    assert(0 <= k % h < h && 0 <= k / h < w) by (nonlinear_arith)
        requires
            0 <= k < w * h,
            0 < w,
            0 < h,
    ;
    Point::lemma_coordinates_of(k % h, k / h);
    lemma_grid_index_bounds(scan_point(k, h), w, h);
}

/// Whether every tile on the rim of the map is a wall.
pub open spec fn rim_is_wall(tiles: Seq<DungeonTile>, w: int, h: int) -> bool {
    forall|i: int|
        0 <= i < tiles.len() && out_of_bounds(grid_point(i, w), w, h) ==> #[trigger] tiles[i] is Wall
}

/// Whether `after` holds the features of `before`, each where it was, and
/// no others.
pub open spec fn keeps_features(before: Seq<DungeonTile>, after: Seq<DungeonTile>) -> bool {
    &&& after.len() == before.len()
    &&& forall|i: int|
        0 <= i < before.len() ==> (is_feature(before[i]) ==> #[trigger] after[i] == before[i]) && (
        !is_feature(before[i]) ==> !is_feature(after[i]))
}

/// Whether `tile` occurs in `tiles` exactly once.
pub open spec fn has_one(tiles: Seq<DungeonTile>, tile: DungeonTile) -> bool {
    exists|i: int|
        0 <= i < tiles.len() && #[trigger] tiles[i] == tile && forall|j: int|
            0 <= j < tiles.len() && #[trigger] tiles[j] == tile ==> j == i
}

/// Whether `tile` occurs in `tiles` at most once.
pub open spec fn has_at_most_one(tiles: Seq<DungeonTile>, tile: DungeonTile) -> bool {
    forall|i: int, j: int|
        0 <= i < tiles.len() && 0 <= j < tiles.len() && #[trigger] tiles[i] == tile
            && #[trigger] tiles[j] == tile ==> i == j
}

/// Whether `after` has a way in or a way out only where `before` has it.
pub open spec fn opens_no_way(before: Seq<DungeonTile>, after: Seq<DungeonTile>) -> bool {
    &&& after.len() == before.len()
    &&& forall|i: int|
        0 <= i < after.len() ==> (#[trigger] after[i] == DungeonTile::Entrance ==> before[i]
            == DungeonTile::Entrance) && (after[i] == DungeonTile::Exit ==> before[i]
            == DungeonTile::Exit)
}

/// A map that takes its ways in and out from a map with at most one of
/// each has at most one of each.
pub proof fn lemma_no_way_opened(before: Seq<DungeonTile>, after: Seq<DungeonTile>)
    requires
        opens_no_way(before, after),
        has_at_most_one(before, DungeonTile::Entrance),
        has_at_most_one(before, DungeonTile::Exit),
    ensures
        has_at_most_one(after, DungeonTile::Entrance),
        has_at_most_one(after, DungeonTile::Exit),
{
    assert forall|i: int, j: int|
        0 <= i < after.len() && 0 <= j < after.len() && #[trigger] after[i]
            == DungeonTile::Entrance && #[trigger] after[j] == DungeonTile::Entrance implies i
        == j by {
        assert(before[i] == DungeonTile::Entrance && before[j] == DungeonTile::Entrance);
    }
    assert forall|i: int, j: int|
        0 <= i < after.len() && 0 <= j < after.len() && #[trigger] after[i] == DungeonTile::Exit
            && #[trigger] after[j] == DungeonTile::Exit implies i == j by {
        assert(before[i] == DungeonTile::Exit && before[j] == DungeonTile::Exit);
    }
}

/// Opening no way is kept up from map to map.
pub proof fn lemma_opens_no_way_twice(
    first: Seq<DungeonTile>,
    second: Seq<DungeonTile>,
    third: Seq<DungeonTile>,
)
    requires
        opens_no_way(first, second),
        opens_no_way(second, third),
    ensures
        opens_no_way(first, third),
{
    assert forall|i: int| 0 <= i < third.len() implies (#[trigger] third[i]
        == DungeonTile::Entrance ==> first[i] == DungeonTile::Entrance) && (third[i]
        == DungeonTile::Exit ==> first[i] == DungeonTile::Exit) by {
        if third[i] == DungeonTile::Entrance {
            assert(second[i] == DungeonTile::Entrance);
        }
        if third[i] == DungeonTile::Exit {
            assert(second[i] == DungeonTile::Exit);
        }
    }
}

/// A map that keeps the features of another opens no way.
pub proof fn lemma_keeps_features_opens_no_way(before: Seq<DungeonTile>, after: Seq<DungeonTile>)
    requires
        keeps_features(before, after),
    ensures
        opens_no_way(before, after),
{
    assert forall|i: int| 0 <= i < after.len() implies (#[trigger] after[i]
        == DungeonTile::Entrance ==> before[i] == DungeonTile::Entrance) && (after[i]
        == DungeonTile::Exit ==> before[i] == DungeonTile::Exit) by {
        if after[i] == DungeonTile::Entrance || after[i] == DungeonTile::Exit {
            assert(is_feature(after[i]));
            assert(is_feature(before[i]));
        }
    }
}

/// A map that keeps the features of another has one way in and one way out
/// where the other has.
pub proof fn lemma_keeps_features_keeps_ways(before: Seq<DungeonTile>, after: Seq<DungeonTile>)
    requires
        keeps_features(before, after),
    ensures
        has_one(before, DungeonTile::Entrance) ==> has_one(after, DungeonTile::Entrance),
        has_one(before, DungeonTile::Exit) ==> has_one(after, DungeonTile::Exit),
{
    if has_one(before, DungeonTile::Entrance) {
        let i = choose|i: int|
            0 <= i < before.len() && #[trigger] before[i] == DungeonTile::Entrance && forall|j: int|
                0 <= j < before.len() && #[trigger] before[j] == DungeonTile::Entrance ==> j == i;
        assert(after[i] == DungeonTile::Entrance);
        assert forall|j: int|
            0 <= j < after.len() && #[trigger] after[j] == DungeonTile::Entrance implies j == i by {
            assert(is_feature(after[j]));
            assert(before[j] == DungeonTile::Entrance);
        }
    }
    if has_one(before, DungeonTile::Exit) {
        let i = choose|i: int|
            0 <= i < before.len() && #[trigger] before[i] == DungeonTile::Exit && forall|j: int|
                0 <= j < before.len() && #[trigger] before[j] == DungeonTile::Exit ==> j == i;
        assert(after[i] == DungeonTile::Exit);
        assert forall|j: int|
            0 <= j < after.len() && #[trigger] after[j] == DungeonTile::Exit implies j == i by {
            assert(is_feature(after[j]));
            assert(before[j] == DungeonTile::Exit);
        }
    }
}

/// Smoothing keeps the size of the map, leaves every feature where it is
/// and makes no new one; and it leaves a rim of walls a rim of walls.
pub proof fn lemma_smooth_prefix_keeps_features(
    tiles: Seq<DungeonTile>,
    w: int,
    h: int,
    create_new_walls: bool,
    n: nat,
)
    requires
        tiles.len() == w * h,
        0 < w <= MAX_FLOOR_SIZE,
        0 < h <= MAX_FLOOR_SIZE,
        n <= w * h,
    ensures
        keeps_features(tiles, smooth_prefix(tiles, w, h, create_new_walls, n)),
        rim_is_wall(tiles, w, h) ==> rim_is_wall(
            smooth_prefix(tiles, w, h, create_new_walls, n),
            w,
            h,
        ),
    decreases n,
{
    if n > 0 {
        lemma_smooth_prefix_keeps_features(tiles, w, h, create_new_walls, (n - 1) as nat);
        lemma_scan_point_in_grid(n - 1, w, h);
        let before = smooth_prefix(tiles, w, h, create_new_walls, (n - 1) as nat);
        let after = smooth_prefix(tiles, w, h, create_new_walls, n);
        let point = scan_point(n - 1, h);
        crate::point_index::lemma_grid_point_of_index(point, w);
        if rim_is_wall(tiles, w, h) {
            assert forall|i: int|
                0 <= i < after.len() && out_of_bounds(grid_point(i, w), w, h) implies #[trigger] after[i] is Wall by {
                assert(before[i] is Wall);
            }
        }
    }
}

/// Any number of passes of smoothing keeps the features of a map, and
/// leaves a rim of walls a rim of walls.
pub proof fn lemma_smooth_passes_keep_features(
    tiles: Seq<DungeonTile>,
    w: int,
    h: int,
    flags: Seq<bool>,
)
    requires
        tiles.len() == w * h,
        0 < w <= MAX_FLOOR_SIZE,
        0 < h <= MAX_FLOOR_SIZE,
    ensures
        keeps_features(tiles, smooth_passes(tiles, w, h, flags)),
        rim_is_wall(tiles, w, h) ==> rim_is_wall(smooth_passes(tiles, w, h, flags), w, h),
    decreases flags.len(),
{
    if flags.len() > 0 {
        lemma_smooth_passes_keep_features(tiles, w, h, flags.drop_last());
        let before = smooth_passes(tiles, w, h, flags.drop_last());
        lemma_smooth_prefix_keeps_features(before, w, h, flags.last(), (w * h) as nat);
    }
}

/// A map that one pass without new walls leaves as it is stays as it is
/// under any number of further such passes.
pub proof fn lemma_smoothing_fixed_point(tiles: Seq<DungeonTile>, w: int, h: int, flags: Seq<bool>)
    requires
        smooth_pass(tiles, w, h, false) == tiles,
        forall|i: int| 0 <= i < flags.len() ==> !flags[i],
    ensures
        smooth_passes(tiles, w, h, flags) == tiles,
    decreases flags.len(),
{
    if flags.len() > 0 {
        lemma_smoothing_fixed_point(tiles, w, h, flags.drop_last());
    }
}

/// Whether the pictures `after` are the pictures `before` with more
/// pictures behind them: none are taken where none were asked for, and else
/// none is dropped or changed.
pub open spec fn frames_extend(before: Option<Vec<Frame>>, after: Option<Vec<Frame>>) -> bool {
    match (before, after) {
        (None, None) => true,
        (Some(old_frames), Some(new_frames)) => old_frames@.len() <= new_frames@.len()
            && new_frames@.subrange(0, old_frames@.len() as int) == old_frames@,
        _ => false,
    }
}

/// Pictures that extend pictures that extend others extend those.
pub proof fn lemma_frames_extend(
    first: Option<Vec<Frame>>,
    second: Option<Vec<Frame>>,
    third: Option<Vec<Frame>>,
)
    requires
        frames_extend(first, second),
        frames_extend(second, third),
    ensures
        frames_extend(first, third),
{
    if let (Some(a), Some(b), Some(c)) = (first, second, third) {
        assert(c@.subrange(0, a@.len() as int) =~= b@.subrange(0, a@.len() as int));
    }
}

/// Pictures extend themselves.
pub proof fn lemma_frames_stay(frames: Option<Vec<Frame>>)
    ensures
        frames_extend(frames, frames),
{
    if let Some(taken) = frames {
        assert(taken@.subrange(0, taken@.len() as int) =~= taken@);
    }
}

/// Whether `frame` is the picture of the map `tiles` of a floor of width
/// `w` and height `h`, shown for `delay`.
pub open spec fn shows(frame: Frame, tiles: Seq<DungeonTile>, w: int, h: int, delay: u16) -> bool {
    frame.buffer@ == colour_indices(tiles) && frame.width == w && frame.height == h && frame.delay
        == delay
}

/// Whether the pictures `after` are the pictures `before` with one more
/// behind them, which shows the map `tiles` for `delay`; where no pictures
/// were asked for, none is taken.
pub open spec fn takes_picture(
    before: Option<Vec<Frame>>,
    after: Option<Vec<Frame>>,
    tiles: Seq<DungeonTile>,
    w: int,
    h: int,
    delay: u16,
) -> bool {
    match (before, after) {
        (None, None) => true,
        (Some(old_frames), Some(new_frames)) => new_frames@.len() == old_frames@.len() + 1
            && new_frames@.subrange(0, old_frames@.len() as int) == old_frames@ && shows(
            new_frames@.last(),
            tiles,
            w,
            h,
            delay,
        ),
        _ => false,
    }
}

/// Whether the pictures `after` are the pictures `before` with one more
/// picture behind them for each item of `shots`, in order: each shows the
/// map of its item for the time of its item. Where no pictures were asked
/// for, none is taken.
pub open spec fn records(
    before: Option<Vec<Frame>>,
    after: Option<Vec<Frame>>,
    shots: Seq<(Seq<DungeonTile>, u16)>,
    w: int,
    h: int,
) -> bool {
    match (before, after) {
        (None, None) => true,
        (Some(old_frames), Some(new_frames)) => new_frames@.len() == old_frames@.len() + shots.len()
            && new_frames@.subrange(0, old_frames@.len() as int) == old_frames@ && forall|k: int|
            0 <= k < shots.len() ==> shows(
                new_frames@[old_frames@.len() + k],
                (#[trigger] shots[k]).0,
                w,
                h,
                shots[k].1,
            ),
        _ => false,
    }
}

/// Nothing is recorded where the pictures stay as they are.
pub proof fn lemma_records_nothing(frames: Option<Vec<Frame>>, w: int, h: int)
    ensures
        records(frames, frames, Seq::empty(), w, h),
{
    if let Some(taken) = frames {
        assert(taken@.subrange(0, taken@.len() as int) =~= taken@);
    }
}

/// One more picture is one more shot recorded.
pub proof fn lemma_records_push(
    base: Option<Vec<Frame>>,
    before: Option<Vec<Frame>>,
    after: Option<Vec<Frame>>,
    shots: Seq<(Seq<DungeonTile>, u16)>,
    tiles: Seq<DungeonTile>,
    w: int,
    h: int,
    delay: u16,
)
    requires
        records(base, before, shots, w, h),
        takes_picture(before, after, tiles, w, h, delay),
    ensures
        records(base, after, shots.push((tiles, delay)), w, h),
{
    if let (Some(a), Some(b), Some(c)) = (base, before, after) {
        let longer = shots.push((tiles, delay));
        assert(c@.subrange(0, a@.len() as int) =~= b@.subrange(0, a@.len() as int));
        assert forall|k: int| 0 <= k < longer.len() implies shows(
            c@[a@.len() + k],
            (#[trigger] longer[k]).0,
            w,
            h,
            longer[k].1,
        ) by {
            if k < shots.len() {
                assert(longer[k] == shots[k]);
                assert(c@[a@.len() + k] == b@.subrange(0, b@.len() as int)[a@.len() + k]);
            }
        }
    }
}

/// What is recorded in two goes is recorded in one: the shots of the first
/// go, and behind them the shots of the second.
pub proof fn lemma_records_both(
    first: Option<Vec<Frame>>,
    second: Option<Vec<Frame>>,
    third: Option<Vec<Frame>>,
    shots: Seq<(Seq<DungeonTile>, u16)>,
    more: Seq<(Seq<DungeonTile>, u16)>,
    w: int,
    h: int,
)
    requires
        records(first, second, shots, w, h),
        records(second, third, more, w, h),
    ensures
        records(first, third, shots + more, w, h),
{
    if let (Some(a), Some(b), Some(c)) = (first, second, third) {
        let all = shots + more;
        assert(c@.subrange(0, a@.len() as int) =~= b@.subrange(0, a@.len() as int));
        assert forall|k: int| 0 <= k < all.len() implies shows(
            c@[a@.len() + k],
            (#[trigger] all[k]).0,
            w,
            h,
            all[k].1,
        ) by {
            if k < shots.len() {
                assert(all[k] == shots[k]);
                assert(c@[a@.len() + k] == c@.subrange(0, b@.len() as int)[a@.len() + k]);
            } else {
                assert(all[k] == more[k - shots.len()]);
                assert(shows(
                    c@[b@.len() + (k - shots.len())],
                    more[k - shots.len()].0,
                    w,
                    h,
                    more[k - shots.len()].1,
                ));
            }
        }
    }
}

/// The colour indices of the tiles, in order.
pub open spec fn colour_indices(tiles: Seq<DungeonTile>) -> Seq<u8> {
    Seq::new(tiles.len(), |i: int| tile_colour(tiles[i]))
}

/// The colour index of a tile.
pub open spec fn tile_colour(tile: DungeonTile) -> u8 {
    match tile {
        DungeonTile::Empty => 0u8,
        DungeonTile::Wall => 1u8,
        DungeonTile::SecretDoor { .. } => 2u8,
        DungeonTile::SecretPassage => 3u8,
        DungeonTile::TreasureChest { .. } => 4u8,
        DungeonTile::Entrance => 5u8,
        DungeonTile::Exit => 6u8,
    }
}

impl<S: FloorBuilderState> FloorBuilder<S> {
    /// The width of the floor, as a number.
    pub open spec fn w(self) -> int {
        self.width.value()
    }

    /// The height of the floor, as a number.
    pub open spec fn h(self) -> int {
        self.height.value()
    }

    /// The builder holds a grid of its width and height: the sizes lie
    /// within the limits, and there is one tile and one noise value for each
    /// point.
    pub open spec fn wf(self) -> bool {
        &&& MIN_FLOOR_SIZE <= self.w() <= MAX_FLOOR_SIZE
        &&& MIN_FLOOR_SIZE <= self.h() <= MAX_FLOOR_SIZE
        &&& self.map@.len() == self.w() * self.h()
        &&& self.noise_map@.len() == self.w() * self.h()
    }

    /// The tile at `point`.
    pub open spec fn tile(self, point: Point) -> DungeonTile {
        self.map@[grid_index(point, self.w())]
    }

    /// The same floor at another stage.
    pub(crate) fn into_state<T: FloorBuilderState>(self, extra: T) -> (r: FloorBuilder<T>)
        ensures
            r.width == self.width,
            r.height == self.height,
            r.map == self.map,
            r.noise_map == self.noise_map,
            r.frames == self.frames,
            r.id == self.id,
            r.extra == extra,
            self.wf() ==> r.wf(),
    {
        FloorBuilder {
            width: self.width,
            height: self.height,
            map: self.map,
            noise_map: self.noise_map,
            extra,
            frames: self.frames,
            id: self.id,
        }
    }

    /// Takes a picture of the map as it is and keeps it with the others.
    /// Does nothing where no pictures were asked for.
    pub fn frame_from_current_state(&mut self, delay: u16)
        requires
            old(self).wf(),
        ensures
            final(self).width == old(self).width,
            final(self).height == old(self).height,
            final(self).map == old(self).map,
            final(self).noise_map == old(self).noise_map,
            final(self).extra == old(self).extra,
            final(self).id == old(self).id,
            final(self).wf(),
            forall|base: Option<Vec<Frame>>| #[trigger]
                frames_extend(base, old(self).frames) ==> frames_extend(base, final(self).frames),
            takes_picture(
                old(self).frames,
                final(self).frames,
                old(self).map@,
                old(self).w(),
                old(self).h(),
                delay,
            ),
            old(self).frames is None ==> final(self).frames is None,
            old(self).frames matches Some(before) ==> (final(self).frames matches Some(after)
                && after@.len() == before@.len() + 1 && after@.subrange(
                0,
                before@.len() as int,
            ) == before@ && after@.last().buffer@ == colour_indices(old(self).map@)
                && after@.last().width == old(self).w() && after@.last().height == old(self).h()
                && after@.last().delay == delay),
    {
        if self.frames.is_some() {
            let mut buffer: Vec<u8> = Vec::new();
            let mut i: usize = 0;
            while i < self.map.len()
                invariant
                    0 <= i <= self.map.len(),
                    buffer@.len() == i,
                    forall|k: int| 0 <= k < i ==> #[trigger] buffer@[k] == tile_colour(self.map@[k]),
                decreases self.map.len() - i,
            {
                buffer.push(self.map[i].as_u8());
                i += 1;
            }
            assert(buffer@ == colour_indices(self.map@));
            let frame = Frame {
                width: self.width.as_unbounded() as u16,
                height: self.height.as_unbounded() as u16,
                buffer,
                delay,
            };
            let mut frames: Vec<Frame> = self.frames.take().unwrap();
            let ghost before = frames@;
            frames.push(frame);
            assert(frames@.subrange(0, before.len() as int) == before);
            self.frames = Some(frames);
            proof {
                assert forall|base: Option<Vec<Frame>>| #[trigger]
                    frames_extend(base, old(self).frames) implies frames_extend(
                    base,
                    self.frames,
                ) by {
                    lemma_frames_extend(base, old(self).frames, self.frames);
                }
            }
        }
    }

    /// The legal ones of the four points below, right of, above and left
    /// of `point`.
    pub fn get_legal_neighbors(&self, point: Point) -> (r: Vec<Point>)
        ensures
            r@ == legal_neighbors(point, self.w(), self.h()),
    {
        let _ = point.coordinates();
        let mut out: Vec<Point> = Vec::new();
        self.push_if_legal(&mut out, point, point.saturating_add_row(1));
        self.push_if_legal(&mut out, point, point.saturating_add_column(1));
        self.push_if_legal(&mut out, point, point.saturating_sub_row(1));
        self.push_if_legal(&mut out, point, point.saturating_sub_column(1));
        out
    }

    /// The legal ones of the eight points around `point`.
    pub fn get_legal_neighbors_with_diagonals(&self, point: Point) -> (r: Vec<Point>)
        ensures
            r@ == legal_neighbors_with_diagonals(point, self.w(), self.h()),
    {
        broadcast use Point::lemma_coordinates_of;

        let _ = point.coordinates();
        let mut out: Vec<Point> = Vec::new();
        self.push_if_legal(&mut out, point, point.saturating_sub_row(1).saturating_sub_column(1));
        self.push_if_legal(&mut out, point, point.saturating_sub_row(1));
        self.push_if_legal(&mut out, point, point.saturating_sub_row(1).saturating_add_column(1));
        self.push_if_legal(&mut out, point, point.saturating_sub_column(1));
        self.push_if_legal(&mut out, point, point.saturating_add_column(1));
        self.push_if_legal(&mut out, point, point.saturating_add_row(1).saturating_sub_column(1));
        self.push_if_legal(&mut out, point, point.saturating_add_row(1));
        self.push_if_legal(&mut out, point, point.saturating_add_row(1).saturating_add_column(1));
        out
    }

    /// The legal ones of the two points below and right of `point`.
    pub fn get_legal_neighbors_down_and_right(&self, point: Point) -> (r: Vec<Point>)
        ensures
            r@ == legal_neighbors_down_and_right(point, self.w(), self.h()),
    {
        let _ = point.coordinates();
        let mut out: Vec<Point> = Vec::new();
        self.push_if_legal(&mut out, point, point.saturating_add_row(1));
        self.push_if_legal(&mut out, point, point.saturating_add_column(1));
        out
    }

    /// Appends `candidate` to `out` where it is a legal neighbour of
    /// `point`.
    fn push_if_legal(&self, out: &mut Vec<Point>, point: Point, candidate: Point)
        ensures
            final(out)@ == old(out)@ + keep_legal(point, candidate, self.w(), self.h()),
    {
        if !self.is_out_of_bounds(candidate) && candidate != point {
            out.push(candidate);
            assert(out@ == old(out)@ + seq![candidate]);
        } else {
            assert(out@ == old(out)@ + Seq::<Point>::empty());
        }
    }

    /// A builder of the given size with every tile empty and every noise
    /// value zero.
    pub fn blank(
        id: FloorId,
        width: BoundedInt<MIN_FLOOR_SIZE, MAX_FLOOR_SIZE>,
        height: BoundedInt<MIN_FLOOR_SIZE, MAX_FLOOR_SIZE>,
        gif_output: bool,
    ) -> (r: FloorBuilder<Blank>)
        ensures
            r.wf(),
            r.width == width,
            r.height == height,
            r.id == id,
            r.map@ == Seq::new((width.value() * height.value()) as nat, |i: int| DungeonTile::Empty),
            r.noise_map@ == Seq::new((width.value() * height.value()) as nat, |i: int| 0u16),
            gif_output ==> (r.frames matches Some(frames) && frames@.len() == 0),
            !gif_output ==> r.frames is None,
    {
        let w: i32 = width.as_unbounded();
        let h: i32 = height.as_unbounded();
        assert(0 <= w * h <= 40000) by (nonlinear_arith)
            requires
                10 <= w <= 200,
                10 <= h <= 200,
        ;
        let size: usize = (w * h) as usize;
        let map: Vec<DungeonTile> = vec![DungeonTile::Empty; size];
        let noise_map: Vec<u16> = vec![0u16; size];
        assert(map@ =~= Seq::new((width.value() * height.value()) as nat, |i: int| DungeonTile::Empty));
        assert(noise_map@ =~= Seq::new((width.value() * height.value()) as nat, |i: int| 0u16));
        FloorBuilder {
            width,
            height,
            map,
            noise_map,
            extra: Blank {  },
            frames: if gif_output {
                Some(Vec::new())
            } else {
                None
            },
            id,
        }
    }

    /// Whether `point` lies on or outside the one tile wide rim of the
    /// floor. The rim counts as out of bounds.
    pub fn is_out_of_bounds(&self, point: Point) -> (r: bool)
        ensures
            r == out_of_bounds(point, self.w(), self.h()),
    {
        let (row, column) = point.coordinates();
        column == 0 || row == 0 || column >= self.width.as_unbounded() - 1 || row
            >= self.height.as_unbounded() - 1
    }

    /// Whether `point` counts as a wall. Out of bounds does.
    pub fn is_wall(&self, point: Point) -> (r: bool)
        requires
            self.wf(),
        ensures
            r == wall_at(self.map@, self.w(), self.h(), point),
    {
        if self.is_out_of_bounds(point) {
            return true;
        }
        proof {
            lemma_grid_index_bounds(point, self.w(), self.h());
        }
        if self.map.at(point, self.width).is_solid() {
            return true;
        }
        false
    }

    /// How many walls lie in the rectangle that reaches `distance_x` rows
    /// above and below `point` and `distance_y` columns to its left and
    /// right, the point itself left out.
    pub fn get_adjacent_walls(&self, point: Point, distance_x: i32, distance_y: i32) -> (r: usize)
        requires
            self.wf(),
        ensures
            r == adjacent_walls(
                self.map@,
                self.w(),
                self.h(),
                point,
                distance_x as int,
                distance_y as int,
            ),
    {
        let start_x: i32 = point.row.get().saturating_sub(distance_x).as_unbounded();
        let start_y: i32 = point.column.get().saturating_sub(distance_y).as_unbounded();
        let end_x: i32 = point.row.get().saturating_add(distance_x).as_unbounded();
        let end_y: i32 = point.column.get().saturating_add(distance_y).as_unbounded();
        let ghost tiles = self.map@;
        let ghost w = self.w();
        let ghost h = self.h();

        let mut counter: usize = 0;
        let mut i_y: i32 = start_y;
        while i_y <= end_y
            invariant
                self.wf(),
                tiles == self.map@,
                w == self.w(),
                h == self.h(),
                0 <= start_y <= MAX_FLOOR_SIZE,
                0 <= end_y <= MAX_FLOOR_SIZE,
                0 <= start_x <= MAX_FLOOR_SIZE,
                0 <= end_x <= MAX_FLOOR_SIZE,
                start_y <= i_y <= end_y + 1 || (i_y == start_y && start_y > end_y),
                counter == walls_in_rectangle(
                    tiles,
                    w,
                    h,
                    point,
                    start_y as int,
                    i_y as int,
                    start_x as int,
                    end_x + 1,
                ),
                counter <= (i_y - start_y) * 201,
            decreases end_y + 1 - i_y,
        {
            let mut i_x: i32 = start_x;
            let mut in_column: usize = 0;
            while i_x <= end_x
                invariant
                    self.wf(),
                    tiles == self.map@,
                    w == self.w(),
                    h == self.h(),
                    0 <= i_y <= MAX_FLOOR_SIZE,
                    0 <= start_x <= MAX_FLOOR_SIZE,
                    0 <= end_x <= MAX_FLOOR_SIZE,
                    start_x <= i_x <= end_x + 1 || (i_x == start_x && start_x > end_x),
                    in_column == walls_in_column(
                        tiles,
                        w,
                        h,
                        point,
                        i_y as int,
                        start_x as int,
                        i_x as int,
                    ),
                    in_column <= i_x - start_x,
                decreases end_x + 1 - i_x,
            {
                let here = Point::at_coordinates(i_x, i_y);
                if here != point && self.is_wall(here) {
                    in_column += 1;
                }
                i_x += 1;
            }
            assert(in_column == walls_in_column(
                tiles,
                w,
                h,
                point,
                i_y as int,
                start_x as int,
                end_x + 1,
            )) by {
                if start_x > end_x {
                    assert(walls_in_column(
                        tiles,
                        w,
                        h,
                        point,
                        i_y as int,
                        start_x as int,
                        end_x + 1,
                    ) == 0);
                }
            }
            assert((i_y + 1 - start_y) * 201 == (i_y - start_y) * 201 + 201) by (nonlinear_arith);
            counter += in_column;
            i_y += 1;
        }
        assert(counter == walls_in_rectangle(
            tiles,
            w,
            h,
            point,
            start_y as int,
            end_y + 1,
            start_x as int,
            end_x + 1,
        )) by {
            if start_y > end_y {
                assert(walls_in_rectangle(
                    tiles,
                    w,
                    h,
                    point,
                    start_y as int,
                    end_y + 1,
                    start_x as int,
                    end_x + 1,
                ) == 0);
            }
        }
        counter
    }

    /// What one step of the cellular automaton makes of the tile at
    /// `point`. Anything but a wall or an empty tile is handed back as it
    /// is.
    pub fn place_wall_logic(&self, point: Point, create_new_walls: bool) -> (r: DungeonTile)
        requires
            self.wf(),
            in_grid(point, self.w(), self.h()),
        ensures
            r == wall_logic(self.map@, self.w(), self.h(), point, create_new_walls),
    {
        proof {
            lemma_grid_index_bounds(point, self.w(), self.h());
        }
        let what_the_tile_is_currently = *self.map.at(point, self.width);

        if !(what_the_tile_is_currently.is_empty() || what_the_tile_is_currently.is_wall()) {
            return what_the_tile_is_currently;
        }
        if self.is_out_of_bounds(point) {
            return DungeonTile::Wall;
        }
        let num_walls_1_away = self.get_adjacent_walls(point, 1, 1);

        if what_the_tile_is_currently.is_solid() {
            if num_walls_1_away >= 4 {
                return DungeonTile::Wall;
            }
            if create_new_walls && self.get_adjacent_walls(point, 2, 2) < 2 {
                return DungeonTile::Wall;
            }
            if num_walls_1_away < 2 {
                return DungeonTile::Empty;
            }
        } else if num_walls_1_away >= 5 {
            return DungeonTile::Wall;
        }
        DungeonTile::Empty
    }
}

impl<S: Smoothable> FloorBuilder<S> {
    /// Smooths the map with the cellular automaton, `repeat` passes over
    /// all its points. `create_new_walls` says, for the number of each pass,
    /// whether that pass may raise walls in open space.
    pub fn smoothen<F: Fn(usize) -> bool>(self, repeat: usize, create_new_walls: F) -> (r:
        FloorBuilder<Smoothed>)
        requires
            self.wf(),
            forall|pass: usize| pass < repeat ==> call_requires(create_new_walls, (pass,)),
        ensures
            r.wf(),
            r.width == self.width,
            r.height == self.height,
            r.noise_map == self.noise_map,
            r.id == self.id,
            frames_extend(self.frames, r.frames),
            exists|flags: Seq<bool>|
                flags.len() == repeat && (forall|pass: usize|
                    pass < repeat ==> call_ensures(
                        create_new_walls,
                        (pass,),
                        #[trigger] flags[pass as int],
                    )) && r.map@ == smooth_passes(self.map@, self.w(), self.h(), flags) && records(
                    self.frames,
                    r.frames,
                    smooth_shots(self.map@, self.w(), self.h(), flags),
                    self.w(),
                    self.h(),
                ),
            keeps_features(self.map@, r.map@),
            rim_is_wall(self.map@, self.w(), self.h()) ==> rim_is_wall(r.map@, r.w(), r.h()),
    {
        let ghost tiles = self.map@;
        let ghost w = self.w();
        let ghost h = self.h();
        let ghost mut flags: Seq<bool> = Seq::empty();
        let mut builder = self;
        let mut pass: usize = 0;
        proof {
            lemma_frames_stay(self.frames);
            lemma_records_nothing(self.frames, w, h);
            assert(smooth_shots(tiles, w, h, flags) =~= Seq::empty());
        }
        while pass < repeat
            invariant
                0 <= pass <= repeat,
                builder.wf(),
                builder.width == self.width,
                builder.height == self.height,
                builder.noise_map == self.noise_map,
                builder.id == self.id,
                frames_extend(self.frames, builder.frames),
                w == self.w(),
                h == self.h(),
                tiles == self.map@,
                flags.len() == pass,
                forall|p: usize| pass <= p < repeat ==> call_requires(create_new_walls, (p,)),
                forall|p: usize|
                    p < pass ==> call_ensures(create_new_walls, (p,), #[trigger] flags[p as int]),
                builder.map@ == smooth_passes(tiles, w, h, flags),
                records(self.frames, builder.frames, smooth_shots(tiles, w, h, flags), w, h),
            decreases repeat - pass,
        {
            let flag = create_new_walls(pass);
            let ghost before = builder.map@;
            builder.smooth_once(flag);
            let ghost taken = builder.frames;
            builder.frame_from_current_state(100);
            proof {
                let longer = flags.push(flag);
                assert(longer.drop_last() == flags);
                assert(longer.last() == flag);
                lemma_records_push(
                    self.frames,
                    taken,
                    builder.frames,
                    smooth_shots(tiles, w, h, flags),
                    builder.map@,
                    w,
                    h,
                    100u16,
                );
                assert(smooth_shots(tiles, w, h, longer) =~= smooth_shots(tiles, w, h, flags).push(
                    (builder.map@, 100u16),
                )) by {
                    assert forall|k: int| 0 <= k < longer.len() implies #[trigger] smooth_shots(
                        tiles,
                        w,
                        h,
                        longer,
                    )[k] == smooth_shots(tiles, w, h, flags).push((builder.map@, 100u16))[k] by {
                        if k < flags.len() {
                            assert(longer.subrange(0, k + 1) =~= flags.subrange(0, k + 1));
                        } else {
                            assert(longer.subrange(0, k + 1) =~= longer);
                        }
                    }
                }
                flags = longer;
            }
            pass += 1;
        }
        proof {
            lemma_smooth_passes_keep_features(tiles, w, h, flags);
        }
        builder.into_state(Smoothed {  })
    }
}

impl<S: FloorBuilderState> FloorBuilder<S> {
    /// One pass of the cellular automaton over all the points of the map,
    /// column after column.
    pub(crate) fn smooth_once(&mut self, create_new_walls: bool)
        requires
            old(self).wf(),
        ensures
            final(self).wf(),
            final(self).width == old(self).width,
            final(self).height == old(self).height,
            final(self).noise_map == old(self).noise_map,
            final(self).extra == old(self).extra,
            final(self).frames == old(self).frames,
            final(self).id == old(self).id,
            final(self).map@ == smooth_pass(
                old(self).map@,
                old(self).w(),
                old(self).h(),
                create_new_walls,
            ),
    {
        let w: i32 = self.width.as_unbounded();
        let h: i32 = self.height.as_unbounded();
        let ghost tiles = self.map@;
        let mut column: i32 = 0;
        while column < w
            invariant
                0 <= column <= w,
                w == self.w(),
                h == self.h(),
                self.wf(),
                self.width == old(self).width,
                self.height == old(self).height,
                self.noise_map == old(self).noise_map,
                self.extra == old(self).extra,
                self.frames == old(self).frames,
                self.id == old(self).id,
                tiles == old(self).map@,
                self.map@ == smooth_prefix(tiles, w as int, h as int, create_new_walls, (column * h) as nat),
            decreases w - column,
        {
            let mut row: i32 = 0;
            while row < h
                invariant
                    0 <= column < w,
                    0 <= row <= h,
                    w == self.w(),
                    h == self.h(),
                    self.wf(),
                    self.width == old(self).width,
                    self.height == old(self).height,
                    self.noise_map == old(self).noise_map,
                    self.extra == old(self).extra,
                    self.frames == old(self).frames,
                    self.id == old(self).id,
                    tiles == old(self).map@,
                    self.map@ == smooth_prefix(
                        tiles,
                        w as int,
                        h as int,
                        create_new_walls,
                        (column * h + row) as nat,
                    ),
                decreases h - row,
            {
                let point = Point::at_coordinates(row, column);
                let ghost k = column * h + row;
                proof {
                    assert(k % (h as int) == row && k / (h as int) == column && 0 <= k) by (nonlinear_arith)
                        requires
                            k == column * h + row,
                            0 <= row < h,
                            0 <= column,
                    ;
                    assert(point == scan_point(k, h as int));
                    lemma_grid_index_bounds(point, w as int, h as int);
                }
                let tile = self.place_wall_logic(point, create_new_walls);
                let width = self.width;
                *self.map.at_mut(point, width) = tile;
                row += 1;
            }
            assert((column + 1) * h == column * h + h) by (nonlinear_arith);
            column += 1;
        }
    }
}

} // verus!
