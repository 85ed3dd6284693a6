//! The stage of a builder whose remaining caves have been joined by secret
//! passages.

use crate::dungeon_tile::DungeonTile;
use crate::floor_builder::floor_builder_state::filled::Filled;
use crate::floor_builder::floor_builder_state::random_filled::lemma_index_of_grid_point;
use crate::floor_builder::floor_builder_state::FloorBuilderState;
use crate::floor_builder::search::lemma_filter_push;
use crate::floor_builder::{has_one, opens_no_way, in_grid, lemma_scan_point_in_grid, out_of_bounds, rim_is_wall, FloorBuilder, MAX_FLOOR_SIZE, frames_extend, lemma_frames_stay, records, lemma_records_nothing, lemma_records_push};
use crate::point::Point;
use crate::point_index::{grid_index, grid_point, lemma_grid_index_bounds, scan_point, PointIndex};
use crate::random::{random_between, shuffle};
use vstd::prelude::*;

verus! {

/// A builder in this stage has drawn secret passages between the caves
/// that were still apart.
#[derive(Debug)]
pub struct HasSecretPassages;

impl FloorBuilderState for HasSecretPassages {

}

/// All the points of a grid, column after column.
pub open spec fn all_points(w: int, h: int) -> Seq<Point> {
    Seq::new((w * h) as nat, |k: int| scan_point(k, h))
}

/// The points of the map that hold an empty tile, column after column.
pub open spec fn empty_points(tiles: Seq<DungeonTile>, w: int, h: int) -> Seq<Point> {
    all_points(w, h).filter(|point: Point| tiles[grid_index(point, w)] is Empty)
}

/// Whether the tile in row `row` and column `column` lies inside the rim
/// of the map and is empty. The rim, and what lies beyond it, is not.
pub open spec fn empty_inside(tiles: Seq<DungeonTile>, w: int, h: int, row: int, column: int) -> bool {
    0 < row < h - 1 && 0 < column < w - 1 && tiles[row * w + column] is Empty
}

/// Whether `rows` and `columns` lead from a tile to one of the eight tiles
/// around it.
pub open spec fn leads_around(rows: int, columns: int) -> bool {
    -1 <= rows <= 1 && -1 <= columns <= 1 && !(rows == 0 && columns == 0)
}

/// Whether the tile `rows` rows below and `columns` columns right of the
/// tile in row `row` and column `column` lies inside the rim and is empty.
pub open spec fn neighbor_empty(
    tiles: Seq<DungeonTile>,
    w: int,
    h: int,
    row: int,
    column: int,
    rows: int,
    columns: int,
) -> bool {
    empty_inside(tiles, w, h, row + rows, column + columns)
}

/// Whether all the eight tiles around `point`, the diagonal ones too, are
/// empty. A tile on the rim or beyond it counts as a wall, so a point next
/// to the rim has not everything empty around it.
pub open spec fn all_empty_around(tiles: Seq<DungeonTile>, w: int, h: int, point: Point) -> bool {
    forall|rows: int, columns: int|
        leads_around(rows, columns) ==> #[trigger] neighbor_empty(
            tiles,
            w,
            h,
            point.r(),
            point.c(),
            rows,
            columns,
        )
}

/// Whether every chest that `after` holds where `before` was empty has all
/// the eight tiles around it empty in `after`: no such chest touches
/// another, a wall, the rim or any other feature.
pub open spec fn chests_stand_free(
    before: Seq<DungeonTile>,
    after: Seq<DungeonTile>,
    w: int,
    h: int,
) -> bool {
    forall|i: int|
        0 <= i < before.len() && before[i] is Empty && #[trigger] after[i] is TreasureChest
            ==> all_empty_around(after, w, h, grid_point(i, w))
}

/// The map after the points of `order` have been offered a treasure chest,
/// one after the other, and how many chests have been placed. A point gets
/// a chest as long as fewer than `amount` are placed and everything around
/// it is empty, the chests placed before it counted.
pub open spec fn chests_placed(
    tiles: Seq<DungeonTile>,
    w: int,
    h: int,
    order: Seq<Point>,
    amount: nat,
) -> (Seq<DungeonTile>, nat)
    decreases order.len(),
{
    if order.len() == 0 {
        (tiles, 0)
    } else {
        let (before, placed) = chests_placed(tiles, w, h, order.drop_last(), amount);
        if placed < amount && all_empty_around(before, w, h, order.last()) {
            (
                before.update(
                    grid_index(order.last(), w),
                    DungeonTile::TreasureChest { contents: () },
                ),
                placed + 1,
            )
        } else {
            (before, placed)
        }
    }
}

/// The pictures taken while the points of `order` are offered a chest: one
/// before each chest is placed, of the map as it is without that chest,
/// shown for a tenth of a second.
pub open spec fn chest_shots(
    tiles: Seq<DungeonTile>,
    w: int,
    h: int,
    order: Seq<Point>,
    amount: nat,
) -> Seq<(Seq<DungeonTile>, u16)>
    decreases order.len(),
{
    if order.len() == 0 {
        Seq::empty()
    } else {
        let shots = chest_shots(tiles, w, h, order.drop_last(), amount);
        let (before, placed) = chests_placed(tiles, w, h, order.drop_last(), amount);
        if placed < amount && all_empty_around(before, w, h, order.last()) {
            shots.push((before, 10u16))
        } else {
            shots
        }
    }
}

/// Whether `after` and the pictures `shots` can be what placing the
/// treasure makes of a map: the empty points of the map are offered a
/// chest in some order, until between five and ten chests are placed, and
/// a picture is taken before each chest.
pub open spec fn shoots_treasure(
    tiles: Seq<DungeonTile>,
    w: int,
    h: int,
    after: Seq<DungeonTile>,
    shots: Seq<(Seq<DungeonTile>, u16)>,
) -> bool {
    exists|order: Seq<Point>, amount: nat|
        {
            &&& 5 <= amount <= 10
            &&& order.to_multiset() == empty_points(tiles, w, h).to_multiset()
            &&& after == #[trigger] chests_placed(tiles, w, h, order, amount).0
            &&& shots == chest_shots(tiles, w, h, order, amount)
        }
}

/// Whether `after` can be what placing the treasure makes of a map: the
/// empty points of the map are offered a chest in some order, until between
/// five and ten chests are placed.
pub open spec fn places_treasure(
    tiles: Seq<DungeonTile>,
    w: int,
    h: int,
    after: Seq<DungeonTile>,
) -> bool {
    exists|order: Seq<Point>, amount: nat|
        {
            &&& 5 <= amount <= 10
            &&& order.to_multiset() == empty_points(tiles, w, h).to_multiset()
            &&& after == #[trigger] chests_placed(tiles, w, h, order, amount).0
        }
}

/// Whether `after` is `before` but for treasure chests on tiles that were
/// empty.
pub open spec fn adds_chests(before: Seq<DungeonTile>, after: Seq<DungeonTile>) -> bool {
    &&& after.len() == before.len()
    &&& forall|i: int|
        0 <= i < before.len() ==> #[trigger] after[i] == before[i] || (before[i] is Empty
            && after[i] is TreasureChest)
}

/// The place of a tile in the buffer tells its row and column.
pub proof fn lemma_cell_index(row: int, column: int, other_row: int, other_column: int, w: int)
    requires
        0 <= column < w,
        0 <= other_column < w,
        row * w + column == other_row * w + other_column,
    ensures
        row == other_row,
        column == other_column,
{
    assert(row == other_row && column == other_column) by (nonlinear_arith)
        requires
            0 <= column < w,
            0 <= other_column < w,
            row * w + column == other_row * w + other_column,
    ;
}

/// A tile of the map has its place in the buffer of the map.
pub proof fn lemma_cell_in_buffer(row: int, column: int, w: int, h: int)
    requires
        0 <= row < h,
        0 <= column < w,
    ensures
        0 <= row * w + column < w * h,
{
    assert(0 <= row * w + column < w * h) by (nonlinear_arith)
        requires
            0 <= row < h,
            0 <= column < w,
    ;
}

/// A chest that is placed where everything around is empty leaves the
/// chests that stood free standing free.
proof fn lemma_chest_step(
    tiles: Seq<DungeonTile>,
    before: Seq<DungeonTile>,
    w: int,
    h: int,
    point: Point,
)
    requires
        0 < w <= MAX_FLOOR_SIZE,
        0 < h <= MAX_FLOOR_SIZE,
        tiles.len() == w * h,
        before.len() == tiles.len(),
        in_grid(point, w, h),
        all_empty_around(before, w, h, point),
        chests_stand_free(tiles, before, w, h),
    ensures
        chests_stand_free(
            tiles,
            before.update(grid_index(point, w), DungeonTile::TreasureChest { contents: () }),
            w,
            h,
        ),
{
    let at = grid_index(point, w);
    let after = before.update(at, DungeonTile::TreasureChest { contents: () });
    lemma_grid_index_bounds(point, w, h);
    assert forall|i: int|
        0 <= i < tiles.len() && tiles[i] is Empty && #[trigger] after[i] is TreasureChest implies all_empty_around(
        after,
        w,
        h,
        grid_point(i, w),
    ) by {
        let here = grid_point(i, w);
        lemma_index_of_grid_point(i, w, h);
        assert forall|rows: int, columns: int| leads_around(rows, columns) implies #[trigger] neighbor_empty(
            after,
            w,
            h,
            here.r(),
            here.c(),
            rows,
            columns,
        ) by {
            let row = here.r() + rows;
            let column = here.c() + columns;
            if i == at {
                lemma_cell_index(here.r(), here.c(), point.r(), point.c(), w);
                assert(neighbor_empty(before, w, h, point.r(), point.c(), rows, columns));
                lemma_cell_in_buffer(row, column, w, h);
                if row * w + column == at {
                    lemma_cell_index(row, column, point.r(), point.c(), w);
                }
            } else {
                assert(before[i] is TreasureChest);
                assert(all_empty_around(before, w, h, here));
                assert(neighbor_empty(before, w, h, here.r(), here.c(), rows, columns));
                lemma_cell_in_buffer(row, column, w, h);
                if row * w + column == at {
                    // The new chest would stand beside the old one, which
                    // then is not empty beside the new one.
                    lemma_cell_index(row, column, point.r(), point.c(), w);
                    assert(leads_around(-rows, -columns));
                    assert(neighbor_empty(before, w, h, point.r(), point.c(), -rows, -columns));
                }
            }
        }
    }
}

/// Offering chests to empty tiles changes nothing but empty tiles, and
/// those into chests; no more chests are placed than asked for; and every
/// chest that is placed stands free in the end.
pub proof fn lemma_chests_on_empty_tiles(
    tiles: Seq<DungeonTile>,
    w: int,
    h: int,
    order: Seq<Point>,
    amount: nat,
)
    requires
        0 < w <= MAX_FLOOR_SIZE,
        0 < h <= MAX_FLOOR_SIZE,
        tiles.len() == w * h,
        forall|k: int|
            0 <= k < order.len() ==> in_grid(#[trigger] order[k], w, h) && tiles[grid_index(
                order[k],
                w,
            )] is Empty,
    ensures
        adds_chests(tiles, chests_placed(tiles, w, h, order, amount).0),
        chests_stand_free(tiles, chests_placed(tiles, w, h, order, amount).0, w, h),
        chests_placed(tiles, w, h, order, amount).1 <= amount,
        chests_placed(tiles, w, h, order, amount).1 <= order.len(),
    decreases order.len(),
{
    if order.len() > 0 {
        let shorter = order.drop_last();
        assert forall|k: int| 0 <= k < shorter.len() implies in_grid(#[trigger] shorter[k], w, h)
            && tiles[grid_index(shorter[k], w)] is Empty by {
            assert(shorter[k] == order[k]);
        }
        lemma_chests_on_empty_tiles(tiles, w, h, shorter, amount);
        assert(in_grid(order[order.len() - 1], w, h));
        lemma_grid_index_bounds(order.last(), w, h);
        let (before, placed) = chests_placed(tiles, w, h, shorter, amount);
        if placed < amount && all_empty_around(before, w, h, order.last()) {
            lemma_chest_step(tiles, before, w, h, order.last());
        }
    }
}

/// Placing chests on empty tiles opens no way.
pub proof fn lemma_chests_open_no_way(before: Seq<DungeonTile>, after: Seq<DungeonTile>)
    requires
        adds_chests(before, after),
    ensures
        opens_no_way(before, after),
{
    assert forall|i: int| 0 <= i < after.len() implies (#[trigger] after[i]
        == DungeonTile::Entrance ==> before[i] == DungeonTile::Entrance) && (after[i]
        == DungeonTile::Exit ==> before[i] == DungeonTile::Exit) by {
        assert(after[i] == before[i] || after[i] is TreasureChest);
    }
}

/// A map that differs from another by chests on empty tiles has the same
/// ways in and out, and a rim of walls where the other has.
pub proof fn lemma_chests_keep_ways_and_rim(
    before: Seq<DungeonTile>,
    after: Seq<DungeonTile>,
    w: int,
    h: int,
)
    requires
        adds_chests(before, after),
    ensures
        has_one(before, DungeonTile::Entrance) ==> has_one(after, DungeonTile::Entrance),
        has_one(before, DungeonTile::Exit) ==> has_one(after, DungeonTile::Exit),
        rim_is_wall(before, w, h) ==> rim_is_wall(after, w, h),
{
    if has_one(before, DungeonTile::Entrance) {
        let i = choose|i: int|
            0 <= i < before.len() && #[trigger] before[i] == DungeonTile::Entrance && forall|j: int|
                0 <= j < before.len() && #[trigger] before[j] == DungeonTile::Entrance ==> j == i;
        assert(after[i] == DungeonTile::Entrance);
        assert forall|j: int|
            0 <= j < after.len() && #[trigger] after[j] == DungeonTile::Entrance implies j == i by {
            assert(before[j] == DungeonTile::Entrance);
        }
    }
    if has_one(before, DungeonTile::Exit) {
        let i = choose|i: int|
            0 <= i < before.len() && #[trigger] before[i] == DungeonTile::Exit && forall|j: int|
                0 <= j < before.len() && #[trigger] before[j] == DungeonTile::Exit ==> j == i;
        assert(after[i] == DungeonTile::Exit);
        assert forall|j: int|
            0 <= j < after.len() && #[trigger] after[j] == DungeonTile::Exit implies j == i by {
            assert(before[j] == DungeonTile::Exit);
        }
    }
    if rim_is_wall(before, w, h) {
        assert forall|i: int|
            0 <= i < after.len() && out_of_bounds(grid_point(i, w), w, h) implies #[trigger] after[i] is Wall by {
            assert(before[i] is Wall);
        }
    }
}

impl<S: FloorBuilderState> FloorBuilder<S> {
    /// Whether all the eight tiles around `point`, the diagonal ones too,
    /// are empty. The rim counts as wall.
    pub fn is_all_empty_around(&self, point: Point) -> (r: bool)
        requires
            self.wf(),
        ensures
            r == all_empty_around(self.map@, self.w(), self.h(), point),
    {
        let (row, column) = point.coordinates();
        let ghost tiles = self.map@;
        let ghost w = self.w();
        let ghost h = self.h();
        let all = self.is_empty_inside(row - 1, column - 1) && self.is_empty_inside(row - 1, column)
            && self.is_empty_inside(row - 1, column + 1) && self.is_empty_inside(row, column - 1)
            && self.is_empty_inside(row, column + 1) && self.is_empty_inside(row + 1, column - 1)
            && self.is_empty_inside(row + 1, column) && self.is_empty_inside(row + 1, column + 1);
        proof {
            if all {
                assert forall|rows: int, columns: int| leads_around(rows, columns) implies #[trigger] neighbor_empty(
                    tiles,
                    w,
                    h,
                    point.r(),
                    point.c(),
                    rows,
                    columns,
                ) by {}
            } else {
                assert(!neighbor_empty(tiles, w, h, point.r(), point.c(), -1, -1) || !neighbor_empty(
                    tiles,
                    w,
                    h,
                    point.r(),
                    point.c(),
                    -1,
                    0,
                ) || !neighbor_empty(tiles, w, h, point.r(), point.c(), -1, 1) || !neighbor_empty(
                    tiles,
                    w,
                    h,
                    point.r(),
                    point.c(),
                    0,
                    -1,
                ) || !neighbor_empty(tiles, w, h, point.r(), point.c(), 0, 1) || !neighbor_empty(
                    tiles,
                    w,
                    h,
                    point.r(),
                    point.c(),
                    1,
                    -1,
                ) || !neighbor_empty(tiles, w, h, point.r(), point.c(), 1, 0) || !neighbor_empty(
                    tiles,
                    w,
                    h,
                    point.r(),
                    point.c(),
                    1,
                    1,
                ));
                assert(leads_around(-1, -1) && leads_around(-1, 0) && leads_around(-1, 1)
                    && leads_around(0, -1) && leads_around(0, 1) && leads_around(1, -1)
                    && leads_around(1, 0) && leads_around(1, 1));
            }
        }
        all
    }

    /// Whether the tile in row `row` and column `column` lies inside the
    /// rim and is empty.
    fn is_empty_inside(&self, row: i32, column: i32) -> (r: bool)
        requires
            self.wf(),
            -1 <= row <= MAX_FLOOR_SIZE + 1,
            -1 <= column <= MAX_FLOOR_SIZE + 1,
        ensures
            r == empty_inside(self.map@, self.w(), self.h(), row as int, column as int),
    {
        if row <= 0 || column <= 0 || row >= self.height.as_unbounded() - 1 || column
            >= self.width.as_unbounded() - 1 {
            return false;
        }
        let here = Point::at_coordinates(row, column);
        proof {
            lemma_grid_index_bounds(here, self.w(), self.h());
        }
        self.map.at(here, self.width).is_empty()
    }

    /// The points of the map that hold an empty tile, column after column.
    pub fn collect_empty_points(&self) -> (r: Vec<Point>)
        requires
            self.wf(),
        ensures
            r@ == empty_points(self.map@, self.w(), self.h()),
    {
        let w: i32 = self.width.as_unbounded();
        let h: i32 = self.height.as_unbounded();
        let ghost tiles = self.map@;
        let ghost keep = |point: Point| tiles[grid_index(point, w as int)] is Empty;
        let ghost all = all_points(w as int, h as int);
        let mut out: Vec<Point> = Vec::new();
        let mut column: i32 = 0;
        assert(all.subrange(0, 0) =~= Seq::<Point>::empty());
        assert(Seq::<Point>::empty().filter(keep) =~= Seq::<Point>::empty());
        while column < w
            invariant
                0 <= column <= w,
                self.wf(),
                w == self.w(),
                h == self.h(),
                tiles == self.map@,
                all == all_points(w as int, h as int),
                keep == |point: Point| tiles[grid_index(point, w as int)] is Empty,
                0 <= column * h <= w * h,
                out@ == all.subrange(0, column * h).filter(keep),
            decreases w - column,
        {
            let mut row: i32 = 0;
            while row < h
                invariant
                    0 <= column < w,
                    0 <= row <= h,
                    self.wf(),
                    w == self.w(),
                    h == self.h(),
                    tiles == self.map@,
                    all == all_points(w as int, h as int),
                    keep == |point: Point| tiles[grid_index(point, w as int)] is Empty,
                    0 <= column * h + row <= w * h,
                    out@ == all.subrange(0, column * h + row).filter(keep),
                decreases h - row,
            {
                let point = Point::at_coordinates(row, column);
                let ghost k = column * h + row;
                proof {
                    assert(k % (h as int) == row && k / (h as int) == column && 0 <= k) by (nonlinear_arith)
                        requires
                            k == column * h + row,
                            0 <= row < h,
                            0 <= column,
                    ;
                    assert(k + 1 <= w * h) by (nonlinear_arith)
                        requires
                            k == column * h + row,
                            0 <= row < h,
                            0 <= column < w,
                    ;
                    assert(point == scan_point(k, h as int));
                    lemma_grid_index_bounds(point, w as int, h as int);
                    let before = all.subrange(0, k);
                    assert(all.subrange(0, k + 1) == before.push(point));
                    lemma_filter_push(before, point, keep);
                }
                if self.map.at(point, self.width).is_empty() {
                    out.push(point);
                }
                row += 1;
            }
            assert((column + 1) * h == column * h + h) by (nonlinear_arith);
            column += 1;
        }
        assert(all.subrange(0, w * h) == all);
        out
    }

    /// Offers a treasure chest to each point of `order`, one after the
    /// other, until `amount` chests are placed. A point takes the chest
    /// where everything around it is empty.
    pub fn place_chests(&mut self, order: &Vec<Point>, amount: usize)
        requires
            old(self).wf(),
            forall|k: int|
                0 <= k < order@.len() ==> in_grid(#[trigger] order@[k], old(self).w(), old(self).h()),
        ensures
            final(self).wf(),
            final(self).width == old(self).width,
            final(self).height == old(self).height,
            final(self).noise_map == old(self).noise_map,
            final(self).extra == old(self).extra,
            final(self).id == old(self).id,
            frames_extend(old(self).frames, final(self).frames),
            records(
                old(self).frames,
                final(self).frames,
                chest_shots(old(self).map@, old(self).w(), old(self).h(), order@, amount as nat),
                old(self).w(),
                old(self).h(),
            ),
            final(self).map@ == chests_placed(
                old(self).map@,
                old(self).w(),
                old(self).h(),
                order@,
                amount as nat,
            ).0,
    {
        let ghost tiles = self.map@;
        let ghost w = self.w();
        let ghost h = self.h();
        let mut placed: usize = 0;
        let mut k: usize = 0;
        assert(order@.subrange(0, 0) =~= Seq::<Point>::empty());
        proof {
            lemma_frames_stay(self.frames);
            lemma_records_nothing(self.frames, w, h);
        }
        while k < order.len()
            invariant
                0 <= k <= order.len(),
                self.wf(),
                w == self.w(),
                h == self.h(),
                tiles == old(self).map@,
                self.width == old(self).width,
                self.height == old(self).height,
                self.noise_map == old(self).noise_map,
                self.extra == old(self).extra,
                self.id == old(self).id,
                frames_extend(old(self).frames, self.frames),
                forall|k: int| 0 <= k < order@.len() ==> in_grid(#[trigger] order@[k], w, h),
                placed <= k,
                records(
                    old(self).frames,
                    self.frames,
                    chest_shots(tiles, w, h, order@.subrange(0, k as int), amount as nat),
                    w,
                    h,
                ),
                (self.map@, placed as nat) == chests_placed(
                    tiles,
                    w,
                    h,
                    order@.subrange(0, k as int),
                    amount as nat,
                ),
            decreases order.len() - k,
        {
            let point = order[k];
            proof {
                let longer = order@.subrange(0, k + 1);
                assert(longer.drop_last() == order@.subrange(0, k as int));
                assert(longer.last() == point);
                lemma_grid_index_bounds(point, w, h);
            }
            if placed < amount && self.is_all_empty_around(point) {
                let ghost taken = self.frames;
                let ghost shots = chest_shots(
                    tiles,
                    w,
                    h,
                    order@.subrange(0, k as int),
                    amount as nat,
                );
                self.frame_from_current_state(10);
                proof {
                    lemma_records_push(
                        old(self).frames,
                        taken,
                        self.frames,
                        shots,
                        self.map@,
                        w,
                        h,
                        10u16,
                    );
                }
                let width = self.width;
                *self.map.at_mut(point, width) = DungeonTile::TreasureChest { contents: () };
                placed += 1;
            }
            k += 1;
        }
        assert(order@.subrange(0, k as int) == order@);
    }
}

/// Every one of the empty points of a map is a point of the map.
pub proof fn lemma_empty_points_in_grid(tiles: Seq<DungeonTile>, w: int, h: int, point: Point)
    requires
        0 < w <= crate::floor_builder::MAX_FLOOR_SIZE,
        0 < h <= crate::floor_builder::MAX_FLOOR_SIZE,
        empty_points(tiles, w, h).contains(point),
    ensures
        in_grid(point, w, h),
        tiles[grid_index(point, w)] is Empty,
{
    let keep = |point: Point| tiles[grid_index(point, w)] is Empty;
    all_points(w, h).lemma_filter_contains_rev(keep, point);
    let k = choose|k: int| 0 <= k < all_points(w, h).len() && all_points(w, h)[k] == point;
    lemma_scan_point_in_grid(k, w, h);
}

impl FloorBuilder<HasSecretPassages> {
    /// Places between five and ten treasure chests on empty tiles around
    /// which all eight tiles are empty, the rim counting as wall: no chest
    /// touches a wall, a feature or another chest. How many there are and
    /// which tiles are tried first is left to chance.
    pub fn place_treasure_chests(self) -> (r: FloorBuilder<Filled>)
        requires
            self.wf(),
        ensures
            r.wf(),
            r.width == self.width,
            r.height == self.height,
            r.noise_map == self.noise_map,
            r.id == self.id,
            frames_extend(self.frames, r.frames),
            places_treasure(self.map@, self.w(), self.h(), r.map@),
            exists|shots: Seq<(Seq<DungeonTile>, u16)>| #[trigger]
                shoots_treasure(self.map@, self.w(), self.h(), r.map@, shots) && records(
                    self.frames,
                    r.frames,
                    shots,
                    self.w(),
                    self.h(),
                ),
            adds_chests(self.map@, r.map@),
            chests_stand_free(self.map@, r.map@, self.w(), self.h()),
            has_one(self.map@, DungeonTile::Entrance) ==> has_one(r.map@, DungeonTile::Entrance),
            has_one(self.map@, DungeonTile::Exit) ==> has_one(r.map@, DungeonTile::Exit),
            rim_is_wall(self.map@, self.w(), self.h()) ==> rim_is_wall(r.map@, r.w(), r.h()),
    {
        let ghost w = self.w();
        let ghost h = self.h();
        let mut order = self.collect_empty_points();
        let ghost sorted = order@;
        let amount: i32 = random_between(5, 10);
        shuffle(&mut order);
        proof {
            broadcast use vstd::seq_lib::group_to_multiset_ensures;

            assert forall|k: int| 0 <= k < order@.len() implies in_grid(#[trigger] order@[k], w, h)
                && self.map@[grid_index(order@[k], w)] is Empty by {
                let point = order@[k];
                assert(order@.contains(point));
                assert(order@.to_multiset().count(point) > 0);
                assert(sorted.to_multiset().count(point) > 0);
                assert(sorted.contains(point));
                lemma_empty_points_in_grid(self.map@, w, h, point);
            }
            lemma_chests_on_empty_tiles(self.map@, w, h, order@, amount as nat);
            lemma_chests_keep_ways_and_rim(
                self.map@,
                chests_placed(self.map@, w, h, order@, amount as nat).0,
                w,
                h,
            );
        }
        let mut builder = self;
        builder.place_chests(&order, amount as usize);
        proof {
            assert(shoots_treasure(
                self.map@,
                w,
                h,
                builder.map@,
                chest_shots(self.map@, w, h, order@, amount as nat),
            ));
        }
        builder.into_state(Filled {  })
    }
}

} // verus!
