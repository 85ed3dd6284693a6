//! The stage of a builder that holds paths to draw.

use crate::connection_path::{ConnectionPath, ConnectionPathLength};
use crate::dungeon_tile::DungeonTile;
use crate::floor_builder::floor_builder_state::filled::Filled;
use crate::floor_builder::floor_builder_state::FloorBuilderState;

use crate::floor_builder::{has_one, opens_no_way, in_grid, out_of_bounds, rim_is_wall, FloorBuilder, MAX_FLOOR_SIZE, frames_extend, lemma_frames_stay, records, lemma_records_nothing, lemma_records_push};
use crate::point_index::{grid_point, lemma_grid_point_of_index};
use crate::point::Point;
use crate::point_index::{grid_index, lemma_grid_index_bounds, PointIndex};
use vstd::prelude::*;

verus! {

/// A builder in this stage holds the paths that are to be written into its
/// map.
#[derive(Debug)]
pub struct Drawable {
    /// The paths to be drawn.
    pub to_draw: Vec<ConnectionPath>,
}

impl FloorBuilderState for Drawable {

}

/// What is asked of the tile selector for each point of a path, in the
/// order in which the points are drawn: whether the point is the first of
/// its path, whether it is the last, and the point. The two ends come
/// first, then what lies between them.
pub open spec fn path_calls(path: ConnectionPath) -> Seq<(bool, bool, Point)> {
    match path.path {
        ConnectionPathLength::Length1 { point } => seq![(true, true, point)],
        ConnectionPathLength::Length2 { start, end } => seq![
            (true, false, start),
            (false, true, end),
        ],
        ConnectionPathLength::Length3Plus { start, end, points } => seq![
            (true, false, start),
            (false, true, end),
        ] + points@.map_values(|point: Point| (false, false, point)),
    }
}

/// What is asked of the tile selector for all the paths, one path after
/// the other.
pub open spec fn draw_calls(to_draw: Seq<ConnectionPath>) -> Seq<(bool, bool, Point)>
    decreases to_draw.len(),
{
    if to_draw.len() == 0 {
        Seq::empty()
    } else {
        draw_calls(to_draw.drop_last()) + path_calls(to_draw.last())
    }
}

/// The map after the tiles `answers` have been written, one after the
/// other, at the points of `calls`.
pub open spec fn written(
    tiles: Seq<DungeonTile>,
    w: int,
    calls: Seq<(bool, bool, Point)>,
    answers: Seq<DungeonTile>,
) -> Seq<DungeonTile>
    decreases calls.len(),
{
    if calls.len() == 0 || answers.len() != calls.len() {
        tiles
    } else {
        written(tiles, w, calls.drop_last(), answers.drop_last()).update(
            grid_index(calls.last().2, w),
            answers.last(),
        )
    }
}

/// The pictures taken while the tiles `answers` are written at the points
/// of `calls`: one after each tile that is written between the ends of a
/// path, of the map as it then is, shown for a hundredth of a second.
pub open spec fn draw_shots(
    tiles: Seq<DungeonTile>,
    w: int,
    calls: Seq<(bool, bool, Point)>,
    answers: Seq<DungeonTile>,
) -> Seq<(Seq<DungeonTile>, u16)>
    decreases calls.len(),
{
    if calls.len() == 0 || answers.len() != calls.len() {
        Seq::empty()
    } else {
        let before = draw_shots(tiles, w, calls.drop_last(), answers.drop_last());
        if !calls.last().0 && !calls.last().1 {
            before.push((written(tiles, w, calls, answers), 1u16))
        } else {
            before
        }
    }
}

/// The tiles that a selector answers with when it picks `ends` for the
/// first and the last point of a path and `between` for the others.
pub open spec fn answers_of(
    calls: Seq<(bool, bool, Point)>,
    ends: DungeonTile,
    between: DungeonTile,
) -> Seq<DungeonTile> {
    Seq::new(
        calls.len(),
        |k: int|
            if calls[k].0 || calls[k].1 {
                ends
            } else {
                between
            },
    )
}

/// The map with the paths drawn by a selector that picks `ends` for the
/// first and the last point of a path and `between` for the others.
pub open spec fn drawn_with(
    tiles: Seq<DungeonTile>,
    w: int,
    to_draw: Seq<ConnectionPath>,
    ends: DungeonTile,
    between: DungeonTile,
) -> Seq<DungeonTile> {
    written(tiles, w, draw_calls(to_draw), answers_of(draw_calls(to_draw), ends, between))
}

/// Answers that are `ends` for the first and the last point of a path and
/// `between` for the others are the answers of such a selector.
pub proof fn lemma_answers_of(
    calls: Seq<(bool, bool, Point)>,
    answers: Seq<DungeonTile>,
    ends: DungeonTile,
    between: DungeonTile,
)
    requires
        answers.len() == calls.len(),
        forall|k: int|
            0 <= k < answers.len() ==> #[trigger] answers[k] == if calls[k].0 || calls[k].1 {
                ends
            } else {
                between
            },
    ensures
        answers == answers_of(calls, ends, between),
{
    assert(answers =~= answers_of(calls, ends, between));
}

impl Drawable {
    /// Every point of every path lies inside the rim of the floor, and what
    /// lies between the ends of a path holds neither end.
    pub open spec fn wf(self, w: int, h: int) -> bool {
        forall|i: int|
            0 <= i < self.to_draw@.len() ==> path_wf(#[trigger] self.to_draw@[i], w, h)
    }
}

/// Every point of the path lies inside the rim of the floor, and what lies
/// between its ends holds neither end.
pub open spec fn path_wf(path: ConnectionPath, w: int, h: int) -> bool {
    &&& forall|k: int|
        0 <= k < path.points_seq().len() ==> !out_of_bounds(#[trigger] path.points_seq()[k], w, h)
    &&& path.path matches ConnectionPathLength::Length3Plus { start, end, points }
        ==> !points@.contains(start) && !points@.contains(end)
}

/// What is asked of the tile selector for each point of `path`.
pub fn calls_of(path: &ConnectionPath) -> (r: Vec<(bool, bool, Point)>)
    ensures
        r@ == path_calls(*path),
{
    let mut out: Vec<(bool, bool, Point)> = Vec::new();
    match &path.path {
        ConnectionPathLength::Length1 { point } => {
            out.push((true, true, *point));
        },
        ConnectionPathLength::Length2 { start, end } => {
            out.push((true, false, *start));
            out.push((false, true, *end));
        },
        ConnectionPathLength::Length3Plus { start, end, points } => {
            out.push((true, false, *start));
            out.push((false, true, *end));
            let ghost ends = out@;
            let ghost between = |point: Point| (false, false, point);
            let mut i: usize = 0;
            while i < points.len()
                invariant
                    0 <= i <= points.len(),
                    between == |point: Point| (false, false, point),
                    out@ == ends + points@.subrange(0, i as int).map_values(between),
                decreases points.len() - i,
            {
                out.push((false, false, points[i]));
                assert(points@.subrange(0, i + 1) == points@.subrange(0, i as int).push(
                    points@[i as int],
                ));
                assert(out@ =~= ends + points@.subrange(0, i + 1).map_values(between));
                i += 1;
            }
            assert(points@.subrange(0, i as int) == points@);
        },
    }
    out
}

/// What is asked of the tile selector for all the paths.
pub fn all_calls_of(to_draw: &Vec<ConnectionPath>) -> (r: Vec<(bool, bool, Point)>)
    ensures
        r@ == draw_calls(to_draw@),
{
    let mut out: Vec<(bool, bool, Point)> = Vec::new();
    let mut i: usize = 0;
    assert(to_draw@.subrange(0, 0) =~= Seq::<ConnectionPath>::empty());
    while i < to_draw.len()
        invariant
            0 <= i <= to_draw.len(),
            out@ == draw_calls(to_draw@.subrange(0, i as int)),
        decreases to_draw.len() - i,
    {
        let mut calls = calls_of(&to_draw[i]);
        proof {
            let longer = to_draw@.subrange(0, i + 1);
            assert(longer.drop_last() == to_draw@.subrange(0, i as int));
            assert(longer.last() == to_draw@[i as int]);
        }
        out.append(&mut calls);
        i += 1;
    }
    assert(to_draw@.subrange(0, i as int) == to_draw@);
    out
}

/// Writing keeps the size of the map, and every tile of the map that has
/// changed is one of the tiles that were written.
pub proof fn lemma_written_answers(
    tiles: Seq<DungeonTile>,
    w: int,
    h: int,
    calls: Seq<(bool, bool, Point)>,
    answers: Seq<DungeonTile>,
)
    requires
        0 < w,
        0 < h,
        tiles.len() == w * h,
        forall|k: int| 0 <= k < calls.len() ==> in_grid((#[trigger] calls[k]).2, w, h),
    ensures
        written(tiles, w, calls, answers).len() == tiles.len(),
        forall|i: int|
            0 <= i < tiles.len() ==> #[trigger] written(tiles, w, calls, answers)[i] == tiles[i]
                || exists|k: int|
                0 <= k < answers.len() && #[trigger] answers[k] == written(
                    tiles,
                    w,
                    calls,
                    answers,
                )[i],
    decreases calls.len(),
{
    if calls.len() > 0 && answers.len() == calls.len() {
        let fewer = calls.drop_last();
        let shorter = answers.drop_last();
        assert forall|k: int| 0 <= k < fewer.len() implies in_grid((#[trigger] fewer[k]).2, w, h) by {
            assert(fewer[k] == calls[k]);
        }
        lemma_written_answers(tiles, w, h, fewer, shorter);
        let before = written(tiles, w, fewer, shorter);
        let after = written(tiles, w, calls, answers);
        assert(in_grid(calls[calls.len() - 1].2, w, h));
        lemma_grid_index_bounds(calls.last().2, w, h);
        assert forall|i: int| 0 <= i < tiles.len() implies #[trigger] after[i] == tiles[i]
            || exists|k: int| 0 <= k < answers.len() && #[trigger] answers[k] == after[i] by {
            if i == grid_index(calls.last().2, w) {
                assert(answers[answers.len() - 1] == after[i]);
            } else if before[i] != tiles[i] {
                let k = choose|k: int| 0 <= k < shorter.len() && #[trigger] shorter[k] == before[i];
                assert(answers[k] == after[i]);
            }
        }
    }
}

/// Writing at points inside the rim leaves a rim of walls a rim of walls.
pub proof fn lemma_written_keeps_rim(
    tiles: Seq<DungeonTile>,
    w: int,
    h: int,
    calls: Seq<(bool, bool, Point)>,
    answers: Seq<DungeonTile>,
)
    requires
        0 < w <= MAX_FLOOR_SIZE,
        0 < h <= MAX_FLOOR_SIZE,
        tiles.len() == w * h,
        forall|k: int| 0 <= k < calls.len() ==> !out_of_bounds((#[trigger] calls[k]).2, w, h),
        rim_is_wall(tiles, w, h),
    ensures
        written(tiles, w, calls, answers).len() == tiles.len(),
        rim_is_wall(written(tiles, w, calls, answers), w, h),
    decreases calls.len(),
{
    if calls.len() > 0 && answers.len() == calls.len() {
        let fewer = calls.drop_last();
        let shorter = answers.drop_last();
        assert forall|k: int| 0 <= k < fewer.len() implies !out_of_bounds(
            (#[trigger] fewer[k]).2,
            w,
            h,
        ) by {
            assert(fewer[k] == calls[k]);
        }
        lemma_written_keeps_rim(tiles, w, h, fewer, shorter);
        let before = written(tiles, w, fewer, shorter);
        let after = written(tiles, w, calls, answers);
        let point = calls.last().2;
        assert(!out_of_bounds(calls[calls.len() - 1].2, w, h));
        lemma_grid_index_bounds(point, w, h);
        lemma_grid_point_of_index(point, w);
        assert forall|i: int|
            0 <= i < after.len() && out_of_bounds(grid_point(i, w), w, h) implies #[trigger] after[i] is Wall by {
            assert(before[i] is Wall);
        }
    }
}

/// Writing tiles that are no way in and no way out opens no way.
pub proof fn lemma_written_opens_no_way(
    tiles: Seq<DungeonTile>,
    w: int,
    h: int,
    calls: Seq<(bool, bool, Point)>,
    answers: Seq<DungeonTile>,
)
    requires
        0 < w,
        0 < h,
        tiles.len() == w * h,
        forall|k: int| 0 <= k < calls.len() ==> in_grid((#[trigger] calls[k]).2, w, h),
        forall|k: int|
            0 <= k < answers.len() ==> #[trigger] answers[k] != DungeonTile::Entrance && answers[k]
                != DungeonTile::Exit,
    ensures
        opens_no_way(tiles, written(tiles, w, calls, answers)),
{
    lemma_written_answers(tiles, w, h, calls, answers);
    let after = written(tiles, w, calls, answers);
    assert forall|i: int| 0 <= i < after.len() implies (#[trigger] after[i]
        == DungeonTile::Entrance ==> tiles[i] == DungeonTile::Entrance) && (after[i]
        == DungeonTile::Exit ==> tiles[i] == DungeonTile::Exit) by {
        if after[i] != tiles[i] {
            let k = choose|k: int| 0 <= k < answers.len() && answers[k] == after[i];
            assert(answers[k] != DungeonTile::Entrance);
        }
    }
}

/// Writing tiles that are no way in and no way out at points that hold
/// neither keeps a map with one way in and one way out such a map.
pub proof fn lemma_written_keeps_ways(
    tiles: Seq<DungeonTile>,
    w: int,
    h: int,
    calls: Seq<(bool, bool, Point)>,
    answers: Seq<DungeonTile>,
)
    requires
        0 < w <= MAX_FLOOR_SIZE,
        0 < h <= MAX_FLOOR_SIZE,
        tiles.len() == w * h,
        forall|k: int|
            0 <= k < calls.len() ==> in_grid((#[trigger] calls[k]).2, w, h) && !(tiles[grid_index(
                calls[k].2,
                w,
            )] is Entrance) && !(tiles[grid_index(calls[k].2, w)] is Exit),
        forall|k: int|
            0 <= k < answers.len() ==> !(#[trigger] answers[k] is Entrance) && !(answers[k] is Exit),
    ensures
        written(tiles, w, calls, answers).len() == tiles.len(),
        forall|i: int|
            0 <= i < tiles.len() ==> ((#[trigger] written(tiles, w, calls, answers)[i] is Entrance)
                <==> tiles[i] is Entrance) && ((written(tiles, w, calls, answers)[i] is Exit)
                <==> tiles[i] is Exit),
        has_one(tiles, DungeonTile::Entrance) ==> has_one(
            written(tiles, w, calls, answers),
            DungeonTile::Entrance,
        ),
        has_one(tiles, DungeonTile::Exit) ==> has_one(
            written(tiles, w, calls, answers),
            DungeonTile::Exit,
        ),
    decreases calls.len(),
{
    let after = written(tiles, w, calls, answers);
    if calls.len() > 0 && answers.len() == calls.len() {
        let fewer = calls.drop_last();
        let shorter = answers.drop_last();
        assert forall|k: int| 0 <= k < fewer.len() implies in_grid((#[trigger] fewer[k]).2, w, h)
            && !(tiles[grid_index(fewer[k].2, w)] is Entrance) && !(tiles[grid_index(
            fewer[k].2,
            w,
        )] is Exit) by {
            assert(fewer[k] == calls[k]);
        }
        assert forall|k: int| 0 <= k < shorter.len() implies !(#[trigger] shorter[k] is Entrance)
            && !(shorter[k] is Exit) by {
            assert(shorter[k] == answers[k]);
        }
        lemma_written_keeps_ways(tiles, w, h, fewer, shorter);
        let point = calls.last().2;
        assert(in_grid(calls[calls.len() - 1].2, w, h));
        assert(!(answers[answers.len() - 1] is Entrance));
        lemma_grid_index_bounds(point, w, h);
    }
    assert forall|i: int| 0 <= i < tiles.len() implies ((#[trigger] after[i] is Entrance)
        <==> tiles[i] is Entrance) && ((after[i] is Exit) <==> tiles[i] is Exit) by {}
    if has_one(tiles, DungeonTile::Entrance) {
        let i = choose|i: int|
            0 <= i < tiles.len() && #[trigger] tiles[i] == DungeonTile::Entrance && forall|j: int|
                0 <= j < tiles.len() && #[trigger] tiles[j] == DungeonTile::Entrance ==> j == i;
        assert(after[i] is Entrance);
        assert(after[i] == DungeonTile::Entrance);
        assert forall|j: int|
            0 <= j < after.len() && #[trigger] after[j] == DungeonTile::Entrance implies j == i by {
            assert(tiles[j] is Entrance);
            assert(tiles[j] == DungeonTile::Entrance);
        }
    }
    if has_one(tiles, DungeonTile::Exit) {
        let i = choose|i: int|
            0 <= i < tiles.len() && #[trigger] tiles[i] == DungeonTile::Exit && forall|j: int|
                0 <= j < tiles.len() && #[trigger] tiles[j] == DungeonTile::Exit ==> j == i;
        assert(after[i] is Exit);
        assert(after[i] == DungeonTile::Exit);
        assert forall|j: int|
            0 <= j < after.len() && #[trigger] after[j] == DungeonTile::Exit implies j == i by {
            assert(tiles[j] is Exit);
            assert(tiles[j] == DungeonTile::Exit);
        }
    }
}

/// The points of the calls for a path are the points of the path.
pub proof fn lemma_path_calls_in_grid(path: ConnectionPath, w: int, h: int)
    requires
        path_wf(path, w, h),
    ensures
        forall|k: int|
            0 <= k < path_calls(path).len() ==> in_grid((#[trigger] path_calls(path)[k]).2, w, h)
                && !out_of_bounds(path_calls(path)[k].2, w, h),
{
    let calls = path_calls(path);
    let all = path.points_seq();
    assert forall|k: int| 0 <= k < calls.len() implies in_grid((#[trigger] calls[k]).2, w, h)
        && !out_of_bounds(calls[k].2, w, h) by {
        match path.path {
            ConnectionPathLength::Length1 { point } => {
                assert(all[0] == point);
            },
            ConnectionPathLength::Length2 { start, end } => {
                assert(all[0] == start);
                assert(all[1] == end);
            },
            ConnectionPathLength::Length3Plus { start, end, points } => {
                assert(all[0] == start);
                assert(all[all.len() - 1] == end);
                if k >= 2 {
                    assert(calls[k].2 == points@[k - 2]);
                    assert(all[k - 1] == points@[k - 2]);
                }
            },
        }
    }
}

/// The points of the calls for paths of a floor are points of the floor.
pub proof fn lemma_draw_calls_in_grid(to_draw: Seq<ConnectionPath>, w: int, h: int)
    requires
        forall|i: int| 0 <= i < to_draw.len() ==> path_wf(#[trigger] to_draw[i], w, h),
    ensures
        forall|k: int|
            0 <= k < draw_calls(to_draw).len() ==> in_grid((#[trigger] draw_calls(to_draw)[k]).2, w, h)
                && !out_of_bounds(draw_calls(to_draw)[k].2, w, h),
    decreases to_draw.len(),
{
    if to_draw.len() > 0 {
        let shorter = to_draw.drop_last();
        assert forall|i: int| 0 <= i < shorter.len() implies path_wf(#[trigger] shorter[i], w, h) by {
            assert(shorter[i] == to_draw[i]);
        }
        lemma_draw_calls_in_grid(shorter, w, h);
        assert(path_wf(to_draw[to_draw.len() - 1], w, h));
        lemma_path_calls_in_grid(to_draw.last(), w, h);
        let all = draw_calls(to_draw);
        let head = draw_calls(shorter);
        let tail = path_calls(to_draw.last());
        assert(all == head + tail);
        assert forall|k: int| 0 <= k < all.len() implies in_grid((#[trigger] all[k]).2, w, h)
            && !out_of_bounds(all[k].2, w, h) by {
            if k < head.len() {
                assert(all[k] == head[k]);
            } else {
                assert(all[k] == tail[k - head.len()]);
            }
        }
    }
}

impl FloorBuilder<Drawable> {
    /// The paths that are to be drawn.
    pub fn to_draw(&self) -> (r: &Vec<ConnectionPath>)
        ensures
            *r == self.extra.to_draw,
    {
        &self.extra.to_draw
    }

    /// Draws the paths into the map with the tiles that `draw_with` picks.
    ///
    /// `draw_with` is asked once for every point of every path. It is told
    /// whether the point is the first of its path, whether it is the last,
    /// and the point itself; the tile it answers with is written at the
    /// point. A point can be first and last at once.
    pub fn draw<F: Fn(bool, bool, Point) -> DungeonTile>(self, draw_with: F) -> (r: FloorBuilder<
        Filled,
    >)
        requires
            self.wf(),
            self.extra.wf(self.w(), self.h()),
            forall|is_first: bool, is_last: bool, point: Point|
                call_requires(draw_with, (is_first, is_last, point)),
        ensures
            r.wf(),
            r.width == self.width,
            r.height == self.height,
            r.noise_map == self.noise_map,
            r.id == self.id,
            frames_extend(self.frames, r.frames),
            exists|answers: Seq<DungeonTile>|
                {
                    &&& answers.len() == draw_calls(self.extra.to_draw@).len()
                    &&& forall|k: int|
                        0 <= k < answers.len() ==> call_ensures(
                            draw_with,
                            draw_calls(self.extra.to_draw@)[k],
                            #[trigger] answers[k],
                        )
                    &&& r.map@ == #[trigger] written(
                        self.map@,
                        self.w(),
                        draw_calls(self.extra.to_draw@),
                        answers,
                    )
                    &&& records(
                        self.frames,
                        r.frames,
                        draw_shots(self.map@, self.w(), draw_calls(self.extra.to_draw@), answers),
                        self.w(),
                        self.h(),
                    )
                },
            rim_is_wall(self.map@, self.w(), self.h()) ==> rim_is_wall(r.map@, r.w(), r.h()),
    {
        let ghost tiles = self.map@;
        let ghost w = self.w();
        let ghost h = self.h();
        let calls = all_calls_of(&self.extra.to_draw);
        proof {
            lemma_draw_calls_in_grid(self.extra.to_draw@, w, h);
        }
        let mut builder = self;
        let ghost mut answers: Seq<DungeonTile> = Seq::empty();
        proof {
            lemma_frames_stay(self.frames);
            lemma_records_nothing(self.frames, w, h);
        }
        let mut k: usize = 0;
        assert(calls@.subrange(0, 0) =~= Seq::<(bool, bool, Point)>::empty());
        while k < calls.len()
            invariant
                0 <= k <= calls.len(),
                builder.wf(),
                w == self.w(),
                h == self.h(),
                tiles == self.map@,
                builder.width == self.width,
                builder.height == self.height,
                builder.noise_map == self.noise_map,
                builder.id == self.id,
                builder.extra == self.extra,
                frames_extend(self.frames, builder.frames),
                calls@ == draw_calls(self.extra.to_draw@),
                forall|k: int|
                    0 <= k < calls@.len() ==> in_grid((#[trigger] calls@[k]).2, w, h)
                        && !out_of_bounds(calls@[k].2, w, h),
                forall|is_first: bool, is_last: bool, point: Point|
                    call_requires(draw_with, (is_first, is_last, point)),
                answers.len() == k,
                forall|j: int|
                    0 <= j < k ==> call_ensures(draw_with, calls@[j], #[trigger] answers[j]),
                builder.map@ == written(tiles, w, calls@.subrange(0, k as int), answers),
                records(
                    self.frames,
                    builder.frames,
                    draw_shots(tiles, w, calls@.subrange(0, k as int), answers),
                    w,
                    h,
                ),
            decreases calls.len() - k,
        {
            let (is_first, is_last, point) = calls[k];
            let tile = draw_with(is_first, is_last, point);
            let ghost shots = draw_shots(tiles, w, calls@.subrange(0, k as int), answers);
            proof {
                assert(in_grid(calls@[k as int].2, w, h));
                lemma_grid_index_bounds(point, w, h);
                let longer = calls@.subrange(0, k + 1);
                assert(longer.drop_last() == calls@.subrange(0, k as int));
                assert(longer.last() == calls@[k as int]);
                assert(answers.push(tile).drop_last() == answers);
                answers = answers.push(tile);
            }
            let width = builder.width;
            *builder.map.at_mut(point, width) = tile;
            if !is_first && !is_last {
                let ghost taken = builder.frames;
                builder.frame_from_current_state(1);
                proof {
                    lemma_records_push(
                        self.frames,
                        taken,
                        builder.frames,
                        shots,
                        builder.map@,
                        w,
                        h,
                        1u16,
                    );
                }
            }
            k += 1;
        }
        assert(calls@.subrange(0, k as int) == calls@);
        proof {
            if rim_is_wall(tiles, w, h) {
                lemma_written_keeps_rim(tiles, w, h, calls@, answers);
            }
        }
        builder.into_state(Filled {  })
    }
}

} // verus!
