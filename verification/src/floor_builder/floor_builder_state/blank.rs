//! The stage of a builder whose floor is still empty.

use crate::dungeon_tile::DungeonTile;
use crate::floor_builder::floor_builder_state::random_filled::RandomFilled;
use crate::floor_builder::floor_builder_state::FloorBuilderState;
use crate::floor_builder::{out_of_bounds, rim_is_wall, FloorBuilder, RANDOM_FILL_WALL_PERCENT_CHANCE, frames_extend, records, lemma_records_nothing, lemma_records_push};
use crate::point::Point;
use crate::point_index::{grid_point, lemma_grid_index_bounds, PointIndex};
use crate::random::random_between;
use vstd::prelude::*;

verus! {

/// A builder in this stage holds a map of empty tiles and a noise map of
/// zeros.
#[derive(Debug)]
pub struct Blank {}

impl FloorBuilderState for Blank {

}

/// The noise value that a raw sample stands for: half the sample up to
/// 26214, and the largest value above that.
pub open spec fn noise_value(sample: u16) -> u16 {
    if sample <= 26214 {
        sample / 2
    } else {
        u16::MAX
    }
}

/// Turns a raw sample of the noise field into the value that the noise map
/// holds: low samples are halved, and whatever lies above two fifths of the
/// range becomes as costly as can be.
pub fn get_noise_value(sample: u16) -> (r: u16)
    ensures
        r == noise_value(sample),
{
    if sample <= 26214 {
        sample / 2
    } else {
        u16::MAX
    }
}

/// The tile that a roll between 0 and 100 makes: a wall up to
/// [`RANDOM_FILL_WALL_PERCENT_CHANCE`], an empty tile above it.
pub fn wall_or_empty(roll: i32) -> (r: DungeonTile)
    ensures
        r == if roll <= RANDOM_FILL_WALL_PERCENT_CHANCE {
            DungeonTile::Wall
        } else {
            DungeonTile::Empty
        },
{
    if roll <= RANDOM_FILL_WALL_PERCENT_CHANCE as i32 {
        DungeonTile::Wall
    } else {
        DungeonTile::Empty
    }
}

/// Whether `tiles` and `noise` can be what a random fill makes of the raw
/// samples: the noise map holds the noise value of each sample, the rim of
/// the map is wall, and every tile inside it is a wall or empty.
pub open spec fn random_fills(
    noise_samples: Seq<u16>,
    w: int,
    h: int,
    tiles: Seq<DungeonTile>,
    noise: Seq<u16>,
) -> bool {
    &&& tiles.len() == w * h
    &&& noise.len() == w * h
    &&& forall|i: int| 0 <= i < noise.len() ==> #[trigger] noise[i] == noise_value(noise_samples[i])
    &&& forall|i: int| 0 <= i < tiles.len() ==> (#[trigger] tiles[i] is Wall || tiles[i] is Empty)
    &&& rim_is_wall(tiles, w, h)
}

impl FloorBuilder<Blank> {
    /// Fills the noise map from the raw samples of a noise field, one for
    /// each tile, row after row, and fills the map at random: the rim
    /// becomes wall, and every tile inside it a wall or an empty tile as a
    /// roll decides.
    pub fn random_fill(self, noise_samples: &Vec<u16>) -> (r: FloorBuilder<RandomFilled>)
        requires
            self.wf(),
            noise_samples@.len() == self.w() * self.h(),
        ensures
            r.wf(),
            r.width == self.width,
            r.height == self.height,
            r.id == self.id,
            frames_extend(self.frames, r.frames),
            random_fills(noise_samples@, self.w(), self.h(), r.map@, r.noise_map@),
            records(self.frames, r.frames, seq![(r.map@, 100u16)], self.w(), self.h()),
    {
        let w: i32 = self.width.as_unbounded();
        let h: i32 = self.height.as_unbounded();
        let mut builder = self;
        let mut row: i32 = 0;
        while row < h
            invariant
                0 <= row <= h,
                w == self.w(),
                h == self.h(),
                builder.wf(),
                builder.width == self.width,
                builder.height == self.height,
                builder.id == self.id,
                builder.frames == self.frames,
                noise_samples@.len() == w * h,
                forall|i: int|
                    0 <= i < row * w ==> #[trigger] builder.noise_map@[i] == noise_value(
                        noise_samples@[i],
                    ),
                forall|i: int|
                    0 <= i < row * w ==> (#[trigger] builder.map@[i] is Wall
                        || builder.map@[i] is Empty),
                forall|i: int|
                    0 <= i < row * w && out_of_bounds(grid_point(i, w as int), w as int, h as int)
                        ==> #[trigger] builder.map@[i] is Wall,
            decreases h - row,
        {
            let mut column: i32 = 0;
            while column < w
                invariant
                    0 <= row < h,
                    0 <= column <= w,
                    w == self.w(),
                    h == self.h(),
                    builder.wf(),
                    builder.width == self.width,
                    builder.height == self.height,
                    builder.id == self.id,
                    builder.frames == self.frames,
                    noise_samples@.len() == w * h,
                    forall|i: int|
                        0 <= i < row * w + column ==> #[trigger] builder.noise_map@[i]
                            == noise_value(noise_samples@[i]),
                    forall|i: int|
                        0 <= i < row * w + column ==> (#[trigger] builder.map@[i] is Wall
                            || builder.map@[i] is Empty),
                    forall|i: int|
                        0 <= i < row * w + column && out_of_bounds(
                            grid_point(i, w as int),
                            w as int,
                            h as int,
                        ) ==> #[trigger] builder.map@[i] is Wall,
                decreases w - column,
            {
                let point = Point::at_coordinates(row, column);
                proof {
                    lemma_grid_index_bounds(point, w as int, h as int);
                    crate::point_index::lemma_grid_point_of_index(point, w as int);
                }
                let width = builder.width;
                let sample = *noise_samples.at(point, width);
                *builder.noise_map.at_mut(point, width) = get_noise_value(sample);
                let tile = if builder.is_out_of_bounds(point) {
                    DungeonTile::Wall
                } else {
                    wall_or_empty(random_between(0, 100))
                };
                *builder.map.at_mut(point, width) = tile;
                column += 1;
            }
            assert((row + 1) * w == row * w + w) by (nonlinear_arith);
            row += 1;
        }
        assert(h * w == w * h) by (nonlinear_arith);
        let ghost filled = builder.map@;
        builder.frame_from_current_state(100);
        proof {
            lemma_records_nothing(self.frames, self.w(), self.h());
            lemma_records_push(
                self.frames,
                self.frames,
                builder.frames,
                Seq::empty(),
                filled,
                self.w(),
                self.h(),
                100u16,
            );
            assert(Seq::<(Seq<DungeonTile>, u16)>::empty().push((filled, 100u16)) =~= seq![
                (filled, 100u16),
            ]);
        }
        builder.into_state(RandomFilled {  })
    }
}

} // verus!
