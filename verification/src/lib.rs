//! Cave-like dungeon floors, grown by cellular automata and joined into one
//! traversable space.

use crate::border::BorderId;
use crate::bounded_int::BoundedInt;
use crate::floor_builder::floor_builder_state::new::{creates, pictures_are, shoots_creation, New};
use crate::floor_builder::{
    has_at_most_one, in_grid, rim_is_wall, Frame, MAX_FLOOR_SIZE, MIN_FLOOR_SIZE,
};
use crate::point_index::{grid_index, lemma_grid_index_bounds, scan_point};
use vstd::prelude::*;

pub use crate::dungeon_tile::DungeonTile;
pub use crate::floor_builder::FloorBuilder;
pub use crate::point::{Column, Point, Row};
pub use crate::point_index::PointIndex;

pub mod border;
pub mod bounded_int;
pub mod connection_path;
pub mod dungeon_tile;
pub mod floor_builder;
pub mod player;
pub mod point;
pub mod point_index;
mod random;

verus! {

/// Whether `frames` holds the pictures that building the floor `floor`
/// from the samples of noise takes, where pictures are wanted, and nothing
/// where they are not.
pub open spec fn floor_pictured(
    noise_samples: Seq<u16>,
    w: int,
    h: int,
    floor: Seq<DungeonTile>,
    frames: Option<Vec<Frame>>,
    wanted: bool,
) -> bool {
    exists|shots: Seq<(Seq<DungeonTile>, u16)>| #[trigger]
        shoots_creation(noise_samples, w, h, floor, shots) && pictures_are(
            frames,
            wanted,
            shots,
            w,
            h,
        )
}

/// A dungeon of several floors.
#[derive(Debug, Clone, PartialEq)]
pub struct Dungeon {
    /// The kind of the dungeon. It decides how the dungeon looks, nothing
    /// else.
    pub dungeon_type: DungeonType,
    /// The floors of the dungeon. There is at least one.
    pub floors: Vec<Floor>,
}

/// The kinds of dungeon.
#[derive(Debug, Clone, PartialEq)]
#[non_exhaustive]
pub enum DungeonType {
    /// A cave: rocky and gloomy.
    Cave,
    /// A forest: overgrown and green.
    Forest,
}

impl Dungeon {
    /// Every floor of the dungeon holds a grid of its size, and there is at
    /// least one floor.
    pub open spec fn wf(self) -> bool {
        &&& self.floors@.len() > 0
        &&& forall|i: int| 0 <= i < self.floors@.len() ==> (#[trigger] self.floors@[i]).wf()
    }

    /// Every floor of the dungeon is of the given size, has a rim of walls
    /// and has at most one way in and one way out.
    pub open spec fn floors_are(self, width: int, height: int) -> bool {
        forall|i: int|
            0 <= i < self.floors@.len() ==> (#[trigger] self.floors@[i]).width.value() == width
                && self.floors@[i].height.value() == height && self.floors@[i].enclosed()
                && self.floors@[i].ways_are_single()
    }

    /// Every floor of the dungeon can be what is built from its samples of
    /// noise.
    pub open spec fn built_from(self, noise_samples: Seq<Vec<u16>>) -> bool {
        forall|i: int|
            0 <= i < self.floors@.len() ==> creates(
                noise_samples[i]@,
                (#[trigger] self.floors@[i]).width.value(),
                self.floors@[i].height.value(),
                self.floors@[i].data@,
            )
    }

    /// Whether `frames` holds, for the floor with the number `i`, the
    /// pictures that building it from its samples of noise takes, where
    /// pictures are wanted, and nothing where they are not.
    pub open spec fn pictured(
        self,
        i: int,
        frames: Option<Vec<Frame>>,
        wanted: bool,
        noise_samples: Seq<Vec<u16>>,
    ) -> bool {
        floor_pictured(
            noise_samples[i]@,
            self.floors@[i].width.value(),
            self.floors@[i].height.value(),
            self.floors@[i].data@,
            frames,
            wanted,
        )
    }

    /// Builds a dungeon of `floor_count` floors of the given size.
    /// `noise_samples` holds, for each floor, a raw sample of its noise
    /// field for each tile, row after row.
    #[must_use]
    pub fn new(
        height: BoundedInt<MIN_FLOOR_SIZE, MAX_FLOOR_SIZE>,
        width: BoundedInt<MIN_FLOOR_SIZE, MAX_FLOOR_SIZE>,
        floor_count: u16,
        dungeon_type: DungeonType,
        gif_output: bool,
        noise_samples: &Vec<Vec<u16>>,
    ) -> (r: Dungeon)
        requires
            floor_count > 0,
            noise_samples@.len() == floor_count,
            forall|i: int|
                0 <= i < noise_samples@.len() ==> (#[trigger] noise_samples@[i])@.len()
                    == width.value() * height.value(),
        ensures
            r.wf(),
            r.dungeon_type == dungeon_type,
            r.floors@.len() == floor_count,
            r.floors_are(width.value(), height.value()),
            r.built_from(noise_samples@),
    {
        Dungeon::new_with_frames(
            height,
            width,
            floor_count,
            dungeon_type,
            gif_output,
            noise_samples,
        ).0
    }

    /// Builds a dungeon as [`Dungeon::new`] does, and hands out with it,
    /// for each floor, the pictures that were taken while the floor was
    /// built.
    #[must_use]
    pub fn new_with_frames(
        height: BoundedInt<MIN_FLOOR_SIZE, MAX_FLOOR_SIZE>,
        width: BoundedInt<MIN_FLOOR_SIZE, MAX_FLOOR_SIZE>,
        floor_count: u16,
        dungeon_type: DungeonType,
        gif_output: bool,
        noise_samples: &Vec<Vec<u16>>,
    ) -> (r: (Dungeon, Vec<Option<Vec<Frame>>>))
        requires
            floor_count > 0,
            noise_samples@.len() == floor_count,
            forall|i: int|
                0 <= i < noise_samples@.len() ==> (#[trigger] noise_samples@[i])@.len()
                    == width.value() * height.value(),
        ensures
            r.0.wf(),
            r.0.dungeon_type == dungeon_type,
            r.0.floors@.len() == floor_count,
            r.0.floors_are(width.value(), height.value()),
            r.0.built_from(noise_samples@),
            r.1@.len() == floor_count,
            forall|i: int| 0 <= i < r.1@.len() ==> ((#[trigger] r.1@[i]) is Some <==> gif_output),
            forall|i: int|
                0 <= i < r.1@.len() ==> r.0.pictured(i, #[trigger] r.1@[i], gif_output, noise_samples@),
    {
        let mut floors: Vec<Floor> = Vec::new();
        let mut frames: Vec<Option<Vec<Frame>>> = Vec::new();
        let mut id: u16 = 0;
        while id < floor_count
            invariant
                0 <= id <= floor_count,
                noise_samples@.len() == floor_count,
                forall|i: int|
                    0 <= i < noise_samples@.len() ==> (#[trigger] noise_samples@[i])@.len()
                        == width.value() * height.value(),
                floors@.len() == id,
                frames@.len() == id,
                forall|i: int|
                    0 <= i < floors@.len() ==> (#[trigger] floors@[i]).wf()
                        && floors@[i].width.value() == width.value() && floors@[i].height.value()
                        == height.value() && floors@[i].enclosed() && floors@[i].ways_are_single()
                        && creates(
                        noise_samples@[i]@,
                        width.value(),
                        height.value(),
                        floors@[i].data@,
                    ),
                forall|i: int| 0 <= i < frames@.len() ==> ((#[trigger] frames@[i]) is Some <==> gif_output),
                forall|i: int|
                    0 <= i < frames@.len() ==> floor_pictured(
                        noise_samples@[i]@,
                        width.value(),
                        height.value(),
                        floors@[i].data@,
                        #[trigger] frames@[i],
                        gif_output,
                    ),
            decreases floor_count - id,
        {
            let (floor, taken) = FloorBuilder::<New>::create(
                FloorId(id),
                width,
                height,
                gif_output,
                &noise_samples[id as usize],
            );
            floors.push(floor);
            frames.push(taken);
            id += 1;
        }
        (Dungeon { dungeon_type, floors }, frames)
    }
}

/// A floor of a dungeon.
#[derive(Debug, Clone, PartialEq)]
pub struct Floor {
    /// The width of the floor.
    pub width: BoundedInt<MIN_FLOOR_SIZE, MAX_FLOOR_SIZE>,
    /// The height of the floor.
    pub height: BoundedInt<MIN_FLOOR_SIZE, MAX_FLOOR_SIZE>,
    /// The tiles of the floor, row after row.
    pub data: Vec<DungeonTile>,
}

impl Floor {
    /// Every tile on the rim of the floor is a wall.
    pub open spec fn enclosed(self) -> bool {
        rim_is_wall(self.data@, self.width.value(), self.height.value())
    }

    /// The floor has at most one way in and at most one way out.
    pub open spec fn ways_are_single(self) -> bool {
        has_at_most_one(self.data@, DungeonTile::Entrance) && has_at_most_one(
            self.data@,
            DungeonTile::Exit,
        )
    }

    /// The floor holds one tile for each point of a grid of its width and
    /// height, and its sizes lie within the limits.
    pub open spec fn wf(self) -> bool {
        &&& MIN_FLOOR_SIZE <= self.width.value() <= MAX_FLOOR_SIZE
        &&& MIN_FLOOR_SIZE <= self.height.value() <= MAX_FLOOR_SIZE
        &&& self.data@.len() == self.width.value() * self.height.value()
    }

    /// Builds a floor of the given size. `noise_samples` holds a raw
    /// sample of the noise field for each tile, row after row.
    #[must_use]
    pub fn new(
        id: FloorId,
        width: BoundedInt<MIN_FLOOR_SIZE, MAX_FLOOR_SIZE>,
        height: BoundedInt<MIN_FLOOR_SIZE, MAX_FLOOR_SIZE>,
        gif_output: bool,
        noise_samples: &Vec<u16>,
    ) -> (r: Floor)
        requires
            noise_samples@.len() == width.value() * height.value(),
        ensures
            r.wf(),
            r.width == width,
            r.height == height,
            r.enclosed(),
            r.ways_are_single(),
            creates(noise_samples@, width.value(), height.value(), r.data@),
    {
        FloorBuilder::<New>::create(id, width, height, gif_output, noise_samples).0
    }

    /// The points of the floor, column after column, each with its tile.
    pub fn iter_points_and_tiles(&self) -> (r: Vec<(Point, DungeonTile)>)
        requires
            self.wf(),
        ensures
            r@.len() == self.data@.len(),
            forall|k: int|
                0 <= k < r@.len() ==> (#[trigger] r@[k]).0 == scan_point(k, self.height.value())
                    && r@[k].1 == self.data@[grid_index(r@[k].0, self.width.value())],
    {
        let points = crate::point_index::iter_points(self.width, self.height);
        let mut out: Vec<(Point, DungeonTile)> = Vec::new();
        let mut k: usize = 0;
        while k < points.len()
            invariant
                0 <= k <= points.len(),
                self.wf(),
                points@.len() == self.data@.len(),
                forall|j: int|
                    0 <= j < points@.len() ==> #[trigger] points@[j] == scan_point(
                        j,
                        self.height.value(),
                    ),
                out@.len() == k,
                forall|j: int|
                    0 <= j < k ==> (#[trigger] out@[j]).0 == scan_point(j, self.height.value())
                        && out@[j].1 == self.data@[grid_index(out@[j].0, self.width.value())],
            decreases points.len() - k,
        {
            let point = points[k];
            proof {
                crate::floor_builder::lemma_scan_point_in_grid(
                    k as int,
                    self.width.value(),
                    self.height.value(),
                );
            }
            out.push((point, *self.at(point)));
            k += 1;
        }
        out
    }

    /// The tile at `point`.
    #[must_use]
    pub fn at(&self, point: Point) -> (r: &DungeonTile)
        requires
            self.wf(),
            in_grid(point, self.width.value(), self.height.value()),
        ensures
            *r == self.data@[grid_index(point, self.width.value())],
    {
        proof {
            lemma_grid_index_bounds(point, self.width.value(), self.height.value());
        }
        self.data.at(point, self.width)
    }

    /// The tile at `point`, to be changed in place.
    #[must_use]
    pub fn at_mut(&mut self, point: Point) -> (r: &mut DungeonTile)
        requires
            old(self).wf(),
            in_grid(point, old(self).width.value(), old(self).height.value()),
        ensures
            *r == old(self).data@[grid_index(point, old(self).width.value())],
            final(self).width == old(self).width,
            final(self).height == old(self).height,
            final(self).data@ == old(self).data@.update(
                grid_index(point, old(self).width.value()),
                *final(r),
            ),
    {
        proof {
            lemma_grid_index_bounds(point, self.width.value(), self.height.value());
        }
        let width = self.width;
        self.data.at_mut(point, width)
    }
}

/// A link between a point of one border and a point of another.
#[derive(Debug, Clone, Copy)]
pub struct Connection {
    /// The square of the distance between the two points.
    pub distance: u32,
    /// Where the connection starts: a point, and the border it lies on.
    pub from: (Point, BorderId),
    /// Where the connection ends: a point, and the border it is counted
    /// to.
    pub to: (Point, BorderId),
}

/// The square of the distance between two points.
pub open spec fn squared_distance(from: Point, to: Point) -> int {
    (from.r() - to.r()) * (from.r() - to.r()) + (from.c() - to.c()) * (from.c() - to.c())
}

/// The square of the distance between two points. Two pairs of points
/// compare by their squares as they do by their distances.
pub fn squared_distance_between(from: Point, to: Point) -> (r: u32)
    ensures
        r == squared_distance(from, to),
        r <= 80000,
{
    let (from_row, from_column) = from.coordinates();
    let (to_row, to_column) = to.coordinates();
    let rows: i32 = from_row - to_row;
    let columns: i32 = from_column - to_column;
    assert(0 <= rows * rows <= 40000 && 0 <= columns * columns <= 40000) by (nonlinear_arith)
        requires
            -200 <= rows <= 200,
            -200 <= columns <= 200,
    ;
    (rows * rows + columns * columns) as u32
}

/// Builds a cave dungeon of ten floors of the given size. `noise_samples`
/// holds, for each floor, a raw sample of its noise field for each tile,
/// row after row.
pub fn create_dungeon(width: i32, height: i32, noise_samples: &Vec<Vec<u16>>) -> (r: Dungeon)
    requires
        MIN_FLOOR_SIZE <= width <= MAX_FLOOR_SIZE,
        MIN_FLOOR_SIZE <= height <= MAX_FLOOR_SIZE,
        noise_samples@.len() == 10,
        forall|i: int|
            0 <= i < noise_samples@.len() ==> (#[trigger] noise_samples@[i])@.len() == width
                * height,
    ensures
        r.wf(),
        r.dungeon_type == DungeonType::Cave,
        r.floors@.len() == 10,
        r.floors_are(width as int, height as int),
        r.built_from(noise_samples@),
{
    Dungeon::new(
        BoundedInt::new_unwrapped(height),
        BoundedInt::new_unwrapped(width),
        10,
        DungeonType::Cave,
        false,
        noise_samples,
    )
}

/// A number given to each floor when it is made.
#[derive(Debug, Clone, Copy, PartialEq, Eq, PartialOrd, Ord, Structural)]
pub struct FloorId(u16);

impl FloorId {
    /// The number behind the id.
    pub closed spec fn value(self) -> int {
        self.0 as int
    }

    /// The id with the given number.
    pub fn new(id: u16) -> (r: Self)
        ensures
            r.value() == id,
    {
        FloorId(id)
    }

    /// The number behind the id.
    pub fn get(self) -> (r: u16)
        ensures
            r == self.value(),
    {
        self.0
    }
}

} // verus!
