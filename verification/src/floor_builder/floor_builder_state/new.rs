//! The stage from which every floor sets out.

use crate::bounded_int::BoundedInt;
use crate::dungeon_tile::DungeonTile;
use crate::floor_builder::floor_builder_state::blank::{random_fills, Blank};
use crate::floor_builder::floor_builder_state::drawable::{
    answers_of, draw_calls, draw_shots, lemma_answers_of, lemma_draw_calls_in_grid,
    lemma_written_opens_no_way, written,
};
use crate::floor_builder::floor_builder_state::has_borders::BuildConnectionIterations;
use crate::floor_builder::floor_builder_state::has_connections::{blocked_by, traces};
use crate::floor_builder::floor_builder_state::has_secret_connections::{
    adds_chests, lemma_chests_open_no_way, places_treasure, shoots_treasure,
};
use crate::floor_builder::floor_builder_state::random_filled::{
    shoots_original_path, traces_original_path,
};
use crate::floor_builder::floor_builder_state::smoothed::{
    adds_secret_ways, connects, is_secret, joins_caves, kept_borders, pictures_secret_ways,
    shoots_joined_caves,
};
use crate::floor_builder::floor_builder_state::FloorBuilderState;
use crate::floor_builder::{
    has_at_most_one, has_one, keeps_features, lemma_keeps_features_opens_no_way,
    lemma_no_way_opened, lemma_opens_no_way_twice, lemma_records_both, opens_no_way, records,
    rim_is_wall, shows, smooth_passes, smooth_shots, FloorBuilder, Frame, MAX_FLOOR_SIZE,
    MIN_FLOOR_SIZE,
};
use crate::point::Point;
use crate::{Floor, FloorId};
use vstd::prelude::*;

verus! {

/// The stage of a builder that has not been given a map yet.
#[derive(Debug)]
pub struct New {}

impl FloorBuilderState for New {

}

/// The tile of a plain corridor: empty, wherever on the path the point
/// lies.
pub fn corridor_tile(is_first: bool, is_last: bool, point: Point) -> (r: DungeonTile)
    ensures
        r == DungeonTile::Empty,
{
    DungeonTile::Empty
}

/// Whether the pass of smoothing with the given number may raise walls in
/// open space, in the first round of smoothing: the first four passes may.
pub fn raises_walls_early(pass: usize) -> (r: bool)
    ensures
        r == (pass < 4),
{
    pass < 4
}

/// Whether a pass of smoothing may raise walls in open space, in the later
/// rounds of smoothing: none may.
pub fn raises_no_walls(pass: usize) -> (r: bool)
    ensures
        !r,
{
    false
}

/// Which of the three passes of the first round of smoothing may raise
/// walls: all of them.
pub open spec fn first_flags() -> Seq<bool> {
    seq![true, true, true]
}

/// Which of the seven passes of the second round of smoothing may raise
/// walls: none.
pub open spec fn later_flags() -> Seq<bool> {
    Seq::new(7, |i: int| false)
}

/// Whether `floor` can be the map of a floor that is built from the given
/// raw samples of noise: the map is filled at random and the first path
/// traced through it; three passes of smoothing that may raise walls
/// follow; the caves are joined by corridors, wide and along the noise, as
/// far as the first twenty-one borders go; after seven passes of smoothing
/// that raise no walls, the caves that are still apart are joined by secret
/// ways; and treasure is placed.
pub open spec fn creates(noise_samples: Seq<u16>, w: int, h: int, floor: Seq<DungeonTile>) -> bool {
    exists|
        filled: Seq<DungeonTile>,
        noise: Seq<u16>,
        traced: Seq<DungeonTile>,
        joined: Seq<DungeonTile>,
        secret: Seq<DungeonTile>,
    |
        {
            &&& #[trigger] random_fills(noise_samples, w, h, filled, noise)
            &&& #[trigger] traces_original_path(filled, noise, w, h, traced)
            &&& #[trigger] joins_caves(
                smooth_passes(traced, w, h, first_flags()),
                noise,
                w,
                h,
                BuildConnectionIterations::Finite(20),
                true,
                true,
                DungeonTile::Empty,
                DungeonTile::Empty,
                joined,
            )
            &&& #[trigger] adds_secret_ways(
                smooth_passes(joined, w, h, later_flags()),
                noise,
                w,
                h,
                secret,
            )
            &&& places_treasure(secret, w, h, floor)
        }
}

/// Whether `frames` holds a picture for each item of `shots`, in order, and
/// no other, where pictures are wanted, and is nothing where they are not.
pub open spec fn pictures_are(
    frames: Option<Vec<Frame>>,
    wanted: bool,
    shots: Seq<(Seq<DungeonTile>, u16)>,
    w: int,
    h: int,
) -> bool {
    if wanted {
        frames matches Some(taken) && taken@.len() == shots.len() && forall|k: int|
            0 <= k < shots.len() ==> shows(taken@[k], (#[trigger] shots[k]).0, w, h, shots[k].1)
    } else {
        frames is None
    }
}

/// Whether `floor` and the pictures `shots` can be what is built from the
/// given raw samples of noise, as [`creates`] says: the pictures are that
/// of the random fill, those of the first path, one for each of the first
/// three passes of smoothing, those of the corridors, one for each of the
/// seven later passes of smoothing, those of the secret ways and those of
/// the treasure, in this order.
pub open spec fn shoots_creation(
    noise_samples: Seq<u16>,
    w: int,
    h: int,
    floor: Seq<DungeonTile>,
    shots: Seq<(Seq<DungeonTile>, u16)>,
) -> bool {
    exists|
        filled: Seq<DungeonTile>,
        noise: Seq<u16>,
        traced: Seq<DungeonTile>,
        of_path: Seq<(Seq<DungeonTile>, u16)>,
        joined: Seq<DungeonTile>,
        of_corridors: Seq<(Seq<DungeonTile>, u16)>,
        secret: Seq<DungeonTile>,
        of_secret_ways: Seq<(Seq<DungeonTile>, u16)>,
        of_treasure: Seq<(Seq<DungeonTile>, u16)>,
    |
        {
            &&& #[trigger] random_fills(noise_samples, w, h, filled, noise)
            &&& #[trigger] shoots_original_path(filled, noise, w, h, traced, of_path)
            &&& #[trigger] shoots_joined_caves(
                smooth_passes(traced, w, h, first_flags()),
                noise,
                w,
                h,
                BuildConnectionIterations::Finite(20),
                true,
                true,
                DungeonTile::Empty,
                DungeonTile::Empty,
                joined,
                of_corridors,
            )
            &&& #[trigger] pictures_secret_ways(
                smooth_passes(joined, w, h, later_flags()),
                noise,
                w,
                h,
                secret,
                of_secret_ways,
            )
            &&& #[trigger] shoots_treasure(secret, w, h, floor, of_treasure)
            &&& shots == seq![(filled, 100u16)] + of_path + smooth_shots(
                traced,
                w,
                h,
                first_flags(),
            ) + of_corridors + smooth_shots(joined, w, h, later_flags()) + of_secret_ways
                + of_treasure
        }
}

/// The stages after the first path open no way in and no way out: the map
/// that they end with has at most one of each. Smoothing keeps the features
/// of a map, corridors are empty, secret ways are doors and passages, and
/// treasure is placed on empty tiles.
pub proof fn lemma_ways_stay_single(
    traced: Seq<DungeonTile>,
    smoothed: Seq<DungeonTile>,
    joined: Seq<DungeonTile>,
    settled: Seq<DungeonTile>,
    secret: Seq<DungeonTile>,
    floor: Seq<DungeonTile>,
)
    requires
        has_one(traced, DungeonTile::Entrance),
        has_one(traced, DungeonTile::Exit),
        keeps_features(traced, smoothed),
        opens_no_way(smoothed, joined),
        keeps_features(joined, settled),
        secret.len() == settled.len(),
        forall|i: int| 0 <= i < secret.len() ==> #[trigger] secret[i] == settled[i] || is_secret(secret[i]),
        adds_chests(secret, floor),
    ensures
        opens_no_way(traced, floor),
        has_at_most_one(floor, DungeonTile::Entrance),
        has_at_most_one(floor, DungeonTile::Exit),
{
    lemma_keeps_features_opens_no_way(traced, smoothed);
    lemma_opens_no_way_twice(traced, smoothed, joined);
    lemma_keeps_features_opens_no_way(joined, settled);
    lemma_opens_no_way_twice(traced, joined, settled);
    assert(opens_no_way(settled, secret));
    lemma_opens_no_way_twice(traced, settled, secret);
    lemma_chests_open_no_way(secret, floor);
    lemma_opens_no_way_twice(traced, secret, floor);
    lemma_no_way_opened(traced, floor);
}

impl FloorBuilder<New> {
    /// Builds a floor of the given size, stage by stage: a random fill and
    /// a first path through it, three passes of smoothing, connections
    /// between the caves and corridors along them, seven more passes of
    /// smoothing, secret ways between the caves that are still apart, and
    /// treasure chests. `noise_samples` holds a raw sample of the noise
    /// field for each tile, row after row. The pictures that were taken on
    /// the way come back with the floor where `gif_output` asks for them.
    pub fn create(
        id: FloorId,
        width: BoundedInt<MIN_FLOOR_SIZE, MAX_FLOOR_SIZE>,
        height: BoundedInt<MIN_FLOOR_SIZE, MAX_FLOOR_SIZE>,
        gif_output: bool,
        noise_samples: &Vec<u16>,
    ) -> (r: (Floor, Option<Vec<Frame>>))
        requires
            noise_samples@.len() == width.value() * height.value(),
        ensures
            r.0.wf(),
            r.0.width == width,
            r.0.height == height,
            r.0.data@.len() == width.value() * height.value(),
            rim_is_wall(r.0.data@, width.value(), height.value()),
            creates(noise_samples@, width.value(), height.value(), r.0.data@),
            r.1 is Some <==> gif_output,
            exists|shots: Seq<(Seq<DungeonTile>, u16)>| #[trigger]
                shoots_creation(noise_samples@, width.value(), height.value(), r.0.data@, shots)
                    && pictures_are(r.1, gif_output, shots, width.value(), height.value()),
            has_at_most_one(r.0.data@, DungeonTile::Entrance),
            has_at_most_one(r.0.data@, DungeonTile::Exit),
    {
        let ghost w = width.value();
        let ghost h = height.value();
        let blank = FloorBuilder::<Blank>::blank(id, width, height, gif_output);
        let ghost none_yet = blank.frames;
        let filled = blank.random_fill(noise_samples);
        let ghost filled_map = filled.map@;
        let ghost noise = filled.noise_map@;
        let ghost filled_frames = filled.frames;
        let traced = filled.trace_original_path();
        let ghost traced_map = traced.map@;
        let ghost of_path = choose|shots: Seq<(Seq<DungeonTile>, u16)>| #[trigger]
            shoots_original_path(filled_map, noise, w, h, traced_map, shots) && records(
                filled_frames,
                traced.frames,
                shots,
                w,
                h,
            );
        let ghost so_far = seq![(filled_map, 100u16)] + of_path;
        proof {
            lemma_records_both(
                none_yet,
                filled_frames,
                traced.frames,
                seq![(filled_map, 100u16)],
                of_path,
                w,
                h,
            );
        }
        let ghost traced_frames = traced.frames;
        let first_passes: usize = 3;
        let smoothed = traced.smoothen(first_passes, raises_walls_early);
        let ghost smoothed_map = smoothed.map@;
        proof {
            let flags = choose|flags: Seq<bool>|
                flags.len() == first_passes && (forall|pass: usize|
                    pass < first_passes ==> call_ensures(
                        raises_walls_early,
                        (pass,),
                        #[trigger] flags[pass as int],
                    )) && smoothed_map == smooth_passes(traced_map, w, h, flags) && records(
                    traced_frames,
                    smoothed.frames,
                    smooth_shots(traced_map, w, h, flags),
                    w,
                    h,
                );
            assert(flags[0usize as int] && flags[1usize as int] && flags[2usize as int]);
            assert(flags =~= first_flags());
            lemma_records_both(
                none_yet,
                traced_frames,
                smoothed.frames,
                so_far,
                smooth_shots(traced_map, w, h, first_flags()),
                w,
                h,
            );
        }
        let ghost so_far = so_far + smooth_shots(traced_map, w, h, first_flags());
        let ghost smoothed_frames = smoothed.frames;
        let with_borders = smoothed.get_cave_borders();
        let ghost borders = with_borders.extra.borders@;
        let with_connections = with_borders.build_connections(BuildConnectionIterations::Finite(20));
        let ghost connections = with_connections.extra.connections@;
        let ghost kept = with_connections.extra.borders@;
        let drawable = with_connections.trace_connection_paths(true, true);
        let ghost to_draw = drawable.extra.to_draw@;
        let ghost calls = draw_calls(to_draw);
        let joined = drawable.draw(corridor_tile);
        let ghost joined_map = joined.map@;
        let ghost of_corridors = draw_shots(
            smoothed_map,
            w,
            calls,
            answers_of(calls, DungeonTile::Empty, DungeonTile::Empty),
        );
        proof {
            let answers = choose|answers: Seq<DungeonTile>|
                {
                    &&& answers.len() == calls.len()
                    &&& forall|k: int|
                        0 <= k < answers.len() ==> call_ensures(
                            corridor_tile,
                            calls[k],
                            #[trigger] answers[k],
                        )
                    &&& joined_map == #[trigger] written(smoothed_map, w, calls, answers)
                    &&& records(
                        smoothed_frames,
                        joined.frames,
                        draw_shots(smoothed_map, w, calls, answers),
                        w,
                        h,
                    )
                };
            assert forall|k: int| 0 <= k < answers.len() implies #[trigger] answers[k]
                == if calls[k].0 || calls[k].1 {
                DungeonTile::Empty
            } else {
                DungeonTile::Empty
            } by {
                assert(call_ensures(corridor_tile, calls[k], answers[k]));
            }
            lemma_answers_of(calls, answers, DungeonTile::Empty, DungeonTile::Empty);
            assert(opens_no_way(smoothed_map, joined_map)) by {
                lemma_draw_calls_in_grid(to_draw, w, h);
                lemma_written_opens_no_way(smoothed_map, w, h, calls, answers);
            }
            assert(kept =~= kept_borders(borders));
            assert(connects(borders, BuildConnectionIterations::Finite(20), w, h, connections));
            assert(traces(
                to_draw,
                connections,
                smoothed_map,
                noise,
                w,
                h,
                blocked_by(kept_borders(borders), w, h),
                true,
                true,
            ));
            assert(joins_caves(
                smoothed_map,
                noise,
                w,
                h,
                BuildConnectionIterations::Finite(20),
                true,
                true,
                DungeonTile::Empty,
                DungeonTile::Empty,
                joined_map,
            ));
            assert(shoots_joined_caves(
                smoothed_map,
                noise,
                w,
                h,
                BuildConnectionIterations::Finite(20),
                true,
                true,
                DungeonTile::Empty,
                DungeonTile::Empty,
                joined_map,
                of_corridors,
            ));
            lemma_records_both(none_yet, smoothed_frames, joined.frames, so_far, of_corridors, w, h);
        }
        let ghost so_far = so_far + of_corridors;
        let ghost joined_frames = joined.frames;
        let second_passes: usize = 7;
        let settled = joined.smoothen(second_passes, raises_no_walls);
        let ghost settled_map = settled.map@;
        proof {
            let flags = choose|flags: Seq<bool>|
                flags.len() == second_passes && (forall|pass: usize|
                    pass < second_passes ==> call_ensures(
                        raises_no_walls,
                        (pass,),
                        #[trigger] flags[pass as int],
                    )) && settled_map == smooth_passes(joined_map, w, h, flags) && records(
                    joined_frames,
                    settled.frames,
                    smooth_shots(joined_map, w, h, flags),
                    w,
                    h,
                );
            assert forall|i: int| 0 <= i < flags.len() implies !#[trigger] flags[i] by {
                assert(call_ensures(raises_no_walls, ((i as usize),), flags[(i as usize) as int]));
            }
            assert(flags =~= later_flags());
            lemma_records_both(
                none_yet,
                joined_frames,
                settled.frames,
                so_far,
                smooth_shots(joined_map, w, h, later_flags()),
                w,
                h,
            );
        }
        let ghost so_far = so_far + smooth_shots(joined_map, w, h, later_flags());
        let ghost settled_frames = settled.frames;
        let with_secret_ways = settled.check_for_secret_passages();
        let ghost secret_map = with_secret_ways.map@;
        let ghost secret_frames = with_secret_ways.frames;
        let ghost of_secret_ways = choose|shots: Seq<(Seq<DungeonTile>, u16)>| #[trigger]
            pictures_secret_ways(settled_map, noise, w, h, secret_map, shots) && records(
                settled_frames,
                secret_frames,
                shots,
                w,
                h,
            );
        proof {
            lemma_records_both(none_yet, settled_frames, secret_frames, so_far, of_secret_ways, w, h);
        }
        let ghost so_far = so_far + of_secret_ways;
        let finished = with_secret_ways.place_treasure_chests();
        let ghost of_treasure = choose|shots: Seq<(Seq<DungeonTile>, u16)>| #[trigger]
            shoots_treasure(secret_map, w, h, finished.map@, shots) && records(
                secret_frames,
                finished.frames,
                shots,
                w,
                h,
            );
        proof {
            lemma_records_both(none_yet, secret_frames, finished.frames, so_far, of_treasure, w, h);
        }
        let ghost so_far = so_far + of_treasure;
        proof {
            lemma_ways_stay_single(
                traced_map,
                smoothed_map,
                joined_map,
                settled_map,
                secret_map,
                finished.map@,
            );
            assert(adds_secret_ways(settled_map, noise, w, h, secret_map));
            assert(places_treasure(secret_map, w, h, finished.map@));
            assert(creates(noise_samples@, w, h, finished.map@));
            assert(shoots_creation(noise_samples@, w, h, finished.map@, so_far));
            assert(pictures_are(finished.frames, gif_output, so_far, w, h));
        }
        finished.finish_with_frames()
    }
}

} // verus!
