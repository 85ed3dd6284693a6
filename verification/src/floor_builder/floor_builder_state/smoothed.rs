//! The stage of a builder whose caves have been smoothed.

use crate::border::Border;
use crate::dungeon_tile::DungeonTile;
use crate::floor_builder::caves::{cave_borders, lists_border, lists_borders};
use crate::connection_path::ConnectionPath;
use crate::floor_builder::floor_builder_state::drawable::{answers_of, draw_shots};
use crate::floor_builder::floor_builder_state::drawable::{draw_calls, drawn_with, lemma_written_answers, written};
use crate::floor_builder::floor_builder_state::has_borders::{
    builds, BuildConnectionIterations, HasBorders,
};
use crate::floor_builder::floor_builder_state::has_connections::{blocked_by, traces};
use crate::Connection;
use crate::floor_builder::floor_builder_state::has_secret_connections::HasSecretPassages;
use crate::floor_builder::floor_builder_state::new::raises_no_walls;
use crate::floor_builder::floor_builder_state::FloorBuilderState;
use crate::floor_builder::{rim_is_wall, smooth_passes, FloorBuilder, frames_extend, lemma_frames_extend, lemma_frames_stay, records, lemma_records_nothing, lemma_records_both, smooth_shots};
use crate::point::Point;
use crate::random::shuffle;
use vstd::prelude::*;

verus! {

/// A builder in this stage has had the cellular automaton run over its
/// map: the rough edges of its caves are gone.
#[derive(Debug)]
pub struct Smoothed {}

impl FloorBuilderState for Smoothed {

}

/// Whether `shuffled` holds the borders of the caves of the map, in some
/// order: each border carries as its id the number that its cave has when
/// the map is walked column after column.
pub open spec fn holds_borders_of(
    shuffled: Seq<Border>,
    tiles: Seq<crate::dungeon_tile::DungeonTile>,
    w: int,
    h: int,
) -> bool {
    exists|ordered: Seq<Border>| #[trigger]
        lists_borders(ordered, cave_borders(tiles, w, h), w, h) && ordered.to_multiset()
            == shuffled.to_multiset()
}

/// The borders that are kept for tracing the paths: none where there is a
/// single border, which needs no path, and all of them else.
pub open spec fn kept_borders(borders: Seq<Border>) -> Seq<Border> {
    if borders.len() == 1 {
        Seq::empty()
    } else {
        borders
    }
}

/// Whether `connections` can be what the search for connections between
/// the borders hands out: nothing for a single border, and else what the
/// search builds.
pub open spec fn connects(
    borders: Seq<Border>,
    iterations: BuildConnectionIterations,
    w: int,
    h: int,
    connections: Seq<Connection>,
) -> bool {
    if borders.len() == 1 {
        connections.len() == 0
    } else {
        builds(borders, iterations, w, h, connections)
    }
}

/// Whether `after` can be what joining the caves makes of a map: the
/// borders of the caves are found, connections between them built, a path
/// traced for each connection, and the paths drawn with `ends` at their
/// first and last points and `between` elsewhere.
pub open spec fn joins_caves(
    tiles: Seq<DungeonTile>,
    noise: Seq<u16>,
    w: int,
    h: int,
    iterations: BuildConnectionIterations,
    wide: bool,
    use_noise_map: bool,
    ends: DungeonTile,
    between: DungeonTile,
    after: Seq<DungeonTile>,
) -> bool {
    exists|borders: Seq<Border>, connections: Seq<Connection>, to_draw: Seq<ConnectionPath>|
        {
            &&& holds_borders_of(borders, tiles, w, h)
            &&& connects(borders, iterations, w, h, connections)
            &&& #[trigger] traces(
                to_draw,
                connections,
                tiles,
                noise,
                w,
                h,
                blocked_by(kept_borders(borders), w, h),
                wide,
                use_noise_map,
            )
            &&& after == drawn_with(tiles, w, to_draw, ends, between)
        }
}

/// Whether `next` can be what one round of secret ways makes of a map:
/// the caves are joined in full, along paths that are traced without the
/// noise map and drawn narrow, with a secret door at either end and a
/// secret passage between.
pub open spec fn joins_secretly(
    tiles: Seq<DungeonTile>,
    noise: Seq<u16>,
    w: int,
    h: int,
    next: Seq<DungeonTile>,
) -> bool {
    joins_caves(
        tiles,
        noise,
        w,
        h,
        BuildConnectionIterations::FullyConnect,
        false,
        false,
        DungeonTile::SecretDoor { requires_key: true, is_open: false },
        DungeonTile::SecretPassage,
        next,
    )
}

/// Whether `after` can be what the search for secret ways makes of a map.
/// A map with at most one border stays as it is. Any other goes through a
/// round of secret ways; that is the end where the round has not brought
/// the number of borders down, and else the search goes on with what the
/// round has made.
pub open spec fn adds_secret_ways(
    tiles: Seq<DungeonTile>,
    noise: Seq<u16>,
    w: int,
    h: int,
    after: Seq<DungeonTile>,
) -> bool
    decreases cave_borders(tiles, w, h).len(),
{
    let caves = cave_borders(tiles, w, h).len();
    if caves <= 1 {
        after == tiles
    } else {
        exists|next: Seq<DungeonTile>| #[trigger]
            joins_secretly(tiles, noise, w, h, next) && if cave_borders(next, w, h).len() >= caves {
                after == next
            } else {
                adds_secret_ways(next, noise, w, h, after)
            }
    }
}

/// Whether `after` and the pictures `shots` can be what joining the caves
/// makes of a map: the caves are joined as [`joins_caves`] says, and a
/// picture is taken after each tile that is drawn between the ends of a
/// path.
pub open spec fn shoots_joined_caves(
    tiles: Seq<DungeonTile>,
    noise: Seq<u16>,
    w: int,
    h: int,
    iterations: BuildConnectionIterations,
    wide: bool,
    use_noise_map: bool,
    ends: DungeonTile,
    between: DungeonTile,
    after: Seq<DungeonTile>,
    shots: Seq<(Seq<DungeonTile>, u16)>,
) -> bool {
    exists|borders: Seq<Border>, connections: Seq<Connection>, to_draw: Seq<ConnectionPath>|
        {
            &&& holds_borders_of(borders, tiles, w, h)
            &&& connects(borders, iterations, w, h, connections)
            &&& #[trigger] traces(
                to_draw,
                connections,
                tiles,
                noise,
                w,
                h,
                blocked_by(kept_borders(borders), w, h),
                wide,
                use_noise_map,
            )
            &&& after == drawn_with(tiles, w, to_draw, ends, between)
            &&& shots == draw_shots(
                tiles,
                w,
                draw_calls(to_draw),
                answers_of(draw_calls(to_draw), ends, between),
            )
        }
}

/// Whether `next` and the pictures `round` can be what one round of secret
/// ways makes of a map: the caves are joined as [`joins_secretly`] says,
/// and a picture is taken after each secret passage that is drawn.
pub open spec fn pictures_secret_round(
    tiles: Seq<DungeonTile>,
    noise: Seq<u16>,
    w: int,
    h: int,
    next: Seq<DungeonTile>,
    round: Seq<(Seq<DungeonTile>, u16)>,
) -> bool {
    shoots_joined_caves(
        tiles,
        noise,
        w,
        h,
        BuildConnectionIterations::FullyConnect,
        false,
        false,
        DungeonTile::SecretDoor { requires_key: true, is_open: false },
        DungeonTile::SecretPassage,
        next,
        round,
    )
}

/// Whether `after` and the pictures `shots` can be what the search for
/// secret ways makes of a map. A map with at most one border stays as it
/// is, and no picture is taken. Any other goes through a round of secret
/// ways, whose pictures come first; that is the end where the round has
/// not brought the number of borders down, and else the search goes on
/// with what the round has made, and its pictures follow.
pub open spec fn pictures_secret_ways(
    tiles: Seq<DungeonTile>,
    noise: Seq<u16>,
    w: int,
    h: int,
    after: Seq<DungeonTile>,
    shots: Seq<(Seq<DungeonTile>, u16)>,
) -> bool
    decreases cave_borders(tiles, w, h).len(),
{
    let caves = cave_borders(tiles, w, h).len();
    if caves <= 1 {
        after == tiles && shots.len() == 0
    } else {
        exists|next: Seq<DungeonTile>, round: Seq<(Seq<DungeonTile>, u16)>| #[trigger]
            pictures_secret_round(tiles, noise, w, h, next, round) && round.len() <= shots.len()
                && shots.subrange(0, round.len() as int) == round && if cave_borders(next, w, h).len()
                >= caves {
                after == next && shots.len() == round.len()
            } else {
                pictures_secret_ways(
                    next,
                    noise,
                    w,
                    h,
                    after,
                    shots.subrange(round.len() as int, shots.len() as int),
                )
            }
    }
}

/// A round of secret ways that does not bring the number of borders down
/// ends the search, with the pictures of the round.
pub proof fn lemma_secret_ways_end(
    tiles: Seq<DungeonTile>,
    noise: Seq<u16>,
    w: int,
    h: int,
    next: Seq<DungeonTile>,
    round: Seq<(Seq<DungeonTile>, u16)>,
)
    requires
        cave_borders(tiles, w, h).len() > 1,
        cave_borders(next, w, h).len() >= cave_borders(tiles, w, h).len(),
        pictures_secret_round(tiles, noise, w, h, next, round),
    ensures
        pictures_secret_ways(tiles, noise, w, h, next, round),
{
    assert(round.subrange(0, round.len() as int) =~= round);
}

/// A round of secret ways that brings the number of borders down is
/// followed by the rest of the search, and its pictures by the pictures of
/// the rest.
pub proof fn lemma_secret_ways_go_on(
    tiles: Seq<DungeonTile>,
    noise: Seq<u16>,
    w: int,
    h: int,
    next: Seq<DungeonTile>,
    round: Seq<(Seq<DungeonTile>, u16)>,
    after: Seq<DungeonTile>,
    rest: Seq<(Seq<DungeonTile>, u16)>,
)
    requires
        cave_borders(tiles, w, h).len() > 1,
        cave_borders(next, w, h).len() < cave_borders(tiles, w, h).len(),
        pictures_secret_round(tiles, noise, w, h, next, round),
        pictures_secret_ways(next, noise, w, h, after, rest),
    ensures
        pictures_secret_ways(tiles, noise, w, h, after, round + rest),
{
    let shots = round + rest;
    assert(shots.subrange(0, round.len() as int) =~= round);
    assert(shots.subrange(round.len() as int, shots.len() as int) =~= rest);
}

/// Whether `tile` is one of the two tiles of a secret way: a closed secret
/// door that takes a key, or a secret passage.
pub open spec fn is_secret(tile: DungeonTile) -> bool {
    tile == (DungeonTile::SecretDoor { requires_key: true, is_open: false })
        || tile is SecretPassage
}

/// The tile of a secret way for a point of a path: a closed secret door
/// that takes a key at either end, a secret passage between them.
pub fn secret_tile(is_first: bool, is_last: bool, point: Point) -> (r: DungeonTile)
    ensures
        r == if is_first || is_last {
            DungeonTile::SecretDoor { requires_key: true, is_open: false }
        } else {
            DungeonTile::SecretPassage
        },
{
    if is_first || is_last {
        DungeonTile::SecretDoor { requires_key: true, is_open: false }
    } else {
        DungeonTile::SecretPassage
    }
}

impl FloorBuilder<Smoothed> {
    /// Joins the caves that are still apart by secret ways. As long as
    /// more than one border is found, the borders are joined, the paths
    /// between them traced without the noise map and drawn as secret doors
    /// and passages, and the borders looked for again; this ends when at
    /// most one border is left, or when a round has not brought their
    /// number down.
    pub fn check_for_secret_passages(self) -> (r: FloorBuilder<HasSecretPassages>)
        requires
            self.wf(),
        ensures
            r.wf(),
            r.width == self.width,
            r.height == self.height,
            r.noise_map == self.noise_map,
            r.id == self.id,
            frames_extend(self.frames, r.frames),
            adds_secret_ways(self.map@, self.noise_map@, self.w(), self.h(), r.map@),
            exists|shots: Seq<(Seq<DungeonTile>, u16)>| #[trigger]
                pictures_secret_ways(
                    self.map@,
                    self.noise_map@,
                    self.w(),
                    self.h(),
                    r.map@,
                    shots,
                ) && records(self.frames, r.frames, shots, self.w(), self.h()),
            cave_borders(self.map@, self.w(), self.h()).len() <= 1 ==> r.map == self.map,
            forall|i: int|
                0 <= i < r.map@.len() ==> #[trigger] r.map@[i] == self.map@[i] || is_secret(
                    r.map@[i],
                ),
            rim_is_wall(self.map@, self.w(), self.h()) ==> rim_is_wall(r.map@, r.w(), r.h()),
    {
        let ghost tiles = self.map@;
        let ghost noise = self.noise_map@;
        let ghost w = self.w();
        let ghost h = self.h();
        let mut with_borders = self.get_cave_borders();
        let mut remaining: usize = with_borders.extra.borders.len();
        let ghost mut so_far: Seq<(Seq<DungeonTile>, u16)> = Seq::empty();
        proof {
            lemma_frames_stay(self.frames);
            lemma_records_nothing(self.frames, w, h);
            assert forall|last: Seq<DungeonTile>, rest: Seq<(Seq<DungeonTile>, u16)>| #[trigger]
                pictures_secret_ways(with_borders.map@, noise, w, h, last, rest) implies pictures_secret_ways(
                tiles,
                noise,
                w,
                h,
                last,
                so_far + rest,
            ) by {
                assert(so_far + rest =~= rest);
            }
        }
        loop
            invariant_except_break
                remaining == with_borders.extra.borders@.len(),
                remaining == cave_borders(with_borders.map@, w, h).len(),
                forall|last: Seq<DungeonTile>, rest: Seq<(Seq<DungeonTile>, u16)>| #[trigger]
                    pictures_secret_ways(with_borders.map@, noise, w, h, last, rest)
                        ==> pictures_secret_ways(tiles, noise, w, h, last, so_far + rest),
                forall|last: Seq<DungeonTile>| #[trigger]
                    adds_secret_ways(with_borders.map@, noise, w, h, last) ==> adds_secret_ways(
                        tiles,
                        noise,
                        w,
                        h,
                        last,
                    ),
            invariant
                with_borders.wf(),
                with_borders.extra.wf(with_borders.w(), with_borders.h()),
                with_borders.width == self.width,
                with_borders.height == self.height,
                with_borders.noise_map == self.noise_map,
                with_borders.id == self.id,
                frames_extend(self.frames, with_borders.frames),
                records(self.frames, with_borders.frames, so_far, w, h),
                tiles == self.map@,
                noise == self.noise_map@,
                w == self.w(),
                h == self.h(),
                holds_borders_of(with_borders.extra.borders@, with_borders.map@, w, h),
                cave_borders(tiles, w, h).len() <= 1 ==> with_borders.map == self.map,
                with_borders.map@.len() == tiles.len(),
                forall|i: int|
                    0 <= i < tiles.len() ==> #[trigger] with_borders.map@[i] == tiles[i]
                        || is_secret(with_borders.map@[i]),
                cave_borders(tiles, w, h).len() <= 1 ==> remaining <= 1,
                rim_is_wall(tiles, w, h) ==> rim_is_wall(with_borders.map@, w, h),
            ensures
                adds_secret_ways(tiles, noise, w, h, with_borders.map@),
                pictures_secret_ways(tiles, noise, w, h, with_borders.map@, so_far),
            decreases remaining,
        {
            if remaining <= 1 {
                proof {
                    assert(adds_secret_ways(with_borders.map@, noise, w, h, with_borders.map@));
                    let nothing = Seq::<(Seq<DungeonTile>, u16)>::empty();
                    assert(pictures_secret_ways(
                        with_borders.map@,
                        noise,
                        w,
                        h,
                        with_borders.map@,
                        nothing,
                    ));
                    assert(so_far + nothing =~= so_far);
                }
                break ;
            }
            let ghost kept_frames = with_borders.frames;
            let ghost before = with_borders.map@;
            let ghost borders = with_borders.extra.borders@;
            let with_connections = with_borders.build_connections(
                BuildConnectionIterations::FullyConnect,
            );
            let ghost connections = with_connections.extra.connections@;
            let ghost kept = with_connections.extra.borders@;
            let drawable = with_connections.trace_connection_paths(false, false);
            let ghost to_draw = drawable.extra.to_draw@;
            let ghost calls = draw_calls(to_draw);
            proof {
                crate::floor_builder::floor_builder_state::drawable::lemma_draw_calls_in_grid(
                    to_draw,
                    w,
                    h,
                );
            }
            let drawn = drawable.draw(secret_tile);
            proof {
                let answers = choose|answers: Seq<DungeonTile>|
                    {
                        &&& answers.len() == calls.len()
                        &&& forall|k: int|
                            0 <= k < answers.len() ==> call_ensures(
                                secret_tile,
                                calls[k],
                                #[trigger] answers[k],
                            )
                        &&& drawn.map@ == #[trigger] written(before, w, calls, answers)
                        &&& records(
                            kept_frames,
                            drawn.frames,
                            draw_shots(before, w, calls, answers),
                            w,
                            h,
                        )
                    };
                lemma_written_answers(before, w, h, calls, answers);
                assert forall|i: int| 0 <= i < tiles.len() implies #[trigger] drawn.map@[i]
                    == tiles[i] || is_secret(drawn.map@[i]) by {
                    if drawn.map@[i] != before[i] {
                        let k = choose|k: int| 0 <= k < answers.len() && answers[k] == drawn.map@[i];
                        assert(call_ensures(secret_tile, calls[k], answers[k]));
                    }
                }
                assert forall|k: int| 0 <= k < answers.len() implies #[trigger] answers[k]
                    == if calls[k].0 || calls[k].1 {
                    DungeonTile::SecretDoor { requires_key: true, is_open: false }
                } else {
                    DungeonTile::SecretPassage
                } by {
                    assert(call_ensures(secret_tile, calls[k], answers[k]));
                }
                crate::floor_builder::floor_builder_state::drawable::lemma_answers_of(
                    calls,
                    answers,
                    DungeonTile::SecretDoor { requires_key: true, is_open: false },
                    DungeonTile::SecretPassage,
                );
                assert(kept =~= kept_borders(borders));
                assert(connects(borders, BuildConnectionIterations::FullyConnect, w, h, connections));
                assert(traces(
                    to_draw,
                    connections,
                    before,
                    noise,
                    w,
                    h,
                    blocked_by(kept_borders(borders), w, h),
                    false,
                    false,
                ));
                assert(joins_secretly(before, noise, w, h, drawn.map@));
            }
            let ghost round = draw_shots(
                before,
                w,
                calls,
                answers_of(
                    calls,
                    DungeonTile::SecretDoor { requires_key: true, is_open: false },
                    DungeonTile::SecretPassage,
                ),
            );
            proof {
                assert(pictures_secret_round(before, noise, w, h, drawn.map@, round));
            }
            let smoothed = drawn.smoothen(0, raises_no_walls);
            proof {
                let flags = choose|flags: Seq<bool>|
                    flags.len() == 0 && smoothed.map@ == smooth_passes(
                        drawn.map@,
                        drawn.w(),
                        drawn.h(),
                        flags,
                    ) && records(
                        drawn.frames,
                        smoothed.frames,
                        smooth_shots(drawn.map@, drawn.w(), drawn.h(), flags),
                        w,
                        h,
                    );
                assert(smoothed.map@ == drawn.map@);
                assert(smooth_shots(drawn.map@, drawn.w(), drawn.h(), flags) =~= Seq::empty());
                lemma_records_both(
                    kept_frames,
                    drawn.frames,
                    smoothed.frames,
                    round,
                    Seq::empty(),
                    w,
                    h,
                );
                assert(round + Seq::<(Seq<DungeonTile>, u16)>::empty() =~= round);
                lemma_records_both(
                    self.frames,
                    kept_frames,
                    smoothed.frames,
                    so_far,
                    round,
                    w,
                    h,
                );
            }
            let next = smoothed.get_cave_borders();
            let left: usize = next.extra.borders.len();
            proof {
                lemma_frames_extend(self.frames, drawable.frames, drawn.frames);
                lemma_frames_extend(self.frames, drawn.frames, next.frames);
            }
            with_borders = next;
            if left >= remaining {
                proof {
                    assert(adds_secret_ways(before, noise, w, h, with_borders.map@));
                    lemma_secret_ways_end(before, noise, w, h, with_borders.map@, round);
                    so_far = so_far + round;
                }
                break ;
            }
            proof {
                assert forall|last: Seq<DungeonTile>| #[trigger]
                    adds_secret_ways(with_borders.map@, noise, w, h, last) implies adds_secret_ways(
                    tiles,
                    noise,
                    w,
                    h,
                    last,
                ) by {
                    assert(joins_secretly(before, noise, w, h, with_borders.map@));
                    assert(adds_secret_ways(before, noise, w, h, last));
                }
                assert forall|last: Seq<DungeonTile>, rest: Seq<(Seq<DungeonTile>, u16)>| #[trigger]
                    pictures_secret_ways(with_borders.map@, noise, w, h, last, rest) implies pictures_secret_ways(
                    tiles,
                    noise,
                    w,
                    h,
                    last,
                    (so_far + round) + rest,
                ) by {
                    lemma_secret_ways_go_on(
                        before,
                        noise,
                        w,
                        h,
                        with_borders.map@,
                        round,
                        last,
                        rest,
                    );
                    assert(pictures_secret_ways(tiles, noise, w, h, last, so_far + (round + rest)));
                    assert(so_far + (round + rest) =~= (so_far + round) + rest);
                }
                so_far = so_far + round;
            }
            remaining = left;
        }
        with_borders.into_state(HasSecretPassages)
    }

    /// Finds the borders of all the caves of the floor, and hands them on
    /// in a random order.
    pub fn get_cave_borders(self) -> (r: FloorBuilder<HasBorders>)
        requires
            self.wf(),
        ensures
            r.wf(),
            r.extra.wf(r.w(), r.h()),
            r.width == self.width,
            r.height == self.height,
            r.map == self.map,
            r.noise_map == self.noise_map,
            r.frames == self.frames,
            r.id == self.id,
            holds_borders_of(r.extra.borders@, self.map@, self.w(), self.h()),
            r.extra.borders@.len() == cave_borders(self.map@, self.w(), self.h()).len(),
    {
        let mut borders = self.find_caves();
        let ghost ordered = borders@;
        let ghost w = self.w();
        let ghost h = self.h();
        shuffle(&mut borders);
        proof {
            broadcast use vstd::seq_lib::group_to_multiset_ensures;

            assert forall|i: int| 0 <= i < borders@.len() implies {
                &&& (#[trigger] borders@[i]).wf()
                &&& borders@[i].points@.len() > 0
                &&& forall|k: int|
                    0 <= k < borders@[i].points@.len() ==> !crate::floor_builder::out_of_bounds(
                        #[trigger] borders@[i].points@[k],
                        w,
                        h,
                    )
            } by {
                let border = borders@[i];
                assert(borders@.contains(border));
                assert(borders@.to_multiset().count(border) > 0);
                assert(ordered.to_multiset().count(border) > 0);
                assert(ordered.contains(border));
                let j = choose|j: int| 0 <= j < ordered.len() && ordered[j] == border;
                assert(lists_border(ordered[j], cave_borders(self.map@, w, h)[j], w, h));
            }
            assert(borders@.len() == ordered.len()) by {
                assert(borders@.to_multiset().len() == ordered.to_multiset().len());
            }
            assert(ordered.no_duplicates()) by {
                assert forall|i: int, j: int|
                    0 <= i < ordered.len() && 0 <= j < ordered.len() && i != j implies ordered[i]
                    != ordered[j] by {
                    assert(ordered[i].id.value() == i);
                    assert(ordered[j].id.value() == j);
                }
            }
            ordered.lemma_multiset_has_no_duplicates();
            borders@.lemma_multiset_has_no_duplicates_conv();
            assert forall|i: int, j: int| 0 <= i < j < borders@.len() implies (
            #[trigger] borders@[i]).id != (#[trigger] borders@[j]).id by {
                let first = borders@[i];
                let second = borders@[j];
                assert(borders@.contains(first));
                assert(borders@.contains(second));
                assert(ordered.to_multiset().count(first) > 0);
                assert(ordered.to_multiset().count(second) > 0);
                let a = choose|a: int| 0 <= a < ordered.len() && ordered[a] == first;
                let b = choose|b: int| 0 <= b < ordered.len() && ordered[b] == second;
                assert(ordered[a].id.value() == a);
                assert(ordered[b].id.value() == b);
            }
        }
        self.into_state(HasBorders { borders })
    }
}

} // verus!
