use dungeon::border::BorderId;
use dungeon::bounded_int::BoundedInt;
use dungeon::connection_path::ConnectionPathLength;
use dungeon::floor_builder::floor_builder_state::blank::{get_noise_value, wall_or_empty, Blank};
use dungeon::floor_builder::floor_builder_state::filled::Filled;
use dungeon::floor_builder::floor_builder_state::has_borders::BuildConnectionIterations;
use dungeon::floor_builder::floor_builder_state::new::New;
use dungeon::floor_builder::floor_builder_state::smoothed::Smoothed;
use dungeon::floor_builder::to_block_character::_print_vec_2d;
use dungeon::floor_builder::{FloorBuilder, MAX_FLOOR_SIZE, MIN_FLOOR_SIZE};
use dungeon::point_index::PointIndex;
use dungeon::{Column, Connection, DungeonTile, Floor, FloorId, Point, Row};

type Size = BoundedInt<MIN_FLOOR_SIZE, MAX_FLOOR_SIZE>;

fn size(n: i32) -> Size {
    n.try_into().unwrap()
}

fn point(row: i32, column: i32) -> Point {
    Point {
        row: Row::new(row.try_into().unwrap()),
        column: Column::new(column.try_into().unwrap()),
    }
}

/// Raw samples that rise and fall over the map, the same on every run.
fn samples(width: i32, height: i32) -> Vec<u16> {
    (0..width * height)
        .map(|i| ((i as u32).wrapping_mul(2_654_435_761) >> 17) as u16)
        .collect()
}

fn count(map: &[DungeonTile], tile: DungeonTile) -> usize {
    map.iter().filter(|&&t| t == tile).count()
}

/// A map of walls with the given empty tiles, ready to be searched for
/// caves.
fn smoothed_with_empty(width: i32, height: i32, empty: &[(i32, i32)]) -> FloorBuilder<Smoothed> {
    let mut builder = FloorBuilder::<Blank>::blank(FloorId::new(0), size(width), size(height), false);
    for tile in builder.map.iter_mut() {
        *tile = DungeonTile::Wall;
    }
    for &(row, column) in empty {
        *builder.map.at_mut(point(row, column), size(width)) = DungeonTile::Empty;
    }
    let filled = FloorBuilder {
        width: builder.width,
        height: builder.height,
        map: builder.map,
        noise_map: builder.noise_map,
        extra: Filled {},
        frames: None,
        id: builder.id,
    };
    filled.smoothen(0, |_| false)
}

#[test]
fn floor_builder_test_blank_floor_generation() {
    let blank_floor = FloorBuilder::<Blank>::blank(FloorId::new(0), size(10), size(10), false);

    assert!(blank_floor.height.as_unbounded() == 10);
    assert!(blank_floor.width.as_unbounded() == 10);
}

#[test]
fn floor_builder_test_random_fill_generation() {
    let random_filled_floor =
        FloorBuilder::<Blank>::blank(FloorId::new(0), size(50), size(100), false);
    let formatted = random_filled_floor._pretty();

    println!("{}", &formatted)
}

#[test]
fn floor_builder_test_is_out_of_bounds() {
    let width = size(10);
    let height = size(15);

    let blank_floor = FloorBuilder::<Blank>::blank(FloorId::new(0), width, height, false);

    let mut new_vec = vec![false; (width.as_unbounded() * height.as_unbounded()) as usize];

    let zero: BoundedInt<0, MAX_FLOOR_SIZE> = 0.try_into().unwrap();
    for column in width.expand_lower::<0>().range_from(&zero).collect() {
        for row in height.expand_lower::<0>().range_from(&zero).collect() {
            let point = Point {
                column: Column::new(column),
                row: Row::new(row),
            };
            *new_vec.at_mut(point, width) = blank_floor.is_out_of_bounds(point);
        }
    }

    println!("{}", _print_vec_2d(&new_vec, width));
}

#[test]
fn floor_builder_test_get_legal_neighbors() {
    let width = size(10);
    let height = size(15);

    let blank_floor = FloorBuilder::<Blank>::blank(FloorId::new(0), width, height, false);

    let mut new_vec = vec![false; (width.as_unbounded() * height.as_unbounded()) as usize];

    let zero: BoundedInt<0, MAX_FLOOR_SIZE> = 0.try_into().unwrap();
    for column in width.expand_lower::<0>().range_from(&zero).collect() {
        for row in height.expand_lower::<0>().range_from(&zero).collect() {
            let point = Point {
                column: Column::new(column),
                row: Row::new(row),
            };
            *new_vec.at_mut(point, width) = blank_floor.is_out_of_bounds(point);
        }
    }

    println!("{}", _print_vec_2d(&new_vec, width));
}

#[test]
fn mod_test_blank_floor_generation() {
    let blank_floor = FloorBuilder::<Blank>::blank(FloorId::new(0), size(10), size(10), false);

    assert!(blank_floor.height.as_unbounded() == 10);
    assert!(blank_floor.width.as_unbounded() == 10);
}

#[test]
fn mod_test_random_fill_generation() {
    let random_filled_floor =
        FloorBuilder::<Blank>::blank(FloorId::new(0), size(50), size(100), false);
    let formatted = random_filled_floor._pretty();

    println!("{}", &formatted)
}

#[test]
fn mod_test_is_out_of_bounds() {
    let width = size(10);
    let height = size(15);

    let blank_floor = FloorBuilder::<Blank>::blank(FloorId::new(0), width, height, false);

    let mut new_vec = vec![false; (width.as_unbounded() * height.as_unbounded()) as usize];

    let zero: BoundedInt<0, MAX_FLOOR_SIZE> = 0.try_into().unwrap();
    for column in width.expand_lower::<0>().range_from(&zero).collect() {
        for row in height.expand_lower::<0>().range_from(&zero).collect() {
            let point = Point {
                column: Column::new(column),
                row: Row::new(row),
            };
            *new_vec.at_mut(point, width) = blank_floor.is_out_of_bounds(point);
        }
    }

    println!("{}", _print_vec_2d(&new_vec, width));
}

#[test]
fn mod_test_get_legal_neighbors() {
    let width = size(10);
    let height = size(15);

    let blank_floor = FloorBuilder::<Blank>::blank(FloorId::new(0), width, height, false);

    let mut new_vec = vec![false; (width.as_unbounded() * height.as_unbounded()) as usize];

    let zero: BoundedInt<0, MAX_FLOOR_SIZE> = 0.try_into().unwrap();
    for column in width.expand_lower::<0>().range_from(&zero).collect() {
        for row in height.expand_lower::<0>().range_from(&zero).collect() {
            let point = Point {
                column: Column::new(column),
                row: Row::new(row),
            };
            *new_vec.at_mut(point, width) = blank_floor.is_out_of_bounds(point);
        }
    }

    println!("{}", _print_vec_2d(&new_vec, width));
}

#[test]
fn dungeon_test_blank_floor_generation() {
    let blank_floor = FloorBuilder::<Blank>::blank(FloorId::new(0), size(10), size(10), false);

    assert!(blank_floor.height.as_unbounded() == 10);
    assert!(blank_floor.width.as_unbounded() == 10);
}

#[test]
fn dungeon_test_random_fill_generation() {
    let random_filled_floor = FloorBuilder::<Blank>::blank(FloorId::new(0), size(100), size(50), false)
        .random_fill(&samples(100, 50))
        .trace_original_path()
        .smoothen(7, |r| r < 4);
    let formatted = random_filled_floor._pretty();
    assert_eq!(formatted.lines().count(), 50);
}

#[test]
fn test_border_finding() {
    let floor_builder = FloorBuilder::<Blank>::blank(FloorId::new(0), size(100), size(100), false)
        .random_fill(&samples(100, 100))
        .trace_original_path()
        .smoothen(7, |r| r < 4);
    let formatted = floor_builder._pretty();
    let with_borders = floor_builder.get_cave_borders();
    let caves = with_borders.borders();
    let all_border_points = caves
        .iter()
        .flat_map(|border| border.points.iter().copied())
        .collect::<Vec<_>>();

    println!("{}", formatted);
    let caves_pretty = caves
        .iter()
        .map(|v| {
            v.points
                .iter()
                .map(|point| {
                    format!(
                        "({}, {})",
                        point.column.get().as_unbounded(),
                        point.row.get().as_unbounded()
                    )
                })
                .collect::<Vec<_>>()
        })
        .collect::<Vec<_>>();
    assert_eq!(caves_pretty.len(), caves.len());
    for border_point in all_border_points {
        assert!(!with_borders.is_out_of_bounds(border_point));
        assert!(!with_borders.map.at(border_point, with_borders.width).is_empty());
    }
}

#[test]
fn test_cave_connections() {
    let floor_builder = FloorBuilder::<Blank>::blank(FloorId::new(0), size(100), size(50), false)
        .random_fill(&samples(100, 50))
        .trace_original_path()
        .smoothen(7, |r| r < 4);
    let with_connections = floor_builder
        .get_cave_borders()
        .build_connections(BuildConnectionIterations::FullyConnect);
    let connections = with_connections.connections().clone();
    let floor_builder = with_connections
        .trace_connection_paths(true, true)
        .draw(|_, _, _| DungeonTile::Empty)
        .smoothen(7, |_| false);
    println!("{}", floor_builder._pretty());
    for connection in connections {
        assert_ne!(connection.from.1, connection.to.1);
        assert!(!floor_builder.is_out_of_bounds(connection.from.0));
        assert!(!floor_builder.is_out_of_bounds(connection.to.0));
    }
}

#[test]
fn blank_floor_is_empty_and_silent() {
    let blank = FloorBuilder::<Blank>::blank(FloorId::new(3), size(12), size(10), true);
    assert_eq!(blank.map.len(), 120);
    assert_eq!(blank.noise_map.len(), 120);
    assert!(blank.map.iter().all(|&tile| tile == DungeonTile::Empty));
    assert!(blank.noise_map.iter().all(|&noise| noise == 0));
    assert_eq!(blank.frames, Some(vec![]));
    assert_eq!(blank.id, FloorId::new(3));
    let quiet = FloorBuilder::<Blank>::blank(FloorId::new(3), size(12), size(10), false);
    assert_eq!(quiet.frames, None);
}

#[test]
fn rim_is_out_of_bounds() {
    let blank = FloorBuilder::<Blank>::blank(FloorId::new(0), size(10), size(15), false);
    assert!(blank.is_out_of_bounds(point(0, 5)));
    assert!(blank.is_out_of_bounds(point(5, 0)));
    assert!(blank.is_out_of_bounds(point(14, 5)));
    assert!(blank.is_out_of_bounds(point(5, 9)));
    assert!(blank.is_out_of_bounds(point(200, 200)));
    assert!(!blank.is_out_of_bounds(point(1, 1)));
    assert!(!blank.is_out_of_bounds(point(13, 8)));
}

#[test]
fn legal_neighbors_stay_inside_the_rim() {
    let blank = FloorBuilder::<Blank>::blank(FloorId::new(0), size(10), size(15), false);
    assert_eq!(
        blank.get_legal_neighbors(point(5, 5)),
        vec![point(6, 5), point(5, 6), point(4, 5), point(5, 4)]
    );
    assert_eq!(
        blank.get_legal_neighbors(point(1, 1)),
        vec![point(2, 1), point(1, 2)]
    );
    assert_eq!(blank.get_legal_neighbors(point(0, 0)), vec![]);
    assert_eq!(blank.get_legal_neighbors(point(0, 3)), vec![point(1, 3)]);
    assert_eq!(
        blank.get_legal_neighbors(point(13, 8)),
        vec![point(12, 8), point(13, 7)]
    );
    assert_eq!(
        blank.get_legal_neighbors_down_and_right(point(5, 5)),
        vec![point(6, 5), point(5, 6)]
    );
    assert_eq!(
        blank.get_legal_neighbors_down_and_right(point(13, 8)),
        vec![]
    );
    assert_eq!(
        blank.get_legal_neighbors_with_diagonals(point(5, 5)),
        vec![
            point(4, 4),
            point(4, 5),
            point(4, 6),
            point(5, 4),
            point(5, 6),
            point(6, 4),
            point(6, 5),
            point(6, 6)
        ]
    );
    assert_eq!(
        blank.get_legal_neighbors_with_diagonals(point(1, 1)),
        vec![point(1, 2), point(2, 1), point(2, 2)]
    );
}

#[test]
fn adjacent_walls_count_the_rim() {
    let blank = FloorBuilder::<Blank>::blank(FloorId::new(0), size(10), size(10), false);
    // Every tile is empty, so only the rim counts.
    assert_eq!(blank.get_adjacent_walls(point(5, 5), 1, 1), 0);
    assert_eq!(blank.get_adjacent_walls(point(1, 1), 1, 1), 5);
    assert_eq!(blank.get_adjacent_walls(point(1, 5), 1, 1), 3);
    assert_eq!(blank.get_adjacent_walls(point(0, 0), 1, 1), 2);
    assert_eq!(blank.get_adjacent_walls(point(2, 2), 2, 2), 9);
    assert_eq!(blank.get_adjacent_walls(point(5, 5), 0, 0), 0);
    assert_eq!(blank.get_adjacent_walls(point(1, 1), -1, -1), 0);
    assert!(blank.is_wall(point(0, 4)));
    assert!(!blank.is_wall(point(4, 4)));
}

#[test]
fn wall_logic_follows_the_counts() {
    // A lone wall in open space falls; where new walls are wanted it stays.
    let lone = smoothed_with_empty(
        10,
        10,
        &[
            (3, 3), (3, 4), (3, 5), (3, 6), (3, 7),
            (4, 3), (4, 4), (4, 5), (4, 6), (4, 7),
            (5, 3), (5, 4), (5, 6), (5, 7),
            (6, 3), (6, 4), (6, 5), (6, 6), (6, 7),
            (7, 3), (7, 4), (7, 5), (7, 6), (7, 7),
        ],
    );
    assert_eq!(lone.place_wall_logic(point(5, 5), false), DungeonTile::Empty);
    assert_eq!(lone.place_wall_logic(point(5, 5), true), DungeonTile::Wall);
    // An empty tile with five walls around it closes up.
    assert_eq!(lone.get_adjacent_walls(point(3, 3), 1, 1), 5);
    assert_eq!(lone.place_wall_logic(point(3, 3), false), DungeonTile::Wall);
    // An empty tile with fewer stays open.
    assert_eq!(lone.get_adjacent_walls(point(3, 5), 1, 1), 3);
    assert_eq!(lone.place_wall_logic(point(3, 5), false), DungeonTile::Empty);
    // A wall with four walls or more around it stays.
    assert_eq!(lone.place_wall_logic(point(2, 5), false), DungeonTile::Wall);
    // The rim is wall whatever lies around it.
    assert_eq!(lone.place_wall_logic(point(0, 5), false), DungeonTile::Wall);
}

#[test]
fn wall_logic_leaves_features_alone() {
    let mut builder = smoothed_with_empty(10, 10, &[(4, 4), (4, 5)]);
    *builder.map.at_mut(point(5, 5), size(10)) = DungeonTile::Entrance;
    *builder.map.at_mut(point(0, 5), size(10)) = DungeonTile::Exit;
    *builder.map.at_mut(point(6, 6), size(10)) = DungeonTile::TreasureChest { contents: () };
    assert_eq!(builder.place_wall_logic(point(5, 5), true), DungeonTile::Entrance);
    assert_eq!(builder.place_wall_logic(point(0, 5), true), DungeonTile::Exit);
    assert_eq!(
        builder.place_wall_logic(point(6, 6), false),
        DungeonTile::TreasureChest { contents: () }
    );
}

#[test]
fn smoothing_reaches_a_fixed_point() {
    let mut builder = FloorBuilder::<Blank>::blank(FloorId::new(0), size(40), size(30), false)
        .random_fill(&samples(40, 30))
        .trace_original_path()
        .smoothen(3, |r| r < 4);
    let mut passes = 0;
    loop {
        let before = builder.map.clone();
        let filled = FloorBuilder {
            width: builder.width,
            height: builder.height,
            map: builder.map,
            noise_map: builder.noise_map,
            extra: Filled {},
            frames: None,
            id: builder.id,
        };
        builder = filled.smoothen(1, |_| false);
        passes += 1;
        if builder.map == before {
            break;
        }
        assert!(passes < 100);
    }
    // Once a pass has changed nothing, no further pass changes anything.
    let settled = builder.map.clone();
    let filled = FloorBuilder {
        width: builder.width,
        height: builder.height,
        map: builder.map,
        noise_map: builder.noise_map,
        extra: Filled {},
        frames: None,
        id: builder.id,
    };
    let again = filled.smoothen(2, |_| false);
    assert_eq!(again.map, settled);
}

#[test]
fn noise_values_are_halved_or_capped() {
    assert_eq!(get_noise_value(0), 0);
    assert_eq!(get_noise_value(1), 0);
    assert_eq!(get_noise_value(1000), 500);
    assert_eq!(get_noise_value(26214), 13107);
    assert_eq!(get_noise_value(26215), u16::MAX);
    assert_eq!(get_noise_value(u16::MAX), u16::MAX);
}

#[test]
fn rolls_up_to_fifty_two_make_walls() {
    assert_eq!(wall_or_empty(0), DungeonTile::Wall);
    assert_eq!(wall_or_empty(52), DungeonTile::Wall);
    assert_eq!(wall_or_empty(53), DungeonTile::Empty);
    assert_eq!(wall_or_empty(100), DungeonTile::Empty);
}

#[test]
fn random_fill_walls_the_rim_and_scales_the_noise() {
    let raw = samples(20, 10);
    let filled = FloorBuilder::<Blank>::blank(FloorId::new(0), size(20), size(10), false)
        .random_fill(&raw);
    for row in 0..10 {
        for column in 0..20 {
            let here = point(row, column);
            let tile = *filled.map.at(here, size(20));
            assert!(tile == DungeonTile::Wall || tile == DungeonTile::Empty);
            if filled.is_out_of_bounds(here) {
                assert_eq!(tile, DungeonTile::Wall);
            }
            assert_eq!(
                *filled.noise_map.at(here, size(20)),
                get_noise_value(*raw.at(here, size(20)))
            );
        }
    }
}

#[test]
fn original_path_has_one_way_in_and_one_way_out() {
    for _ in 0..20 {
        let traced = FloorBuilder::<Blank>::blank(FloorId::new(0), size(10), size(10), false)
            .random_fill(&samples(10, 10))
            .trace_original_path();
        assert_eq!(count(&traced.map, DungeonTile::Entrance), 1);
        assert_eq!(count(&traced.map, DungeonTile::Exit), 1);
    }
}

#[test]
fn endpoints_are_far_enough_apart() {
    for (width, height) in [(10, 10), (200, 10), (10, 200), (37, 120)] {
        let builder = FloorBuilder::<Blank>::blank(FloorId::new(0), size(width), size(height), false);
        for _ in 0..10 {
            let (start, end) = builder.pick_endpoints();
            assert!(!builder.is_out_of_bounds(start));
            assert!(!builder.is_out_of_bounds(end));
            assert!(builder.is_far_enough_apart(start, end));
            let larger = width.max(height);
            let rows = start.row.get().as_unbounded() - end.row.get().as_unbounded();
            let columns = start.column.get().as_unbounded() - end.column.get().as_unbounded();
            let squared = rows * rows + columns * columns;
            assert!(4 * squared > larger * larger);
            assert!(squared < larger * larger);
        }
    }
}

#[test]
fn far_enough_apart_is_between_half_and_whole() {
    let builder = FloorBuilder::<Blank>::blank(FloorId::new(0), size(10), size(20), false);
    // The larger size is 20: more than 10 apart, less than 20.
    assert!(!builder.is_far_enough_apart(point(1, 1), point(11, 1)));
    assert!(builder.is_far_enough_apart(point(1, 1), point(12, 1)));
    assert!(builder.is_far_enough_apart(point(1, 1), point(18, 8)));
    assert!(!builder.is_far_enough_apart(point(1, 1), point(1, 1)));
    assert!(!builder.is_far_enough_apart(point(0, 0), point(20, 0)));
    assert!(builder.is_far_enough_apart(point(0, 0), point(19, 0)));
}

#[test]
fn carving_clears_the_path_and_what_lies_below_and_right() {
    let mut builder = FloorBuilder::<Blank>::blank(FloorId::new(0), size(10), size(10), false);
    for tile in builder.map.iter_mut() {
        *tile = DungeonTile::Wall;
    }
    let path = vec![point(2, 2), point(2, 3), point(2, 4), point(3, 4)];
    builder.carve_original_path(point(2, 2), point(3, 4), &path);
    let mut expected = vec![DungeonTile::Wall; 100];
    expected[2 * 10 + 2] = DungeonTile::Entrance;
    expected[3 * 10 + 4] = DungeonTile::Exit;
    // (2, 3) with (3, 3) below and (2, 4) to the right; (2, 4) with (3, 4),
    // which is the way out and stays, and (2, 5).
    expected[2 * 10 + 3] = DungeonTile::Empty;
    expected[3 * 10 + 3] = DungeonTile::Empty;
    expected[2 * 10 + 4] = DungeonTile::Empty;
    expected[2 * 10 + 5] = DungeonTile::Empty;
    assert_eq!(builder.map, expected);
}

#[test]
fn original_path_search_finds_a_path_between_any_two_inner_points() {
    let builder = FloorBuilder::<Blank>::blank(FloorId::new(0), size(12), size(10), false)
        .random_fill(&samples(12, 10));
    let path = builder.find_original_path(point(1, 1), point(8, 10));
    assert_eq!(path[0], point(1, 1));
    assert_eq!(*path.last().unwrap(), point(8, 10));
    for pair in path.windows(2) {
        assert!(builder.get_legal_neighbors(pair[0]).contains(&pair[1]));
    }
    let stay = builder.find_original_path(point(4, 4), point(4, 4));
    assert_eq!(stay, vec![point(4, 4)]);
}

#[test]
fn path_search_prefers_the_valley() {
    let mut builder = FloorBuilder::<Blank>::blank(FloorId::new(0), size(10), size(10), false);
    for noise in builder.noise_map.iter_mut() {
        *noise = 1000;
    }
    // A cheap detour through row 3 between (1, 1) and (1, 8).
    for column in 1..9 {
        *builder.noise_map.at_mut(point(3, column), size(10)) = 1;
    }
    *builder.noise_map.at_mut(point(2, 1), size(10)) = 1;
    *builder.noise_map.at_mut(point(2, 8), size(10)) = 1;
    *builder.noise_map.at_mut(point(1, 8), size(10)) = 1;
    let path = builder.find_original_path(point(1, 1), point(1, 8));
    assert_eq!(
        path,
        vec![
            point(1, 1),
            point(2, 1),
            point(3, 1),
            point(3, 2),
            point(3, 3),
            point(3, 4),
            point(3, 5),
            point(3, 6),
            point(3, 7),
            point(3, 8),
            point(2, 8),
            point(1, 8)
        ]
    );
}

#[test]
fn two_pockets_have_two_borders_and_one_connection() {
    let pockets = [
        (2, 2), (2, 3), (3, 2), (3, 3),
        (6, 6), (6, 7), (7, 6), (7, 7),
    ];
    let with_borders = smoothed_with_empty(10, 10, &pockets).get_cave_borders();
    assert_eq!(with_borders.borders().len(), 2);
    let mut ids: Vec<usize> = with_borders.borders().iter().map(|b| b.id.index()).collect();
    ids.sort();
    assert_eq!(ids, vec![0, 1]);
    for border in with_borders.borders() {
        assert_eq!(border.points.len(), 8);
    }
    let first = with_borders
        .borders()
        .iter()
        .find(|border| border.id.index() == 0)
        .unwrap();
    let mut first_points = first.points.clone();
    first_points.sort();
    let mut expected = vec![
        point(1, 2), point(1, 3), point(4, 2), point(4, 3),
        point(2, 1), point(3, 1), point(2, 4), point(3, 4),
    ];
    expected.sort();
    assert_eq!(first_points, expected);

    let with_connections = with_borders.build_connections(BuildConnectionIterations::FullyConnect);
    assert_eq!(with_connections.connections().len(), 1);
    let connection = with_connections.connections()[0];
    assert_ne!(connection.from.1, connection.to.1);
    // The two borders are closest between (3, 4) or (4, 3) and (5, 6) or
    // (6, 5): two rows and two columns apart.
    assert_eq!(connection.distance, 8);

    let drawn = with_connections
        .trace_connection_paths(false, false)
        .draw(|_, _, _| DungeonTile::Empty);
    let after = drawn.smoothen(0, |_| false).get_cave_borders();
    assert_eq!(after.borders().len(), 1);
}

#[test]
fn border_extraction_depends_on_the_map_alone() {
    let pockets = [(2, 2), (2, 3), (5, 5), (7, 2), (7, 3), (7, 4)];
    let mut seen: Option<Vec<(usize, Vec<Point>)>> = None;
    for _ in 0..10 {
        let with_borders = smoothed_with_empty(12, 10, &pockets).get_cave_borders();
        let mut found: Vec<(usize, Vec<Point>)> = with_borders
            .borders()
            .iter()
            .map(|border| {
                let mut points = border.points.clone();
                points.sort();
                (border.id.index(), points)
            })
            .collect();
        found.sort();
        assert_eq!(found.len(), 3);
        match &seen {
            Some(before) => assert_eq!(&found, before),
            None => seen = Some(found),
        }
    }
}

#[test]
fn a_map_without_walls_inside_has_no_border() {
    let blank = FloorBuilder::<Blank>::blank(FloorId::new(0), size(10), size(10), false);
    let filled = FloorBuilder {
        width: blank.width,
        height: blank.height,
        map: blank.map,
        noise_map: blank.noise_map,
        extra: Filled {},
        frames: None,
        id: blank.id,
    };
    let with_borders = filled.smoothen(0, |_| false).get_cave_borders();
    assert_eq!(with_borders.borders().len(), 0);
    let with_connections = with_borders.build_connections(BuildConnectionIterations::FullyConnect);
    assert_eq!(with_connections.connections().len(), 0);
}

#[test]
fn a_single_cave_needs_no_connection() {
    let with_borders = smoothed_with_empty(10, 10, &[(4, 4), (4, 5)]).get_cave_borders();
    assert_eq!(with_borders.borders().len(), 1);
    let with_connections = with_borders.build_connections(BuildConnectionIterations::Until(3));
    assert_eq!(with_connections.connections().len(), 0);
    let drawable = with_connections.trace_connection_paths(true, true);
    assert_eq!(drawable.to_draw().len(), 0);
}

#[test]
fn finite_search_stops_after_the_numbered_border() {
    let pockets = [(2, 2), (2, 7), (7, 2), (7, 7), (4, 4)];
    let with_borders = smoothed_with_empty(10, 10, &pockets).get_cave_borders();
    assert_eq!(with_borders.borders().len(), 5);
    let with_connections = with_borders.build_connections(BuildConnectionIterations::Finite(0));
    assert_eq!(with_connections.connections().len(), 1);
}

#[test]
fn fully_connected_caves_become_one_cave() {
    let pockets = [(2, 2), (2, 7), (7, 2), (7, 7), (4, 4)];
    let drawn = smoothed_with_empty(10, 10, &pockets)
        .get_cave_borders()
        .build_connections(BuildConnectionIterations::FullyConnect)
        .trace_connection_paths(false, true)
        .draw(|_, _, _| DungeonTile::Empty);
    let after = drawn.smoothen(0, |_| false).get_cave_borders();
    assert_eq!(after.borders().len(), 1);
}

#[test]
fn secret_ways_are_doors_and_passages() {
    let pockets = [
        (2, 2), (2, 3), (3, 2), (3, 3),
        (6, 6), (6, 7), (7, 6), (7, 7),
    ];
    let before = smoothed_with_empty(10, 10, &pockets);
    let map = before.map.clone();
    let after = before.check_for_secret_passages();
    let door = DungeonTile::SecretDoor {
        requires_key: true,
        is_open: false,
    };
    assert_eq!(count(&after.map, door), 2);
    for (was, is) in map.iter().zip(after.map.iter()) {
        assert!(was == is || *is == door || *is == DungeonTile::SecretPassage);
    }
    let single = smoothed_with_empty(10, 10, &[(4, 4), (4, 5)]);
    let map = single.map.clone();
    assert_eq!(single.check_for_secret_passages().map, map);
}

#[test]
fn chests_go_where_everything_around_is_empty() {
    let open: Vec<(i32, i32)> = (2..8)
        .flat_map(|row| (2..8).map(move |column| (row, column)))
        .collect();
    let mut builder = smoothed_with_empty(10, 10, &open);
    let order = vec![point(2, 2), point(4, 4), point(4, 5), point(5, 6), point(3, 3)];
    builder.place_chests(&order, 2);
    let chest = DungeonTile::TreasureChest { contents: () };
    // (2, 2) touches the wall; (4, 4) takes a chest; (4, 5) is next to it;
    // (5, 6) takes the second; then the chests are used up.
    assert_eq!(*builder.map.at(point(2, 2), size(10)), DungeonTile::Empty);
    assert_eq!(*builder.map.at(point(4, 4), size(10)), chest);
    assert_eq!(*builder.map.at(point(4, 5), size(10)), DungeonTile::Empty);
    assert_eq!(*builder.map.at(point(5, 6), size(10)), chest);
    assert_eq!(*builder.map.at(point(3, 3), size(10)), DungeonTile::Empty);
    assert_eq!(count(&builder.map, chest), 2);
    assert!(builder.is_all_empty_around(point(6, 3)));
    assert!(!builder.is_all_empty_around(point(5, 5)));
}

#[test]
fn empty_points_come_column_after_column() {
    let builder = smoothed_with_empty(10, 10, &[(5, 1), (2, 3), (1, 1), (4, 3)]);
    assert_eq!(
        builder.collect_empty_points(),
        vec![point(1, 1), point(5, 1), point(2, 3), point(4, 3)]
    );
}

#[test]
fn created_floor_has_a_tile_for_every_point() {
    for (width, height) in [(10, 10), (10, 25), (31, 17), (60, 40)] {
        let (floor, frames) = FloorBuilder::<New>::create(
            FloorId::new(1),
            size(width),
            size(height),
            false,
            &samples(width, height),
        );
        assert_eq!(floor.data.len(), (width * height) as usize);
        assert_eq!(floor.width.as_unbounded(), width);
        assert_eq!(floor.height.as_unbounded(), height);
        assert!(frames.is_none());
    }
}

#[test]
fn smallest_floor_counts_walls_everywhere() {
    let (floor, _) =
        FloorBuilder::<New>::create(FloorId::new(0), size(10), size(10), false, &samples(10, 10));
    let builder = FloorBuilder {
        width: floor.width,
        height: floor.height,
        map: floor.data.clone(),
        noise_map: vec![0; 100],
        extra: Filled {},
        frames: None,
        id: FloorId::new(0),
    };
    for row in 0..10 {
        for column in 0..10 {
            let here = point(row, column);
            if floor.at(here).is_wall() {
                assert!(builder.get_adjacent_walls(here, 1, 1) <= 8);
                assert!(builder.get_adjacent_walls(here, 2, 2) <= 24);
            }
        }
    }
}

#[test]
fn frames_are_taken_when_asked_for() {
    let (floor, frames) =
        FloorBuilder::<New>::create(FloorId::new(0), size(12), size(10), true, &samples(12, 10));
    let frames = frames.unwrap();
    assert!(!frames.is_empty());
    for frame in &frames {
        assert_eq!(frame.width, 12);
        assert_eq!(frame.height, 10);
        assert_eq!(frame.buffer.len(), 120);
        assert!(frame.buffer.iter().all(|&colour| colour <= 6));
    }
    assert_eq!(floor.data.len(), 120);
}

#[test]
fn floor_new_builds_a_floor() {
    let floor = Floor::new(FloorId::new(7), size(20), size(14), false, &samples(20, 14));
    assert_eq!(floor.data.len(), 280);
    let listed = floor.iter_points_and_tiles();
    assert_eq!(listed.len(), 280);
    assert_eq!(listed[0].0, point(0, 0));
    assert_eq!(listed[1].0, point(1, 0));
    assert_eq!(listed[14].0, point(0, 1));
    for (at, tile) in listed {
        assert_eq!(*floor.at(at), tile);
    }
}

#[test]
fn text_has_two_characters_for_each_tile() {
    let builder = smoothed_with_empty(10, 10, &[(1, 1)]);
    let text = builder._pretty();
    let lines: Vec<&str> = text.lines().collect();
    assert_eq!(lines.len(), 10);
    assert_eq!(lines[0], "████████████████████");
    assert_eq!(lines[1], "██  ████████████████");
    let flags = vec![true, false, false, true, true, false, true, true, true, true, false, false];
    assert_eq!(
        _print_vec_2d(&flags, size(10)),
        "██░░░░████░░████████\n░░░░"
    );
}

#[test]
fn three_caves_in_a_row_take_two_connections() {
    // Two pockets close together and a third further off: joined in full,
    // they form a tree, whatever the order in which the borders come.
    let pockets = [(2, 2), (2, 4), (7, 7)];
    for _ in 0..30 {
        let with_connections = smoothed_with_empty(10, 10, &pockets)
            .get_cave_borders()
            .build_connections(BuildConnectionIterations::FullyConnect);
        assert_eq!(with_connections.connections().len(), 2);
        let mut joined: Vec<(usize, usize)> = with_connections
            .connections()
            .iter()
            .map(|c| {
                let (a, b) = (c.from.1.index(), c.to.1.index());
                (a.min(b), a.max(b))
            })
            .collect();
        joined.sort();
        joined.dedup();
        assert_eq!(joined.len(), 2);
    }
}

#[test]
fn pruning_drops_the_connection_that_closes_a_ring() {
    // Three pockets, each joined to one it shares no edge with: after the
    // third the connections form a ring, and pruning opens it.
    let pockets = [(2, 2), (2, 5), (5, 2)];
    for _ in 0..10 {
        let with_connections = smoothed_with_empty(10, 10, &pockets)
            .get_cave_borders()
            .build_connections(BuildConnectionIterations::Finite(2));
        assert_eq!(with_connections.connections().len(), 2);
    }
    // Without an end before the borders run out nothing is pruned: the
    // ring stays whenever the pocket in the corner is not dealt with last.
    let mut counts = Vec::new();
    for _ in 0..30 {
        let unpruned = smoothed_with_empty(10, 10, &pockets)
            .get_cave_borders()
            .build_connections(BuildConnectionIterations::Finite(200));
        counts.push(unpruned.connections().len());
    }
    assert!(counts.iter().all(|&count| count == 2 || count == 3));
    assert!(counts.contains(&3));
}

#[test]
fn until_stops_at_the_given_number_of_groups() {
    let pockets = [(2, 2), (2, 7), (7, 2), (7, 7), (4, 4)];
    let with_connections = smoothed_with_empty(10, 10, &pockets)
        .get_cave_borders()
        .build_connections(BuildConnectionIterations::Until(4));
    assert_eq!(with_connections.connections().len(), 1);
}

#[test]
fn borders_come_in_a_random_order() {
    let pockets = [(2, 2), (2, 7), (7, 2), (7, 7), (4, 4)];
    let mut orders: Vec<Vec<usize>> = Vec::new();
    for _ in 0..50 {
        let with_borders = smoothed_with_empty(10, 10, &pockets).get_cave_borders();
        let order: Vec<usize> = with_borders.borders().iter().map(|b| b.id.index()).collect();
        let mut sorted = order.clone();
        sorted.sort();
        assert_eq!(sorted, vec![0, 1, 2, 3, 4]);
        orders.push(order);
    }
    assert!(orders.iter().any(|order| order != &orders[0]));
}

#[test]
fn connection_paths_are_classed_by_length() {
    let builder = smoothed_with_empty(10, 12, &[]);
    let c = Connection {
        distance: 9,
        from: (point(2, 2), BorderId::new(0)),
        to: (point(2, 5), BorderId::new(1)),
    };
    let one = builder.connection_path_from(c, &vec![point(2, 2)], true);
    assert!(matches!(one.path, ConnectionPathLength::Length1 { point: p } if p == point(2, 2)));
    assert_eq!(one.length(), 1);
    assert_eq!(one.iter(), vec![point(2, 2)]);
    let two = builder.connection_path_from(c, &vec![point(2, 2), point(2, 3)], true);
    assert_eq!(two.length(), 2);
    assert_eq!(two.iter(), vec![point(2, 2), point(2, 3)]);
    let path = vec![point(2, 2), point(2, 3), point(2, 4), point(2, 5)];
    let narrow = builder.connection_path_from(c, &path, false);
    assert_eq!(narrow.start_border_id, BorderId::new(0));
    assert_eq!(narrow.end_border_id, BorderId::new(1));
    assert_eq!(narrow.length(), 4);
    assert_eq!(
        narrow.iter(),
        vec![point(2, 2), point(2, 3), point(2, 4), point(2, 5)]
    );
    let wide = builder.connection_path_from(c, &path, true);
    let mut between = wide.iter();
    assert_eq!(between.remove(0), point(2, 2));
    assert_eq!(between.pop(), Some(point(2, 5)));
    between.sort();
    let mut expected = vec![
        point(2, 3), point(2, 4),
        point(1, 2), point(3, 2), point(2, 1),
        point(1, 3), point(3, 3),
        point(1, 4), point(3, 4),
        point(1, 5), point(3, 5), point(2, 6),
    ];
    expected.sort();
    assert_eq!(between, expected);
}

#[test]
fn drawing_writes_what_the_selector_picks() {
    let pockets = [
        (2, 2), (2, 3), (3, 2), (3, 3),
        (6, 6), (6, 7), (7, 6), (7, 7),
    ];
    let drawable = smoothed_with_empty(10, 10, &pockets)
        .get_cave_borders()
        .build_connections(BuildConnectionIterations::FullyConnect)
        .trace_connection_paths(false, false);
    let before = drawable.map.clone();
    let paths: Vec<Vec<Point>> = drawable.to_draw().iter().map(|path| path.iter()).collect();
    assert_eq!(paths.len(), 1);
    let drawn = drawable.draw(|is_first, is_last, _| {
        if is_first {
            DungeonTile::Entrance
        } else if is_last {
            DungeonTile::Exit
        } else {
            DungeonTile::SecretPassage
        }
    });
    let path = &paths[0];
    for row in 0..10 {
        for column in 0..10 {
            let here = point(row, column);
            let tile = *drawn.map.at(here, size(10));
            if here == path[0] {
                assert_eq!(tile, DungeonTile::Entrance);
            } else if here == *path.last().unwrap() {
                assert_eq!(tile, DungeonTile::Exit);
            } else if path.contains(&here) {
                assert_eq!(tile, DungeonTile::SecretPassage);
            } else {
                assert_eq!(tile, *before.at(here, size(10)));
            }
        }
    }
}

#[test]
fn created_floor_is_enclosed_by_walls() {
    for _ in 0..5 {
        let (floor, _) = FloorBuilder::<New>::create(
            FloorId::new(0),
            size(30),
            size(20),
            false,
            &samples(30, 20),
        );
        for row in 0..20 {
            for column in 0..30 {
                if row == 0 || column == 0 || row == 19 || column == 29 {
                    assert_eq!(*floor.at(point(row, column)), DungeonTile::Wall);
                }
            }
        }
    }
}

#[test]
fn no_chest_stands_beside_the_rim() {
    // Everything inside the rim is empty, and so is the rim but for one
    // wall: the tiles next to the rim take no chest all the same.
    let mut builder = FloorBuilder::<Blank>::blank(FloorId::new(0), size(10), size(10), false);
    *builder.map.at_mut(point(0, 1), size(10)) = DungeonTile::Wall;
    assert!(!builder.is_all_empty_around(point(1, 1)));
    assert!(!builder.is_all_empty_around(point(1, 5)));
    assert!(!builder.is_all_empty_around(point(5, 8)));
    assert!(!builder.is_all_empty_around(point(8, 8)));
    assert!(!builder.is_all_empty_around(point(0, 0)));
    assert!(builder.is_all_empty_around(point(2, 2)));
    assert!(builder.is_all_empty_around(point(7, 7)));
    let order = vec![point(1, 1), point(1, 4), point(8, 3), point(4, 1), point(4, 8), point(2, 2)];
    builder.place_chests(&order, 5);
    let chest = DungeonTile::TreasureChest { contents: () };
    assert_eq!(count(&builder.map, chest), 1);
    assert_eq!(*builder.map.at(point(2, 2), size(10)), chest);
    assert_eq!(*builder.map.at(point(1, 1), size(10)), DungeonTile::Empty);
}

#[test]
fn placed_chests_stand_free() {
    for _ in 0..10 {
        let open: Vec<(i32, i32)> = (1..19)
            .flat_map(|row| (1..29).map(move |column| (row, column)))
            .collect();
        let before = smoothed_with_empty(30, 20, &open).check_for_secret_passages();
        let after = before.place_treasure_chests();
        let chest = DungeonTile::TreasureChest { contents: () };
        let placed = count(&after.map, chest);
        assert!((5..=10).contains(&placed));
        for row in 0..20 {
            for column in 0..30 {
                if *after.map.at(point(row, column), size(30)) == chest {
                    assert!((2..=17).contains(&row) && (2..=27).contains(&column));
                    for other_row in row - 1..=row + 1 {
                        for other_column in column - 1..=column + 1 {
                            if (other_row, other_column) != (row, column) {
                                assert_eq!(
                                    *after.map.at(point(other_row, other_column), size(30)),
                                    DungeonTile::Empty
                                );
                            }
                        }
                    }
                }
            }
        }
    }
}

#[test]
fn borders_hold_solid_tiles_only() {
    let mut builder = smoothed_with_empty(10, 10, &[(4, 4), (4, 5)]);
    *builder.map.at_mut(point(4, 3), size(10)) = DungeonTile::Entrance;
    *builder.map.at_mut(point(3, 4), size(10)) = DungeonTile::SecretPassage;
    *builder.map.at_mut(point(5, 5), size(10)) = DungeonTile::TreasureChest { contents: () };
    let with_borders = builder.get_cave_borders();
    assert_eq!(with_borders.borders().len(), 1);
    let mut points = with_borders.borders()[0].points.clone();
    points.sort();
    let mut expected = vec![point(3, 5), point(5, 4), point(5, 5), point(4, 6)];
    expected.sort();
    assert_eq!(points, expected);
}

#[test]
fn pictures_show_each_pass_of_smoothing() {
    let filled = FloorBuilder::<Blank>::blank(FloorId::new(0), size(12), size(10), true)
        .random_fill(&samples(12, 10));
    let taken = filled.frames.clone().unwrap();
    assert_eq!(taken.len(), 1);
    assert_eq!(taken[0].delay, 100);
    let shown: Vec<u8> = filled.map.iter().map(|tile| tile.as_u8()).collect();
    assert_eq!(taken[0].buffer, shown);
    let traced = filled.trace_original_path();
    let before = traced.frames.clone().unwrap().len();
    let smoothed = traced.smoothen(3, |_| false);
    let taken = smoothed.frames.clone().unwrap();
    assert_eq!(taken.len(), before + 3);
    let shown: Vec<u8> = smoothed.map.iter().map(|tile| tile.as_u8()).collect();
    assert_eq!(taken.last().unwrap().buffer, shown);
    assert!(taken[before..].iter().all(|frame| frame.delay == 100));
}

#[test]
fn caves_in_two_distant_groups_are_joined_as_one_tree() {
    // Three pockets in one corner and three in the other: a first round
    // joins each group within itself, and the search goes on until the two
    // groups are joined as well.
    let pockets = [(2, 2), (2, 5), (5, 2), (14, 14), (14, 17), (17, 14)];
    for _ in 0..30 {
        let with_borders = smoothed_with_empty(20, 20, &pockets).get_cave_borders();
        assert_eq!(with_borders.borders().len(), 6);
        let with_connections =
            with_borders.build_connections(BuildConnectionIterations::FullyConnect);
        let connections = with_connections.connections();
        assert_eq!(connections.len(), 5);
        let mut group: Vec<usize> = (0..6).collect();
        for connection in connections {
            let (from, to) = (connection.from.1.index(), connection.to.1.index());
            assert_ne!(from, to);
            let (old, new) = (group[from], group[to]);
            for entry in group.iter_mut() {
                if *entry == old {
                    *entry = new;
                }
            }
        }
        assert!(group.iter().all(|&entry| entry == group[0]));
    }
}

#[test]
fn a_search_that_cannot_end_joins_every_pair_of_caves() {
    // No number of groups is small enough for this search to end, so it
    // goes on until each cave is joined to each other, and nothing is
    // pruned.
    let pockets = [(2, 2), (2, 5), (5, 2)];
    for _ in 0..10 {
        let with_connections = smoothed_with_empty(10, 10, &pockets)
            .get_cave_borders()
            .build_connections(BuildConnectionIterations::Until(0));
        let mut joined: Vec<(usize, usize)> = with_connections
            .connections()
            .iter()
            .map(|c| {
                let (a, b) = (c.from.1.index(), c.to.1.index());
                (a.min(b), a.max(b))
            })
            .collect();
        assert_eq!(joined.len(), 3);
        joined.sort();
        assert_eq!(joined, vec![(0, 1), (0, 2), (1, 2)]);
    }
}

#[test]
fn a_search_down_to_two_groups_leaves_no_more() {
    let pockets = [(2, 2), (2, 5), (5, 2), (14, 14), (14, 17), (17, 14)];
    for _ in 0..30 {
        let with_connections = smoothed_with_empty(20, 20, &pockets)
            .get_cave_borders()
            .build_connections(BuildConnectionIterations::Until(2));
        let mut group: Vec<usize> = (0..6).collect();
        for connection in with_connections.connections() {
            let (old, new) = (
                group[connection.from.1.index()],
                group[connection.to.1.index()],
            );
            for entry in group.iter_mut() {
                if *entry == old {
                    *entry = new;
                }
            }
        }
        group.sort();
        group.dedup();
        assert!(group.len() <= 2);
        // What is left after pruning joins 6 borders in so many groups.
        assert_eq!(with_connections.connections().len(), 6 - group.len());
    }
}
