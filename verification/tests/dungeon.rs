use dungeon::bounded_int::BoundedInt;
use dungeon::floor_builder::{MAX_FLOOR_SIZE, MIN_FLOOR_SIZE};
use dungeon::{create_dungeon, squared_distance_between, Column, Dungeon, DungeonTile, DungeonType};
use dungeon::player::PlayerDirection;
use dungeon::{FloorId, Point, Row};

fn size(n: i32) -> BoundedInt<MIN_FLOOR_SIZE, MAX_FLOOR_SIZE> {
    n.try_into().unwrap()
}

fn point(row: i32, column: i32) -> Point {
    Point {
        row: Row::new(row.try_into().unwrap()),
        column: Column::new(column.try_into().unwrap()),
    }
}

fn samples(width: i32, height: i32, floors: usize) -> Vec<Vec<u16>> {
    (0..floors)
        .map(|floor| {
            (0..width * height)
                .map(|i| (((i as u32 + 17 * floor as u32).wrapping_mul(2_654_435_761)) >> 17) as u16)
                .collect()
        })
        .collect()
}

#[test]
fn dungeon_has_the_floors_asked_for() {
    let dungeon = Dungeon::new(
        size(20),
        size(30),
        3,
        DungeonType::Cave,
        false,
        &samples(30, 20, 3),
    );
    assert_eq!(dungeon.dungeon_type, DungeonType::Cave);
    assert_eq!(dungeon.floors.len(), 3);
    for floor in &dungeon.floors {
        assert_eq!(floor.width.as_unbounded(), 30);
        assert_eq!(floor.height.as_unbounded(), 20);
        assert_eq!(floor.data.len(), 600);
    }
}

#[test]
fn dungeon_hands_out_the_pictures_of_each_floor() {
    let (dungeon, frames) = Dungeon::new_with_frames(
        size(12),
        size(10),
        2,
        DungeonType::Forest,
        true,
        &samples(10, 12, 2),
    );
    assert_eq!(dungeon.dungeon_type, DungeonType::Forest);
    assert_eq!(dungeon.floors.len(), 2);
    assert_eq!(frames.len(), 2);
    for taken in frames {
        let taken = taken.unwrap();
        assert!(!taken.is_empty());
        assert!(taken.iter().all(|frame| frame.buffer.len() == 120));
    }
    let (_, quiet) = Dungeon::new_with_frames(
        size(12),
        size(10),
        1,
        DungeonType::Cave,
        false,
        &samples(10, 12, 1),
    );
    assert_eq!(quiet, vec![None]);
}

#[test]
fn create_dungeon_builds_ten_floors() {
    let dungeon = create_dungeon(12, 10, &samples(12, 10, 10));
    assert_eq!(dungeon.floors.len(), 10);
    assert_eq!(dungeon.dungeon_type, DungeonType::Cave);
    for floor in &dungeon.floors {
        assert_eq!(floor.data.len(), 120);
    }
}

#[test]
fn floors_can_be_read_and_changed_by_point() {
    let mut dungeon = Dungeon::new(
        size(10),
        size(10),
        1,
        DungeonType::Cave,
        false,
        &samples(10, 10, 1),
    );
    let floor = &mut dungeon.floors[0];
    assert_eq!(*floor.at(point(0, 0)), DungeonTile::Wall);
    *floor.at_mut(point(4, 7)) = DungeonTile::SecretPassage;
    assert_eq!(floor.data[47], DungeonTile::SecretPassage);
    assert_eq!(*floor.at(point(4, 7)), DungeonTile::SecretPassage);
}

#[test]
fn tiles_know_what_they_are() {
    let door = DungeonTile::SecretDoor {
        requires_key: true,
        is_open: false,
    };
    let chest = DungeonTile::TreasureChest { contents: () };
    let all = [
        DungeonTile::Empty,
        DungeonTile::Wall,
        door,
        DungeonTile::SecretPassage,
        chest,
        DungeonTile::Entrance,
        DungeonTile::Exit,
    ];
    for (index, tile) in all.iter().enumerate() {
        assert_eq!(usize::from(tile.as_u8()), index);
        assert_eq!(tile.is_empty(), index == 0);
        assert_eq!(tile.is_wall(), index == 1);
        assert_eq!(tile.is_secret_door(), index == 2);
        assert_eq!(tile.is_secret_passage(), index == 3);
        assert_eq!(tile.is_treasure_chest(), index == 4);
        assert_eq!(tile.is_entrance(), index == 5);
        assert_eq!(tile.is_exit(), index == 6);
        assert_eq!(tile.is_solid(), index == 1 || index == 4);
    }
    assert_eq!(DungeonTile::default(), DungeonTile::Empty);
    assert_ne!(
        door,
        DungeonTile::SecretDoor {
            requires_key: false,
            is_open: false
        }
    );
    assert_eq!(dungeon::dungeon_tile::COLOR_MAP.len(), 21);
}

#[test]
fn squared_distance_is_the_sum_of_the_squares() {
    assert_eq!(squared_distance_between(point(1, 1), point(4, 5)), 25);
    assert_eq!(squared_distance_between(point(4, 5), point(1, 1)), 25);
    assert_eq!(squared_distance_between(point(7, 7), point(7, 7)), 0);
    assert_eq!(squared_distance_between(point(0, 0), point(200, 200)), 80000);
}

#[test]
fn floor_ids_keep_their_number() {
    assert_eq!(FloorId::new(9).get(), 9);
    assert!(FloorId::new(1) < FloorId::new(2));
}

#[test]
fn a_player_steps_unless_a_wall_or_the_bounds_stop_it() {
    let mut dungeon = Dungeon::new(
        size(10),
        size(10),
        1,
        DungeonType::Cave,
        false,
        &samples(10, 10, 1),
    );
    let floor = &mut dungeon.floors[0];
    for tile in floor.data.iter_mut() {
        *tile = DungeonTile::Empty;
    }
    *floor.at_mut(point(4, 5)) = DungeonTile::Wall;
    *floor.at_mut(point(6, 5)) = DungeonTile::TreasureChest { contents: () };
    let from = point(5, 5);
    assert_eq!(PlayerDirection::Up.try_move_to_point(&from, floor), None);
    assert_eq!(
        PlayerDirection::Down.try_move_to_point(&from, floor),
        Some(point(6, 5))
    );
    assert_eq!(
        PlayerDirection::Left.try_move_to_point(&from, floor),
        Some(point(5, 4))
    );
    assert_eq!(
        PlayerDirection::Right.try_move_to_point(&from, floor),
        Some(point(5, 6))
    );
    assert_eq!(PlayerDirection::Up.try_move_to_point(&point(0, 3), floor), None);
    assert_eq!(PlayerDirection::Left.try_move_to_point(&point(3, 0), floor), None);
}

#[test]
fn a_floor_has_no_second_way_in_or_out() {
    let dungeon = Dungeon::new(
        size(24),
        size(30),
        6,
        DungeonType::Cave,
        false,
        &samples(30, 24, 6),
    );
    for floor in &dungeon.floors {
        let ways_in = floor.data.iter().filter(|tile| tile.is_entrance()).count();
        let ways_out = floor.data.iter().filter(|tile| tile.is_exit()).count();
        assert!(ways_in <= 1);
        assert!(ways_out <= 1);
    }
}
