use std::collections::VecDeque;

use hyakki::entity::position::Position;
use hyakki::game::config::{DUNGEON_HEIGHT, DUNGEON_WIDTH, MAX_ROOMS, MIN_ROOMS};
use hyakki::world::dungeon::Dungeon;
use hyakki::world::tile::TileType;

#[test]
fn test_dungeon_dimensions() {
    let dungeon = Dungeon::new_fixed();
    assert_eq!(dungeon.width, DUNGEON_WIDTH);
    assert_eq!(dungeon.height, DUNGEON_HEIGHT);
}

#[test]
fn test_dungeon_boundaries_negative() {
    let dungeon = Dungeon::new_fixed();
    assert!(dungeon.get_tile(Position { x: -1, y: 0 }).is_none());
    assert!(dungeon.get_tile(Position { x: 0, y: -1 }).is_none());
}

#[test]
fn test_dungeon_boundaries_overflow() {
    let dungeon = Dungeon::new_fixed();
    assert!(dungeon.get_tile(Position { x: 80, y: 0 }).is_none());
    assert!(dungeon.get_tile(Position { x: 0, y: 50 }).is_none());
}

#[test]
fn test_dungeon_has_floor() {
    let dungeon = Dungeon::new_fixed();
    let center = Position { x: 40, y: 25 };
    assert_eq!(dungeon.get_tile(center), Some(TileType::Floor));
}

#[test]
fn test_dungeon_corners_are_walls() {
    let dungeon = Dungeon::new_fixed();
    assert_eq!(dungeon.get_tile(Position { x: 0, y: 0 }), Some(TileType::Wall));
    assert_eq!(dungeon.get_tile(Position { x: 79, y: 49 }), Some(TileType::Wall));
}

#[test]
fn test_dungeon_has_rooms() {
    let dungeon = Dungeon::new_random(1);
    assert!(!dungeon.rooms.is_empty());
    assert!(dungeon.rooms.len() >= MIN_ROOMS);
    assert!(dungeon.rooms.len() <= MAX_ROOMS);
}

#[test]
fn test_rooms_do_not_overlap() {
    let dungeon = Dungeon::new_random(1);
    for (i, room1) in dungeon.rooms.iter().enumerate() {
        for room2 in dungeon.rooms.iter().skip(i + 1) {
            let overlaps = room1.x1 < room2.x2
                && room1.x2 > room2.x1
                && room1.y1 < room2.y2
                && room1.y2 > room2.y1;
            assert!(!overlaps, "Rooms {:?} and {:?} overlap", room1, room2);
        }
    }
}

#[test]
fn test_dungeon_has_stairs() {
    let dungeon = Dungeon::new_random(1);
    let stairs_count = dungeon
        .tiles
        .iter()
        .flat_map(|row| row.iter())
        .filter(|&&tile| tile == TileType::StairsDown)
        .count();
    assert_eq!(stairs_count, 1);
}

#[test]
fn test_stairs_in_last_room() {
    let dungeon = Dungeon::new_random(1);
    let last_room = dungeon.rooms.last().unwrap();
    let stairs = dungeon.stairs_position;
    assert!(
        stairs.x >= last_room.x1
            && stairs.x < last_room.x2
            && stairs.y >= last_room.y1
            && stairs.y < last_room.y2,
        "Stairs should be in last room"
    );
}

#[test]
fn test_player_start_in_first_room() {
    let dungeon = Dungeon::new_random(1);
    let first_room = &dungeon.rooms[0];
    let start = dungeon.player_start;
    assert!(
        start.x >= first_room.x1
            && start.x < first_room.x2
            && start.y >= first_room.y1
            && start.y < first_room.y2,
        "Player should start in first room"
    );
}

fn reachable_from(dungeon: &Dungeon, start: Position) -> Vec<Vec<bool>> {
    let mut visited = vec![vec![false; dungeon.width]; dungeon.height];
    let mut queue = VecDeque::new();
    queue.push_back(start);
    visited[start.y as usize][start.x as usize] = true;
    while let Some(pos) = queue.pop_front() {
        for (dx, dy) in [(0, 1), (0, -1), (1, 0), (-1, 0)] {
            let next = pos.translate(dx, dy);
            if next.x >= 0
                && next.x < dungeon.width as i32
                && next.y >= 0
                && next.y < dungeon.height as i32
                && !visited[next.y as usize][next.x as usize]
                && dungeon.is_walkable(next)
            {
                visited[next.y as usize][next.x as usize] = true;
                queue.push_back(next);
            }
        }
    }
    visited
}

#[test]
fn test_all_rooms_connected() {
    let dungeon = Dungeon::new_random(1);
    let visited = reachable_from(&dungeon, dungeon.player_start);
    for room in &dungeon.rooms {
        let center = room.center();
        assert!(
            visited[center.y as usize][center.x as usize],
            "Room center {:?} is not reachable",
            center
        );
    }
}

#[test]
fn test_dungeon_depth() {
    let dungeon = Dungeon::new_random(5);
    assert_eq!(dungeon.depth, 5);
}

#[test]
fn test_rooms_within_bounds() {
    let dungeon = Dungeon::new_random(1);
    for room in &dungeon.rooms {
        assert!(room.x1 >= 1, "Room x1 should be >= 1");
        assert!(room.y1 >= 1, "Room y1 should be >= 1");
        assert!((room.x2 as usize) < DUNGEON_WIDTH - 1, "Room x2 should be < width - 1");
        assert!((room.y2 as usize) < DUNGEON_HEIGHT - 1, "Room y2 should be < height - 1");
    }
}

#[test]
fn test_player_start_is_walkable() {
    let dungeon = Dungeon::new_random(1);
    assert!(
        dungeon.is_walkable(dungeon.player_start),
        "Player start position should be walkable"
    );
}

#[test]
fn test_stairs_is_walkable() {
    let dungeon = Dungeon::new_random(1);
    assert!(
        dungeon.is_walkable(dungeon.stairs_position),
        "Stairs position should be walkable"
    );
}

#[test]
fn test_wall_not_transparent() {
    let dungeon = Dungeon::new_fixed();
    assert!(
        !dungeon.is_transparent(Position { x: 0, y: 0 }),
        "Wall should not be transparent"
    );
}

#[test]
fn test_floor_transparent() {
    let dungeon = Dungeon::new_fixed();
    assert!(
        dungeon.is_transparent(dungeon.player_start),
        "Floor should be transparent"
    );
}

#[test]
fn test_stairs_transparent() {
    let dungeon = Dungeon::new_random(1);
    assert!(
        dungeon.is_transparent(dungeon.stairs_position),
        "Stairs should be transparent"
    );
}

#[test]
fn test_outside_bounds_not_transparent() {
    let dungeon = Dungeon::new_fixed();
    assert!(
        !dungeon.is_transparent(Position { x: -1, y: 0 }),
        "Outside bounds should not be transparent"
    );
}

#[test]
fn fixed_dungeon_room_edges() {
    let dungeon = Dungeon::new_fixed();
    assert_eq!(dungeon.get_tile(Position { x: 35, y: 20 }), Some(TileType::Floor));
    assert_eq!(dungeon.get_tile(Position { x: 44, y: 29 }), Some(TileType::Floor));
    assert_eq!(dungeon.get_tile(Position { x: 34, y: 20 }), Some(TileType::Wall));
    assert_eq!(dungeon.get_tile(Position { x: 45, y: 25 }), Some(TileType::Wall));
    assert_eq!(dungeon.get_tile(Position { x: 40, y: 30 }), Some(TileType::Wall));
    assert_eq!(dungeon.player_start, Position { x: 40, y: 25 });
    assert_eq!(dungeon.stairs_position, Position { x: 40, y: 25 });
    assert!(dungeon.rooms.is_empty());
}

#[test]
fn classification_agrees_with_queries() {
    let dungeon = Dungeon::new_random(1);
    for y in -1..=(dungeon.height as i32) {
        for x in -1..=(dungeon.width as i32) {
            let pos = Position { x, y };
            let expected = match dungeon.get_tile(pos) {
                Some(TileType::Wall) | None => false,
                Some(TileType::Floor) | Some(TileType::StairsDown) => true,
            };
            assert_eq!(dungeon.is_walkable(pos), expected);
            assert_eq!(dungeon.is_transparent(pos), expected);
        }
    }
}
