use std::collections::VecDeque;

use rand::rngs::StdRng;
use rand::SeedableRng;

use hyakki::entity::position::Position;
use hyakki::world::dungeon::Dungeon;
use hyakki::world::generator::{GenParams, GenerationError, Room};
use hyakki::world::tile::TileType;

fn standard() -> GenParams {
    GenParams {
        width: 80,
        height: 50,
        min_rooms: 8,
        max_rooms: 12,
        min_room_size: 6,
        max_room_size: 10,
    }
}

fn reachable(dungeon: &Dungeon, start: Position) -> Vec<Vec<bool>> {
    let mut seen = vec![vec![false; dungeon.width]; dungeon.height];
    let mut queue = VecDeque::new();
    seen[start.y as usize][start.x as usize] = true;
    queue.push_back(start);
    while let Some(p) = queue.pop_front() {
        for (dx, dy) in [(0, 1), (0, -1), (1, 0), (-1, 0)] {
            let n = p.translate(dx, dy);
            if dungeon.is_walkable(n) && !seen[n.y as usize][n.x as usize] {
                seen[n.y as usize][n.x as usize] = true;
                queue.push_back(n);
            }
        }
    }
    seen
}

fn check_level(d: &Dungeon, params: &GenParams) {
    assert_eq!(d.tiles.len(), params.height);
    assert!(d.tiles.iter().all(|row| row.len() == params.width));
    assert!(!d.rooms.is_empty() && d.rooms.len() <= params.max_rooms);
    for (i, a) in d.rooms.iter().enumerate() {
        let (w, h) = (a.x2 - a.x1, a.y2 - a.y1);
        assert!(params.min_room_size <= w && w <= params.max_room_size);
        assert!(params.min_room_size <= h && h <= params.max_room_size);
        assert!(a.x1 >= 1 && a.y1 >= 1);
        assert!(a.x2 <= params.width as i32 - 2 && a.y2 <= params.height as i32 - 2);
        for b in d.rooms.iter().skip(i + 1) {
            let apart = b.x1 - a.x2 >= 2 || a.x1 - b.x2 >= 2 || b.y1 - a.y2 >= 2 || a.y1 - b.y2 >= 2;
            assert!(apart, "rooms {:?} and {:?} are too close", a, b);
        }
    }
    let first = d.rooms[0];
    let last = *d.rooms.last().unwrap();
    assert_eq!(d.player_start, first.center());
    assert_eq!(d.stairs_position, last.center());
    assert!(d.is_walkable(d.player_start));
    assert!(d.is_walkable(d.stairs_position));
    assert_eq!(d.get_tile(d.stairs_position), Some(TileType::StairsDown));
    let stairs = d.tiles.iter().flatten().filter(|t| **t == TileType::StairsDown).count();
    assert_eq!(stairs, 1);
    for x in 0..params.width as i32 {
        assert_eq!(d.get_tile(Position { x, y: 0 }), Some(TileType::Wall));
        assert_eq!(d.get_tile(Position { x, y: params.height as i32 - 1 }), Some(TileType::Wall));
    }
    for y in 0..params.height as i32 {
        assert_eq!(d.get_tile(Position { x: 0, y }), Some(TileType::Wall));
        assert_eq!(d.get_tile(Position { x: params.width as i32 - 1, y }), Some(TileType::Wall));
    }
    let seen = reachable(d, d.player_start);
    for room in &d.rooms {
        let c = room.center();
        assert!(seen[c.y as usize][c.x as usize], "center {:?} unreachable", c);
        for y in room.y1..room.y2 {
            for x in room.x1..room.x2 {
                assert!(d.is_walkable(Position { x, y }));
            }
        }
    }
}

#[test]
fn seeded_standard_level() {
    let params = standard();
    let mut rng = StdRng::seed_from_u64(42);
    let d = Dungeon::generate(3, &params, &mut rng).unwrap();
    assert_eq!(d.depth, 3);
    assert!(d.rooms.len() >= 8);
    check_level(&d, &params);
    // Rooms are drawn at different places and sizes.
    assert!(d.rooms.iter().any(|r| r.x1 != d.rooms[0].x1 || r.y1 != d.rooms[0].y1));
}

#[test]
fn same_seed_same_level() {
    let params = standard();
    let mut rng1 = StdRng::seed_from_u64(7);
    let mut rng2 = StdRng::seed_from_u64(7);
    let a = Dungeon::generate(1, &params, &mut rng1).unwrap();
    let b = Dungeon::generate(1, &params, &mut rng2).unwrap();
    assert_eq!(a.tiles, b.tiles);
    assert_eq!(a.rooms, b.rooms);
    assert_eq!(a.player_start, b.player_start);
    assert_eq!(a.stairs_position, b.stairs_position);
}

#[test]
fn same_seed_same_level_with_fixed_parameters() {
    let mut rng1 = StdRng::seed_from_u64(2024);
    let mut rng2 = StdRng::seed_from_u64(2024);
    let a = Dungeon::new_random_with_rng(2, &mut rng1);
    let b = Dungeon::new_random_with_rng(2, &mut rng2);
    assert_eq!(a.tiles, b.tiles);
    assert_eq!(a.rooms, b.rooms);
    assert_eq!(a.depth, 2);
    check_level(&a, &standard());
}

#[test]
fn many_seeds_give_valid_levels() {
    let params = standard();
    for seed in 0..40 {
        let mut rng = StdRng::seed_from_u64(seed);
        let d = Dungeon::generate(1, &params, &mut rng).unwrap();
        check_level(&d, &params);
    }
}

#[test]
fn smallest_grid_holds_one_room() {
    let params = GenParams {
        width: 4,
        height: 4,
        min_rooms: 1,
        max_rooms: 3,
        min_room_size: 1,
        max_room_size: 1,
    };
    let mut rng = StdRng::seed_from_u64(1);
    let d = Dungeon::generate(1, &params, &mut rng).unwrap();
    assert_eq!(d.rooms.len(), 1);
    assert_eq!(d.player_start, Position { x: 1, y: 1 });
    assert_eq!(d.stairs_position, Position { x: 1, y: 1 });
    assert_eq!(d.get_tile(Position { x: 1, y: 1 }), Some(TileType::StairsDown));
    check_level(&d, &params);
}

#[test]
fn generation_rejects_impossible_parameters() {
    let mut rng = StdRng::seed_from_u64(1);
    let base = standard();
    let cases = [
        GenParams { min_rooms: 0, ..base },
        GenParams { min_rooms: 5, max_rooms: 4, ..base },
        GenParams { min_room_size: 0, ..base },
        GenParams { min_room_size: 7, max_room_size: 6, ..base },
        GenParams { width: 12, ..base },
        GenParams { height: 12, ..base },
        GenParams { width: 0, height: 0, ..base },
    ];
    for params in cases {
        assert!(matches!(
            Dungeon::generate(1, &params, &mut rng),
            Err(GenerationError::NoRoomPlaced)
        ));
    }
    // One more cell on each axis and a room fits.
    let fits = GenParams { width: 13, height: 13, ..base };
    assert!(Dungeon::generate(1, &fits, &mut rng).is_ok());
}

fn small_params() -> GenParams {
    GenParams {
        width: 30,
        height: 20,
        min_rooms: 1,
        max_rooms: 4,
        min_room_size: 3,
        max_room_size: 5,
    }
}

fn small_candidates() -> Vec<Room> {
    vec![
        Room::new(1, 1, 3, 3),
        Room::new(3, 3, 3, 3),
        Room::new(10, 10, 4, 4),
        Room::new(20, 2, 3, 3),
    ]
}

fn tile(d: &Dungeon, x: i32, y: i32) -> TileType {
    d.get_tile(Position { x, y }).unwrap()
}

#[test]
fn place_rooms_keeps_clear_candidates_up_to_the_target() {
    let params = small_params();
    let cands = small_candidates();
    let coins = vec![false, true, true, false];
    let d = Dungeon::place_rooms(4, &params, 2, &cands, &coins);
    // The second candidate overlaps the first; the fourth comes after the target is met.
    assert_eq!(d.rooms, vec![cands[0], cands[2]]);
    assert_eq!(d.depth, 4);
    assert_eq!(d.player_start, Position { x: 2, y: 2 });
    assert_eq!(d.stairs_position, Position { x: 12, y: 12 });
    // Row first (coin true): along y = 2, then down x = 12.
    assert_eq!(tile(&d, 7, 2), TileType::Floor);
    assert_eq!(tile(&d, 12, 2), TileType::Floor);
    assert_eq!(tile(&d, 12, 7), TileType::Floor);
    assert_eq!(tile(&d, 2, 7), TileType::Wall);
    assert_eq!(tile(&d, 7, 12), TileType::Wall);
    assert_eq!(tile(&d, 12, 12), TileType::StairsDown);
    assert_eq!(tile(&d, 21, 3), TileType::Wall);
    let floors = d.tiles.iter().flatten().filter(|t| **t != TileType::Wall).count();
    // 9 + 16 cells of rooms, then 9 corridor cells on row 2 outside the first
    // room and 7 on column 12 between that row and the second room.
    assert_eq!(floors, 9 + 16 + 9 + 7);
    check_level(&d, &params);
}

#[test]
fn place_rooms_column_first_corridor() {
    let params = small_params();
    let cands = small_candidates();
    let coins = vec![false, true, true, false];
    let d = Dungeon::place_rooms(1, &params, 3, &cands, &coins);
    assert_eq!(d.rooms, vec![cands[0], cands[2], cands[3]]);
    assert_eq!(d.stairs_position, Position { x: 21, y: 3 });
    // Column first (coin false) from (12, 12): up x = 12 to y = 3, then along y = 3.
    assert_eq!(tile(&d, 12, 5), TileType::Floor);
    assert_eq!(tile(&d, 16, 3), TileType::Floor);
    assert_eq!(tile(&d, 16, 12), TileType::Wall);
    assert_eq!(tile(&d, 21, 3), TileType::StairsDown);
    check_level(&d, &params);
}

#[test]
fn place_rooms_first_candidate_only() {
    let params = small_params();
    let cands = small_candidates();
    let coins = vec![true, true, true, true];
    let d = Dungeon::place_rooms(1, &params, 1, &cands, &coins);
    assert_eq!(d.rooms, vec![cands[0]]);
    let floors = d.tiles.iter().flatten().filter(|t| **t != TileType::Wall).count();
    assert_eq!(floors, 9);
}
