use hyakki::entity::position::Position;
use hyakki::world::dungeon::Dungeon;
use hyakki::world::fov::Fov;
use hyakki::world::tile::TileType;

/// Builds a level from rows of '#' (wall), '.' (floor) and '>' (stairs).
fn create_test_dungeon(layout: &[&str]) -> Dungeon {
    let height = layout.len();
    let width = layout[0].len();
    let tiles: Vec<Vec<TileType>> = layout
        .iter()
        .map(|row| {
            row.chars()
                .map(|c| match c {
                    '#' => TileType::Wall,
                    '.' => TileType::Floor,
                    '>' => TileType::StairsDown,
                    _ => TileType::Wall,
                })
                .collect()
        })
        .collect();
    Dungeon {
        tiles,
        width,
        height,
        rooms: vec![],
        depth: 1,
        player_start: Position { x: 1, y: 1 },
        stairs_position: Position { x: 1, y: 1 },
    }
}

#[test]
fn test_fov_includes_adjacent_tiles() {
    let dungeon = create_test_dungeon(&["#####", "#...#", "#...#", "#...#", "#####"]);
    let mut fov = Fov::new(8);
    fov.calculate(Position { x: 2, y: 2 }, &dungeon);
    assert!(fov.is_visible(Position { x: 2, y: 1 }), "Up should be visible");
    assert!(fov.is_visible(Position { x: 2, y: 3 }), "Down should be visible");
    assert!(fov.is_visible(Position { x: 1, y: 2 }), "Left should be visible");
    assert!(fov.is_visible(Position { x: 3, y: 2 }), "Right should be visible");
}

#[test]
fn test_fov_blocked_by_walls() {
    let dungeon = create_test_dungeon(&["#####", "#...#", "#.#.#", "#...#", "#####"]);
    let mut fov = Fov::new(8);
    fov.calculate(Position { x: 1, y: 2 }, &dungeon);
    assert!(!fov.is_visible(Position { x: 3, y: 2 }), "Behind wall should not be visible");
    assert!(fov.is_visible(Position { x: 2, y: 2 }), "Wall should be visible");
}

#[test]
fn test_fov_radius() {
    let layout: Vec<String> = (0..15)
        .map(|y| {
            (0..15)
                .map(|x| if x == 0 || x == 14 || y == 0 || y == 14 { '#' } else { '.' })
                .collect()
        })
        .collect();
    let layout_refs: Vec<&str> = layout.iter().map(|s| s.as_str()).collect();
    let dungeon = create_test_dungeon(&layout_refs);
    let mut fov = Fov::new(8);
    fov.calculate(Position { x: 7, y: 7 }, &dungeon);
    assert!(fov.is_visible(Position { x: 7, y: 1 }), "Distance 6 should be visible");
    assert!(fov.is_visible(Position { x: 7, y: 0 }), "Wall at distance 7 should be visible");
}

#[test]
fn test_explored_tiles_persist() {
    let dungeon = create_test_dungeon(&["#######", "#.....#", "#.....#", "#.....#", "#######"]);
    let mut fov = Fov::new(8);
    fov.calculate(Position { x: 1, y: 2 }, &dungeon);
    assert!(fov.is_visible(Position { x: 1, y: 1 }));
    assert!(fov.is_explored(Position { x: 1, y: 1 }));
    fov.calculate(Position { x: 5, y: 2 }, &dungeon);
    assert!(
        fov.is_explored(Position { x: 1, y: 1 }),
        "Previously seen tile should remain explored"
    );
}

#[test]
fn test_player_position_always_visible() {
    let dungeon = create_test_dungeon(&["###", "#.#", "###"]);
    let mut fov = Fov::new(8);
    fov.calculate(Position { x: 1, y: 1 }, &dungeon);
    assert!(
        fov.is_visible(Position { x: 1, y: 1 }),
        "Player position should always be visible"
    );
}

#[test]
fn test_fov_diagonal_visibility() {
    let dungeon = create_test_dungeon(&["#####", "#...#", "#...#", "#...#", "#####"]);
    let mut fov = Fov::new(8);
    fov.calculate(Position { x: 2, y: 2 }, &dungeon);
    assert!(fov.is_visible(Position { x: 1, y: 1 }), "Upper-left diagonal should be visible");
    assert!(fov.is_visible(Position { x: 3, y: 3 }), "Lower-right diagonal should be visible");
    assert!(fov.is_visible(Position { x: 1, y: 3 }), "Lower-left diagonal should be visible");
    assert!(fov.is_visible(Position { x: 3, y: 1 }), "Upper-right diagonal should be visible");
}

#[test]
fn test_walls_visible_but_block_view() {
    let dungeon = create_test_dungeon(&["#####", "#..##", "#...#", "#####", "#...#"]);
    let mut fov = Fov::new(8);
    fov.calculate(Position { x: 1, y: 2 }, &dungeon);
    assert!(fov.is_visible(Position { x: 0, y: 3 }), "Wall should be visible");
    assert!(!fov.is_visible(Position { x: 1, y: 4 }), "Behind wall should not be visible");
}

fn open_field(size: usize) -> Dungeon {
    let row: String = std::iter::repeat('.').take(size).collect();
    let rows: Vec<&str> = (0..size).map(|_| row.as_str()).collect();
    create_test_dungeon(&rows)
}

#[test]
fn open_field_sees_exactly_the_disk() {
    let dungeon = open_field(21);
    let mut fov = Fov::new(5);
    fov.calculate(Position { x: 10, y: 10 }, &dungeon);
    let mut in_disk = 0;
    for y in 0..21 {
        for x in 0..21 {
            let d2 = (x - 10) * (x - 10) + (y - 10) * (y - 10);
            assert_eq!(fov.is_visible(Position { x, y }), d2 <= 25, "cell ({}, {})", x, y);
            if d2 <= 25 {
                in_disk += 1;
            }
        }
    }
    assert_eq!(in_disk, 81);
    assert_eq!(fov.visible_count(), 81);
    // Exactly at the radius, and just beyond it.
    assert!(fov.is_visible(Position { x: 10, y: 5 }));
    assert!(fov.is_visible(Position { x: 13, y: 14 }));
    assert!(!fov.is_visible(Position { x: 14, y: 14 }));
    assert!(!fov.is_visible(Position { x: 10, y: 4 }));
}

#[test]
fn enclosed_cell_sees_itself_and_its_walls() {
    let dungeon = create_test_dungeon(&["###", "#.#", "###"]);
    let mut fov = Fov::new(8);
    fov.calculate(Position { x: 1, y: 1 }, &dungeon);
    assert_eq!(fov.visible_count(), 9);
    assert!(fov.is_visible(Position { x: 0, y: 0 }));
    assert!(fov.is_visible(Position { x: 2, y: 2 }));
    assert!(!fov.is_visible(Position { x: 3, y: 1 }));
}

#[test]
fn new_fov_sees_nothing() {
    let fov = Fov::new(8);
    assert_eq!(fov.visible_count(), 0);
    assert!(!fov.is_visible(Position { x: 0, y: 0 }));
    assert!(!fov.is_explored(Position { x: 0, y: 0 }));
}

#[test]
fn zero_radius_sees_only_the_origin() {
    let dungeon = open_field(5);
    let mut fov = Fov::new(0);
    fov.calculate(Position { x: 2, y: 2 }, &dungeon);
    assert_eq!(fov.visible_count(), 1);
    assert!(fov.is_visible(Position { x: 2, y: 2 }));
    assert!(!fov.is_visible(Position { x: 2, y: 1 }));
}

#[test]
fn visible_is_replaced_but_explored_accumulates() {
    let dungeon = create_test_dungeon(&["#########", "#...#...#", "#########"]);
    let mut fov = Fov::new(8);
    fov.calculate(Position { x: 1, y: 1 }, &dungeon);
    assert!(fov.is_visible(Position { x: 3, y: 1 }));
    assert!(!fov.is_visible(Position { x: 5, y: 1 }));
    fov.calculate(Position { x: 7, y: 1 }, &dungeon);
    assert!(!fov.is_visible(Position { x: 3, y: 1 }));
    assert!(fov.is_visible(Position { x: 5, y: 1 }));
    assert!(fov.is_explored(Position { x: 3, y: 1 }));
    assert!(fov.is_explored(Position { x: 5, y: 1 }));
    assert!(!fov.is_explored(Position { x: 100, y: 100 }));
}

#[test]
fn origin_outside_the_grid_is_still_visible() {
    let dungeon = open_field(3);
    let mut fov = Fov::new(3);
    fov.calculate(Position { x: -5, y: -5 }, &dungeon);
    assert!(fov.is_visible(Position { x: -5, y: -5 }));
}

#[test]
fn negative_radius_sees_only_the_origin() {
    let dungeon = open_field(5);
    let mut fov = Fov::new(-3);
    fov.calculate(Position { x: 2, y: 2 }, &dungeon);
    assert_eq!(fov.visible_count(), 1);
    assert!(fov.is_visible(Position { x: 2, y: 2 }));
}

#[test]
fn neighbours_visible_even_when_all_are_walls() {
    let dungeon = create_test_dungeon(&["#####", "#####", "##.##", "#####", "#####"]);
    let mut fov = Fov::new(2);
    fov.calculate(Position { x: 2, y: 2 }, &dungeon);
    for (x, y) in [(1, 1), (2, 1), (3, 1), (1, 2), (3, 2), (1, 3), (2, 3), (3, 3)] {
        assert!(fov.is_visible(Position { x, y }));
    }
    assert!(!fov.is_visible(Position { x: 2, y: 0 }));
    assert_eq!(fov.visible_count(), 9);
}

#[test]
fn radius_one_excludes_diagonals() {
    let dungeon = open_field(5);
    let mut fov = Fov::new(1);
    fov.calculate(Position { x: 2, y: 2 }, &dungeon);
    assert_eq!(fov.visible_count(), 5);
    assert!(!fov.is_visible(Position { x: 1, y: 1 }));
}

#[test]
fn fresh_and_reused_states_see_the_same() {
    let dungeon = create_test_dungeon(&["#######", "#..#..#", "#.....#", "#######"]);
    let mut reused = Fov::new(6);
    reused.calculate(Position { x: 5, y: 1 }, &dungeon);
    reused.calculate(Position { x: 1, y: 1 }, &dungeon);
    let mut fresh = Fov::new(6);
    fresh.calculate(Position { x: 1, y: 1 }, &dungeon);
    assert_eq!(reused.visible_count(), fresh.visible_count());
    for y in -1..5 {
        for x in -1..8 {
            let p = Position { x, y };
            assert_eq!(reused.is_visible(p), fresh.is_visible(p));
        }
    }
}
