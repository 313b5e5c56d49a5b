use hyakki::world::generator::Room;

#[test]
fn test_room_creation() {
    let room = Room::new(10, 20, 5, 4);
    assert_eq!(room.x1, 10);
    assert_eq!(room.y1, 20);
    assert_eq!(room.x2, 15);
    assert_eq!(room.y2, 24);
}

#[test]
fn test_room_center() {
    let room = Room::new(10, 10, 10, 10);
    let center = room.center();
    assert_eq!(center.x, 15);
    assert_eq!(center.y, 15);
}

#[test]
fn test_rooms_intersect() {
    let room1 = Room::new(0, 0, 10, 10);
    let room2 = Room::new(5, 5, 10, 10);
    assert!(room1.intersects(&room2));
}

#[test]
fn test_rooms_do_not_intersect() {
    let room1 = Room::new(0, 0, 5, 5);
    let room2 = Room::new(10, 10, 5, 5);
    assert!(!room1.intersects(&room2));
}

#[test]
fn test_rooms_adjacent_intersect() {
    let room1 = Room::new(0, 0, 5, 5);
    let room2 = Room::new(6, 0, 5, 5);
    assert!(room1.intersects(&room2));
}

#[test]
fn rooms_two_cells_apart_do_not_intersect() {
    // x2 = 5, x1 = 7: columns 5 and 6 lie between the rooms.
    let room1 = Room::new(0, 0, 5, 5);
    let room2 = Room::new(7, 0, 5, 5);
    assert!(!room1.intersects(&room2));
    assert!(!room2.intersects(&room1));
}

#[test]
fn room_center_truncates() {
    let room = Room::new(1, 2, 6, 7);
    let center = room.center();
    assert_eq!(center.x, 4);
    assert_eq!(center.y, 5);
}

#[test]
fn room_center_truncates_toward_zero_when_negative() {
    let room = Room::new(-4, -3, 1, 2);
    let center = room.center();
    // (-4 + -3) / 2 and (-3 + -1) / 2
    assert_eq!(center.x, -3);
    assert_eq!(center.y, -2);
}
