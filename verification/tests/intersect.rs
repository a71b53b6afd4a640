use bsp_map::Point;
use bsp_map::bsp::Room;

// === Room intersect testing ===
#[test]
fn non_intersect_touching_walls() {
    let room_one = Room::new(Point { x: 0, y: 0 }, Point { x: 10, y: 10 });
    let room_two = Room::new(Point { x: 10, y: 10 }, Point { x: 10, y: 10 });
    assert_eq!(false, room_one.intersects(&room_two));
}

#[test]
fn non_intersect_nothing_touch() {
    let room_one = Room::new(Point { x: 0, y: 0 }, Point { x: 10, y: 10 });
    let room_two = Room::new(Point { x: 15, y: 15 }, Point { x: 10, y: 10 });
    assert_eq!(false, room_one.intersects(&room_two));
}

#[test]
fn intersect_top_right_corner() {
    let room_one = Room::new(Point { x: 0, y: 0 }, Point { x: 10, y: 10 });
    let room_two = Room::new(Point { x: 9, y: 9 }, Point { x: 123, y: 321 });
    assert_eq!(true, room_one.intersects(&room_two));
}

#[test]
fn full_intersect() {
    let room_one = Room::new(Point { x: 0, y: 0 }, Point { x: 10, y: 10 });
    let room_two = Room::new(Point { x: 0, y: 0 }, Point { x: 20, y: 20 });
    assert_eq!(true, room_one.intersects(&room_two));
}

#[test]
fn intersect_up_shift() {
    let room_one = Room::new(Point { x: 0, y: 0 }, Point { x: 10, y: 10 });
    let room_two = Room::new(Point { x: 0, y: 5 }, Point { x: 10, y: 10 });
    assert_eq!(true, room_one.intersects(&room_two));
}

// Intersection is symmetric in both the overlapping and the disjoint
// case.
#[test]
fn intersect_symmetry_samples() {
    let pairs = [
        (
            Room::new(Point { x: 0, y: 0 }, Point { x: 10, y: 10 }),
            Room::new(Point { x: 9, y: 9 }, Point { x: 123, y: 321 }),
        ),
        (
            Room::new(Point { x: 0, y: 0 }, Point { x: 10, y: 10 }),
            Room::new(Point { x: 10, y: 10 }, Point { x: 10, y: 10 }),
        ),
        (
            Room::new(Point { x: 3, y: 7 }, Point { x: 4, y: 2 }),
            Room::new(Point { x: 5, y: 8 }, Point { x: 1, y: 1 }),
        ),
    ];
    for (a, b) in pairs.iter() {
        assert_eq!(a.intersects(b), b.intersects(a));
    }
}

// Rectangles that only share a boundary edge (not just a corner) still
// do not intersect.
#[test]
fn non_intersect_shared_edge() {
    let room_one = Room::new(Point { x: 0, y: 0 }, Point { x: 10, y: 10 });
    let room_two = Room::new(Point { x: 10, y: 0 }, Point { x: 10, y: 10 });
    assert_eq!(false, room_one.intersects(&room_two));
    assert_eq!(false, room_two.intersects(&room_one));
}
