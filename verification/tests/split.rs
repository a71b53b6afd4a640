use bsp_map::Point;
use bsp_map::bsp::Leaf;

use rand::SeedableRng;
use rand::rngs::StdRng;

// === Leaf split testing ===
// Split conditions:
// - Will not split if the leaf is no larger than the minimum room size.
// - Split horizontal if leaf height is >125% of width.
// - Split vertical if leaf width is >125% of height.
// - Random split if both leaf width and height are within 125% of each other.
#[test]
fn test_no_split_too_small_horz() {}

#[test]
fn test_no_split_too_small_vert() {}

#[test]
fn test_leaf_split_horz() {
    // Vertically large room
    let mut vert_room = Leaf::new(Point::new(0, 0), Point::new(20, 50));

    let split = vert_room.split(
        &mut SeedableRng::seed_from_u64(123),
        &Point::new(10, 10),
        &Point::new(15, 15),
    );
    assert_eq!(split, true);
    let left_child = vert_room.left_child.unwrap();
    let right_child = vert_room.right_child.unwrap();

    // Now that we have split horizontally, the left child should be moved to the
    assert_eq!(left_child.position, vert_room.position);
    assert_eq!(
        left_child.size.x + left_child.size.y <= vert_room.size.x + vert_room.size.y,
        true
    );

    assert_eq!(right_child.position.y >= vert_room.position.y, true);
    assert_eq!(
        right_child.size.x + right_child.size.y <= vert_room.size.x + vert_room.size.y,
        true
    );
}

// A node no larger than the minimum room size on both axes never
// splits, and both children stay absent.
#[test]
fn split_too_small_returns_false() {
    let mut tiny = Leaf::new(Point::new(4, 4), Point::new(2, 2));
    let mut rng: StdRng = SeedableRng::seed_from_u64(7);
    for _ in 0..16 {
        let split = tiny.split(&mut rng, &Point::new(10, 10), &Point::new(15, 15));
        assert_eq!(split, false);
        assert!(tiny.left_child.is_none());
        assert!(tiny.right_child.is_none());
    }
}

// A node smaller than twice the minimum room size on both axes cannot
// host two rooms, so it never splits.
#[test]
fn split_below_twice_min_returns_false() {
    let mut node = Leaf::new(Point::new(0, 0), Point::new(15, 15));
    let mut rng: StdRng = SeedableRng::seed_from_u64(9);
    for _ in 0..16 {
        let split = node.split(&mut rng, &Point::new(8, 8), &Point::new(9, 9));
        assert_eq!(split, false);
        assert!(node.left_child.is_none());
        assert!(node.right_child.is_none());
    }
}

// A successful split partitions the parent exactly: the children's
// extents along the split axis add up to the parent's, the other axis
// is kept, and the left child keeps the parent's position.
#[test]
fn split_partitions_parent() {
    let mut wide = Leaf::new(Point::new(3, 5), Point::new(50, 20));
    let mut rng: StdRng = SeedableRng::seed_from_u64(42);
    let split = wide.split(&mut rng, &Point::new(10, 10), &Point::new(15, 15));
    assert_eq!(split, true);
    let left = wide.left_child.as_ref().unwrap();
    let right = wide.right_child.as_ref().unwrap();
    // 50 >= 1.25 * 20, so this splits along x
    assert_eq!(left.position, wide.position);
    assert_eq!(left.size.x + right.size.x, wide.size.x);
    assert_eq!(left.size.y, wide.size.y);
    assert_eq!(right.size.y, wide.size.y);
    assert_eq!(right.position.x, wide.position.x + left.size.x);
    assert_eq!(right.position.y, wide.position.y);
    assert!(left.size.x >= 10 && left.size.x <= 15);
}

// A node that already has children refuses to split again and stays
// unchanged.
#[test]
fn split_twice_returns_false() {
    let mut node = Leaf::new(Point::new(0, 0), Point::new(50, 20));
    let mut rng: StdRng = SeedableRng::seed_from_u64(42);
    assert_eq!(
        node.split(&mut rng, &Point::new(10, 10), &Point::new(15, 15)),
        true
    );
    let left_size = node.left_child.as_ref().unwrap().size;
    assert_eq!(
        node.split(&mut rng, &Point::new(10, 10), &Point::new(15, 15)),
        false
    );
    assert_eq!(node.left_child.as_ref().unwrap().size, left_size);
}
