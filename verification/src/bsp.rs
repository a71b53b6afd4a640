//! Map generation by binary space partitioning. The map region is split
//! recursively into a binary tree, one room is sampled per leaf, sibling
//! subtrees are connected by L-shaped corridors, and a wall layer is
//! derived around every placed tile. The map must measure at least
//! (20, 20).

use vstd::prelude::*;

use rand::rngs::StdRng;

use crate::{Point, Tile};
use crate::grid::TileGrid;
use crate::rng::{rng_flip, rng_range};

verus! {

/// An axis-aligned rectangle: a room or a corridor segment. It occupies
/// the half-open tile area
/// `[position.x, position.x + size.x) x [position.y, position.y + size.y)`.
#[derive(Clone, Copy, PartialEq, Eq, Hash, Debug, Structural)]
pub struct Room {
    pub position: Point,
    pub size: Point,
}

/// Whether the half-open areas of `a` and `b` overlap on both axes.
/// Rectangles that only touch along an edge or a corner do not overlap.
pub open spec fn spec_intersects(a: Room, b: Room) -> bool {
    &&& a.position.x + a.size.x > b.position.x
    &&& b.position.x + b.size.x > a.position.x
    &&& a.position.y + a.size.y > b.position.y
    &&& b.position.y + b.size.y > a.position.y
}

/// Whether `p` lies inside the half-open tile area of `r`.
pub open spec fn in_rect(r: Room, p: Point) -> bool {
    &&& r.position.x <= p.x < r.position.x + r.size.x
    &&& r.position.y <= p.y < r.position.y + r.size.y
}

impl Room {
    pub fn new(position: Point, size: Point) -> (r: Self)
        ensures
            r.position == position,
            r.size == size,
    {
        Room { position, size }
    }

    /// True iff the two rectangles overlap in both axes; touching edges
    /// count as non-overlapping.
    pub fn intersects(&self, other: &Room) -> (r: bool)
        requires
            self.position.x + self.size.x <= usize::MAX,
            self.position.y + self.size.y <= usize::MAX,
            other.position.x + other.size.x <= usize::MAX,
            other.position.y + other.size.y <= usize::MAX,
        ensures
            r == spec_intersects(*self, *other),
    {
        let x_intersect: bool = (self.position.x + self.size.x > other.position.x) && (
        other.position.x + other.size.x > self.position.x);
        let y_intersect: bool = (self.position.y + self.size.y > other.position.y) && (
        other.position.y + other.size.y > self.position.y);
        x_intersect && y_intersect
    }
}

/// Intersection is symmetric: testing A against B equals testing B
/// against A.
pub proof fn lemma_intersects_symmetric(a: Room, b: Room)
    ensures
        spec_intersects(a, b) == spec_intersects(b, a),
{
}

/// Rectangles that only share a boundary edge do not intersect: if one
/// rectangle ends exactly where the other begins on either axis, they do
/// not overlap.
pub proof fn lemma_touching_edges_do_not_intersect(a: Room, b: Room)
    requires
        a.position.x + a.size.x == b.position.x || b.position.x + b.size.x == a.position.x
            || a.position.y + a.size.y == b.position.y || b.position.y + b.size.y == a.position.y,
    ensures
        !spec_intersects(a, b),
{
}

/// The reason a map configuration was rejected at construction time.
/// Construction is validated up front; generation itself cannot fail.
#[derive(Clone, Copy, PartialEq, Eq, Hash, Debug, Structural)]
pub enum ConfigError {
    /// The map is narrower or shorter than the 20-tile minimum.
    SizeTooSmall,
    /// The minimum room width is not below the maximum room width.
    MinRoomNotBelowMaxX,
    /// The minimum room height is not below the maximum room height.
    MinRoomNotBelowMaxY,
    /// The maximum room width is not below the map width.
    MaxRoomNotBelowSizeX,
    /// The maximum room height is not below the map height.
    MaxRoomNotBelowSizeY,
}

/// The message that names each violated bound.
pub open spec fn spec_message(e: ConfigError) -> Seq<char> {
    match e {
        ConfigError::SizeTooSmall => "Size of a BSP map needs to be greater than or equal x: 20, y: 20"@,
        ConfigError::MinRoomNotBelowMaxX => "Minimum room size (x) needs to be less than maximum room size (x)."@,
        ConfigError::MinRoomNotBelowMaxY => "Minimum room size (y) needs to be less than maximum room size (y)."@,
        ConfigError::MaxRoomNotBelowSizeX => "Maximum room size (x) must be less than map size (x)."@,
        ConfigError::MaxRoomNotBelowSizeY => "Maximum room size (y) must be less than map size (y)."@,
    }
}

impl ConfigError {
    /// A human-readable message naming the violated bound.
    pub fn message(&self) -> (r: &'static str)
        ensures
            r@ == spec_message(*self),
    {
        match self {
            ConfigError::SizeTooSmall => "Size of a BSP map needs to be greater than or equal x: 20, y: 20",
            ConfigError::MinRoomNotBelowMaxX => "Minimum room size (x) needs to be less than maximum room size (x).",
            ConfigError::MinRoomNotBelowMaxY => "Minimum room size (y) needs to be less than maximum room size (y).",
            ConfigError::MaxRoomNotBelowSizeX => "Maximum room size (x) must be less than map size (x).",
            ConfigError::MaxRoomNotBelowSizeY => "Maximum room size (y) must be less than map size (y).",
        }
    }
}

/// Largest map extent the builder accepts on each axis; keeps every
/// coordinate computed during generation within the grid's packed-key
/// range and free of overflow on any platform.
pub const COORD_LIMIT: usize = 0x4000_0000;

/// A node of the partition tree: a rectangular region that either is a
/// leaf (both children absent, a room may be sampled in it) or is
/// internal (both children present, no room of its own). Corridor
/// rectangles are appended to a node when its parent connects it to its
/// sibling.
pub struct Leaf {
    /// Top left corner (x, y).
    pub position: Point,
    /// Extent of the region (x, y).
    pub size: Point,
    pub left_child: Option<Box<Leaf>>,
    pub right_child: Option<Box<Leaf>>,
    pub room: Option<Room>,
    pub corridors: Vec<Room>,
}

/// Whether `inner`'s region lies inside `outer`'s region.
pub open spec fn box_within(inner: Leaf, outer: Leaf) -> bool {
    &&& outer.position.x <= inner.position.x
    &&& inner.position.x + inner.size.x <= outer.position.x + outer.size.x
    &&& outer.position.y <= inner.position.y
    &&& inner.position.y + inner.size.y <= outer.position.y + outer.size.y
}

/// A node fresh from construction: childless, roomless, without
/// corridors, and with a non-empty region.
pub open spec fn fresh_leaf(l: Leaf) -> bool {
    &&& l.left_child is None
    &&& l.right_child is None
    &&& l.room is None
    &&& l.corridors@.len() == 0
    &&& 1 <= l.size.x
    &&& 1 <= l.size.y
}

/// The children of `l`, if it has any, partition `l`'s region exactly
/// along one axis: the left child keeps the parent's position, the two
/// extents along the split axis add up to the parent's, and the other
/// axis is kept whole.
pub open spec fn children_partition(l: Leaf) -> bool {
    match (l.left_child, l.right_child) {
        (Some(a), Some(b)) => {
            &&& a.position == l.position
            &&& ({
                ||| (a.size.y == l.size.y && b.size.y == l.size.y && a.size.x + b.size.x == l.size.x
                    && b.position.x == l.position.x + a.size.x && b.position.y == l.position.y)
                ||| (a.size.x == l.size.x && b.size.x == l.size.x && a.size.y + b.size.y == l.size.y
                    && b.position.y == l.position.y + a.size.y && b.position.x == l.position.x)
            })
        },
        _ => true,
    }
}

/// Structural well-formedness of a partition tree: regions are
/// non-empty, children come in pairs or not at all, each node's
/// children partition its region exactly along one axis (and so lie
/// inside it), and internal nodes carry no room.
pub open spec fn tree_wf(l: Leaf) -> bool
    decreases l,
{
    &&& 1 <= l.size.x
    &&& 1 <= l.size.y
    &&& match (l.left_child, l.right_child) {
        (None, None) => true,
        (Some(a), Some(b)) => {
            &&& l.room is None
            &&& tree_wf(*a)
            &&& tree_wf(*b)
            &&& box_within(*a, l)
            &&& box_within(*b, l)
            &&& children_partition(l)
        },
        _ => false,
    }
}

/// No node of the subtree carries a corridor yet.
pub open spec fn corridors_none(l: Leaf) -> bool
    decreases l,
{
    &&& l.corridors@.len() == 0
    &&& match l.left_child {
        Some(a) => corridors_none(*a),
        None => true,
    }
    &&& match l.right_child {
        Some(b) => corridors_none(*b),
        None => true,
    }
}

/// Whether `r` is a room carried somewhere in the subtree of `l`.
pub open spec fn subtree_room(l: Leaf, r: Room) -> bool
    decreases l,
{
    ||| l.room == Some(r)
    ||| match l.left_child {
        Some(a) => subtree_room(*a, r),
        None => false,
    }
    ||| match l.right_child {
        Some(b) => subtree_room(*b, r),
        None => false,
    }
}

/// Whether `c` is a corridor carried somewhere in the subtree of `l`.
pub open spec fn subtree_corridor(l: Leaf, c: Room) -> bool
    decreases l,
{
    ||| l.corridors@.contains(c)
    ||| match l.left_child {
        Some(a) => subtree_corridor(*a, c),
        None => false,
    }
    ||| match l.right_child {
        Some(b) => subtree_corridor(*b, c),
        None => false,
    }
}

/// The representative room of a subtree: a leaf's own room; for any
/// other node the left subtree's pick when one exists, else the right
/// subtree's — the left-biased depth-first choice that anchors
/// corridors. `None` exactly when no leaf of the subtree has a room.
pub open spec fn spec_get_room(l: Leaf) -> Option<Room>
    decreases l,
{
    if l.is_leaf_spec() {
        l.room
    } else {
        let lr = match l.left_child {
            Some(a) => spec_get_room(*a),
            None => None,
        };
        let rr = match l.right_child {
            Some(b) => spec_get_room(*b),
            None => None,
        };
        if lr is Some {
            lr
        } else {
            rr
        }
    }
}

/// A subtree whose every leaf has a room has a representative room.
proof fn lemma_filled_has_room(l: Leaf)
    requires
        rooms_filled(l),
    ensures
        spec_get_room(l) is Some,
    decreases l,
{
    match (l.left_child, l.right_child) {
        (Some(a), Some(b)) => {
            lemma_filled_has_room(*a);
        },
        (Some(a), None) => {
            lemma_filled_has_room(*a);
        },
        (None, Some(b)) => {
            lemma_filled_has_room(*b);
        },
        (None, None) => {},
    }
}

/// The representative room is a room of the subtree.
proof fn lemma_get_room_in_subtree(l: Leaf)
    requires
        spec_get_room(l) is Some,
    ensures
        subtree_room(l, spec_get_room(l).unwrap()),
    decreases l,
{
    if !l.is_leaf_spec() {
        match l.left_child {
            Some(a) => {
                if spec_get_room(*a) is Some {
                    lemma_get_room_in_subtree(*a);
                } else {
                    match l.right_child {
                        Some(b) => {
                            lemma_get_room_in_subtree(*b);
                        },
                        None => {},
                    }
                }
            },
            None => {
                match l.right_child {
                    Some(b) => {
                        lemma_get_room_in_subtree(*b);
                    },
                    None => {},
                }
            },
        }
    }
}

/// Every leaf of the subtree has a sampled room.
pub open spec fn rooms_filled(l: Leaf) -> bool
    decreases l,
{
    match (l.left_child, l.right_child) {
        (None, None) => l.room is Some,
        (Some(a), Some(b)) => rooms_filled(*a) && rooms_filled(*b),
        (Some(a), None) => rooms_filled(*a),
        (None, Some(b)) => rooms_filled(*b),
    }
}

/// Every leaf of the tree is saturated: too small on some axis to be
/// guaranteed another split — the largest split offset plus a minimum
/// room no longer fits. Generation stops splitting only at such
/// regions.
pub open spec fn leaves_saturated(l: Leaf, min: Point, max: Point) -> bool
    decreases l,
{
    match (l.left_child, l.right_child) {
        (Some(a), Some(b)) => leaves_saturated(*a, min, max) && leaves_saturated(*b, min, max),
        _ => l.size.x < max.x + min.x || l.size.y < max.y + min.y,
    }
}

/// Every region of the subtree measures at least the minimum room size
/// on both axes, so a room always fits inside its leaf.
pub open spec fn tree_ge_min(l: Leaf, min: Point) -> bool
    decreases l,
{
    &&& min.x <= l.size.x
    &&& min.y <= l.size.y
    &&& match l.left_child {
        Some(a) => tree_ge_min(*a, min),
        None => true,
    }
    &&& match l.right_child {
        Some(b) => tree_ge_min(*b, min),
        None => true,
    }
}

/// Bounds that room sampling guarantees relative to a region ending at
/// `(ex, ey)`: at least the minimum size, and contained in the region.
pub open spec fn room_ok(r: Room, min: Point, ex: int, ey: int) -> bool {
    &&& min.x <= r.size.x
    &&& min.y <= r.size.y
    &&& r.position.x <= ex
    &&& r.position.y <= ey
    &&& 0 < r.size.x ==> r.position.x < ex
    &&& 0 < r.size.y ==> r.position.y < ey
    &&& r.position.x + r.size.x <= ex
    &&& r.position.y + r.size.y <= ey
}

/// Every room in the subtree satisfies `room_ok` for the given bounds.
pub open spec fn all_rooms_bounded(l: Leaf, min: Point, ex: int, ey: int) -> bool {
    forall|r: Room| #[trigger] subtree_room(l, r) ==> room_ok(r, min, ex, ey)
}

/// A corridor segment is one tile thin and its far corner stays within
/// the given bounds.
pub open spec fn corridor_ok(c: Room, bx: int, by: int) -> bool {
    &&& c.size.x == 1 || c.size.y == 1
    &&& c.position.x + c.size.x <= bx
    &&& c.position.y + c.size.y <= by
}

/// Every corridor in the subtree satisfies `corridor_ok`.
pub open spec fn all_corridors_bounded(l: Leaf, bx: int, by: int) -> bool {
    forall|c: Room| #[trigger] subtree_corridor(l, c) ==> corridor_ok(c, bx, by)
}

/// What a split along x (a vertical cut) leaves in the two children
/// `a` and `b` of a parent `pre`: both keep the parent's height, their
/// widths add up to the parent's, the offset honours the room bounds of
/// the x axis, and both children are at least one room wide.
pub open spec fn split_along_x(pre: Leaf, a: Leaf, b: Leaf, min: Point, max: Point) -> bool {
    &&& a.size.y == pre.size.y
    &&& b.size.y == pre.size.y
    &&& min.x <= a.size.x && a.size.x <= max.x
    &&& min.x <= b.size.x
    &&& 1 <= a.size.x && a.size.x < pre.size.x
    &&& a.size.x + b.size.x == pre.size.x
    &&& b.position.x == pre.position.x + a.size.x
    &&& b.position.y == pre.position.y
}

/// What a split along y (a horizontal cut) leaves in the two children,
/// symmetric to `split_along_x`.
pub open spec fn split_along_y(pre: Leaf, a: Leaf, b: Leaf, min: Point, max: Point) -> bool {
    &&& a.size.x == pre.size.x
    &&& b.size.x == pre.size.x
    &&& min.y <= a.size.y && a.size.y <= max.y
    &&& min.y <= b.size.y
    &&& 1 <= a.size.y && a.size.y < pre.size.y
    &&& a.size.y + b.size.y == pre.size.y
    &&& b.position.y == pre.position.y + a.size.y
    &&& b.position.x == pre.position.x
}

/// What a successful split leaves behind: two fresh children that
/// partition the parent's region exactly along one axis. The left child
/// keeps the parent's position, the two extents along the split axis
/// add up to the parent's, and the offset honours the room bounds of
/// the split axis.
pub open spec fn split_children_ok(pre: Leaf, post: Leaf, min: Point, max: Point) -> bool {
    match (post.left_child, post.right_child) {
        (Some(a), Some(b)) => {
            &&& fresh_leaf(*a)
            &&& fresh_leaf(*b)
            &&& a.position == pre.position
            &&& (split_along_x(pre, *a, *b, min, max) || split_along_y(pre, *a, *b, min, max))
        },
        _ => false,
    }
}

impl Leaf {
    pub fn new(position: Point, size: Point) -> (r: Self)
        ensures
            r.position == position,
            r.size == size,
            r.left_child is None,
            r.right_child is None,
            r.room is None,
            r.corridors@.len() == 0,
    {
        Leaf {
            position,
            size,
            left_child: None,
            right_child: None,
            room: None,
            corridors: Vec::new(),
        }
    }

    /// Splits this node's region into two children along one axis.
    ///
    /// The split axis follows the region's shape: a region wider than
    /// 5/4 of its height splits along x, one taller than 5/4 of its
    /// width splits along y, and otherwise a coin flip decides. The
    /// split offset is drawn uniformly from the room bounds of the
    /// chosen axis. The split fails — returning false and leaving the
    /// node exactly as it was — when the node already has children, or
    /// when the drawn offset would leave either child empty or the
    /// second child smaller than the minimum room size: a room must
    /// fit in every child.
    ///
    /// On success the children partition the parent exactly: their
    /// extents along the split axis add up to the parent's, and the
    /// left child keeps the parent's position. A node smaller than
    /// twice the minimum room size on both axes never splits. When the
    /// aspect ratio forces the axis, the split is along that axis, and
    /// it succeeds whenever the largest offset plus a minimum room
    /// fits along it; only the fair-coin choice between the two axes
    /// of a near-square region is left unstated.
    pub fn split(&mut self, rng: &mut StdRng, min_room_size: &Point, max_room_size: &Point) -> (r:
        bool)
        requires
            min_room_size.x <= max_room_size.x,
            min_room_size.y <= max_room_size.y,
            max_room_size.x <= COORD_LIMIT,
            max_room_size.y <= COORD_LIMIT,
            old(self).position.x + old(self).size.x <= COORD_LIMIT,
            old(self).position.y + old(self).size.y <= COORD_LIMIT,
            1 <= old(self).size.x,
            1 <= old(self).size.y,
        ensures
            !r ==> *final(self) == *old(self),
            r ==> old(self).is_leaf_spec(),
            r ==> final(self).position == old(self).position && final(self).size == old(self).size
                && final(self).room == old(self).room && final(self).corridors == old(
            self,
            ).corridors,
            r ==> split_children_ok(*old(self), *final(self), *min_room_size, *max_room_size),
            r && old(self).size.x > old(self).size.y && 4 * old(self).size.x >= 5 * old(
                self,
            ).size.y ==> split_along_x(
                *old(self),
                *final(self).left_child.unwrap(),
                *final(self).right_child.unwrap(),
                *min_room_size,
                *max_room_size,
            ),
            r && old(self).size.y > old(self).size.x && 4 * old(self).size.y >= 5 * old(
                self,
            ).size.x ==> split_along_y(
                *old(self),
                *final(self).left_child.unwrap(),
                *final(self).right_child.unwrap(),
                *min_room_size,
                *max_room_size,
            ),
            old(self).size.x < 2 * min_room_size.x && old(self).size.y < 2 * min_room_size.y
                ==> !r,
            !old(self).is_leaf_spec() ==> !r,
            old(self).is_leaf_spec() && 1 <= min_room_size.x && 1 <= min_room_size.y
                && max_room_size.x + min_room_size.x <= old(self).size.x && max_room_size.y
                + min_room_size.y <= old(self).size.y ==> r,
            old(self).is_leaf_spec() && old(self).size.x > old(self).size.y && 4 * old(
                self,
            ).size.x >= 5 * old(self).size.y && 1 <= min_room_size.x && max_room_size.x
                + min_room_size.x <= old(self).size.x ==> r,
            old(self).is_leaf_spec() && old(self).size.y > old(self).size.x && 4 * old(
                self,
            ).size.y >= 5 * old(self).size.x && 1 <= min_room_size.y && max_room_size.y
                + min_room_size.y <= old(self).size.y ==> r,
    {
        if self.left_child.is_some() || self.right_child.is_some() {
            return false;
        }
        // Choose the split direction from the region's aspect ratio;
        // the 5/4 threshold is compared in exact integer arithmetic.
        let split_horizontal: bool;
        if self.size.x > self.size.y && 4 * (self.size.x as u64) >= 5 * (self.size.y as u64) {
            split_horizontal = false;
        } else if self.size.y > self.size.x && 4 * (self.size.y as u64) >= 5 * (self.size.x
            as u64) {
            split_horizontal = true;
        } else {
            split_horizontal = rng_flip(rng);
        }
        // Draw the split offset from the room bounds of the split axis.
        let split: usize = if split_horizontal {
            rng_range(rng, min_room_size.y, max_room_size.y)
        } else {
            rng_range(rng, min_room_size.x, max_room_size.x)
        };
        // A degenerate offset would leave a child empty or the second
        // child too small for a room: abort the split and leave the
        // node childless.
        if split_horizontal {
            if split == 0 || split >= self.size.y || self.size.y - split < min_room_size.y {
                return false;
            }
            self.left_child = Some(
                Box::new(
                    Leaf::new(
                        Point::new(self.position.x, self.position.y),
                        Point::new(self.size.x, split),
                    ),
                ),
            );
            self.right_child = Some(
                Box::new(
                    Leaf::new(
                        Point::new(self.position.x, self.position.y + split),
                        Point::new(self.size.x, self.size.y - split),
                    ),
                ),
            );
            true
        } else {
            if split == 0 || split >= self.size.x || self.size.x - split < min_room_size.x {
                return false;
            }
            self.left_child = Some(
                Box::new(
                    Leaf::new(
                        Point::new(self.position.x, self.position.y),
                        Point::new(split, self.size.y),
                    ),
                ),
            );
            self.right_child = Some(
                Box::new(
                    Leaf::new(
                        Point::new(self.position.x + split, self.position.y),
                        Point::new(self.size.x - split, self.size.y),
                    ),
                ),
            );
            true
        }
    }

    pub open spec fn is_leaf_spec(self) -> bool {
        self.left_child is None && self.right_child is None
    }

    /// Splits this node and, while splitting succeeds, both children in
    /// turn, growing the partition tree until every region is too small
    /// to divide further.
    fn generate(&mut self, rng: &mut StdRng, min_room_size: &Point, max_room_size: &Point)
        requires
            fresh_leaf(*old(self)),
            min_room_size.x <= old(self).size.x,
            min_room_size.y <= old(self).size.y,
            min_room_size.x <= max_room_size.x,
            min_room_size.y <= max_room_size.y,
            max_room_size.x <= COORD_LIMIT,
            max_room_size.y <= COORD_LIMIT,
            old(self).position.x + old(self).size.x <= COORD_LIMIT,
            old(self).position.y + old(self).size.y <= COORD_LIMIT,
        ensures
            final(self).position == old(self).position,
            final(self).size == old(self).size,
            final(self).room is None,
            tree_wf(*final(self)),
            corridors_none(*final(self)),
            tree_ge_min(*final(self), *min_room_size),
            1 <= min_room_size.x && 1 <= min_room_size.y && max_room_size.x + min_room_size.x
                <= old(self).size.x && max_room_size.y + min_room_size.y <= old(self).size.y
                ==> !final(self).is_leaf_spec(),
            1 <= min_room_size.x && 1 <= min_room_size.y ==> leaves_saturated(
                *final(self),
                *min_room_size,
                *max_room_size,
            ),
        decreases old(self).size.x + old(self).size.y,
    {
        if self.is_leaf() {
            if self.split(rng, min_room_size, max_room_size) {
                let lc = self.left_child.take();
                match lc {
                    Some(mut node) => {
                        (&mut *node).generate(rng, min_room_size, max_room_size);
                        self.left_child = Some(node);
                    },
                    None => {
                        proof {
                            assert(false);
                        }
                    },
                }
                let rc = self.right_child.take();
                match rc {
                    Some(mut node) => {
                        (&mut *node).generate(rng, min_room_size, max_room_size);
                        self.right_child = Some(node);
                    },
                    None => {
                        proof {
                            assert(false);
                        }
                    },
                }
            }
        }
    }

    /// The representative room used to anchor corridors: a leaf returns
    /// its own sampled room, an internal node the left subtree's room if
    /// one exists, else the right subtree's.
    fn get_room(&self) -> (r: Option<Room>)
        ensures
            r == spec_get_room(*self),
            r matches Some(room) ==> subtree_room(*self, room),
            rooms_filled(*self) ==> r is Some,
        decreases *self,
    {
        if self.is_leaf() {
            return self.room;
        }
        let mut left_room: Option<Room> = None;
        let mut right_room: Option<Room> = None;
        match &self.left_child {
            Some(node) => {
                left_room = node.get_room();
            },
            None => {},
        }
        match &self.right_child {
            Some(node) => {
                right_room = node.get_room();
            },
            None => {},
        }
        match (left_room, right_room) {
            (None, None) => None,
            (Some(room), _) => Some(room),
            (_, Some(room)) => Some(room),
        }
    }

    /// Samples one room per leaf, post-order, and connects the two
    /// subtrees of every internal node with an L-shaped corridor as
    /// they are finalized.
    ///
    /// A leaf draws a width uniformly from the minimum room width up to
    /// the leaf's width (keeping the minimum when the leaf is no wider
    /// than it), a height likewise, then draws the room's offset
    /// uniformly within the remaining slack.
    fn create_rooms(&mut self, rng: &mut StdRng, min_room_size: &Point)
        requires
            tree_wf(*old(self)),
            corridors_none(*old(self)),
            tree_ge_min(*old(self), *min_room_size),
            old(self).position.x + old(self).size.x <= COORD_LIMIT,
            old(self).position.y + old(self).size.y <= COORD_LIMIT,
            min_room_size.x <= COORD_LIMIT,
            min_room_size.y <= COORD_LIMIT,
        ensures
            final(self).position == old(self).position,
            final(self).size == old(self).size,
            final(self).is_leaf_spec() == old(self).is_leaf_spec(),
            tree_wf(*final(self)),
            rooms_filled(*final(self)),
            all_rooms_bounded(
                *final(self),
                *min_room_size,
                old(self).position.x + old(self).size.x,
                old(self).position.y + old(self).size.y,
            ),
            all_corridors_bounded(
                *final(self),
                old(self).position.x + old(self).size.x + 1,
                old(self).position.y + old(self).size.y + 1,
            ),
            final(self).corridors == old(self).corridors,
            corridors_synthesized(*final(self)),
        decreases *old(self),
    {
        let ghost ex: int = old(self).position.x + old(self).size.x;
        let ghost ey: int = old(self).position.y + old(self).size.y;
        let lc = self.left_child.take();
        match lc {
            Some(mut node) => {
                (&mut *node).create_rooms(rng, min_room_size);
                self.left_child = Some(node);
            },
            None => {},
        }
        let rc = self.right_child.take();
        match rc {
            Some(mut node) => {
                (&mut *node).create_rooms(rng, min_room_size);
                self.right_child = Some(node);
            },
            None => {},
        }
        if self.is_leaf() {
            let width: usize;
            if min_room_size.x >= self.size.x {
                width = min_room_size.x;
            } else {
                width = rng_range(rng, min_room_size.x, self.size.x);
            }
            let height: usize;
            if min_room_size.y >= self.size.y {
                height = min_room_size.y;
            } else {
                height = rng_range(rng, min_room_size.y, self.size.y);
            }
            let x: usize;
            if self.size.x <= width {
                x = 0;
            } else {
                x = rng_range(rng, 0, self.size.x - width);
            }
            let y: usize;
            if self.size.y <= height {
                y = 0;
            } else {
                y = rng_range(rng, 0, self.size.y - height);
            }
            self.room = Some(
                Room::new(
                    Point::new(x + self.position.x, y + self.position.y),
                    Point::new(width, height),
                ),
            );
            proof {
                assert forall|r: Room| #[trigger] subtree_room(*self, r) implies room_ok(
                    r,
                    *min_room_size,
                    ex,
                    ey,
                ) by {}
                assert forall|c: Room| #[trigger] subtree_corridor(*self, c) implies corridor_ok(
                    c,
                    ex + 1,
                    ey + 1,
                ) by {
                    assert(!self.corridors@.contains(c));
                }
                assert(corridors_synthesized(*self));
            }
        } else {
            let ghost bx: int = ex + 1;
            let ghost by: int = ey + 1;
            let lc2 = self.left_child.take();
            let rc2 = self.right_child.take();
            match (lc2, rc2) {
                (Some(mut la), Some(rb)) => {
                    let ghost la_pre: Leaf = *la;
                    proof {
                        lemma_rooms_bounded_widen(
                            *la,
                            *min_room_size,
                            la.position.x + la.size.x,
                            la.position.y + la.size.y,
                            ex,
                            ey,
                        );
                        lemma_rooms_bounded_widen(
                            *rb,
                            *min_room_size,
                            rb.position.x + rb.size.x,
                            rb.position.y + rb.size.y,
                            ex,
                            ey,
                        );
                        lemma_corridors_bounded_widen(
                            *la,
                            la.position.x + la.size.x + 1,
                            la.position.y + la.size.y + 1,
                            bx,
                            by,
                        );
                        lemma_corridors_bounded_widen(
                            *rb,
                            rb.position.x + rb.size.x + 1,
                            rb.position.y + rb.size.y + 1,
                            bx,
                            by,
                        );
                    }
                    create_corridors(
                        rng,
                        &mut *la,
                        &*rb,
                        Ghost(*min_room_size),
                        Ghost(ex),
                        Ghost(ey),
                    );
                    let ghost la_post: Leaf = *la;
                    let ghost rb_val: Leaf = *rb;
                    proof {
                        lemma_same_shape(la_pre, la_post);
                        lemma_corridors_after_append(la_pre, la_post, bx, by);
                    }
                    self.left_child = Some(la);
                    self.right_child = Some(rb);
                    proof {
                        assert(tree_wf(la_post));
                        assert(tree_wf(rb_val));
                        assert(box_within(la_post, *self));
                        assert(box_within(rb_val, *self));
                        assert(self.room is None);
                        assert(tree_wf(*self));
                        assert(rooms_filled(la_post));
                        assert(rooms_filled(*self));
                        assert(self.corridors@.len() == 0);
                        assert forall|r: Room| #[trigger] subtree_room(*self, r) implies room_ok(
                            r,
                            *min_room_size,
                            ex,
                            ey,
                        ) by {
                            assert(self.room == Option::<Room>::None || subtree_room(la_post, r)
                                || subtree_room(rb_val, r));
                            if subtree_room(la_post, r) {
                                assert(subtree_room(la_pre, r));
                                assert(room_ok(r, *min_room_size, ex, ey));
                            } else {
                                assert(subtree_room(rb_val, r));
                                assert(room_ok(r, *min_room_size, ex, ey));
                            }
                        }
                        assert forall|c: Room| #[trigger] subtree_corridor(
                            *self,
                            c,
                        ) implies corridor_ok(c, bx, by) by {
                            assert(!self.corridors@.contains(c));
                            assert(subtree_corridor(la_post, c) || subtree_corridor(rb_val, c));
                            if subtree_corridor(la_post, c) {
                                assert(corridor_ok(c, bx, by));
                            } else {
                                assert(corridor_ok(c, bx, by));
                            }
                        }
                        assert(spec_get_room(la_pre) is Some) by {
                            lemma_filled_has_room(la_pre);
                        }
                        assert(spec_get_room(rb_val) is Some) by {
                            lemma_filled_has_room(rb_val);
                        }
                        let la0 = *old(self).left_child.unwrap();
                        let rb0 = *old(self).right_child.unwrap();
                        assert(corridors_none(la0));
                        assert(la0.corridors@.len() == 0);
                        assert(corridors_none(rb0));
                        assert(rb0.corridors@.len() == 0);
                        assert(la_pre.corridors@.len() == 0);
                        assert(la_post.corridors@.len() == 2);
                        assert(corridor_pair_ok(
                            la_post.corridors@[0],
                            la_post.corridors@[1],
                            spec_get_room(la_pre).unwrap(),
                            spec_get_room(rb_val).unwrap(),
                        ));
                        assert(spec_get_room(la_post) == spec_get_room(la_pre));
                        assert(corridors_synthesized(la_post));
                        assert(rb_val.corridors@.len() == 0);
                        assert(corridors_synthesized(rb_val));
                        assert(corridors_synthesized(*self));
                    }
                },
                (a, b) => {
                    self.left_child = a;
                    self.right_child = b;
                    proof {
                        assert(false);
                    }
                },
            }
        }
    }

    /// True iff this node has no children.
    pub fn is_leaf(&self) -> (r: bool)
        ensures
            r == self.is_leaf_spec(),
    {
        match self.left_child {
            None => match self.right_child {
                None => true,
                Some(_) => false,
            },
            Some(_) => false,
        }
    }
}

/// A one-tile-high horizontal corridor covering columns
/// `start_x..=end_x` of row `start_y`.
fn horz_corridor(start_x: usize, start_y: usize, end_x: usize) -> (r: Room)
    requires
        start_x <= end_x,
        end_x + 1 <= usize::MAX,
    ensures
        r.position.x == start_x,
        r.position.y == start_y,
        r.size.x == end_x - start_x + 1,
        r.size.y == 1,
{
    Room::new(Point::new(start_x, start_y), Point::new(end_x - start_x + 1, 1))
}

/// A one-tile-wide vertical corridor covering rows `start_y..end_y` of
/// column `start_x`.
fn vert_corridor(start_x: usize, start_y: usize, end_y: usize) -> (r: Room)
    requires
        start_y <= end_y,
    ensures
        r.position.x == start_x,
        r.position.y == start_y,
        r.size.x == 1,
        r.size.y == end_y - start_y,
{
    Room::new(Point::new(start_x, start_y), Point::new(1, end_y - start_y))
}

/// An L-shaped connector is internally connected: unless its vertical
/// segment is empty, some tile of the vertical segment coincides with
/// or touches a tile of the horizontal segment.
pub open spec fn l_linked(v: Room, h: Room) -> bool {
    v.size.y == 0 || exists|p: Point, q: Point|
        #![trigger in_rect(v, p), in_rect(h, q)]
        in_rect(v, p) && in_rect(h, q) && (p == q || adjacent8(p, q))
}

/// The shape of one synthesized L-connector joining the representative
/// rooms `lr` (left side) and `rr` (right side). `v` is the vertical
/// segment: one tile wide, at a column drawn in `lr`'s closed bounding
/// box, spanning between the two drawn rows, each of which lies in its
/// room's closed box. `h` is the horizontal segment: one tile high, at
/// the row drawn in `rr`'s closed box, spanning between the two drawn
/// columns inclusively. The vertical segment begins or ends at the
/// horizontal segment's row, its column lies on the horizontal
/// segment, and the two segments form one connected strip.
pub open spec fn corridor_pair_ok(v: Room, h: Room, lr: Room, rr: Room) -> bool {
    &&& v.size.x == 1
    &&& h.size.y == 1
    &&& lr.position.x <= v.position.x <= lr.position.x + lr.size.x
    &&& rr.position.y <= h.position.y <= rr.position.y + rr.size.y
    &&& (lr.position.y <= v.position.y <= lr.position.y + lr.size.y) || (rr.position.y
        <= v.position.y <= rr.position.y + rr.size.y)
    &&& (lr.position.y <= v.position.y + v.size.y <= lr.position.y + lr.size.y) || (rr.position.y
        <= v.position.y + v.size.y <= rr.position.y + rr.size.y)
    &&& (lr.position.x <= h.position.x <= lr.position.x + lr.size.x) || (rr.position.x
        <= h.position.x <= rr.position.x + rr.size.x)
    &&& (lr.position.x <= h.position.x + h.size.x - 1 <= lr.position.x + lr.size.x) || (
    rr.position.x <= h.position.x + h.size.x - 1 <= rr.position.x + rr.size.x)
    &&& v.position.y + v.size.y == h.position.y || v.position.y == h.position.y
    &&& h.position.x <= v.position.x < h.position.x + h.size.x
    &&& l_linked(v, h)
}

/// Corridor synthesis ran at every internal node of the subtree: the
/// left child carries exactly the one L-pair that connects the two
/// sides' representative rooms, the right child carries no connector of
/// its own (connectors always land in the left sibling), and both
/// subtrees are synthesized in turn.
pub open spec fn corridors_synthesized(l: Leaf) -> bool
    decreases l,
{
    match (l.left_child, l.right_child) {
        (Some(a), Some(b)) => {
            &&& a.corridors@.len() == 2
            &&& b.corridors@.len() == 0
            &&& spec_get_room(*a) is Some
            &&& spec_get_room(*b) is Some
            &&& corridor_pair_ok(
                a.corridors@[0],
                a.corridors@[1],
                spec_get_room(*a).unwrap(),
                spec_get_room(*b).unwrap(),
            )
            &&& corridors_synthesized(*a)
            &&& corridors_synthesized(*b)
        },
        _ => true,
    }
}

/// The entries of `cs` at `j` and `j + 1` form one synthesized
/// connector, anchored at two rooms of `node`'s subtree.
pub open spec fn pair_at(cs: Seq<Room>, j: int, node: Leaf) -> bool {
    exists|w1: Room, w2: Room|
        subtree_room(node, w1) && subtree_room(node, w2) && #[trigger] corridor_pair_ok(
            cs[j],
            cs[j + 1],
            w1,
            w2,
        )
}

/// Past its first `own` entries, the corridor record `cs` consists of
/// aligned L-pairs, each one a synthesized connector anchored at two
/// rooms of `node`'s subtree.
pub open spec fn cs_tail_pairs(cs: Seq<Room>, own: int, node: Leaf) -> bool {
    forall|j: int|
        own <= j < cs.len() && (j - own) % 2 == 0 ==> #[trigger] pair_at(cs, j, node)
}

/// The entries of `cs` at `j` and `j + 1` form one synthesized
/// connector, anchored at two rooms of the room list.
pub open spec fn listed_pair_at(cs: Seq<Room>, j: int, rooms: Seq<Room>) -> bool {
    exists|i1: int, i2: int|
        0 <= i1 < rooms.len() && 0 <= i2 < rooms.len() && #[trigger] corridor_pair_ok(
            cs[j],
            cs[j + 1],
            rooms[i1],
            rooms[i2],
        )
}

/// The corridor record lists whole L-connectors: it has even length,
/// and each aligned pair of segments is one synthesized connector,
/// anchored at two rooms of the room list.
pub open spec fn cs_l_pairs(cs: Seq<Room>, rooms: Seq<Room>) -> bool {
    &&& cs.len() % 2 == 0
    &&& forall|j: int|
        0 <= j < cs.len() && j % 2 == 0 ==> #[trigger] listed_pair_at(cs, j, rooms)
}

/// Connects one representative room from each side: a point is drawn in
/// each room's closed bounding box, a vertical segment is laid at the
/// left point's column between the two rows, a horizontal segment at
/// the right point's row between the two columns, and both are appended
/// to the left subtree's corridor list. Skips silently when either side
/// has no room. The two appended segments always form one connected
/// strip of tiles.
fn create_corridors(
    rng: &mut StdRng,
    left: &mut Leaf,
    right: &Leaf,
    Ghost(min): Ghost<Point>,
    Ghost(ex): Ghost<int>,
    Ghost(ey): Ghost<int>,
)
    requires
        all_rooms_bounded(*old(left), min, ex, ey),
        all_rooms_bounded(*right, min, ex, ey),
        0 <= ex,
        0 <= ey,
        ex + min.x + 1 <= 2 * COORD_LIMIT + 2,
        ey + min.y + 1 <= 2 * COORD_LIMIT + 2,
    ensures
        final(left).position == old(left).position,
        final(left).size == old(left).size,
        final(left).left_child == old(left).left_child,
        final(left).right_child == old(left).right_child,
        final(left).room == old(left).room,
        old(left).corridors@.is_prefix_of(final(left).corridors@),
        forall|i: int|
            old(left).corridors@.len() <= i < final(left).corridors@.len() ==> corridor_ok(
                #[trigger] final(left).corridors@[i],
                ex + 1,
                ey + 1,
            ),
        spec_get_room(*old(left)) is None || spec_get_room(*right) is None ==> *final(left)
            == *old(left),
        spec_get_room(*old(left)) is Some && spec_get_room(*right) is Some
            ==> final(left).corridors@.len() == old(left).corridors@.len() + 2 && corridor_pair_ok(
            final(left).corridors@[old(left).corridors@.len() as int],
            final(left).corridors@[old(left).corridors@.len() as int + 1],
            spec_get_room(*old(left)).unwrap(),
            spec_get_room(*right).unwrap(),
        ),
{
    let lr = left.get_room();
    let rr = right.get_room();
    match (lr, rr) {
        (Some(left_room), Some(right_room)) => {
            proof {
                assert(room_ok(left_room, min, ex, ey));
                assert(room_ok(right_room, min, ex, ey));
            }
            let left_point = Point::new(
                rng_range(rng, left_room.position.x, left_room.position.x + left_room.size.x),
                rng_range(rng, left_room.position.y, left_room.position.y + left_room.size.y),
            );
            let right_point = Point::new(
                rng_range(rng, right_room.position.x, right_room.position.x + right_room.size.x),
                rng_range(rng, right_room.position.y, right_room.position.y + right_room.size.y),
            );
            let v = if left_point.y <= right_point.y {
                vert_corridor(left_point.x, left_point.y, right_point.y)
            } else {
                vert_corridor(left_point.x, right_point.y, left_point.y)
            };
            let h = if left_point.x <= right_point.x {
                horz_corridor(left_point.x, right_point.y, right_point.x)
            } else {
                horz_corridor(right_point.x, right_point.y, left_point.x)
            };
            let ghost n: int = left.corridors@.len() as int;
            left.corridors.push(v);
            left.corridors.push(h);
            proof {
                assert(left.corridors@[n] == v);
                assert(left.corridors@[n + 1] == h);
                if left_point.y < right_point.y {
                    let p = (Point { x: left_point.x, y: (right_point.y - 1) as usize });
                    let q = (Point { x: left_point.x, y: right_point.y });
                    assert(in_rect(v, p));
                    assert(in_rect(h, q));
                    assert(adjacent8(p, q));
                } else if left_point.y > right_point.y {
                    let p = (Point { x: left_point.x, y: right_point.y });
                    assert(in_rect(v, p));
                    assert(in_rect(h, p));
                }
                assert(l_linked(v, h));
                assert(corridor_pair_ok(v, h, left_room, right_room));
            }
        },
        _ => {},
    }
}

/// Room bounds may be widened: a subtree bounded by a region is also
/// bounded by any enclosing region.
proof fn lemma_rooms_bounded_widen(l: Leaf, min: Point, ex1: int, ey1: int, ex2: int, ey2: int)
    requires
        all_rooms_bounded(l, min, ex1, ey1),
        ex1 <= ex2,
        ey1 <= ey2,
    ensures
        all_rooms_bounded(l, min, ex2, ey2),
{
    assert forall|r: Room| #[trigger] subtree_room(l, r) implies room_ok(r, min, ex2, ey2) by {
        assert(room_ok(r, min, ex1, ey1));
    }
}

/// Corridor bounds may be widened in the same way.
proof fn lemma_corridors_bounded_widen(l: Leaf, bx1: int, by1: int, bx2: int, by2: int)
    requires
        all_corridors_bounded(l, bx1, by1),
        bx1 <= bx2,
        by1 <= by2,
    ensures
        all_corridors_bounded(l, bx2, by2),
{
    assert forall|c: Room| #[trigger] subtree_corridor(l, c) implies corridor_ok(c, bx2, by2) by {
        assert(corridor_ok(c, bx1, by1));
    }
}

/// Two nodes that agree on everything but their own corridor list carry
/// the same rooms and the same structure.
proof fn lemma_same_shape(l1: Leaf, l2: Leaf)
    requires
        l1.position == l2.position,
        l1.size == l2.size,
        l1.left_child == l2.left_child,
        l1.right_child == l2.right_child,
        l1.room == l2.room,
    ensures
        tree_wf(l1) == tree_wf(l2),
        rooms_filled(l1) == rooms_filled(l2),
        spec_get_room(l1) == spec_get_room(l2),
        corridors_synthesized(l1) == corridors_synthesized(l2),
        forall|r: Room|
            #![trigger subtree_room(l1, r)]
            #![trigger subtree_room(l2, r)]
            subtree_room(l1, r) == subtree_room(l2, r),
{
    assert forall|r: Room| subtree_room(l1, r) == subtree_room(l2, r) by {
        assert(subtree_room(l1, r) == subtree_room(l2, r));
    }
}

/// Whether `q` lies in the 8-neighborhood of `p`.
pub open spec fn adjacent8(p: Point, q: Point) -> bool {
    &&& p != q
    &&& -1 <= p.x - q.x <= 1
    &&& -1 <= p.y - q.y <= 1
}

/// A coordinate absent from the grid that touches a present tile: wall
/// derivation fills exactly these.
pub open spec fn needs_wall(m: Map<Point, Tile>, q: Point) -> bool {
    &&& !m.dom().contains(q)
    &&& exists|p: Point| #![trigger m.dom().contains(p), adjacent8(p, q)] m.dom().contains(p)
        && adjacent8(p, q)
}

/// The coordinates the one-tile border covers: the columns `x = 0` and
/// `x = size.x` for rows below `size.y`, and the rows `y = 0` and
/// `y = size.y` for columns below `size.x`.
pub open spec fn on_border(size: Point, p: Point) -> bool {
    ||| ((p.x == 0 || p.x == size.x) && p.y < size.y)
    ||| ((p.y == 0 || p.y == size.y) && p.x < size.x)
}

/// Every tile of `r` is a floor tile of `m`.
pub open spec fn room_floored(m: Map<Point, Tile>, r: Room) -> bool {
    forall|p: Point| #[trigger] in_rect(r, p) ==> m.dom().contains(p) && m[p] == Tile::Floor
}

/// Queues `q` as a pending wall when it is absent from the grid. `src`
/// is a present tile adjacent to `q`, witnessing that the wall is owed.
fn push_if_missing(tiles: &TileGrid, walls: &mut Vec<Point>, q: Point, Ghost(src): Ghost<Point>)
    requires
        tiles@.dom().contains(src),
        adjacent8(src, q),
        forall|j: int|
            0 <= j < old(walls)@.len() ==> needs_wall(tiles@, #[trigger] old(walls)@[j]),
    ensures
        forall|j: int|
            0 <= j < final(walls)@.len() ==> needs_wall(tiles@, #[trigger] final(walls)@[j]),
        forall|j: int|
            0 <= j < old(walls)@.len() ==> #[trigger] final(walls)@[j] == old(walls)@[j],
        final(walls)@.len() >= old(walls)@.len(),
        forall|c: Point| #[trigger] old(walls)@.contains(c) ==> final(walls)@.contains(c),
        !tiles@.dom().contains(q) ==> final(walls)@.contains(q),
{
    if tiles.get(q).is_none() {
        walls.push(q);
        proof {
            assert(walls@[walls@.len() - 1] == q);
            assert(needs_wall(tiles@, q)) by {
                assert(tiles@.dom().contains(src) && adjacent8(src, q));
            }
            assert forall|j: int|
                0 <= j < walls@.len() implies needs_wall(tiles@, #[trigger] walls@[j]) by {
                if j < walls@.len() - 1 {
                    assert(walls@[j] == old(walls)@[j]);
                }
            }
            assert forall|c: Point| #[trigger] old(walls)@.contains(c) implies walls@.contains(
                c,
            ) by {
                let j = choose|j: int| 0 <= j < old(walls)@.len() && old(walls)@[j] == c;
                assert(walls@[j] == c);
            }
        }
    }
}

/// Floor tiles survive any later pass that only adds tiles and only
/// overwrites with floor.
proof fn lemma_floored_preserved(m1: Map<Point, Tile>, m2: Map<Point, Tile>, r: Room)
    requires
        room_floored(m1, r),
        forall|p: Point| m1.dom().contains(p) ==> m2.dom().contains(p),
        forall|p: Point|
            m1.dom().contains(p) ==> m2[p] == m1[p] || m2[p] == Tile::Floor,
    ensures
        room_floored(m2, r),
{
    assert forall|p: Point| #[trigger] in_rect(r, p) implies m2.dom().contains(p) && m2[p]
        == Tile::Floor by {
        assert(m1.dom().contains(p));
    }
}

/// Exactly where the floor lies, as far as the outputs show it: every
/// floor tile is covered by a listed room or by one of the corridor
/// segments `cs` — each one tile thin and within the map's overscan —
/// and never lies on a border line; conversely every corridor tile
/// away from the border lines is floor.
pub open spec fn floors_from(
    tiles: Map<Point, Tile>,
    rooms: Seq<Room>,
    cs: Seq<Room>,
    size: Point,
) -> bool {
    &&& forall|j: int|
        0 <= j < cs.len() ==> corridor_ok(#[trigger] cs[j], size.x + 1, size.y + 1)
    &&& forall|p: Point|
        #[trigger] tiles.dom().contains(p) && tiles[p] == Tile::Floor ==> !on_border(size, p) && ((
        exists|i: int| 0 <= i < rooms.len() && #[trigger] in_rect(rooms[i], p)) || (exists|j: int|
            0 <= j < cs.len() && #[trigger] in_rect(cs[j], p)))
    &&& forall|j: int, p: Point|
        #![trigger in_rect(cs[j], p)]
        0 <= j < cs.len() && in_rect(cs[j], p) && p.x != 0 && p.x != size.x && p.y != 0 && p.y
            != size.y ==> tiles.dom().contains(p) && tiles[p] == Tile::Floor
}

/// Whether the configuration passes every constraint of construction.
pub open spec fn config_ok(size: Point, min: Point, max: Point) -> bool {
    &&& size.x >= 20
    &&& size.y >= 20
    &&& min.x < max.x
    &&& min.y < max.y
    &&& max.x < size.x
    &&& max.y < size.y
}

/// The error construction reports for a rejected configuration: the
/// first violated constraint, in validation order.
pub open spec fn config_error(size: Point, min: Point, max: Point) -> ConfigError {
    if size.x < 20 || size.y < 20 {
        ConfigError::SizeTooSmall
    } else if min.x >= max.x {
        ConfigError::MinRoomNotBelowMaxX
    } else if min.y >= max.y {
        ConfigError::MinRoomNotBelowMaxY
    } else if max.x >= size.x {
        ConfigError::MaxRoomNotBelowSizeX
    } else {
        ConfigError::MaxRoomNotBelowSizeY
    }
}

/// A map generated by binary space partitioning, valid only at sizes of
/// at least (20, 20) on each axis.
pub struct BSPMap {
    size: Point,
    tiles: TileGrid,
    rooms: Vec<Room>,
    min_room_size: Point,
    max_room_size: Point,
}

impl BSPMap {
    pub closed spec fn spec_size(self) -> Point {
        self.size
    }

    pub closed spec fn spec_tiles(self) -> Map<Point, Tile> {
        self.tiles@
    }

    pub closed spec fn spec_rooms(self) -> Seq<Room> {
        self.rooms@
    }

    pub closed spec fn spec_min_room_size(self) -> Point {
        self.min_room_size
    }

    pub closed spec fn spec_max_room_size(self) -> Point {
        self.max_room_size
    }

    /// Builds a map: validates the configuration, generates the
    /// partition tree with one room per leaf and corridors between
    /// sibling subtrees, stamps them as floor, draws the border walls,
    /// and derives the wall layer around every placed tile.
    ///
    /// Construction fails exactly when the configuration violates a
    /// bound, with the error naming the first violated constraint;
    /// generation itself cannot fail. On success the room list is
    /// non-empty, every room honours the minimum room size and is
    /// anchored inside the map, rooms are stamped as floor away from
    /// the border lines, the border is wall, and every floor tile's
    /// 8-neighborhood is fully present in the grid. Every floor tile
    /// comes from a listed room or from a recorded corridor connector —
    /// whole L-pairs anchored at listed rooms, at least one whenever
    /// the map is large enough to split — and every wall tile lies on
    /// the border or touches a floor or border tile.
    pub fn new(size: Point, seed: StdRng, min_room_size: Point, max_room_size: Point) -> (r: Result<
        BSPMap,
        ConfigError,
    >)
        requires
            size.x <= COORD_LIMIT,
            size.y <= COORD_LIMIT,
        ensures
            r is Err <==> !config_ok(size, min_room_size, max_room_size),
            r matches Err(e) ==> e == config_error(size, min_room_size, max_room_size),
            r matches Ok(m) ==> m.spec_size() == size && m.spec_min_room_size() == min_room_size
                && m.spec_max_room_size() == max_room_size,
            r matches Ok(m) ==> m.spec_rooms().len() >= 1,
            r matches Ok(m) ==> (1 <= min_room_size.x && 1 <= min_room_size.y && max_room_size.x
                + min_room_size.x <= size.x && max_room_size.y + min_room_size.y <= size.y
                ==> m.spec_rooms().len() >= 2),
            r matches Ok(m) ==> forall|i: int|
                0 <= i < m.spec_rooms().len() ==> room_ok(
                    #[trigger] m.spec_rooms()[i],
                    min_room_size,
                    size.x as int,
                    size.y as int,
                ),
            r matches Ok(m) ==> forall|i: int, p: Point|
                #![trigger in_rect(m.spec_rooms()[i], p)]
                0 <= i < m.spec_rooms().len() && in_rect(m.spec_rooms()[i], p) && p.x != 0 && p.x
                    != size.x && p.y != 0 && p.y != size.y ==> m.spec_tiles().dom().contains(p)
                    && m.spec_tiles()[p] == Tile::Floor,
            r matches Ok(m) ==> forall|p: Point| #[trigger]
                on_border(size, p) ==> m.spec_tiles().dom().contains(p) && m.spec_tiles()[p]
                    == Tile::Wall,
            r matches Ok(m) ==> forall|p: Point, q: Point|
                #![trigger m.spec_tiles().dom().contains(p), adjacent8(p, q)]
                m.spec_tiles().dom().contains(p) && m.spec_tiles()[p] == Tile::Floor && adjacent8(
                    p,
                    q,
                ) ==> m.spec_tiles().dom().contains(q),
            r matches Ok(m) ==> forall|p: Point| #[trigger]
                m.spec_tiles().dom().contains(p) ==> p.x <= size.x + 1 && p.y <= size.y + 1,
            r matches Ok(m) ==> exists|cs: Seq<Room>| #[trigger] floors_from(
                m.spec_tiles(),
                m.spec_rooms(),
                cs,
                size,
            ) && cs_l_pairs(cs, m.spec_rooms()) && (1 <= min_room_size.x && 1 <= min_room_size.y
                && max_room_size.x + min_room_size.x <= size.x && max_room_size.y + min_room_size.y
                <= size.y ==> cs.len() >= 2),
            r matches Ok(m) ==> forall|p: Point|
                #[trigger] m.spec_tiles().dom().contains(p) && m.spec_tiles()[p] == Tile::Wall
                    ==> on_border(size, p) || (exists|q: Point|
                    #![trigger adjacent8(q, p)]
                    adjacent8(q, p) && m.spec_tiles().dom().contains(q) && (m.spec_tiles()[q]
                        == Tile::Floor || on_border(size, q))),
    {
        if size.x < 20 || size.y < 20 {
            return Err(ConfigError::SizeTooSmall);
        }
        if min_room_size.x >= max_room_size.x {
            return Err(ConfigError::MinRoomNotBelowMaxX);
        }
        if min_room_size.y >= max_room_size.y {
            return Err(ConfigError::MinRoomNotBelowMaxY);
        }
        if max_room_size.x >= size.x {
            return Err(ConfigError::MaxRoomNotBelowSizeX);
        }
        if max_room_size.y >= size.y {
            return Err(ConfigError::MaxRoomNotBelowSizeY);
        }
        let mut seed = seed;
        let mut map = BSPMap {
            size,
            tiles: TileGrid::new(),
            rooms: Vec::new(),
            min_room_size,
            max_room_size,
        };
        let cs = map.place_rooms(&mut seed, min_room_size, max_room_size);
        let ghost t1 = map.tiles@;
        map.add_border_walls();
        let ghost t2 = map.tiles@;
        let bx = size.x;
        let by = size.y;
        proof {
            assert forall|p: Point| #[trigger] t2.dom().contains(p) implies p.x <= bx && p.y
                <= by by {
                if !on_border(size, p) {
                    assert(t1.dom().contains(p));
                }
            }
        }
        map.fill_walls(bx, by);
        let ghost t3 = map.tiles@;
        proof {
            // rooms stay floored away from the border lines
            assert forall|i: int, p: Point|
                #![trigger in_rect(map.rooms@[i], p)]
                0 <= i < map.rooms@.len() && in_rect(map.rooms@[i], p) && p.x != 0 && p.x != size.x
                && p.y != 0 && p.y != size.y implies t3.dom().contains(p) && t3[p]
                == Tile::Floor by {
                assert(room_floored(t1, map.rooms@[i]));
                assert(t1.dom().contains(p));
                assert(t1[p] == Tile::Floor);
                assert(!on_border(size, p));
                assert(t2.dom().contains(p));
                assert(t2[p] == Tile::Floor);
            }
            // the border walls survive the fill
            assert forall|p: Point| #[trigger]
                on_border(size, p) implies t3.dom().contains(p) && t3[p] == Tile::Wall by {
                assert(t2.dom().contains(p));
                assert(t2[p] == Tile::Wall);
            }
            // wall closure: every neighbor of a floor tile is present
            assert forall|p: Point, q: Point|
                #![trigger t3.dom().contains(p), adjacent8(p, q)]
                t3.dom().contains(p) && t3[p] == Tile::Floor && adjacent8(p, q) implies t3.dom().contains(
                q,
            ) by {
                assert(t2.dom().contains(p));
                if !t2.dom().contains(q) {
                    assert(needs_wall(t2, q));
                }
            }
            // all tiles stay within the overscanned area
            assert forall|p: Point| #[trigger]
                t3.dom().contains(p) implies p.x <= size.x + 1 && p.y <= size.y + 1 by {
                if !t2.dom().contains(p) {
                    assert(needs_wall(t2, p));
                    let w = choose|w: Point|
                        #![trigger t2.dom().contains(w), adjacent8(w, p)]
                        t2.dom().contains(w) && adjacent8(w, p);
                    assert(t2.dom().contains(w) && adjacent8(w, p));
                }
            }
            // every floor tile comes from a room or a corridor segment
            assert forall|p: Point|
                #[trigger] t3.dom().contains(p) && t3[p] == Tile::Floor implies !on_border(size, p)
                && ((exists|i: int|
                    0 <= i < map.rooms@.len() && #[trigger] in_rect(map.rooms@[i], p)) || (
                exists|j: int| 0 <= j < cs@.len() && #[trigger] in_rect(cs@[j], p))) by {
                assert(t2.dom().contains(p));
                assert(t3[p] == t2[p]);
                assert(!on_border(size, p));
                assert(t1.dom().contains(p));
            }
            // corridor tiles away from the border lines stay floor
            assert forall|j: int, p: Point|
                #![trigger in_rect(cs@[j], p)]
                0 <= j < cs@.len() && in_rect(cs@[j], p) && p.x != 0 && p.x != size.x && p.y != 0
                && p.y != size.y implies t3.dom().contains(p) && t3[p] == Tile::Floor by {
                assert(room_floored(t1, cs@[j]));
                assert(t1.dom().contains(p));
                assert(t1[p] == Tile::Floor);
                assert(!on_border(size, p));
                assert(t2.dom().contains(p));
                assert(t2[p] == Tile::Floor);
            }
            assert(floors_from(map.spec_tiles(), map.spec_rooms(), cs@, size));
            assert(cs_l_pairs(cs@, map.spec_rooms()));
            // every wall is on the border or guards a floor or border tile
            assert forall|p: Point|
                #[trigger] t3.dom().contains(p) && t3[p] == Tile::Wall implies on_border(size, p)
                || (exists|q: Point|
                #![trigger adjacent8(q, p)]
                adjacent8(q, p) && t3.dom().contains(q) && (t3[q] == Tile::Floor || on_border(
                    size,
                    q,
                ))) by {
                if !on_border(size, p) {
                    if t2.dom().contains(p) {
                        assert(t2[p] == t1[p]);
                        assert(t1.dom().contains(p));
                        assert(t1[p] == Tile::Floor);
                        assert(false);
                    } else {
                        assert(needs_wall(t2, p));
                        let q = choose|q: Point|
                            #![trigger t2.dom().contains(q), adjacent8(q, p)]
                            t2.dom().contains(q) && adjacent8(q, p);
                        assert(t2.dom().contains(q) && adjacent8(q, p));
                        assert(t3.dom().contains(q));
                        if !on_border(size, q) {
                            assert(t2[q] == t1[q]);
                            assert(t1.dom().contains(q));
                            assert(t1[q] == Tile::Floor);
                            assert(t3[q] == Tile::Floor);
                        }
                    }
                }
            }
        }
        Ok(map)
    }

    /// The generated tile grid.
    pub fn get_tiles(&self) -> (r: &TileGrid)
        ensures
            r@ == self.spec_tiles(),
    {
        &self.tiles
    }

    /// The map extent.
    pub fn get_size(&self) -> (r: &Point)
        ensures
            *r == self.spec_size(),
    {
        &self.size
    }

    /// The rooms generated, one per leaf of the partition tree.
    pub fn get_rooms(&self) -> (r: &Vec<Room>)
        ensures
            r@ == self.spec_rooms(),
    {
        &self.rooms
    }

    /// Stamps every coordinate of `room` as floor, leaving every other
    /// tile as it was.
    #[verifier::loop_isolation(false)]
    fn stamp_rect(&mut self, room: &Room)
        requires
            room.position.x + room.size.x < 0x1_0000_0000,
            room.position.y + room.size.y < 0x1_0000_0000,
        ensures
            final(self).size == old(self).size,
            final(self).rooms == old(self).rooms,
            final(self).min_room_size == old(self).min_room_size,
            final(self).max_room_size == old(self).max_room_size,
            forall|p: Point| #[trigger]
                in_rect(*room, p) ==> final(self).tiles@.dom().contains(p) && final(self).tiles@[p]
                    == Tile::Floor,
            forall|p: Point|
                !in_rect(*room, p) ==> (#[trigger] final(self).tiles@.dom().contains(p)
                    == old(self).tiles@.dom().contains(p)) && (old(self).tiles@.dom().contains(p)
                    ==> final(self).tiles@[p] == old(self).tiles@[p]),
    {
        let rx = room.position.x;
        let ry = room.position.y;
        let w = room.size.x;
        let h = room.size.y;
        let mut x: usize = 0;
        while x < w
            invariant
                x <= w,
                self.size == old(self).size,
                self.rooms == old(self).rooms,
                self.min_room_size == old(self).min_room_size,
                self.max_room_size == old(self).max_room_size,
                forall|p: Point| #[trigger]
                    in_rect(*room, p) && p.x < rx + x ==> self.tiles@.dom().contains(p)
                        && self.tiles@[p] == Tile::Floor,
                forall|p: Point|
                    !(in_rect(*room, p) && p.x < rx + x) ==> (#[trigger] self.tiles@.dom().contains(
                        p,
                    ) == old(self).tiles@.dom().contains(p)) && (old(self).tiles@.dom().contains(p)
                        ==> self.tiles@[p] == old(self).tiles@[p]),
            decreases w - x,
        {
            let mut y: usize = 0;
            while y < h
                invariant
                    y <= h,
                    x < w,
                    self.size == old(self).size,
                    self.rooms == old(self).rooms,
                    self.min_room_size == old(self).min_room_size,
                    self.max_room_size == old(self).max_room_size,
                    forall|p: Point| #[trigger]
                        in_rect(*room, p) && (p.x < rx + x || (p.x == rx + x && p.y < ry + y))
                            ==> self.tiles@.dom().contains(p) && self.tiles@[p] == Tile::Floor,
                    forall|p: Point|
                        !(in_rect(*room, p) && (p.x < rx + x || (p.x == rx + x && p.y < ry + y)))
                            ==> (#[trigger] self.tiles@.dom().contains(p) == old(
                        self,
                        ).tiles@.dom().contains(p)) && (old(self).tiles@.dom().contains(p)
                            ==> self.tiles@[p] == old(self).tiles@[p]),
                decreases h - y,
            {
                self.tiles.insert(Point::new(rx + x, ry + y), Tile::Floor);
                y = y + 1;
            }
            x = x + 1;
        }
        proof {
            assert forall|p: Point| !in_rect(*room, p) implies (self.tiles@.dom().contains(p)
                == old(self).tiles@.dom().contains(p)) && (old(self).tiles@.dom().contains(p)
                ==> self.tiles@[p] == old(self).tiles@[p]) by {
                assert(!(in_rect(*room, p) && p.x < rx + x));
            }
        }
    }

    /// Stamps every coordinate of `room` as floor and appends the
    /// rectangle to the room list. Floor always overwrites wall or
    /// void; later rectangles take precedence where they overlap.
    pub fn add_room(&mut self, room: &Room)
        requires
            room.position.x + room.size.x < 0x1_0000_0000,
            room.position.y + room.size.y < 0x1_0000_0000,
        ensures
            final(self).spec_size() == old(self).spec_size(),
            final(self).spec_min_room_size() == old(self).spec_min_room_size(),
            final(self).spec_max_room_size() == old(self).spec_max_room_size(),
            final(self).spec_rooms() == old(self).spec_rooms().push(*room),
            forall|p: Point| #[trigger]
                in_rect(*room, p) ==> final(self).spec_tiles().dom().contains(p)
                    && final(self).spec_tiles()[p] == Tile::Floor,
            forall|p: Point|
                !in_rect(*room, p) ==> (#[trigger] final(self).spec_tiles().dom().contains(p)
                    == old(self).spec_tiles().dom().contains(p)) && (old(
                    self,
                ).spec_tiles().dom().contains(p) ==> final(self).spec_tiles()[p]
                    == old(self).spec_tiles()[p]),
    {
        self.stamp_rect(room);
        self.rooms.push(*room);
    }

    /// Stamps the whole partition tree, pre-order and left before
    /// right: every leaf's room is added to the room list and stamped
    /// as floor, and every node's corridors are stamped as floor
    /// without entering the room list.
    #[verifier::loop_isolation(false)]
    #[verifier::rlimit(60)]
    fn stamp_tree(
        &mut self,
        node: &Leaf,
        Ghost(min): Ghost<Point>,
        Ghost(ex): Ghost<int>,
        Ghost(ey): Ghost<int>,
    ) -> (cs: Ghost<Seq<Room>>)
        requires
            tree_wf(*node),
            all_rooms_bounded(*node, min, ex, ey),
            all_corridors_bounded(*node, ex + 1, ey + 1),
            corridors_synthesized(*node),
            node.corridors@.len() == 0 || node.corridors@.len() == 2,
            0 <= ex,
            0 <= ey,
            ex + 1 < 0x1_0000_0000,
            ey + 1 < 0x1_0000_0000,
        ensures
            final(self).size == old(self).size,
            final(self).min_room_size == old(self).min_room_size,
            final(self).max_room_size == old(self).max_room_size,
            final(self).rooms@.len() >= old(self).rooms@.len(),
            forall|i: int|
                0 <= i < old(self).rooms@.len() ==> #[trigger] final(self).rooms@[i]
                    == old(self).rooms@[i],
            forall|i: int|
                old(self).rooms@.len() <= i < final(self).rooms@.len() ==> room_ok(
                    #[trigger] final(self).rooms@[i],
                    min,
                    ex,
                    ey,
                ) && room_floored(final(self).tiles@, final(self).rooms@[i]),
            rooms_filled(*node) ==> final(self).rooms@.len() > old(self).rooms@.len(),
            rooms_filled(*node) && !node.is_leaf_spec() ==> final(self).rooms@.len() >= old(
                self,
            ).rooms@.len() + 2,
            forall|p: Point| #[trigger]
                old(self).tiles@.dom().contains(p) ==> final(self).tiles@.dom().contains(p),
            forall|p: Point| #[trigger]
                final(self).tiles@.dom().contains(p) ==> old(self).tiles@.dom().contains(p) || (
                final(self).tiles@[p] == Tile::Floor && p.x <= ex && p.y <= ey),
            forall|p: Point| #[trigger]
                old(self).tiles@.dom().contains(p) ==> final(self).tiles@[p]
                    == old(self).tiles@[p] || final(self).tiles@[p] == Tile::Floor,
            forall|j: int|
                0 <= j < cs@.len() ==> corridor_ok(#[trigger] cs@[j], ex + 1, ey + 1),
            forall|j: int|
                0 <= j < cs@.len() ==> room_floored(final(self).tiles@, #[trigger] cs@[j]),
            forall|p: Point| #[trigger]
                final(self).tiles@.dom().contains(p) ==> old(self).tiles@.dom().contains(p) || (
                exists|i: int|
                    old(self).rooms@.len() <= i < final(self).rooms@.len() && #[trigger] in_rect(
                        final(self).rooms@[i],
                        p,
                    )) || (exists|j: int| 0 <= j < cs@.len() && #[trigger] in_rect(cs@[j], p)),
            cs@.len() >= node.corridors@.len(),
            forall|j: int|
                #![trigger cs@[j]]
                0 <= j < node.corridors@.len() ==> cs@[j] == node.corridors@[j],
            (cs@.len() - node.corridors@.len()) % 2 == 0,
            cs_tail_pairs(cs@, node.corridors@.len() as int, *node),
            !node.is_leaf_spec() ==> cs@.len() >= 2,
            forall|r: Room| #[trigger]
                subtree_room(*node, r) ==> (exists|i: int|
                    #![trigger final(self).rooms@[i]]
                    old(self).rooms@.len() <= i < final(self).rooms@.len() && final(self).rooms@[i]
                        == r),
        decreases *node,
    {
        let ghost t0 = self.tiles@;
        let ghost n0: int = self.rooms@.len() as int;
        if node.is_leaf() {
            match node.room {
                Some(room) => {
                    proof {
                        assert(subtree_room(*node, room));
                        assert(room_ok(room, min, ex, ey));
                    }
                    self.add_room(&room);
                    proof {
                        assert forall|p: Point| #[trigger]
                            t0.dom().contains(p) implies self.tiles@.dom().contains(p) by {
                            if in_rect(room, p) {
                            }
                        }
                        assert forall|p: Point| #[trigger]
                            self.tiles@.dom().contains(p) implies t0.dom().contains(p) || (
                        self.tiles@[p] == Tile::Floor && p.x <= ex && p.y <= ey) by {
                            if in_rect(room, p) {
                                assert(room_ok(room, min, ex, ey));
                            }
                        }
                        assert forall|p: Point| #[trigger]
                            t0.dom().contains(p) implies self.tiles@[p] == t0[p] || self.tiles@[p]
                            == Tile::Floor by {
                            if in_rect(room, p) {
                            }
                        }
                        assert(self.rooms@.len() == n0 + 1);
                        assert(self.rooms@[n0] == room);
                        assert forall|p: Point| #[trigger]
                            self.tiles@.dom().contains(p) implies t0.dom().contains(p) || (
                        self.rooms@.len() == n0 + 1 && in_rect(self.rooms@[n0], p)) by {
                            if !in_rect(room, p) {
                            }
                        }
                    }
                },
                None => {},
            }
        }
        proof {
            assert forall|p: Point| #[trigger]
                self.tiles@.dom().contains(p) implies t0.dom().contains(p) || (self.rooms@.len()
                == n0 + 1 && in_rect(self.rooms@[n0], p)) by {}
        }
        let ghost t1 = self.tiles@;
        let ghost r1 = self.rooms@;
        let mut i: usize = 0;
        while i < node.corridors.len()
            invariant
                i <= node.corridors@.len(),
                self.size == old(self).size,
                self.min_room_size == old(self).min_room_size,
                self.max_room_size == old(self).max_room_size,
                self.rooms@ == r1,
                forall|p: Point| #[trigger]
                    t1.dom().contains(p) ==> self.tiles@.dom().contains(p),
                forall|p: Point| #[trigger]
                    self.tiles@.dom().contains(p) ==> t1.dom().contains(p) || (self.tiles@[p]
                        == Tile::Floor && p.x <= ex && p.y <= ey),
                forall|p: Point| #[trigger]
                    t1.dom().contains(p) ==> self.tiles@[p] == t1[p] || self.tiles@[p]
                        == Tile::Floor,
                forall|j: int|
                    0 <= j < i ==> room_floored(self.tiles@, #[trigger] node.corridors@[j]),
                forall|p: Point| #[trigger]
                    self.tiles@.dom().contains(p) ==> t1.dom().contains(p) || (exists|j: int|
                        0 <= j < i && #[trigger] in_rect(node.corridors@[j], p)),
            decreases node.corridors@.len() - i,
        {
            let ghost tp = self.tiles@;
            proof {
                assert(node.corridors@.contains(node.corridors@[i as int]));
                assert(subtree_corridor(*node, node.corridors@[i as int]));
                assert(corridor_ok(node.corridors@[i as int], ex + 1, ey + 1));
            }
            let c = node.corridors[i];
            self.stamp_rect(&c);
            proof {
                assert forall|p: Point| #[trigger]
                    t1.dom().contains(p) implies self.tiles@.dom().contains(p) by {
                    if in_rect(c, p) {
                    } else {
                        assert(tp.dom().contains(p));
                    }
                }
                assert forall|p: Point| #[trigger]
                    self.tiles@.dom().contains(p) implies t1.dom().contains(p) || (self.tiles@[p]
                    == Tile::Floor && p.x <= ex && p.y <= ey) by {
                    if in_rect(c, p) {
                        assert(corridor_ok(c, ex + 1, ey + 1));
                    } else {
                        assert(tp.dom().contains(p) == self.tiles@.dom().contains(p));
                    }
                }
                assert forall|p: Point| #[trigger]
                    t1.dom().contains(p) implies self.tiles@[p] == t1[p] || self.tiles@[p]
                    == Tile::Floor by {
                    if in_rect(c, p) {
                    } else {
                        assert(tp.dom().contains(p));
                    }
                }
                assert forall|p: Point|
                    tp.dom().contains(p) implies self.tiles@.dom().contains(p) by {
                    if in_rect(c, p) {
                    }
                }
                assert forall|p: Point|
                    tp.dom().contains(p) implies self.tiles@[p] == tp[p] || self.tiles@[p]
                    == Tile::Floor by {
                    if in_rect(c, p) {
                    }
                }
                assert(room_floored(self.tiles@, c));
                assert forall|j: int|
                    0 <= j < i + 1 implies room_floored(
                    self.tiles@,
                    #[trigger] node.corridors@[j],
                ) by {
                    if j < i {
                        lemma_floored_preserved(tp, self.tiles@, node.corridors@[j]);
                    }
                }
                assert forall|p: Point| #[trigger]
                    self.tiles@.dom().contains(p) implies t1.dom().contains(p) || (exists|j: int|
                    0 <= j < i + 1 && #[trigger] in_rect(node.corridors@[j], p)) by {
                    if in_rect(c, p) {
                        assert((i as int) < i + 1 && in_rect(node.corridors@[i as int], p));
                    } else {
                        assert(tp.dom().contains(p) == self.tiles@.dom().contains(p));
                    }
                }
            }
            i = i + 1;
        }
        let ghost t2 = self.tiles@;
        let ghost mut cs_total: Seq<Room> = node.corridors@;
        match (&node.left_child, &node.right_child) {
            (Some(a), Some(b)) => {
                proof {
                    assert forall|r: Room| #[trigger] subtree_room(**a, r) implies room_ok(
                        r,
                        min,
                        ex,
                        ey,
                    ) by {
                        assert(subtree_room(*node, r));
                    }
                    assert forall|r: Room| #[trigger] subtree_room(**b, r) implies room_ok(
                        r,
                        min,
                        ex,
                        ey,
                    ) by {
                        assert(subtree_room(*node, r));
                    }
                    assert forall|c: Room| #[trigger] subtree_corridor(**a, c) implies corridor_ok(
                        c,
                        ex + 1,
                        ey + 1,
                    ) by {
                        assert(subtree_corridor(*node, c));
                    }
                    assert forall|c: Room| #[trigger] subtree_corridor(**b, c) implies corridor_ok(
                        c,
                        ex + 1,
                        ey + 1,
                    ) by {
                        assert(subtree_corridor(*node, c));
                    }
                    assert(corridors_synthesized(**a));
                    assert(corridors_synthesized(**b));
                    assert((**a).corridors@.len() == 2);
                    assert((**b).corridors@.len() == 0);
                }
                let ghost r2 = self.rooms@;
                let csa = self.stamp_tree(&*a, Ghost(min), Ghost(ex), Ghost(ey));
                let ghost t3 = self.tiles@;
                let ghost r3 = self.rooms@;
                let csb = self.stamp_tree(&*b, Ghost(min), Ghost(ex), Ghost(ey));
                let ghost t4 = self.tiles@;
                proof {
                    cs_total = node.corridors@ + csa@ + csb@;
                    assert forall|p: Point| #[trigger]
                        t0.dom().contains(p) implies t4.dom().contains(p) by {
                        assert(t1.dom().contains(p));
                        assert(t2.dom().contains(p));
                        assert(t3.dom().contains(p));
                    }
                    assert forall|p: Point| #[trigger]
                        t4.dom().contains(p) implies t0.dom().contains(p) || (t4[p] == Tile::Floor
                        && p.x <= ex && p.y <= ey) by {
                        if !t0.dom().contains(p) {
                            if t3.dom().contains(p) {
                                if t2.dom().contains(p) {
                                    if t1.dom().contains(p) {
                                        assert(t1[p] == Tile::Floor);
                                        assert(t2[p] == Tile::Floor);
                                        assert(t3[p] == Tile::Floor);
                                        assert(t4[p] == Tile::Floor);
                                    } else {
                                        assert(t2[p] == Tile::Floor);
                                        assert(t3[p] == Tile::Floor);
                                        assert(t4[p] == Tile::Floor);
                                    }
                                } else {
                                    assert(t3[p] == Tile::Floor);
                                    assert(t4[p] == Tile::Floor);
                                }
                            }
                        }
                    }
                    assert forall|p: Point| #[trigger]
                        t0.dom().contains(p) implies t4[p] == t0[p] || t4[p] == Tile::Floor by {
                        assert(t1.dom().contains(p));
                        assert(t2.dom().contains(p));
                        assert(t3.dom().contains(p));
                    }
                    assert forall|i2: int| 0 <= i2 < n0 implies #[trigger] self.rooms@[i2]
                        == old(self).rooms@[i2] by {
                        assert(r3[i2] == r2[i2]);
                    }
                    assert forall|i2: int|
                        n0 <= i2 < self.rooms@.len() implies room_ok(
                        #[trigger] self.rooms@[i2],
                        min,
                        ex,
                        ey,
                    ) && room_floored(self.tiles@, self.rooms@[i2]) by {
                        if i2 < r2.len() {
                            // the leaf room added before the recursion; here the
                            // node is internal, so none was
                            assert(r2 == r1);
                            assert(i2 < n0 + 1);
                            assert(r1.len() <= n0 + 1);
                            if r1.len() == n0 + 1 {
                                assert(room_floored(t1, r1[i2]));
                                lemma_floored_preserved(t1, t2, r1[i2]);
                                lemma_floored_preserved(t2, t3, r1[i2]);
                                lemma_floored_preserved(t3, t4, r1[i2]);
                            }
                        } else if i2 < r3.len() {
                            assert(room_floored(t3, r3[i2]));
                            assert(self.rooms@[i2] == r3[i2]);
                            lemma_floored_preserved(t3, t4, r3[i2]);
                        } else {
                            assert(room_floored(t4, self.rooms@[i2]));
                        }
                    }
                    let m: int = node.corridors@.len() as int;
                    let ma: int = csa@.len() as int;
                    assert forall|j: int| 0 <= j < cs_total.len() implies corridor_ok(
                        #[trigger] cs_total[j],
                        ex + 1,
                        ey + 1,
                    ) by {
                        if j < m {
                            assert(cs_total[j] == node.corridors@[j]);
                            assert(node.corridors@.contains(node.corridors@[j]));
                            assert(subtree_corridor(*node, node.corridors@[j]));
                        } else if j < m + ma {
                            assert(cs_total[j] == csa@[j - m]);
                        } else {
                            assert(cs_total[j] == csb@[j - m - ma]);
                        }
                    }
                    assert forall|j: int| 0 <= j < cs_total.len() implies room_floored(
                        t4,
                        #[trigger] cs_total[j],
                    ) by {
                        if j < m {
                            assert(cs_total[j] == node.corridors@[j]);
                            assert(room_floored(t2, node.corridors@[j]));
                            lemma_floored_preserved(t2, t3, node.corridors@[j]);
                            lemma_floored_preserved(t3, t4, node.corridors@[j]);
                        } else if j < m + ma {
                            assert(cs_total[j] == csa@[j - m]);
                            assert(room_floored(t3, csa@[j - m]));
                            lemma_floored_preserved(t3, t4, csa@[j - m]);
                        } else {
                            assert(cs_total[j] == csb@[j - m - ma]);
                            assert(room_floored(t4, csb@[j - m - ma]));
                        }
                    }
                    assert forall|p: Point| #[trigger]
                        t4.dom().contains(p) implies t0.dom().contains(p) || (exists|i2: int|
                        n0 <= i2 < self.rooms@.len() && #[trigger] in_rect(self.rooms@[i2], p)) || (
                    exists|j: int| 0 <= j < cs_total.len() && #[trigger] in_rect(cs_total[j], p)) by {
                        if !t0.dom().contains(p) {
                            if t3.dom().contains(p) {
                                if t2.dom().contains(p) {
                                    if t1.dom().contains(p) {
                                        // an internal node adds no leaf room
                                        assert(r1.len() == n0);
                                        assert(false);
                                    } else {
                                        let jj = choose|jj: int|
                                            0 <= jj < node.corridors@.len() && in_rect(
                                                node.corridors@[jj],
                                                p,
                                            );
                                        assert(cs_total[jj] == node.corridors@[jj]);
                                        assert(0 <= jj < cs_total.len() && in_rect(
                                            cs_total[jj],
                                            p,
                                        ));
                                    }
                                } else {
                                    if (exists|i2: int|
                                        r2.len() <= i2 < r3.len() && #[trigger] in_rect(
                                        r3[i2],
                                        p,
                                    )) {
                                        let i2 = choose|i2: int|
                                            r2.len() <= i2 < r3.len() && #[trigger] in_rect(
                                                r3[i2],
                                                p,
                                            );
                                        assert(self.rooms@[i2] == r3[i2]);
                                        assert(n0 <= i2 < self.rooms@.len() && in_rect(
                                            self.rooms@[i2],
                                            p,
                                        ));
                                    } else {
                                        let jj = choose|jj: int|
                                            0 <= jj < csa@.len() && #[trigger] in_rect(
                                                csa@[jj],
                                                p,
                                            );
                                        assert(cs_total[m + jj] == csa@[jj]);
                                        assert(0 <= m + jj < cs_total.len() && in_rect(
                                            cs_total[m + jj],
                                            p,
                                        ));
                                    }
                                }
                            } else {
                                if (exists|i2: int|
                                    r3.len() <= i2 < self.rooms@.len() && #[trigger] in_rect(
                                    self.rooms@[i2],
                                    p,
                                )) {
                                    let i2 = choose|i2: int|
                                        r3.len() <= i2 < self.rooms@.len() && #[trigger] in_rect(
                                            self.rooms@[i2],
                                            p,
                                        );
                                    assert(n0 <= i2 < self.rooms@.len() && in_rect(
                                        self.rooms@[i2],
                                        p,
                                    ));
                                } else {
                                    let jj = choose|jj: int|
                                        0 <= jj < csb@.len() && #[trigger] in_rect(csb@[jj], p);
                                    assert(cs_total[m + ma + jj] == csb@[jj]);
                                    assert(0 <= m + ma + jj < cs_total.len() && in_rect(
                                        cs_total[m + ma + jj],
                                        p,
                                    ));
                                }
                            }
                        }
                    }
                    // the record starts with this node's own connectors
                    assert forall|j: int| #![trigger cs_total[j]]
                        0 <= j < m implies cs_total[j] == node.corridors@[j] by {
                        assert(cs_total[j] == node.corridors@[j]);
                    }
                    // and continues with whole L-pairs
                    assert((csa@.len() - 2) % 2 == 0);
                    assert((csb@.len() - 0) % 2 == 0);
                    assert((cs_total.len() - m) % 2 == 0);
                    assert(node.room is None);
                    assert forall|r: Room| #[trigger]
                        subtree_room(*node, r) implies (exists|i2: int|
                        #![trigger self.rooms@[i2]]
                        n0 <= i2 < self.rooms@.len() && self.rooms@[i2] == r) by {
                        if subtree_room(**a, r) {
                            let i2 = choose|i2: int|
                                #![trigger r3[i2]]
                                r2.len() <= i2 < r3.len() && r3[i2] == r;
                            assert(self.rooms@[i2] == r3[i2]);
                            assert(n0 <= i2 < self.rooms@.len() && self.rooms@[i2] == r);
                        } else {
                            assert(subtree_room(**b, r));
                            let i2 = choose|i2: int|
                                #![trigger self.rooms@[i2]]
                                r3.len() <= i2 < self.rooms@.len() && self.rooms@[i2] == r;
                            assert(n0 <= i2 < self.rooms@.len() && self.rooms@[i2] == r);
                        }
                    }
                    assert forall|j: int|
                        m <= j < cs_total.len() && (j - m) % 2 == 0 implies #[trigger] pair_at(
                        cs_total,
                        j,
                        *node,
                    ) by {
                        if j < m + ma {
                            let ja = j - m;
                            assert(ja % 2 == 0);
                            assert(csa@.len() % 2 == 0);
                            assert(ja + 1 < ma);
                            assert(cs_total[j] == csa@[ja]);
                            assert(cs_total[j + 1] == csa@[ja + 1]);
                            if ja < 2 {
                                assert(ja == 0);
                                assert(csa@[0] == (**a).corridors@[0]);
                                assert(csa@[1] == (**a).corridors@[1]);
                                lemma_get_room_in_subtree(**a);
                                lemma_get_room_in_subtree(**b);
                                assert(subtree_room(*node, spec_get_room(**a).unwrap()));
                                assert(subtree_room(*node, spec_get_room(**b).unwrap()));
                                assert(corridor_pair_ok(
                                    cs_total[j],
                                    cs_total[j + 1],
                                    spec_get_room(**a).unwrap(),
                                    spec_get_room(**b).unwrap(),
                                ));
                            } else {
                                assert(pair_at(csa@, ja, **a));
                                let (w1, w2) = choose|w1: Room, w2: Room|
                                    subtree_room(**a, w1) && subtree_room(**a, w2)
                                        && #[trigger] corridor_pair_ok(
                                        csa@[ja],
                                        csa@[ja + 1],
                                        w1,
                                        w2,
                                    );
                                assert(subtree_room(*node, w1) && subtree_room(*node, w2));
                                assert(corridor_pair_ok(cs_total[j], cs_total[j + 1], w1, w2));
                            }
                        } else {
                            let jb = j - m - ma;
                            assert(jb % 2 == 0);
                            assert(csb@.len() % 2 == 0);
                            assert(jb + 1 < csb@.len());
                            assert(cs_total[j] == csb@[jb]);
                            assert(cs_total[j + 1] == csb@[jb + 1]);
                            assert(pair_at(csb@, jb, **b));
                            let (w1, w2) = choose|w1: Room, w2: Room|
                                subtree_room(**b, w1) && subtree_room(**b, w2)
                                    && #[trigger] corridor_pair_ok(csb@[jb], csb@[jb + 1], w1, w2);
                            assert(subtree_room(*node, w1) && subtree_room(*node, w2));
                            assert(corridor_pair_ok(cs_total[j], cs_total[j + 1], w1, w2));
                        }
                        assert(pair_at(cs_total, j, *node));
                    }
                    assert(cs_tail_pairs(cs_total, m, *node));
                    assert(csa@.len() >= 2);
                    assert(cs_total.len() >= 2);
                }
            },
            _ => {
                proof {
                    assert(node.is_leaf_spec());
                    assert forall|i2: int|
                        n0 <= i2 < self.rooms@.len() implies room_ok(
                        #[trigger] self.rooms@[i2],
                        min,
                        ex,
                        ey,
                    ) && room_floored(self.tiles@, self.rooms@[i2]) by {
                        assert(self.rooms@ == r1);
                        assert(room_floored(t1, r1[i2]));
                        lemma_floored_preserved(t1, t2, r1[i2]);
                    }
                    assert forall|j: int| 0 <= j < cs_total.len() implies corridor_ok(
                        #[trigger] cs_total[j],
                        ex + 1,
                        ey + 1,
                    ) by {
                        assert(cs_total[j] == node.corridors@[j]);
                        assert(node.corridors@.contains(node.corridors@[j]));
                        assert(subtree_corridor(*node, node.corridors@[j]));
                    }
                    assert forall|j: int| 0 <= j < cs_total.len() implies room_floored(
                        self.tiles@,
                        #[trigger] cs_total[j],
                    ) by {
                        assert(cs_total[j] == node.corridors@[j]);
                    }
                    assert forall|p: Point| #[trigger]
                        self.tiles@.dom().contains(p) implies t0.dom().contains(p) || (exists|i2: int|
                        n0 <= i2 < self.rooms@.len() && #[trigger] in_rect(self.rooms@[i2], p)) || (
                    exists|j: int| 0 <= j < cs_total.len() && #[trigger] in_rect(cs_total[j], p)) by {
                        if !t0.dom().contains(p) {
                            if t1.dom().contains(p) {
                                assert(r1.len() == n0 + 1 && in_rect(r1[n0], p));
                                assert(self.rooms@[n0] == r1[n0]);
                                assert(n0 <= n0 < self.rooms@.len() && in_rect(
                                    self.rooms@[n0],
                                    p,
                                ));
                            } else {
                                let jj = choose|jj: int|
                                    0 <= jj < node.corridors@.len() && #[trigger] in_rect(
                                        node.corridors@[jj],
                                        p,
                                    );
                                assert(cs_total[jj] == node.corridors@[jj]);
                                assert(0 <= jj < cs_total.len() && in_rect(cs_total[jj], p));
                            }
                        }
                    }
                    // a leaf's record is exactly its own connector list
                    assert(cs_total == node.corridors@);
                    assert(cs_tail_pairs(cs_total, node.corridors@.len() as int, *node));
                    assert forall|r: Room| #[trigger]
                        subtree_room(*node, r) implies (exists|i2: int|
                        #![trigger self.rooms@[i2]]
                        n0 <= i2 < self.rooms@.len() && self.rooms@[i2] == r) by {
                        assert(node.room == Some(r));
                        assert(self.rooms@ == r1);
                        assert(r1.len() == n0 + 1 && r1[n0] == r);
                        assert(n0 <= n0 < self.rooms@.len() && self.rooms@[n0] == r);
                    }
                }
            },
        }
        Ghost(cs_total)
    }

    /// Builds the partition tree over the whole map, samples rooms and
    /// corridors, and stamps them all into the grid as floor.
    fn place_rooms(&mut self, rng: &mut StdRng, min_room_size: Point, max_room_size: Point) -> (cs:
        Ghost<Seq<Room>>)
        requires
            20 <= old(self).size.x,
            20 <= old(self).size.y,
            min_room_size.x < max_room_size.x,
            min_room_size.y < max_room_size.y,
            max_room_size.x < old(self).size.x,
            max_room_size.y < old(self).size.y,
            old(self).size.x <= COORD_LIMIT,
            old(self).size.y <= COORD_LIMIT,
        ensures
            final(self).size == old(self).size,
            final(self).min_room_size == old(self).min_room_size,
            final(self).max_room_size == old(self).max_room_size,
            final(self).rooms@.len() > old(self).rooms@.len(),
            1 <= min_room_size.x && 1 <= min_room_size.y && max_room_size.x + min_room_size.x
                <= old(self).size.x && max_room_size.y + min_room_size.y <= old(self).size.y
                ==> final(self).rooms@.len() >= old(self).rooms@.len() + 2,
            forall|i: int|
                0 <= i < old(self).rooms@.len() ==> #[trigger] final(self).rooms@[i]
                    == old(self).rooms@[i],
            forall|i: int|
                old(self).rooms@.len() <= i < final(self).rooms@.len() ==> room_ok(
                    #[trigger] final(self).rooms@[i],
                    min_room_size,
                    old(self).size.x as int,
                    old(self).size.y as int,
                ) && room_floored(final(self).tiles@, final(self).rooms@[i]),
            forall|p: Point| #[trigger]
                old(self).tiles@.dom().contains(p) ==> final(self).tiles@.dom().contains(p),
            forall|p: Point| #[trigger]
                final(self).tiles@.dom().contains(p) ==> old(self).tiles@.dom().contains(p) || (
                final(self).tiles@[p] == Tile::Floor && p.x <= old(self).size.x && p.y <= old(
                    self,
                ).size.y),
            forall|p: Point| #[trigger]
                old(self).tiles@.dom().contains(p) ==> final(self).tiles@[p]
                    == old(self).tiles@[p] || final(self).tiles@[p] == Tile::Floor,
            forall|j: int|
                0 <= j < cs@.len() ==> corridor_ok(
                    #[trigger] cs@[j],
                    old(self).size.x + 1,
                    old(self).size.y + 1,
                ),
            forall|j: int|
                0 <= j < cs@.len() ==> room_floored(final(self).tiles@, #[trigger] cs@[j]),
            forall|p: Point| #[trigger]
                final(self).tiles@.dom().contains(p) ==> old(self).tiles@.dom().contains(p) || (
                exists|i: int|
                    old(self).rooms@.len() <= i < final(self).rooms@.len() && #[trigger] in_rect(
                        final(self).rooms@[i],
                        p,
                    )) || (exists|j: int| 0 <= j < cs@.len() && #[trigger] in_rect(cs@[j], p)),
            cs_l_pairs(cs@, final(self).rooms@),
            1 <= min_room_size.x && 1 <= min_room_size.y && max_room_size.x + min_room_size.x
                <= old(self).size.x && max_room_size.y + min_room_size.y <= old(self).size.y
                ==> cs@.len() >= 2,
    {
        let ghost nb: int = self.rooms@.len() as int;
        let mut root = Leaf::new(Point::new(0, 0), self.size);
        root.generate(rng, &min_room_size, &max_room_size);
        root.create_rooms(rng, &min_room_size);
        proof {
            assert(rooms_filled(root));
            assert(root.corridors@.len() == 0);
        }
        let cs = self.stamp_tree(
            &root,
            Ghost(min_room_size),
            Ghost(self.size.x as int),
            Ghost(self.size.y as int),
        );
        proof {
            assert forall|j: int|
                0 <= j < cs@.len() && j % 2 == 0 implies #[trigger] listed_pair_at(
                cs@,
                j,
                self.rooms@,
            ) by {
                assert(pair_at(cs@, j, root));
                let (w1, w2) = choose|w1: Room, w2: Room|
                    subtree_room(root, w1) && subtree_room(root, w2) && #[trigger] corridor_pair_ok(
                        cs@[j],
                        cs@[j + 1],
                        w1,
                        w2,
                    );
                let i1 = choose|i1: int|
                    #![trigger self.rooms@[i1]]
                    nb <= i1 < self.rooms@.len() && self.rooms@[i1] == w1;
                let i2 = choose|i2: int|
                    #![trigger self.rooms@[i2]]
                    nb <= i2 < self.rooms@.len() && self.rooms@[i2] == w2;
                assert(corridor_pair_ok(cs@[j], cs@[j + 1], self.rooms@[i1], self.rooms@[i2]));
                assert(listed_pair_at(cs@, j, self.rooms@));
            }
            assert(cs_l_pairs(cs@, self.rooms@));
        }
        cs
    }

    /// Draws the one-tile-thick wall border: the columns `x = 0` and
    /// `x = size.x` and the rows `y = 0` and `y = size.y`. The far
    /// column and row lie one tile outside the nominal map area, an
    /// intentional overscan.
    #[verifier::loop_isolation(false)]
    fn add_border_walls(&mut self)
        requires
            old(self).size.x <= COORD_LIMIT,
            old(self).size.y <= COORD_LIMIT,
        ensures
            final(self).size == old(self).size,
            final(self).rooms == old(self).rooms,
            final(self).min_room_size == old(self).min_room_size,
            final(self).max_room_size == old(self).max_room_size,
            forall|p: Point| #[trigger]
                on_border(old(self).size, p) ==> final(self).tiles@.dom().contains(p)
                    && final(self).tiles@[p] == Tile::Wall,
            forall|p: Point|
                !on_border(old(self).size, p) ==> (#[trigger] final(self).tiles@.dom().contains(p)
                    == old(self).tiles@.dom().contains(p)) && (old(self).tiles@.dom().contains(p)
                    ==> final(self).tiles@[p] == old(self).tiles@[p]),
    {
        let sx = self.size.x;
        let sy = self.size.y;
        let mut y: usize = 0;
        while y < sy
            invariant
                y <= sy,
                self.size == old(self).size,
                self.rooms == old(self).rooms,
                self.min_room_size == old(self).min_room_size,
                self.max_room_size == old(self).max_room_size,
                forall|p: Point|
                    (p.x == 0 || p.x == sx) && p.y < y ==> #[trigger] self.tiles@.dom().contains(p)
                        && self.tiles@[p] == Tile::Wall,
                forall|p: Point|
                    !((p.x == 0 || p.x == sx) && p.y < y) ==> (#[trigger] self.tiles@.dom().contains(
                        p,
                    ) == old(self).tiles@.dom().contains(p)) && (old(self).tiles@.dom().contains(p)
                        ==> self.tiles@[p] == old(self).tiles@[p]),
            decreases sy - y,
        {
            let ghost tb = self.tiles@;
            self.tiles.insert(Point::new(0, y), Tile::Wall);
            self.tiles.insert(Point::new(sx, y), Tile::Wall);
            proof {
                assert forall|p: Point|
                    (p.x == 0 || p.x == sx) && p.y < y + 1 implies self.tiles@.dom().contains(p)
                    && self.tiles@[p] == Tile::Wall by {
                    if p.y < y {
                        assert(tb.dom().contains(p));
                        assert(tb[p] == Tile::Wall);
                    } else {
                        assert(p == (Point { x: 0, y }) || p == (Point { x: sx, y }));
                    }
                }
                assert forall|p: Point|
                    !((p.x == 0 || p.x == sx) && p.y < y + 1) implies (self.tiles@.dom().contains(p)
                    == old(self).tiles@.dom().contains(p)) && (old(self).tiles@.dom().contains(p)
                    ==> self.tiles@[p] == old(self).tiles@[p]) by {
                    assert(p != (Point { x: 0, y }) && p != (Point { x: sx, y }));
                    assert(tb.dom().contains(p) == old(self).tiles@.dom().contains(p));
                }
            }
            y = y + 1;
        }
        proof {
            assert forall|p: Point|
                (p.x == 0 || p.x == sx) && p.y < sy implies self.tiles@.dom().contains(p)
                && self.tiles@[p] == Tile::Wall by {
                assert(self.tiles@.dom().contains(p));
                assert(self.tiles@[p] == Tile::Wall);
            }
        }
        let mut x: usize = 0;
        while x < sx
            invariant
                x <= sx,
                self.size == old(self).size,
                self.rooms == old(self).rooms,
                self.min_room_size == old(self).min_room_size,
                self.max_room_size == old(self).max_room_size,
                forall|p: Point|
                    ((p.x == 0 || p.x == sx) && p.y < sy) || ((p.y == 0 || p.y == sy) && p.x < x)
                        ==> #[trigger] self.tiles@.dom().contains(p) && self.tiles@[p]
                        == Tile::Wall,
                forall|p: Point|
                    !(((p.x == 0 || p.x == sx) && p.y < sy) || ((p.y == 0 || p.y == sy) && p.x < x))
                        ==> (#[trigger] self.tiles@.dom().contains(p) == old(
                        self,
                    ).tiles@.dom().contains(p)) && (old(self).tiles@.dom().contains(p)
                        ==> self.tiles@[p] == old(self).tiles@[p]),
            decreases sx - x,
        {
            let ghost tb = self.tiles@;
            self.tiles.insert(Point::new(x, 0), Tile::Wall);
            self.tiles.insert(Point::new(x, sy), Tile::Wall);
            proof {
                assert forall|p: Point|
                    ((p.x == 0 || p.x == sx) && p.y < sy) || ((p.y == 0 || p.y == sy) && p.x < x
                    + 1) implies self.tiles@.dom().contains(p) && self.tiles@[p] == Tile::Wall by {
                    if ((p.x == 0 || p.x == sx) && p.y < sy) || ((p.y == 0 || p.y == sy) && p.x
                        < x) {
                        assert(tb.dom().contains(p));
                        assert(tb[p] == Tile::Wall);
                    } else {
                        assert(p == (Point { x, y: 0 }) || p == (Point { x, y: sy }));
                    }
                }
                assert forall|p: Point|
                    !(((p.x == 0 || p.x == sx) && p.y < sy) || ((p.y == 0 || p.y == sy) && p.x < x
                    + 1)) implies (self.tiles@.dom().contains(p) == old(
                    self,
                ).tiles@.dom().contains(p)) && (old(self).tiles@.dom().contains(p)
                    ==> self.tiles@[p] == old(self).tiles@[p]) by {
                    assert(p != (Point { x, y: 0 }) && p != (Point { x, y: sy }));
                    assert(tb.dom().contains(p) == old(self).tiles@.dom().contains(p));
                }
            }
            x = x + 1;
        }
        proof {
            assert forall|p: Point| #[trigger]
                on_border(old(self).size, p) implies self.tiles@.dom().contains(p) && self.tiles@[p]
                == Tile::Wall by {
                assert(((p.x == 0 || p.x == sx) && p.y < sy) || ((p.y == 0 || p.y == sy) && p.x
                    < sx));
                assert(self.tiles@.dom().contains(p));
            }
            assert forall|p: Point|
                !on_border(old(self).size, p) implies (self.tiles@.dom().contains(p)
                == old(self).tiles@.dom().contains(p)) && (old(self).tiles@.dom().contains(p)
                ==> self.tiles@[p] == old(self).tiles@[p]) by {
                assert(!(((p.x == 0 || p.x == sx) && p.y < sy) || ((p.y == 0 || p.y == sy) && p.x
                    < sx)));
                assert(self.tiles@.dom().contains(p) == old(self).tiles@.dom().contains(p));
            }
        }
    }

    /// Derives the wall layer: every coordinate absent from the grid
    /// that touches a present tile in its 8-neighborhood becomes a
    /// wall. The scan collects all such coordinates first and applies
    /// them afterwards, so the result does not depend on any iteration
    /// order.
    #[verifier::loop_isolation(false)]
    fn fill_walls(&mut self, bx: usize, by: usize)
        requires
            forall|p: Point| #[trigger]
                old(self).tiles@.dom().contains(p) ==> p.x <= bx && p.y <= by,
            bx + 2 < 0x1_0000_0000,
            by + 2 < 0x1_0000_0000,
        ensures
            final(self).size == old(self).size,
            final(self).rooms == old(self).rooms,
            final(self).min_room_size == old(self).min_room_size,
            final(self).max_room_size == old(self).max_room_size,
            forall|p: Point| #[trigger]
                old(self).tiles@.dom().contains(p) ==> final(self).tiles@.dom().contains(p)
                    && final(self).tiles@[p] == old(self).tiles@[p],
            forall|q: Point|
                #[trigger] final(self).tiles@.dom().contains(q) <==> old(
                    self,
                ).tiles@.dom().contains(q) || needs_wall(old(self).tiles@, q),
            forall|q: Point| #[trigger]
                needs_wall(old(self).tiles@, q) ==> final(self).tiles@[q] == Tile::Wall,
    {
        let ghost pre = self.tiles@;
        let mut walls: Vec<Point> = Vec::new();
        let mut x: usize = 0;
        while x <= bx
            invariant
                x <= bx + 1,
                *self == *old(self),
                forall|j: int|
                    0 <= j < walls@.len() ==> needs_wall(pre, #[trigger] walls@[j]),
                forall|p: Point, q: Point|
                    #![trigger pre.dom().contains(p), adjacent8(p, q)]
                    pre.dom().contains(p) && p.x < x && adjacent8(p, q) && !pre.dom().contains(q)
                        ==> walls@.contains(q),
            decreases bx + 1 - x,
        {
            let mut y: usize = 0;
            while y <= by
                invariant
                    y <= by + 1,
                    x <= bx,
                    *self == *old(self),
                    forall|j: int|
                        0 <= j < walls@.len() ==> needs_wall(pre, #[trigger] walls@[j]),
                    forall|p: Point, q: Point|
                        #![trigger pre.dom().contains(p), adjacent8(p, q)]
                        pre.dom().contains(p) && (p.x < x || (p.x == x && p.y < y)) && adjacent8(
                            p,
                            q,
                        ) && !pre.dom().contains(q) ==> walls@.contains(q),
                decreases by + 1 - y,
            {
                let ghost wb = walls@;
                let pt = Point::new(x, y);
                if self.tiles.get(pt).is_some() {
                    push_if_missing(&self.tiles, &mut walls, Point::new(x + 1, y), Ghost(pt));
                    push_if_missing(&self.tiles, &mut walls, Point::new(x + 1, y + 1), Ghost(pt));
                    push_if_missing(&self.tiles, &mut walls, Point::new(x, y + 1), Ghost(pt));
                    if x != 0 {
                        push_if_missing(
                            &self.tiles,
                            &mut walls,
                            Point::new(x - 1, y + 1),
                            Ghost(pt),
                        );
                        push_if_missing(&self.tiles, &mut walls, Point::new(x - 1, y), Ghost(pt));
                    }
                    if x != 0 && y != 0 {
                        push_if_missing(
                            &self.tiles,
                            &mut walls,
                            Point::new(x - 1, y - 1),
                            Ghost(pt),
                        );
                    }
                    if y != 0 {
                        push_if_missing(&self.tiles, &mut walls, Point::new(x, y - 1), Ghost(pt));
                        push_if_missing(
                            &self.tiles,
                            &mut walls,
                            Point::new(x + 1, y - 1),
                            Ghost(pt),
                        );
                    }
                    proof {
                        assert forall|q: Point|
                            adjacent8(pt, q) && !pre.dom().contains(q) implies walls@.contains(
                            q,
                        ) by {
                            assert(q.x == pt.x - 1 || q.x == pt.x || q.x == pt.x + 1);
                            assert(q.y == pt.y - 1 || q.y == pt.y || q.y == pt.y + 1);
                        }
                        assert forall|p: Point, q: Point|
                            pre.dom().contains(p) && (p.x < x || (p.x == x && p.y < y + 1))
                            && adjacent8(p, q) && !pre.dom().contains(q) implies walls@.contains(
                            q,
                        ) by {
                            if p.x < x || (p.x == x && p.y < y) {
                                assert(wb.contains(q));
                            } else {
                                assert(p == pt);
                            }
                        }
                    }
                } else {
                    proof {
                        assert forall|p: Point, q: Point|
                            pre.dom().contains(p) && (p.x < x || (p.x == x && p.y < y + 1))
                            && adjacent8(p, q) && !pre.dom().contains(q) implies walls@.contains(
                            q,
                        ) by {
                            assert(p.x < x || (p.x == x && p.y < y));
                        }
                    }
                }
                y = y + 1;
            }
            x = x + 1;
        }
        let ghost scan_walls = walls@;
        let mut i: usize = 0;
        while i < walls.len()
            invariant
                i <= walls@.len(),
                walls@ == scan_walls,
                self.size == old(self).size,
                self.rooms == old(self).rooms,
                self.min_room_size == old(self).min_room_size,
                self.max_room_size == old(self).max_room_size,
                forall|p: Point| #[trigger]
                    pre.dom().contains(p) ==> self.tiles@.dom().contains(p) && self.tiles@[p]
                        == pre[p],
                forall|q: Point| #[trigger]
                    self.tiles@.dom().contains(q) ==> pre.dom().contains(q) || needs_wall(pre, q),
                forall|q: Point|
                    #[trigger] self.tiles@.dom().contains(q) && !pre.dom().contains(q)
                        ==> self.tiles@[q] == Tile::Wall,
                forall|j: int|
                    0 <= j < i ==> self.tiles@.dom().contains(#[trigger] walls@[j])
                        && self.tiles@[walls@[j]] == Tile::Wall,
            decreases walls@.len() - i,
        {
            let q = walls[i];
            proof {
                assert(needs_wall(pre, q));
                let w = choose|p: Point|
                    #![trigger pre.dom().contains(p), adjacent8(p, q)]
                    pre.dom().contains(p) && adjacent8(p, q);
                assert(pre.dom().contains(w) && adjacent8(w, q));
                assert(w.x <= bx && w.y <= by);
            }
            self.tiles.insert(q, Tile::Wall);
            i = i + 1;
        }
        proof {
            assert forall|q: Point| #[trigger]
                needs_wall(pre, q) implies self.tiles@.dom().contains(q) && self.tiles@[q]
                == Tile::Wall by {
                let w = choose|p: Point|
                    #![trigger pre.dom().contains(p), adjacent8(p, q)]
                    pre.dom().contains(p) && adjacent8(p, q);
                assert(pre.dom().contains(w) && adjacent8(w, q));
                assert(w.x <= bx && w.y <= by);
                assert(walls@.contains(q));
                let j = choose|j: int| 0 <= j < walls@.len() && walls@[j] == q;
                assert(self.tiles@.dom().contains(walls@[j]));
            }
        }
    }
}

/// Appending corridors that satisfy the bound to a node's own list
/// keeps the whole subtree's corridors within the bound.
proof fn lemma_corridors_after_append(pre: Leaf, post: Leaf, bx: int, by: int)
    requires
        post.left_child == pre.left_child,
        post.right_child == pre.right_child,
        pre.corridors@.is_prefix_of(post.corridors@),
        forall|i: int|
            pre.corridors@.len() <= i < post.corridors@.len() ==> corridor_ok(
                #[trigger] post.corridors@[i],
                bx,
                by,
            ),
        all_corridors_bounded(pre, bx, by),
    ensures
        all_corridors_bounded(post, bx, by),
{
    assert forall|c: Room| #[trigger] subtree_corridor(post, c) implies corridor_ok(c, bx, by) by {
        if post.corridors@.contains(c) {
            let i = choose|i: int| 0 <= i < post.corridors@.len() && post.corridors@[i] == c;
            if i < pre.corridors@.len() {
                assert(pre.corridors@[i] == c);
                assert(pre.corridors@.contains(c));
                assert(subtree_corridor(pre, c));
            }
        } else {
            assert(subtree_corridor(pre, c));
        }
    }
}

} // verus!
