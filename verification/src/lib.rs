//! Procedural generation of 2D dungeon maps by binary space partitioning.
//!
//! A map is built by recursively splitting a rectangular region into a
//! binary tree, sampling one room per leaf, connecting sibling subtrees
//! with L-shaped corridors, and finally deriving a wall layer around all
//! floor tiles.

use vstd::prelude::*;

pub mod bsp;
pub mod grid;
mod rng;

verus! {

/// A pair of non-negative integer coordinates, used both for positions
/// and for sizes.
#[derive(Clone, Copy, PartialEq, Eq, Hash, Debug, Structural)]
pub struct Point {
    pub x: usize,
    pub y: usize,
}

impl Point {
    pub fn new(x: usize, y: usize) -> (r: Self)
        ensures
            r.x == x,
            r.y == y,
    {
        Point { x, y }
    }
}

/// The kind of a generated tile. A coordinate absent from the grid is
/// void/unknown, which is distinct from `Wall`.
#[derive(Clone, Copy, PartialEq, Eq, PartialOrd, Ord, Hash, Debug, Structural)]
pub enum Tile {
    Floor,
    Wall,
}

} // verus!
