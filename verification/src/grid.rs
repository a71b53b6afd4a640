//! A sparse grid of tiles: a mapping from coordinates to tile kinds with
//! unique keys and no implied iteration order. Absence of a coordinate
//! means void/unknown, which is distinct from `Wall`.

use vstd::prelude::*;

use std::collections::HashMap;

use crate::{Point, Tile};

verus! {

broadcast use vstd::std_specs::hash::group_hash_axioms;

/// Packs a coordinate pair into the single integer that keys the
/// underlying hash map. Injective for coordinates below `2^32`.
pub open spec fn key_of(p: Point) -> u64
    recommends
        p.x < 0x1_0000_0000,
        p.y < 0x1_0000_0000,
{
    (p.x * 0x1_0000_0000 + p.y) as u64
}

/// Packing is injective on coordinates below `2^32`.
proof fn lemma_key_of_injective(p: Point, q: Point)
    requires
        p.x < 0x1_0000_0000,
        p.y < 0x1_0000_0000,
        q.x < 0x1_0000_0000,
        q.y < 0x1_0000_0000,
        key_of(p) == key_of(q),
    ensures
        p == q,
{
    assert(p.x * 0x1_0000_0000 + p.y == q.x * 0x1_0000_0000 + q.y) by (nonlinear_arith)
        requires
            p.x < 0x1_0000_0000,
            p.y < 0x1_0000_0000,
            q.x < 0x1_0000_0000,
            q.y < 0x1_0000_0000,
            key_of(p) == key_of(q),
    ;
    assert(p.x == q.x && p.y == q.y) by (nonlinear_arith)
        requires
            p.x < 0x1_0000_0000,
            p.y < 0x1_0000_0000,
            q.x < 0x1_0000_0000,
            q.y < 0x1_0000_0000,
            p.x * 0x1_0000_0000 + p.y == q.x * 0x1_0000_0000 + q.y,
    ;
}

/// A mapping from `Point` to `Tile`, read through its abstract view
/// `Map<Point, Tile>`.
pub struct TileGrid {
    m: HashMap<u64, Tile>,
}

impl View for TileGrid {
    type V = Map<Point, Tile>;

    closed spec fn view(&self) -> Map<Point, Tile> {
        Map::new(
            |p: Point|
                p.x < 0x1_0000_0000 && p.y < 0x1_0000_0000 && self.m@.contains_key(key_of(p)),
            |p: Point| self.m@[key_of(p)],
        )
    }
}

impl TileGrid {
    /// An empty grid.
    pub fn new() -> (r: Self)
        ensures
            r@ == Map::<Point, Tile>::empty(),
    {
        let r = TileGrid { m: HashMap::new() };
        proof {
            assert(r@ =~= Map::<Point, Tile>::empty());
        }
        r
    }

    /// Sets the tile at `p`, overwriting any previous tile there.
    pub fn insert(&mut self, p: Point, t: Tile)
        requires
            p.x < 0x1_0000_0000,
            p.y < 0x1_0000_0000,
        ensures
            final(self)@ == old(self)@.insert(p, t),
    {
        proof {
            assert((p.x * 0x1_0000_0000 + p.y) as int <= u64::MAX) by (nonlinear_arith)
                requires
                    p.x < 0x1_0000_0000,
                    p.y < 0x1_0000_0000,
            ;
        }
        let k: u64 = (p.x as u64) * 0x1_0000_0000u64 + (p.y as u64);
        self.m.insert(k, t);
        proof {
            assert forall|q: Point| self@.dom().contains(q) implies old(self)@.insert(
                p,
                t,
            ).dom().contains(q) by {
                if key_of(q) == key_of(p) {
                    lemma_key_of_injective(p, q);
                }
            }
            assert forall|q: Point| old(self)@.insert(p, t).dom().contains(q) implies self@.dom().contains(
                q,
            ) by {}
            assert forall|q: Point| self@.dom().contains(q) implies self@[q] == old(self)@.insert(
                p,
                t,
            )[q] by {
                if key_of(q) == key_of(p) {
                    lemma_key_of_injective(p, q);
                }
            }
            assert(self@ =~= old(self)@.insert(p, t));
        }
    }

    /// Looks the tile at `p` up; `None` means the coordinate is void.
    pub fn get(&self, p: Point) -> (r: Option<Tile>)
        ensures
            r == if self@.dom().contains(p) {
                Some(self@[p])
            } else {
                None::<Tile>
            },
    {
        let xb = p.x as u64;
        let yb = p.y as u64;
        if xb < 0x1_0000_0000u64 && yb < 0x1_0000_0000u64 {
            let k: u64 = xb * 0x1_0000_0000u64 + yb;
            match self.m.get(&k) {
                Some(t) => Some(*t),
                None => None,
            }
        } else {
            None
        }
    }
}

} // verus!
