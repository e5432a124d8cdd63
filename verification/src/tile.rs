use crate::geom::Vec2;
use crate::terrain::EGroundType;
use vstd::prelude::*;

verus! {

/// One grid position's search record: its coordinate, its terrain category,
/// and the per-search bookkeeping fields.
///
/// `g` (accumulated cost from the start) and `prev` (the predecessor
/// coordinate) are meaningless until the search has expanded the cell at
/// least once; `h` (the heuristic estimate of the remaining cost) is fixed
/// once computed for a given goal.
#[derive(Clone, Copy, PartialEq, Eq, Structural, Debug)]
pub struct Tile {
    pub pos: Vec2,
    pub prev: Vec2,
    pub ground_type: EGroundType,
    pub h: u64,
    pub g: u64,
}

impl Tile {
    /// A fresh search record for position `pos` with terrain `ground_type`.
    pub fn new(pos: Vec2, ground_type: EGroundType) -> (t: Tile)
        ensures
            t == (Tile {
                pos,
                prev: Vec2 { x: 0, y: 0 },
                ground_type,
                h: 0,
                g: 0,
            }),
    {
        Tile { pos, prev: Vec2 { x: 0usize, y: 0usize }, ground_type, h: 0u64, g: 0u64 }
    }

    /// A placeholder record at the origin with unclassified terrain, as bulk
    /// grid initialization uses before terrain assignment.
    pub fn new_empty() -> (t: Tile)
        ensures
            t == (Tile {
                pos: Vec2 { x: 0, y: 0 },
                prev: Vec2 { x: 0, y: 0 },
                ground_type: EGroundType::NotSet,
                h: 0,
                g: 0,
            }),
    {
        Tile {
            pos: Vec2 { x: 0usize, y: 0usize },
            prev: Vec2 { x: 0usize, y: 0usize },
            ground_type: EGroundType::NotSet,
            h: 0u64,
            g: 0u64,
        }
    }

    /// Records the coordinate this tile was reached from.
    pub fn set_prev(&mut self, prev: Vec2)
        ensures
            *final(self) == (Tile { prev, ..*old(self) }),
    {
        self.prev = prev;
    }
}

} // verus!
