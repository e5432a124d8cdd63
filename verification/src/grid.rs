use crate::geom::{Vec2, H_MAX, MAX_EXTENT};
use crate::terrain::EGroundType;
use crate::tile::Tile;
use vstd::prelude::*;

verus! {

/// Upper bound on an accumulated cost `g`: the sentinel cost `127` paid once
/// for every cell of the largest grid, `127 * MAX_EXTENT * MAX_EXTENT`.
pub const G_MAX: u64 = 12_700_000_000;

/// A fixed-extent 2-D collection of tiles, indexed by coordinate and covering
/// the full terrain raster.  The grid is the shared mutable state of one
/// search: the driver updates `g` and `prev` of the cells it expands in
/// place.
pub struct Grid {
    pub width: usize,
    pub height: usize,
    pub tiles: Vec<Vec<Tile>>,
}

impl Grid {
    /// Whether `p` names a cell of this grid.  Coordinates outside the grid
    /// extents are invalid and must never be dereferenced.
    pub open spec fn in_bounds(self, p: Vec2) -> bool {
        p.x < self.width && p.y < self.height
    }

    /// The tile stored at coordinate `p`.
    pub open spec fn tile_at(self, p: Vec2) -> Tile {
        self.tiles[p.x as int][p.y as int]
    }

    /// Well-formedness: the extents are positive and within `MAX_EXTENT`,
    /// the storage matches the extents, every cell records its own
    /// coordinate, and the bookkeeping fields stay within the bounds that
    /// keep score arithmetic in `u64`.
    pub open spec fn wf(self) -> bool {
        &&& 1 <= self.width <= MAX_EXTENT
        &&& 1 <= self.height <= MAX_EXTENT
        &&& self.tiles.len() == self.width
        &&& forall|x: int| 0 <= x < self.width ==> (#[trigger] self.tiles[x]).len() == self.height
        &&& forall|p: Vec2|
            self.in_bounds(p) ==> {
                let t = #[trigger] self.tile_at(p);
                t.pos == p && t.h <= H_MAX && t.g <= G_MAX
            }
    }

    /// Bulk initialization: a `width` by `height` grid in which every
    /// coordinate is populated with a placeholder tile carrying terrain
    /// `NotSet`, ready for terrain assignment.
    pub fn new(width: usize, height: usize) -> (grid: Grid)
        requires
            1 <= width <= MAX_EXTENT,
            1 <= height <= MAX_EXTENT,
        ensures
            grid.wf(),
            grid.width == width,
            grid.height == height,
            forall|p: Vec2|
                grid.in_bounds(p) ==> #[trigger] grid.tile_at(p) == (Tile {
                    pos: p,
                    prev: Vec2 { x: 0, y: 0 },
                    ground_type: EGroundType::NotSet,
                    h: 0,
                    g: 0,
                }),
    {
        let mut tiles: Vec<Vec<Tile>> = Vec::new();
        for x in 0..width
            invariant
                tiles@.len() == x,
                forall|i: int| 0 <= i < x ==> (#[trigger] tiles@[i]).len() == height,
                forall|i: int, j: int|
                    0 <= i < x && 0 <= j < height ==> #[trigger] tiles@[i]@[j] == (Tile {
                        pos: Vec2 { x: i as usize, y: j as usize },
                        prev: Vec2 { x: 0, y: 0 },
                        ground_type: EGroundType::NotSet,
                        h: 0,
                        g: 0,
                    }),
        {
            let mut row: Vec<Tile> = Vec::new();
            for y in 0..height
                invariant
                    row@.len() == y,
                    forall|j: int|
                        0 <= j < y ==> #[trigger] row@[j] == (Tile {
                            pos: Vec2 { x, y: j as usize },
                            prev: Vec2 { x: 0, y: 0 },
                            ground_type: EGroundType::NotSet,
                            h: 0,
                            g: 0,
                        }),
            {
                row.push(
                    Tile {
                        pos: Vec2 { x, y },
                        prev: Vec2 { x: 0usize, y: 0usize },
                        ground_type: EGroundType::NotSet,
                        h: 0u64,
                        g: 0u64,
                    },
                );
            }
            tiles.push(row);
        }
        Grid { width, height, tiles }
    }

    /// The tile at coordinate `pos`.
    pub fn get(&self, pos: Vec2) -> (t: Tile)
        requires
            self.wf(),
            self.in_bounds(pos),
        ensures
            t == self.tile_at(pos),
    {
        self.tiles[pos.x][pos.y]
    }

    /// Replaces the tile at coordinate `pos` with `t`, which must keep the
    /// cell's own coordinate and the bookkeeping bounds.
    pub fn set(&mut self, pos: Vec2, t: Tile)
        requires
            old(self).wf(),
            old(self).in_bounds(pos),
            t.pos == pos,
            t.h <= H_MAX,
            t.g <= G_MAX,
        ensures
            final(self).wf(),
            final(self).width == old(self).width,
            final(self).height == old(self).height,
            final(self).tile_at(pos) == t,
            forall|p: Vec2|
                final(self).in_bounds(p) && p != pos ==> #[trigger] final(self).tile_at(p)
                    == old(self).tile_at(p),
    {
        self.tiles[pos.x][pos.y] = t;
        assert forall|p: Vec2| self.in_bounds(p) && p != pos implies #[trigger] self.tile_at(p)
            == old(self).tile_at(p) by {
            if p.x == pos.x {
                assert(p.y != pos.y);
            }
        }
    }
}

} // verus!
