use crate::geom::{calc_dist_sqr, dist_sqr_spec, Vec2, MAX_EXTENT};
use crate::grid::Grid;
use crate::tile::Tile;
use vstd::prelude::*;

verus! {

/// Writes into every cell of the grid the heuristic estimate `h` of the cost
/// to reach `end_pos`: the squared Euclidean distance from the cell to the
/// goal.  The estimate ignores terrain entirely, so it is a uniform proxy
/// computed in one pass, not a per-tile optimum; it must be recomputed
/// whenever the goal changes, and the driver runs it exactly once before
/// expansion begins.  No other field of any cell changes.
pub fn set_h_for_all_tiles(map: &mut Grid, end_pos: &Vec2)
    requires
        old(map).wf(),
        end_pos.x <= MAX_EXTENT,
        end_pos.y <= MAX_EXTENT,
    ensures
        final(map).wf(),
        final(map).width == old(map).width,
        final(map).height == old(map).height,
        forall|p: Vec2|
            final(map).in_bounds(p) ==> #[trigger] final(map).tile_at(p) == (Tile {
                h: dist_sqr_spec(p, *end_pos) as u64,
                ..old(map).tile_at(p)
            }),
{
    let width = map.width;
    let height = map.height;
    for x in 0..width
        invariant
            map.wf(),
            map.width == old(map).width,
            map.height == old(map).height,
            width == map.width,
            height == map.height,
            end_pos.x <= MAX_EXTENT,
            end_pos.y <= MAX_EXTENT,
            forall|p: Vec2|
                map.in_bounds(p) && p.x < x ==> #[trigger] map.tile_at(p) == (Tile {
                    h: dist_sqr_spec(p, *end_pos) as u64,
                    ..old(map).tile_at(p)
                }),
            forall|p: Vec2|
                map.in_bounds(p) && p.x >= x ==> #[trigger] map.tile_at(p) == old(map).tile_at(
                    p,
                ),
    {
        for y in 0..height
            invariant
                map.wf(),
                map.width == old(map).width,
                map.height == old(map).height,
                width == map.width,
                height == map.height,
                x < width,
                end_pos.x <= MAX_EXTENT,
                end_pos.y <= MAX_EXTENT,
                forall|p: Vec2|
                    map.in_bounds(p) && (p.x < x || (p.x == x && p.y < y)) ==> #[trigger] map
                        .tile_at(p) == (Tile {
                        h: dist_sqr_spec(p, *end_pos) as u64,
                        ..old(map).tile_at(p)
                    }),
                forall|p: Vec2|
                    map.in_bounds(p) && (p.x > x || (p.x == x && p.y >= y)) ==> #[trigger] map
                        .tile_at(p) == old(map).tile_at(p),
        {
            let pos = Vec2 { x, y };
            let mut t = map.get(pos);
            t.h = calc_dist_sqr(&t.pos, end_pos);
            map.set(pos, t);
        }
    }
}

} // verus!
