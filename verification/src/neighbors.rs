use crate::geom::{Vec2, MAX_EXTENT};
use vstd::prelude::*;

verus! {

/// Whether `b` lies in the eight-direction ring around `a`: at most one step
/// away on each axis and not equal to `a`.
pub open spec fn is_adjacent(a: Vec2, b: Vec2) -> bool {
    let dx = b.x - a.x;
    let dy = b.y - a.y;
    &&& -1 <= dx <= 1
    &&& -1 <= dy <= 1
    &&& !(dx == 0 && dy == 0)
}

/// Enumerates the candidate cells adjacent to `start`: the eight-direction
/// ring, filtered to exclude every coordinate with a negative component or a
/// component at or beyond the grid extent on that axis.  The result holds
/// exactly the in-bounds ring coordinates, each once.
pub fn get_adjacent(start: Vec2, width: usize, height: usize) -> (out: Vec<Vec2>)
    requires
        width <= MAX_EXTENT,
        height <= MAX_EXTENT,
        start.x < width,
        start.y < height,
    ensures
        out@.len() <= 8,
        forall|i: int|
            0 <= i < out@.len() ==> (#[trigger] out@[i]).x < width && out@[i].y < height
                && is_adjacent(start, out@[i]),
        forall|p: Vec2|
            p.x < width && p.y < height && is_adjacent(start, p) ==> out@.contains(p),
        forall|k: int, l: int| 0 <= k < l < out@.len() ==> out@[k] != out@[l],
{
    let cx = start.x as i64;
    let cy = start.y as i64;
    let mut fill: Vec<(i64, i64)> = Vec::new();
    fill.push((cx - 1, cy - 1));
    fill.push((cx, cy - 1));
    fill.push((cx + 1, cy - 1));
    fill.push((cx - 1, cy));
    fill.push((cx + 1, cy));
    fill.push((cx - 1, cy + 1));
    fill.push((cx, cy + 1));
    fill.push((cx + 1, cy + 1));

    let mut out: Vec<Vec2> = Vec::new();
    let wi = width as i64;
    let hi = height as i64;
    for i in 0..8usize
        invariant
            fill@.len() == 8,
            fill@[0].0 as int == cx - 1 && fill@[0].1 as int == cy - 1,
            fill@[1].0 as int == cx && fill@[1].1 as int == cy - 1,
            fill@[2].0 as int == cx + 1 && fill@[2].1 as int == cy - 1,
            fill@[3].0 as int == cx - 1 && fill@[3].1 as int == cy,
            fill@[4].0 as int == cx + 1 && fill@[4].1 as int == cy,
            fill@[5].0 as int == cx - 1 && fill@[5].1 as int == cy + 1,
            fill@[6].0 as int == cx && fill@[6].1 as int == cy + 1,
            fill@[7].0 as int == cx + 1 && fill@[7].1 as int == cy + 1,
            cx == start.x,
            cy == start.y,
            wi == width,
            hi == height,
            start.x < width <= MAX_EXTENT,
            start.y < height <= MAX_EXTENT,
            out@.len() <= i,
            forall|k: int|
                0 <= k < out@.len() ==> (#[trigger] out@[k]).x < width && out@[k].y < height
                    && is_adjacent(start, out@[k]),
            forall|k: int, l: int| 0 <= k < l < out@.len() ==> out@[k] != out@[l],
            forall|p: Vec2|
                out@.contains(p) ==> (exists|j: int|
                    0 <= j < i && fill@[j].0 as int == p.x && fill@[j].1 as int == p.y),
            forall|j: int|
                0 <= j < i && 0 <= fill@[j].0 < wi && 0 <= fill@[j].1 < hi ==> out@.contains(
                    (Vec2 { x: fill@[j].0 as usize, y: fill@[j].1 as usize }),
                ),
    {
        let (px, py) = fill[i];
        if 0 <= px && px < wi && 0 <= py && py < hi {
            let v = Vec2 { x: px as usize, y: py as usize };
            let ghost old_out = out@;
            out.push(v);
            proof {
                assert(out@[out@.len() - 1] == v);
                assert forall|k: int| 0 <= k < old_out.len() implies out@[k] != v by {
                    assert(old_out.contains(out@[k]));
                    let jj = choose|jj: int|
                        0 <= jj < i && fill@[jj].0 as int == out@[k].x && fill@[jj].1 as int
                            == out@[k].y;
                    assert(fill@[jj].0 != fill@[i as int].0 || fill@[jj].1 != fill@[i as int].1);
                }
                assert forall|p: Vec2| old_out.contains(p) implies out@.contains(p) by {
                    let k = choose|k: int| 0 <= k < old_out.len() && old_out[k] == p;
                    assert(out@[k] == p);
                }
                assert forall|p: Vec2| out@.contains(p) implies (exists|j: int|
                    0 <= j < i + 1 && fill@[j].0 as int == p.x && fill@[j].1 as int
                        == p.y) by {
                    let k = choose|k: int| 0 <= k < out@.len() && out@[k] == p;
                    if k < old_out.len() {
                        assert(old_out.contains(p));
                        let j = choose|j: int|
                            0 <= j < i && fill@[j].0 as int == p.x && fill@[j].1 as int == p.y;
                        assert(0 <= j < i + 1 && fill@[j].0 as int == p.x && fill@[j].1 as int
                            == p.y);
                    } else {
                        assert(p == v);
                        assert(fill@[i as int].0 as int == p.x && fill@[i as int].1 as int
                            == p.y);
                    }
                }
            }
        }
    }
    proof {
        assert forall|p: Vec2|
            p.x < width && p.y < height && is_adjacent(start, p) implies out@.contains(p) by {
            let dx = p.x - start.x;
            let dy = p.y - start.y;
            let j: int = if dx == -1 && dy == -1 {
                0
            } else if dx == 0 && dy == -1 {
                1
            } else if dx == 1 && dy == -1 {
                2
            } else if dx == -1 && dy == 0 {
                3
            } else if dx == 1 && dy == 0 {
                4
            } else if dx == -1 && dy == 1 {
                5
            } else if dx == 0 && dy == 1 {
                6
            } else {
                7
            };
            assert(fill@[j].0 as int == p.x && fill@[j].1 as int == p.y);
            assert(0 <= fill@[j].0 < wi && 0 <= fill@[j].1 < hi);
            assert(p == (Vec2 { x: fill@[j].0 as usize, y: fill@[j].1 as usize }));
        }
    }
    out
}

} // verus!
