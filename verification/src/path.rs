use crate::geom::Vec2;
use crate::grid::Grid;
use crate::tile::Tile;
use vstd::prelude::*;

verus! {

/// Following predecessor links from `c` reaches `start` within `fuel` steps,
/// staying in bounds the whole way.  The reconstruction below terminates
/// exactly because the search assigns predecessors with a rolling pointer
/// that keeps every chain finite and anchored at the start cell.
pub open spec fn chain_reaches(map: Grid, c: Vec2, start: Vec2, fuel: nat) -> bool
    decreases fuel,
{
    if c == start {
        true
    } else if fuel == 0 {
        false
    } else {
        map.in_bounds(c) && chain_reaches(map, map.tile_at(c).prev, start, (fuel - 1) as nat)
    }
}

/// How many predecessor links lie between `c` and `start`, counted within
/// the budget `fuel`.  Along a chain that reaches the start this count is a
/// function of the coordinate alone, which is what makes every coordinate
/// of a reconstructed route distinct.
pub open spec fn chain_steps(map: Grid, c: Vec2, start: Vec2, fuel: nat) -> nat
    decreases fuel,
{
    if c == start || fuel == 0 {
        0
    } else {
        1 + chain_steps(map, map.tile_at(c).prev, start, (fuel - 1) as nat)
    }
}

/// A chain that reaches the start within `m` steps also does within any
/// larger budget.
pub proof fn lemma_chain_fuel_mono(map: Grid, c: Vec2, start: Vec2, m: nat, n: nat)
    requires
        chain_reaches(map, c, start, m),
        m <= n,
    ensures
        chain_reaches(map, c, start, n),
    decreases m,
{
    if c != start {
        lemma_chain_fuel_mono(map, map.tile_at(c).prev, start, (m - 1) as nat, (n - 1) as nat);
    }
}

/// On a chain that reaches the start, the step count does not depend on the
/// budget it is computed with.
pub proof fn lemma_chain_steps_same(map: Grid, c: Vec2, start: Vec2, m: nat, n: nat)
    requires
        chain_reaches(map, c, start, m),
        chain_reaches(map, c, start, n),
    ensures
        chain_steps(map, c, start, m) == chain_steps(map, c, start, n),
    decreases m,
{
    if c != start {
        lemma_chain_steps_same(
            map,
            map.tile_at(c).prev,
            start,
            (m - 1) as nat,
            (n - 1) as nat,
        );
    }
}

/// Walks the predecessor chain backward from the goal cell until the start
/// coordinate is reached, collecting each visited cell, then appends the
/// start cell: the route ordered goal first, start last.  No coordinate
/// appears twice: the walk is deterministic, so each visited cell sits a
/// strictly smaller number of links from the start than the one before it.
pub fn create_final_path(start_pos: Vec2, end_pos: Vec2, map: &Grid) -> (path: Vec<Tile>)
    requires
        map.wf(),
        map.in_bounds(start_pos),
        map.in_bounds(end_pos),
        exists|n: nat| chain_reaches(*map, end_pos, start_pos, n),
    ensures
        path@.len() >= 1,
        path@[0] == map.tile_at(end_pos),
        path@[path@.len() - 1] == map.tile_at(start_pos),
        forall|i: int|
            0 <= i < path@.len() ==> map.in_bounds((#[trigger] path@[i]).pos) && path@[i]
                == map.tile_at(path@[i].pos),
        forall|i: int, j: int|
            0 <= i && j == i + 1 && j < path@.len() ==> (#[trigger] path@[i]).pos != start_pos
                && (#[trigger] path@[j]).pos == path@[i].prev,
        forall|i: int, j: int| 0 <= i < j < path@.len() ==> path@[i].pos != path@[j].pos,
{
    let mut final_path: Vec<Tile> = Vec::new();
    let ghost cap = choose|n: nat| chain_reaches(*map, end_pos, start_pos, n);
    let ghost mut fuel = cap;
    let ghost total = chain_steps(*map, end_pos, start_pos, cap);
    let mut current = end_pos;
    while current != start_pos
        invariant
            map.wf(),
            map.in_bounds(start_pos),
            map.in_bounds(end_pos),
            current == start_pos || map.in_bounds(current),
            fuel <= cap,
            chain_reaches(*map, current, start_pos, fuel),
            chain_steps(*map, current, start_pos, fuel) == total - final_path@.len(),
            final_path@.len() <= total,
            final_path@.len() == 0 ==> current == end_pos,
            final_path@.len() >= 1 ==> final_path@[0] == map.tile_at(end_pos) && current
                == final_path@[final_path@.len() - 1].prev,
            forall|i: int|
                0 <= i < final_path@.len() ==> map.in_bounds((#[trigger] final_path@[i]).pos)
                    && final_path@[i] == map.tile_at(final_path@[i].pos) && final_path@[i].pos
                    != start_pos,
            forall|i: int, j: int|
                0 <= i && j == i + 1 && j < final_path@.len() ==> (#[trigger] final_path@[j]).pos
                    == (#[trigger] final_path@[i]).prev,
            forall|i: int|
                0 <= i < final_path@.len() ==> chain_steps(
                    *map,
                    (#[trigger] final_path@[i]).pos,
                    start_pos,
                    cap,
                ) == total - i,
        decreases fuel,
    {
        proof {
            assert(fuel > 0);
            lemma_chain_fuel_mono(*map, current, start_pos, fuel, cap);
            lemma_chain_steps_same(*map, current, start_pos, fuel, cap);
        }
        let t = map.get(current);
        final_path.push(t);
        current = t.prev;
        proof {
            fuel = (fuel - 1) as nat;
            assert(chain_reaches(*map, current, start_pos, fuel));
            if current != start_pos {
                assert(map.in_bounds(current));
            }
        }
    }
    proof {
        assert(chain_steps(*map, current, start_pos, fuel) == 0);
    }
    let s = map.get(start_pos);
    final_path.push(s);
    proof {
        assert forall|i: int, j: int|
            0 <= i < j < final_path@.len() implies final_path@[i].pos != final_path@[j].pos by {
            assert(chain_steps(*map, final_path@[i].pos, start_pos, cap) == total - i);
            assert(chain_steps(*map, final_path@[j].pos, start_pos, cap) == total - j);
        }
    }
    final_path
}

} // verus!
