use crate::frontier::{f_score, find_best_next_tile};
use crate::geom::{dist_sqr_spec, Vec2, MAX_EXTENT};
use crate::grid::{Grid, G_MAX};
use crate::heuristic::set_h_for_all_tiles;
use crate::neighbors::{get_adjacent, is_adjacent};
use crate::path::{chain_reaches, create_final_path};
use crate::terrain::FORBIDDEN_COST;
use crate::tile::Tile;
use vstd::prelude::*;

verus! {

/// The seen-set slot of coordinate `p` in a row-major flag vector of a grid
/// `height` cells tall.
pub open spec fn seen_idx(p: Vec2, height: int) -> int {
    p.x * height + p.y
}

proof fn lemma_seen_idx_bounds(p: Vec2, width: int, height: int)
    requires
        0 <= p.x < width,
        0 <= p.y < height,
    ensures
        0 <= seen_idx(p, height) < width * height,
{
    assert(p.x * height + p.y < width * height) by (nonlinear_arith)
        requires
            p.x < width,
            0 <= p.y < height,
            0 <= p.x,
    ;
    assert(p.x * height >= 0) by (nonlinear_arith)
        requires
            p.x >= 0,
            height >= 0,
    ;
}

proof fn lemma_seen_idx_injective(p: Vec2, q: Vec2, height: int)
    requires
        p.y < height,
        q.y < height,
    ensures
        seen_idx(p, height) == seen_idx(q, height) ==> p == q,
{
    if seen_idx(p, height) == seen_idx(q, height) {
        assert(p.x == q.x && p.y == q.y) by (nonlinear_arith)
            requires
                0 <= p.y < height,
                0 <= q.y < height,
                p.x * height + p.y == q.x * height + q.y,
                p.x >= 0,
                q.x >= 0,
        ;
    }
}

/// How many flags of the seen vector are set.
pub open spec fn count_trues(s: Seq<bool>) -> nat
    decreases s.len(),
{
    if s.len() == 0 {
        0
    } else {
        count_trues(s.drop_last()) + (if s.last() {
            1nat
        } else {
            0nat
        })
    }
}

proof fn lemma_count_trues_le_len(s: Seq<bool>)
    ensures
        count_trues(s) <= s.len(),
    decreases s.len(),
{
    if s.len() > 0 {
        lemma_count_trues_le_len(s.drop_last());
    }
}

proof fn lemma_count_trues_update_true(s: Seq<bool>, i: int)
    requires
        0 <= i < s.len(),
        !s[i],
    ensures
        count_trues(s.update(i, true)) == count_trues(s) + 1,
    decreases s.len(),
{
    let s2 = s.update(i, true);
    if i == s.len() - 1 {
        assert(s2.drop_last() =~= s.drop_last());
    } else {
        assert(s2.drop_last() =~= s.drop_last().update(i, true));
        lemma_count_trues_update_true(s.drop_last(), i);
        assert(s2.last() == s.last());
    }
}

proof fn lemma_count_trues_all_false(s: Seq<bool>)
    requires
        forall|i: int| 0 <= i < s.len() ==> !s[i],
    ensures
        count_trues(s) == 0,
    decreases s.len(),
{
    if s.len() > 0 {
        lemma_count_trues_all_false(s.drop_last());
    }
}

/// Whether some open-set entry sits at coordinate `p`.
pub open spec fn open_has(open: Seq<Tile>, p: Vec2) -> bool {
    exists|k: int| 0 <= k < open.len() && open[k].pos == p
}

proof fn lemma_open_remove(open: Seq<Tile>, i: int)
    requires
        0 <= i < open.len(),
        forall|k: int, l: int| 0 <= k < l < open.len() ==> open[k].pos != open[l].pos,
    ensures
        forall|p: Vec2| #[trigger]
            open_has(open.remove(i), p) <==> (open_has(open, p) && p != open[i].pos),
        forall|k: int, l: int|
            0 <= k < l < open.remove(i).len() ==> open.remove(i)[k].pos != open.remove(i)[l].pos,
{
    let r = open.remove(i);
    assert forall|p: Vec2| #[trigger]
        open_has(r, p) implies (open_has(open, p) && p != open[i].pos) by {
        let k = choose|k: int| 0 <= k < r.len() && r[k].pos == p;
        if k < i {
            assert(open[k].pos == p);
        } else {
            assert(open[k + 1].pos == p);
        }
    }
    assert forall|p: Vec2| open_has(open, p) && p != open[i].pos implies #[trigger] open_has(
        r,
        p,
    ) by {
        let k = choose|k: int| 0 <= k < open.len() && open[k].pos == p;
        if k < i {
            assert(r[k].pos == p);
        } else {
            assert(k != i);
            assert(r[k - 1].pos == p);
        }
    }
}

proof fn lemma_open_push(open: Seq<Tile>, t: Tile)
    ensures
        forall|p: Vec2| #[trigger]
            open_has(open.push(t), p) <==> (open_has(open, p) || p == t.pos),
{
    let r = open.push(t);
    assert forall|p: Vec2| #[trigger] open_has(r, p) implies (open_has(open, p) || p
        == t.pos) by {
        let k = choose|k: int| 0 <= k < r.len() && r[k].pos == p;
        if k < open.len() {
            assert(open[k].pos == p);
        }
    }
    assert forall|p: Vec2| (open_has(open, p) || p == t.pos) implies #[trigger] open_has(
        r,
        p,
    ) by {
        if open_has(open, p) {
            let k = choose|k: int| 0 <= k < open.len() && open[k].pos == p;
            assert(r[k].pos == p);
        } else {
            assert(r[open.len() as int].pos == p);
        }
    }
}

/// Following predecessor links from `c` reaches `start` within `fuel` steps,
/// passing only through coordinates listed in `allowed`.
pub open spec fn chain_within(map: Grid, c: Vec2, start: Vec2, allowed: Seq<Vec2>, fuel: nat) -> bool
    decreases fuel,
{
    if c == start {
        true
    } else if fuel == 0 {
        false
    } else {
        allowed.contains(c) && map.in_bounds(c) && chain_within(
            map,
            map.tile_at(c).prev,
            start,
            allowed,
            (fuel - 1) as nat,
        )
    }
}

proof fn lemma_chain_within_reaches(map: Grid, c: Vec2, start: Vec2, allowed: Seq<Vec2>, fuel: nat)
    requires
        chain_within(map, c, start, allowed, fuel),
    ensures
        chain_reaches(map, c, start, fuel),
    decreases fuel,
{
    if c != start {
        lemma_chain_within_reaches(map, map.tile_at(c).prev, start, allowed, (fuel - 1) as nat);
    }
}

proof fn lemma_chain_within_mono(
    map: Grid,
    c: Vec2,
    start: Vec2,
    a1: Seq<Vec2>,
    a2: Seq<Vec2>,
    fuel: nat,
    big_fuel: nat,
)
    requires
        chain_within(map, c, start, a1, fuel),
        forall|p: Vec2| a1.contains(p) ==> a2.contains(p),
        fuel <= big_fuel,
    ensures
        chain_within(map, c, start, a2, big_fuel),
    decreases fuel,
{
    if c != start {
        lemma_chain_within_mono(
            map,
            map.tile_at(c).prev,
            start,
            a1,
            a2,
            (fuel - 1) as nat,
            (big_fuel - 1) as nat,
        );
    }
}

proof fn lemma_chain_within_frame(
    m1: Grid,
    m2: Grid,
    c: Vec2,
    start: Vec2,
    allowed: Seq<Vec2>,
    fuel: nat,
    e: Vec2,
)
    requires
        chain_within(m1, c, start, allowed, fuel),
        !allowed.contains(e),
        m1.width == m2.width,
        m1.height == m2.height,
        forall|p: Vec2| m1.in_bounds(p) && p != e ==> m2.tile_at(p) == m1.tile_at(p),
    ensures
        chain_within(m2, c, start, allowed, fuel),
    decreases fuel,
{
    if c != start {
        assert(c != e);
        lemma_chain_within_frame(m1, m2, m1.tile_at(c).prev, start, allowed, (fuel - 1) as nat, e);
    }
}

/// The goal `c` can be reached from `start` within `n` steps: a walk of
/// adjacent in-bounds cells that leaves the start and passes only through
/// non-forbidden terrain.  The start itself needs no terrain check, since
/// the search always expands the cell it begins on.
pub open spec fn reachable_in(map: Grid, start: Vec2, c: Vec2, n: nat) -> bool
    decreases n,
{
    if c == start {
        map.in_bounds(start)
    } else if n == 0 {
        false
    } else {
        map.in_bounds(c) && !map.tile_at(c).ground_type.is_forbidden() && (exists|p: Vec2|
            is_adjacent(p, c) && reachable_in(map, start, p, (n - 1) as nat))
    }
}

/// Whether `c` can be reached from `start` at all through non-forbidden
/// terrain.  The search returns a route exactly for such goals: forbidden
/// cells are never stepped onto.
pub open spec fn reachable(map: Grid, start: Vec2, c: Vec2) -> bool {
    exists|n: nat| reachable_in(map, start, c, n)
}

/// A marking that contains the start and is closed under stepping to a
/// non-forbidden neighbor covers every reachable coordinate.
proof fn lemma_reachable_marked(seen: Seq<bool>, map: Grid, start: Vec2, c: Vec2, n: nat)
    requires
        reachable_in(map, start, c, n),
        seen.len() == map.width * map.height,
        seen[seen_idx(start, map.height as int)],
        forall|a: Vec2, b: Vec2|
            map.in_bounds(a) && map.in_bounds(b) && seen[#[trigger] seen_idx(
                a,
                map.height as int,
            )] && is_adjacent(a, b) && !map.tile_at(b).ground_type.is_forbidden()
                ==> seen[#[trigger] seen_idx(b, map.height as int)],
    ensures
        seen[seen_idx(c, map.height as int)],
    decreases n,
{
    if c != start {
        let p = choose|p: Vec2| is_adjacent(p, c) && reachable_in(map, start, p, (n - 1) as nat);
        lemma_reachable_marked(seen, map, start, p, (n - 1) as nat);
        assert(map.in_bounds(p));
    }
}

/// Every in-bounds, non-forbidden coordinate adjacent to `a` is marked
/// seen.  Forbidden neighbors are exempt: the search never enqueues them.
pub open spec fn neighbors_marked(seen: Seq<bool>, map: Grid, a: Vec2) -> bool {
    forall|n: Vec2|
        map.in_bounds(n) && is_adjacent(a, n) && !map.tile_at(n).ground_type.is_forbidden()
            ==> seen[#[trigger] seen_idx(n, map.height as int)]
}

/// The first `upto` expanded cells have all their in-bounds non-forbidden
/// neighbors marked seen: once the open set empties, the marking is closed
/// under stepping to non-forbidden terrain.
pub open spec fn expanded_closed(seen: Seq<bool>, map: Grid, order: Seq<Vec2>, upto: int) -> bool {
    forall|i: int| 0 <= i < upto ==> neighbors_marked(seen, map, #[trigger] order[i])
}

/// The record one search run leaves behind: `ord` lists the expanded
/// coordinates in the order they were removed from the open set.  The first
/// expanded cell is the start; every later one is a non-forbidden cell first
/// discovered as the neighbor of an earlier expansion; and each expanded
/// cell carries in the grid exactly the rolling-predecessor bookkeeping of
/// the driver: its `prev` is the cell expanded immediately before it (not
/// necessarily the neighbor that discovered it), and its `g` is its own
/// terrain cost plus the `g` of that rolling predecessor.
pub open spec fn expansion_trace(map: Grid, map0: Grid, ord: Seq<Vec2>, start: Vec2, end: Vec2) -> bool {
    &&& forall|i: int| 0 <= i < ord.len() ==> map.in_bounds(#[trigger] ord[i]) && ord[i] != end
    &&& forall|i: int, l: int| 0 <= i < l < ord.len() ==> ord[i] != ord[l]
    &&& ord.len() >= 1 ==> ord[0] == start && map.tile_at(start).prev == start && map.tile_at(
        start,
    ).g == map.tile_at(start).ground_type.cost_spec()
    &&& forall|i: int, l: int|
        0 <= i && l == i + 1 && l < ord.len() ==> {
            let tl = map.tile_at(#[trigger] ord[l]);
            tl.prev == ord[i] && tl.g == tl.ground_type.cost_spec() + map.tile_at(
                #[trigger] ord[i],
            ).g
        }
    &&& forall|l: int|
        1 <= l < ord.len() ==> !map0.tile_at(#[trigger] ord[l]).ground_type.is_forbidden() && (
        exists|i: int| 0 <= i < l && is_adjacent(ord[i], ord[l]))
}

/// Cells the search never expanded keep their terrain, position, `g` and
/// `prev`; only their heuristic was rewritten for this goal.  The start and
/// goal cells are exempt: the start enters the search with `g` zeroed, and
/// the goal receives its predecessor when it is found.
pub open spec fn untouched_frame(map: Grid, map0: Grid, ord: Seq<Vec2>, start: Vec2, end: Vec2) -> bool {
    forall|p: Vec2|
        map.in_bounds(p) && !ord.contains(p) && p != start && p != end ==> map.tile_at(p) == (Tile {
            h: dist_sqr_spec(p, end) as u64,
            ..map0.tile_at(p)
        })
}

/// What one whole search run did, as seen from outside: some expansion order
/// `ord` carries the rolling-predecessor bookkeeping, everything else is
/// untouched, and a non-empty route hangs off the goal cell, whose
/// predecessor is the last expanded cell and which was itself discovered as
/// the neighbor of an expanded cell.
pub open spec fn search_result_trace(
    map: Grid,
    map0: Grid,
    ord: Seq<Vec2>,
    path: Seq<Tile>,
    start: Vec2,
    end: Vec2,
) -> bool {
    &&& expansion_trace(map, map0, ord, start, end)
    &&& untouched_frame(map, map0, ord, start, end)
    &&& path.len() >= 1 ==> map.tile_at(end).prev == (if ord.len() == 0 {
        start
    } else {
        ord[ord.len() - 1]
    })
    &&& (path.len() >= 1 && start != end) ==> ord.len() >= 1 && (exists|i: int|
        0 <= i < ord.len() && is_adjacent(ord[i], end))
}

/// The steady state of one search: the grid keeps its extents, terrain and
/// heuristic values; the open set mirrors the grid, one entry per coordinate;
/// a coordinate is marked seen exactly when it was expanded (`order`) or is
/// waiting in the open set; every marked coordinate is reachable from the
/// start through non-forbidden terrain; the rolling predecessor chain of the
/// last expanded cell runs through expanded cells back to the start; and the
/// accumulated costs stay bounded by one sentinel cost per expansion.
pub open spec fn search_inv(
    map: Grid,
    map0: Grid,
    seen: Seq<bool>,
    open: Seq<Tile>,
    order: Seq<Vec2>,
    prev: Vec2,
    start_pos: Vec2,
    end_pos: Vec2,
) -> bool {
    &&& map.wf()
    &&& map.width == map0.width
    &&& map.height == map0.height
    &&& map.in_bounds(start_pos)
    &&& end_pos.x <= MAX_EXTENT
    &&& end_pos.y <= MAX_EXTENT
    &&& forall|p: Vec2|
        map.in_bounds(p) ==> {
            let t = #[trigger] map.tile_at(p);
            t.ground_type == map0.tile_at(p).ground_type && t.h == dist_sqr_spec(p, end_pos)
        }
    &&& seen.len() == map.width * map.height
    &&& seen[seen_idx(start_pos, map.height as int)]
    &&& forall|k: int|
        0 <= k < open.len() ==> {
            let t = #[trigger] open[k];
            map.in_bounds(t.pos) && t == map.tile_at(t.pos)
        }
    &&& forall|k: int, l: int| 0 <= k < l < open.len() ==> open[k].pos != open[l].pos
    &&& forall|p: Vec2|
        map.in_bounds(p) ==> (seen[seen_idx(p, map.height as int)] <==> (order.contains(p)
            || open_has(open, p)))
    &&& forall|k: int| 0 <= k < open.len() ==> !order.contains((#[trigger] open[k]).pos)
    &&& forall|i: int|
        0 <= i < order.len() ==> (#[trigger] order[i]) != end_pos && map.in_bounds(order[i])
    &&& count_trues(seen) == order.len() + open.len()
    &&& order.len() + open.len() <= map.width * map.height
    &&& forall|p: Vec2|
        map.in_bounds(p) && seen[seen_idx(p, map.height as int)] ==> reachable(
            map0,
            start_pos,
            p,
        )
    &&& chain_within(map, prev, start_pos, order, order.len())
    &&& map.in_bounds(prev)
    &&& map.tile_at(prev).g <= 127 * order.len()
    &&& prev == (if order.len() == 0 {
        start_pos
    } else {
        order[order.len() - 1]
    })
    &&& order.len() == 0 ==> map.tile_at(start_pos).g == 0
    &&& order.len() >= 1 ==> order[0] == start_pos && map.tile_at(start_pos).prev == start_pos
        && map.tile_at(start_pos).g == map.tile_at(start_pos).ground_type.cost_spec()
    &&& forall|i: int, l: int|
        0 <= i && l == i + 1 && l < order.len() ==> {
            let tl = map.tile_at(#[trigger] order[l]);
            tl.prev == order[i] && tl.g == tl.ground_type.cost_spec() + map.tile_at(
                #[trigger] order[i],
            ).g
        }
    &&& forall|i: int, l: int| 0 <= i < l < order.len() ==> order[i] != order[l]
    &&& forall|k: int|
        0 <= k < open.len() ==> ((#[trigger] open[k]).pos == start_pos || (!map0.tile_at(
            open[k].pos,
        ).ground_type.is_forbidden() && (exists|i: int|
            0 <= i < order.len() && is_adjacent(order[i], open[k].pos))))
    &&& forall|l: int|
        1 <= l < order.len() ==> !map0.tile_at(#[trigger] order[l]).ground_type.is_forbidden()
            && (exists|i: int| 0 <= i < l && is_adjacent(order[i], order[l]))
    &&& forall|p: Vec2|
        map.in_bounds(p) && !order.contains(p) && p != start_pos ==> map.tile_at(p) == (Tile {
            h: dist_sqr_spec(p, end_pos) as u64,
            ..map0.tile_at(p)
        })
}

proof fn lemma_coord_push(s: Seq<Vec2>, v: Vec2)
    ensures
        forall|p: Vec2| #[trigger] s.push(v).contains(p) <==> (s.contains(p) || p == v),
{
    let r = s.push(v);
    assert forall|p: Vec2| #[trigger] r.contains(p) implies (s.contains(p) || p == v) by {
        let k = choose|k: int| 0 <= k < r.len() && r[k] == p;
        if k < s.len() {
            assert(s[k] == p);
        }
    }
    assert forall|p: Vec2| (s.contains(p) || p == v) implies #[trigger] r.contains(p) by {
        if s.contains(p) {
            let k = choose|k: int| 0 <= k < s.len() && s[k] == p;
            assert(r[k] == p);
        } else {
            assert(r[s.len() as int] == p);
        }
    }
}

broadcast use crate::geom::lemma_dist_sqr_bounds;

proof fn lemma_budget(map: Grid, order: Seq<Vec2>, open_len: int)
    requires
        map.wf(),
        order.len() + open_len <= map.width * map.height,
        open_len >= 1,
    ensures
        127 * (order.len() + 1) <= G_MAX,
        order.len() + 1 <= 100_000_000,
{
    assert(map.width * map.height <= 100_000_000) by (nonlinear_arith)
        requires
            1 <= map.width <= 10000,
            1 <= map.height <= 10000,
    ;
    assert(127 * (order.len() + 1) <= 12_700_000_000) by (nonlinear_arith)
        requires
            order.len() + 1 <= 100_000_000,
    ;
}

/// One found-the-goal step: after the goal cell receives the rolling
/// predecessor, its chain runs back to the start, and the grid still carries
/// the terrain and heuristic values it started the search with.
proof fn lemma_found_step(
    m_before: Grid,
    map: Grid,
    map0: Grid,
    seen: Seq<bool>,
    open0: Seq<Tile>,
    order: Seq<Vec2>,
    prev: Vec2,
    c: Vec2,
    t: Tile,
    start_pos: Vec2,
    end_pos: Vec2,
    next_index: int,
)
    requires
        search_inv(m_before, map0, seen, open0, order, prev, start_pos, end_pos),
        0 <= next_index < open0.len(),
        c == open0[next_index].pos,
        c == end_pos,
        map.wf(),
        map.width == m_before.width,
        map.height == m_before.height,
        map.tile_at(c) == t,
        forall|p: Vec2| map.in_bounds(p) && p != c ==> map.tile_at(p) == m_before.tile_at(p),
        t.pos == c,
        t.prev == prev,
        t.ground_type == m_before.tile_at(c).ground_type,
        t.h == m_before.tile_at(c).h,
    ensures
        map.width == map0.width,
        map.height == map0.height,
        map.in_bounds(end_pos),
        map.in_bounds(start_pos),
        forall|p: Vec2|
            map.in_bounds(p) ==> {
                let u = #[trigger] map.tile_at(p);
                u.pos == p && u.ground_type == map0.tile_at(p).ground_type && u.h
                    == dist_sqr_spec(p, end_pos)
            },
        chain_reaches(map, end_pos, start_pos, (order.len() + 1) as nat),
        expansion_trace(map, map0, order, start_pos, end_pos),
        untouched_frame(map, map0, order, start_pos, end_pos),
        map.tile_at(end_pos).prev == (if order.len() == 0 {
            start_pos
        } else {
            order[order.len() - 1]
        }),
        start_pos != end_pos ==> order.len() >= 1 && (exists|i: int|
            0 <= i < order.len() && is_adjacent(order[i], end_pos)),
{
    assert(m_before.in_bounds(c) && open0[next_index] == m_before.tile_at(c));
    if order.contains(c) {
        let i = choose|i: int| 0 <= i < order.len() && order[i] == c;
        assert(false);
    }
    lemma_chain_within_frame(m_before, map, prev, start_pos, order, order.len(), c);
    lemma_chain_within_reaches(map, prev, start_pos, order, order.len());
    assert(chain_reaches(map, end_pos, start_pos, (order.len() + 1) as nat));

    // writing the goal cell touches no expanded cell, so the expansion
    // record survives; the goal now hangs off the last expansion
    assert forall|i: int|
        0 <= i < order.len() implies map.tile_at(#[trigger] order[i]) == m_before.tile_at(
        order[i],
    ) by {
        assert(order[i] != end_pos);
    }
    if order.len() >= 1 {
        assert(order[0] != end_pos);
        assert(start_pos != end_pos);
        assert(map.tile_at(start_pos) == m_before.tile_at(start_pos));
    }
    assert forall|i: int, l: int| 0 <= i && l == i + 1 && l < order.len() implies {
        let tl = map.tile_at(#[trigger] order[l]);
        tl.prev == order[i] && tl.g == tl.ground_type.cost_spec() + map.tile_at(
            #[trigger] order[i],
        ).g
    } by {
        assert(map.tile_at(order[l]) == m_before.tile_at(order[l]));
        assert(map.tile_at(order[i]) == m_before.tile_at(order[i]));
    }
    assert forall|p: Vec2|
        map.in_bounds(p) && !order.contains(p) && p != start_pos && p != end_pos implies map
        .tile_at(p) == (Tile { h: dist_sqr_spec(p, end_pos) as u64, ..map0.tile_at(p) }) by {
        assert(map.tile_at(p) == m_before.tile_at(p));
    }
    if start_pos != end_pos {
        // the goal was enqueued, so it was discovered beside an expansion
        assert(open0[next_index].pos == end_pos);
        if order.len() == 0 {
            assert(open0[next_index].pos == start_pos);
            assert(false);
        }
        let i = choose|i: int| 0 <= i < order.len() && is_adjacent(order[i], end_pos);
        assert(0 <= i < order.len() && is_adjacent(order[i], end_pos));
    }
}


/// The expansion-order bookkeeping of one step: the popped cell becomes the
/// new last expansion and carries the rolling predecessor and accumulated
/// cost; every other record of the run is untouched.
#[verifier::rlimit(100)]
proof fn lemma_expand_bookkeeping(
    m_before: Grid,
    map: Grid,
    map0: Grid,
    seen: Seq<bool>,
    open0: Seq<Tile>,
    open: Seq<Tile>,
    order: Seq<Vec2>,
    prev: Vec2,
    c: Vec2,
    t: Tile,
    start_pos: Vec2,
    end_pos: Vec2,
    next_index: int,
)
    requires
        search_inv(m_before, map0, seen, open0, order, prev, start_pos, end_pos),
        0 <= next_index < open0.len(),
        c == open0[next_index].pos,
        c != end_pos,
        open == open0.remove(next_index),
        map.wf(),
        map.width == m_before.width,
        map.height == m_before.height,
        map.tile_at(c) == t,
        forall|p: Vec2| map.in_bounds(p) && p != c ==> map.tile_at(p) == m_before.tile_at(p),
        t.pos == c,
        t.prev == prev,
        t.ground_type == m_before.tile_at(c).ground_type,
        t.h == m_before.tile_at(c).h,
        t.g == t.ground_type.cost_spec() + m_before.tile_at(prev).g,
    ensures
        order.push(c).len() >= 1 ==> order.push(c)[0] == start_pos && map.tile_at(
            start_pos,
        ).prev == start_pos && map.tile_at(start_pos).g == map.tile_at(
            start_pos,
        ).ground_type.cost_spec(),
        forall|i: int, l: int|
            0 <= i && l == i + 1 && l < order.push(c).len() ==> {
                let tl = map.tile_at(#[trigger] order.push(c)[l]);
                tl.prev == order.push(c)[i] && tl.g == tl.ground_type.cost_spec() + map.tile_at(
                    #[trigger] order.push(c)[i],
                ).g
            },
        forall|i: int, l: int|
            0 <= i < l < order.push(c).len() ==> order.push(c)[i] != order.push(c)[l],
        forall|k: int|
            0 <= k < open.len() ==> ((#[trigger] open[k]).pos == start_pos || (!map0.tile_at(
                open[k].pos,
            ).ground_type.is_forbidden() && (exists|i: int|
                0 <= i < order.push(c).len() && is_adjacent(order.push(c)[i], open[k].pos)))),
        forall|l: int|
            1 <= l < order.push(c).len() ==> !map0.tile_at(
                #[trigger] order.push(c)[l],
            ).ground_type.is_forbidden() && (exists|i: int|
                0 <= i < l && is_adjacent(order.push(c)[i], order.push(c)[l])),
        forall|p: Vec2|
            map.in_bounds(p) && !order.push(c).contains(p) && p != start_pos ==> map.tile_at(p)
                == (Tile { h: dist_sqr_spec(p, end_pos) as u64, ..map0.tile_at(p) }),
{
    let order2 = order.push(c);
    assert(m_before.in_bounds(c) && open0[next_index] == m_before.tile_at(c));
    lemma_open_remove(open0, next_index);
    lemma_coord_push(order, c);
    assert(!order.contains(c));
    // the expansion-order bookkeeping: the popped cell becomes the new last
    // expansion, with the rolling predecessor and accumulated cost written
    crate::terrain::lemma_cost_model(t.ground_type);
    if order.len() == 0 {
        assert(c == start_pos);
        assert(map.tile_at(start_pos).g == map.tile_at(start_pos).ground_type.cost_spec());
    } else {
        assert(order.contains(start_pos)) by {
            assert(order[0] == start_pos);
        }
        assert(c != start_pos);
        assert(map.tile_at(start_pos) == m_before.tile_at(start_pos));
        assert(order2[0] == order[0]);
    }
    assert forall|i: int, l: int| 0 <= i && l == i + 1 && l < order2.len() implies {
        let tl = map.tile_at(#[trigger] order2[l]);
        tl.prev == order2[i] && tl.g == tl.ground_type.cost_spec() + map.tile_at(
            #[trigger] order2[i],
        ).g
    } by {
        assert(order2[i] == if i < order.len() { order[i] } else { c });
        if l < order.len() {
            assert(order2[l] == order[l] && order2[i] == order[i]);
            assert(order.contains(order[l])) by {
                assert(order[l] == order[l]);
            }
            assert(order[l] != c && order[i] != c);
            assert(map.tile_at(order[l]) == m_before.tile_at(order[l]));
            assert(map.tile_at(order[i]) == m_before.tile_at(order[i]));
        } else {
            assert(l == order.len() && order2[l] == c);
            assert(order2[i] == order[order.len() - 1] && order2[i] == prev);
            assert(order.contains(prev)) by {
                assert(order[order.len() - 1] == prev);
            }
            assert(prev != c);
            assert(map.tile_at(c) == t);
            assert(map.tile_at(prev) == m_before.tile_at(prev));
        }
    }
    assert forall|i: int, l: int| 0 <= i < l < order2.len() implies order2[i] != order2[l] by {
        if l == order2.len() - 1 {
            assert(order2[i] == order[i] && order2[l] == c);
            assert(order.contains(order[i])) by {
                assert(order[i] == order[i]);
            }
        }
    }
    assert forall|k: int| 0 <= k < open.len() implies ((#[trigger] open[k]).pos == start_pos || (
    !map0.tile_at(open[k].pos).ground_type.is_forbidden() && (exists|i: int|
        0 <= i < order2.len() && is_adjacent(order2[i], open[k].pos)))) by {
        let e = open[k];
        assert(open_has(open, e.pos));
        assert(open_has(open0, e.pos) && e.pos != c);
        let k0 = choose|k0: int| 0 <= k0 < open0.len() && open0[k0].pos == e.pos;
        if open0[k0].pos != start_pos {
            let i = choose|i: int|
                0 <= i < order.len() && is_adjacent(order[i], open0[k0].pos);
            assert(order2[i] == order[i]);
            assert(0 <= i < order2.len() && is_adjacent(order2[i], e.pos));
        }
    }
    assert forall|l: int| 1 <= l < order2.len() implies (!map0.tile_at(
        #[trigger] order2[l],
    ).ground_type.is_forbidden() && (exists|i: int|
        0 <= i < l && is_adjacent(order2[i], order2[l]))) by {
        if l < order.len() {
            assert(order2[l] == order[l]);
            let i = choose|i: int| 0 <= i < l && is_adjacent(order[i], order[l]);
            assert(order2[i] == order[i]);
            assert(0 <= i < l && is_adjacent(order2[i], order2[l]));
        } else {
            // the new last expansion: the popped entry was not the start, so
            // it was discovered as a non-forbidden neighbor of an earlier one
            assert(order2[l] == c && c != start_pos);
            assert(open0[next_index].pos == c);
            let i = choose|i: int| 0 <= i < order.len() && is_adjacent(order[i], c);
            assert(order2[i] == order[i]);
            assert(0 <= i < l && is_adjacent(order2[i], order2[l]));
        }
    }
    assert forall|p: Vec2|
        map.in_bounds(p) && !order2.contains(p) && p != start_pos implies map.tile_at(p) == (
    Tile { h: dist_sqr_spec(p, end_pos) as u64, ..map0.tile_at(p) }) by {
        assert(!order.contains(p) && p != c);
        assert(map.tile_at(p) == m_before.tile_at(p));
    }
}

/// One expansion step: removing the best entry, writing its rolling
/// predecessor and accumulated cost into the grid, and appending it to the
/// expansion order preserves the steady state of the search.
#[verifier::rlimit(100)]
proof fn lemma_expand_step(
    m_before: Grid,
    map: Grid,
    map0: Grid,
    seen: Seq<bool>,
    open0: Seq<Tile>,
    open: Seq<Tile>,
    order: Seq<Vec2>,
    prev: Vec2,
    c: Vec2,
    t: Tile,
    start_pos: Vec2,
    end_pos: Vec2,
    next_index: int,
)
    requires
        search_inv(m_before, map0, seen, open0, order, prev, start_pos, end_pos),
        expanded_closed(seen, map0, order, order.len() as int),
        0 <= next_index < open0.len(),
        c == open0[next_index].pos,
        c != end_pos,
        open == open0.remove(next_index),
        map.wf(),
        map.width == m_before.width,
        map.height == m_before.height,
        map.tile_at(c) == t,
        forall|p: Vec2| map.in_bounds(p) && p != c ==> map.tile_at(p) == m_before.tile_at(p),
        t.pos == c,
        t.prev == prev,
        t.ground_type == m_before.tile_at(c).ground_type,
        t.h == m_before.tile_at(c).h,
        t.g == t.ground_type.cost_spec() + m_before.tile_at(prev).g,
    ensures
        search_inv(map, map0, seen, open, order.push(c), c, start_pos, end_pos),
        expanded_closed(seen, map0, order.push(c), order.len() as int),
{
    let order2 = order.push(c);
    assert(m_before.in_bounds(c) && open0[next_index] == m_before.tile_at(c));
    lemma_open_remove(open0, next_index);
    lemma_coord_push(order, c);
    assert(!order.contains(c));

    // the chain of the previous expansion survives the single-cell update
    // and the larger allowed set
    lemma_chain_within_frame(m_before, map, prev, start_pos, order, order.len(), c);
    lemma_chain_within_mono(map, prev, start_pos, order, order2, order.len(), order.len());
    assert(order2[order2.len() - 1] == c);
    assert(chain_within(map, c, start_pos, order2, order2.len()));

    // remaining open entries still mirror the grid
    assert forall|k: int| 0 <= k < open.len() implies {
        let e = #[trigger] open[k];
        map.in_bounds(e.pos) && e == map.tile_at(e.pos)
    } by {
        let e = open[k];
        assert(open_has(open, e.pos));
        assert(e.pos != c);
    }

    // a coordinate is marked exactly when expanded or still open
    assert forall|p: Vec2| map.in_bounds(p) implies (seen[seen_idx(p, map.height as int)] <==> (
    order2.contains(p) || open_has(open, p))) by {
        if p == c {
            assert(open_has(open0, c));
            assert(seen[seen_idx(p, map.height as int)]);
        }
    }

    // expanded coordinates never hold an open entry
    assert forall|k: int| 0 <= k < open.len() implies !order2.contains(
        (#[trigger] open[k]).pos,
    ) by {
        let e = open[k];
        assert(open_has(open, e.pos));
        assert(e.pos != c);
        assert(open_has(open0, e.pos));
        let k0 = choose|k0: int| 0 <= k0 < open0.len() && open0[k0].pos == e.pos;
        assert(!order.contains(open0[k0].pos));
    }

    assert(count_trues(seen) == order2.len() + open.len());
    assert(map.tile_at(c).g <= 127 * order2.len());

    // every marked coordinate stays reachable: the marking and the terrain
    // are untouched by this grid update
    assert forall|p: Vec2|
        map.in_bounds(p) && seen[seen_idx(p, map.height as int)] implies reachable(
        map0,
        start_pos,
        p,
    ) by {
        assert(m_before.in_bounds(p) && seen[seen_idx(p, m_before.height as int)]);
    }

    // closure of the earlier expansions carries over unchanged
    assert forall|i: int| 0 <= i < order.len() implies neighbors_marked(
        seen,
        map0,
        #[trigger] order2[i],
    ) by {
        assert(order2[i] == order[i]);
        assert(neighbors_marked(seen, map0, order[i]));
    }

    lemma_expand_bookkeeping(
        m_before,
        map,
        map0,
        seen,
        open0,
        open,
        order,
        prev,
        c,
        t,
        start_pos,
        end_pos,
        next_index,
    );
}

/// Once every candidate neighbor of the freshly expanded cell is marked,
/// the closure property holds of the full expansion order again.
proof fn lemma_restore_closure(
    seen: Seq<bool>,
    map: Grid,
    order: Seq<Vec2>,
    c: Vec2,
    possibles: Seq<Vec2>,
)
    requires
        expanded_closed(seen, map, order, order.len() - 1),
        order.len() >= 1,
        order[order.len() - 1] == c,
        forall|p: Vec2|
            p.x < map.width && p.y < map.height && is_adjacent(c, p) ==> possibles.contains(p),
        forall|j2: int|
            0 <= j2 < possibles.len() ==> seen[seen_idx(
                #[trigger] possibles[j2],
                map.height as int,
            )] || map.tile_at(possibles[j2]).ground_type.is_forbidden(),
    ensures
        expanded_closed(seen, map, order, order.len() as int),
{
    assert forall|i: int| 0 <= i < order.len() implies neighbors_marked(
        seen,
        map,
        #[trigger] order[i],
    ) by {
        if i == order.len() - 1 {
            assert forall|n: Vec2|
                map.in_bounds(n) && is_adjacent(c, n) && !map.tile_at(
                    n,
                ).ground_type.is_forbidden() implies seen[#[trigger] seen_idx(
                n,
                map.height as int,
            )] by {
                assert(possibles.contains(n));
                let j2 = choose|j2: int| 0 <= j2 < possibles.len() && possibles[j2] == n;
                assert(seen[seen_idx(possibles[j2], map.height as int)]
                    || map.tile_at(possibles[j2]).ground_type.is_forbidden());
            }
        }
    }
}

/// One expansion: writes the rolling predecessor and the accumulated cost
/// into the grid cell just removed from the open set, then enqueues and
/// marks every not-yet-seen neighbor whose terrain is not forbidden;
/// forbidden cells are never stepped onto.
#[verifier::rlimit(100)]
fn expand_cell(
    map: &mut Grid,
    possible_tiles: &mut Vec<Tile>,
    seen: &mut Vec<bool>,
    current: Tile,
    prev: Vec2,
    start_pos: Vec2,
    end_pos: Vec2,
    Ghost(map0): Ghost<Grid>,
    Ghost(open0): Ghost<Seq<Tile>>,
    Ghost(order_b): Ghost<Seq<Vec2>>,
    Ghost(next_index): Ghost<int>,
)
    requires
        search_inv(*old(map), map0, old(seen)@, open0, order_b, prev, start_pos, end_pos),
        expanded_closed(old(seen)@, map0, order_b, order_b.len() as int),
        0 <= next_index < open0.len(),
        current == open0[next_index],
        current.pos != end_pos,
        old(possible_tiles)@ == open0.remove(next_index),
    ensures
        search_inv(
            *final(map),
            map0,
            final(seen)@,
            final(possible_tiles)@,
            order_b.push(current.pos),
            current.pos,
            start_pos,
            end_pos,
        ),
        expanded_closed(
            final(seen)@,
            map0,
            order_b.push(current.pos),
            order_b.push(current.pos).len() as int,
        ),
{
    let ghost mut order = order_b;
    let c = current.pos;
    proof {
        assert(old(map).in_bounds(c) && current == old(map).tile_at(c));
    }
    let width = map.width;
    let height = map.height;
        let mut t = map.get(c);
        t.prev = prev;
        let pg = map.get(prev).g;
        let wc = t.ground_type.walk_cost();
        proof {
            lemma_budget(*map, order, open0.len() as int);
        }
        t.g = (wc as u64) + pg;
        let ghost m_before = *map;
        map.set(c, t);
        proof {
            lemma_expand_step(
                m_before,
                *map,
                map0,
                seen@,
                open0,
                possible_tiles@,
                order,
                prev,
                c,
                t,
                start_pos,
                end_pos,
                next_index as int,
            );
            order = order.push(c);
        }
        let possibles = get_adjacent(c, width, height);
        let ghost order_len0 = order.len();
        for j in 0..possibles.len()
            invariant
                width == map.width,
                height == map.height,
                search_inv(*map, map0, seen@, possible_tiles@, order, c, start_pos, end_pos),
                expanded_closed(seen@, map0, order, order.len() - 1),
                order.len() == order_len0,
                order.len() >= 1,
                order[order.len() - 1] == c,
                map.in_bounds(c),
                forall|k: int|
                    0 <= k < possibles@.len() ==> (#[trigger] possibles@[k]).x < width
                        && possibles@[k].y < height && is_adjacent(c, possibles@[k]),
                forall|p: Vec2|
                    p.x < width && p.y < height && is_adjacent(c, p) ==> possibles@.contains(p),
                forall|j2: int|
                    0 <= j2 < j ==> seen@[seen_idx(#[trigger] possibles@[j2], height as int)]
                        || map0.tile_at(possibles@[j2]).ground_type.is_forbidden(),
        {
            let npos = possibles[j];
            proof {
                lemma_seen_idx_bounds(npos, width as int, height as int);
                assert(npos.x * height + npos.y < 100_000_001) by (nonlinear_arith)
                    requires
                        npos.x < 10000,
                        npos.y < 10000,
                        0 <= height <= 10000,
                ;
            }
            let nidx = npos.x * height + npos.y;
            let nt = map.get(npos);
            let nwc = nt.ground_type.walk_cost();
            proof {
                crate::terrain::lemma_cost_model(nt.ground_type);
                assert(nt.ground_type == map0.tile_at(npos).ground_type);
            }
            if !seen[nidx] && nwc < FORBIDDEN_COST {
                let ghost open_b = possible_tiles@;
                let ghost seen_b = seen@;
                possible_tiles.push(nt);
                seen[nidx] = true;
                proof {
                    lemma_count_trues_update_true(seen_b, nidx as int);
                    lemma_open_push(open_b, nt);
                    lemma_count_trues_le_len(seen@);
                    // the pushed coordinate was unmarked, so it sat neither in
                    // the open set nor among the expanded cells
                    assert(!open_has(open_b, npos));
                    if order.contains(npos) {
                        assert(seen_b[seen_idx(npos, height as int)]);
                    }
                    assert(!order.contains(npos));
                    // marking one fresh slot keeps the marking bijection
                    assert forall|p: Vec2| map.in_bounds(p) implies (seen@[seen_idx(
                        p,
                        height as int,
                    )] <==> (order.contains(p) || open_has(possible_tiles@, p))) by {
                        if p == npos {
                            assert(seen@[seen_idx(p, height as int)]);
                            assert(open_has(possible_tiles@, p));
                        } else {
                            lemma_seen_idx_injective(p, npos, height as int);
                            lemma_seen_idx_bounds(p, width as int, height as int);
                            assert(seen@[seen_idx(p, height as int)] == seen_b[seen_idx(
                                p,
                                height as int,
                            )]);
                        }
                    }
                    // distinct open coordinates: the new entry is fresh
                    assert forall|k: int, l: int|
                        0 <= k < l < possible_tiles@.len() implies possible_tiles@[k].pos
                        != possible_tiles@[l].pos by {
                        if l == possible_tiles@.len() - 1 {
                            assert(possible_tiles@[k] == open_b[k]);
                            assert(open_has(open_b, open_b[k].pos));
                        }
                    }
                    // every open entry is the start or a discovered
                    // non-forbidden neighbor of an expanded cell; the pushed
                    // entry was just discovered beside this expansion
                    assert forall|k: int|
                        0 <= k < possible_tiles@.len() implies ((#[trigger] possible_tiles@[k]).pos
                        == start_pos || (!map0.tile_at(
                        possible_tiles@[k].pos,
                    ).ground_type.is_forbidden() && (exists|i: int|
                        0 <= i < order.len() && is_adjacent(
                            order[i],
                            possible_tiles@[k].pos,
                        )))) by {
                        if k < open_b.len() {
                            assert(possible_tiles@[k] == open_b[k]);
                        } else {
                            assert(possible_tiles@[k] == nt && nt.pos == npos);
                            assert(order[order.len() - 1] == c && is_adjacent(c, npos));
                            assert(!map0.tile_at(npos).ground_type.is_forbidden());
                        }
                    }
                    // the fresh neighbor is reachable: one non-forbidden step
                    // beyond this expansion, which is itself reachable
                    assert(order.contains(c)) by {
                        assert(order[order.len() - 1] == c);
                    }
                    assert(seen_b[seen_idx(c, map.height as int)]);
                    assert(reachable(map0, start_pos, c));
                    let n0 = choose|n0: nat| reachable_in(map0, start_pos, c, n0);
                    assert(is_adjacent(c, npos) && reachable_in(map0, start_pos, c, n0));
                    assert(!map0.tile_at(npos).ground_type.is_forbidden());
                    assert(reachable_in(map0, start_pos, npos, (n0 + 1) as nat));
                    assert(reachable(map0, start_pos, npos));
                    assert forall|p: Vec2|
                        map.in_bounds(p) && seen@[seen_idx(
                            p,
                            map.height as int,
                        )] implies reachable(map0, start_pos, p) by {
                        if p != npos {
                            lemma_seen_idx_injective(p, npos, height as int);
                            lemma_seen_idx_bounds(p, width as int, height as int);
                            assert(seen_b[seen_idx(p, map.height as int)]);
                        }
                    }
                    // closure of previously expanded cells survives marking
                    assert forall|i: int| 0 <= i < order.len() - 1 implies neighbors_marked(
                        seen@,
                        map0,
                        #[trigger] order[i],
                    ) by {
                        assert forall|n: Vec2|
                            map0.in_bounds(n) && is_adjacent(order[i], n) && !map0.tile_at(
                                n,
                            ).ground_type.is_forbidden() implies seen@[#[trigger] seen_idx(
                            n,
                            map0.height as int,
                        )] by {
                            assert(seen_b[seen_idx(n, map0.height as int)]);
                            lemma_seen_idx_bounds(n, width as int, height as int);
                        }
                    }
                    // earlier neighbors of this expansion stay settled
                    assert forall|j2: int| 0 <= j2 < j + 1 implies (seen@[seen_idx(
                        #[trigger] possibles@[j2],
                        height as int,
                    )] || map0.tile_at(possibles@[j2]).ground_type.is_forbidden()) by {
                        lemma_seen_idx_bounds(possibles@[j2], width as int, height as int);
                        if j2 < j && seen_b[seen_idx(possibles@[j2], height as int)] {
                            assert(seen@[seen_idx(possibles@[j2], height as int)]);
                        }
                    }
                }
            }
        }
        proof {
            // the freshly expanded cell now has every in-bounds
            // non-forbidden neighbor marked, restoring closure for the full
            // expansion order
            lemma_restore_closure(seen@, map0, order, c, possibles@);
        }
}

/// When the open set empties, the marking equals the expanded set, which
/// contains the start and is closed under stepping to a non-forbidden
/// neighbor, so it covers every reachable coordinate; the goal was never
/// expanded, hence it is not reachable through non-forbidden terrain.
proof fn lemma_exhausted(
    map: Grid,
    map0: Grid,
    seen: Seq<bool>,
    open: Seq<Tile>,
    order: Seq<Vec2>,
    prev: Vec2,
    start_pos: Vec2,
    end_pos: Vec2,
)
    requires
        search_inv(map, map0, seen, open, order, prev, start_pos, end_pos),
        expanded_closed(seen, map0, order, order.len() as int),
        open.len() == 0,
    ensures
        !reachable(map0, start_pos, end_pos),
{
    if reachable(map0, start_pos, end_pos) {
        let n = choose|n: nat| reachable_in(map0, start_pos, end_pos, n);
        assert(seen.len() == map0.width * map0.height);
        assert(seen[seen_idx(start_pos, map0.height as int)]);
        assert forall|a: Vec2, b: Vec2|
            map0.in_bounds(a) && map0.in_bounds(b) && seen[#[trigger] seen_idx(
                a,
                map0.height as int,
            )] && is_adjacent(a, b) && !map0.tile_at(b).ground_type.is_forbidden() implies seen[
        #[trigger] seen_idx(b, map0.height as int)] by {
            assert(map.in_bounds(a));
            assert(seen[seen_idx(a, map.height as int)]);
            assert(order.contains(a) || open_has(open, a));
            if open_has(open, a) {
                let k = choose|k: int| 0 <= k < open.len() && open[k].pos == a;
                assert(false);
            }
            let i = choose|i: int| 0 <= i < order.len() && order[i] == a;
            assert(neighbors_marked(seen, map0, order[i]));
        }
        lemma_reachable_marked(seen, map0, start_pos, end_pos, n);
        assert(map0.in_bounds(end_pos));
        assert(map.in_bounds(end_pos));
        assert(seen[seen_idx(end_pos, map.height as int)]);
        assert(order.contains(end_pos) || open_has(open, end_pos));
        if open_has(open, end_pos) {
            let k = choose|k: int| 0 <= k < open.len() && open[k].pos == end_pos;
            assert(false);
        }
        let i = choose|i: int| 0 <= i < order.len() && order[i] == end_pos;
        assert(false);
    }
}

/// The state right after initialization satisfies the steady search
/// invariant: only the start cell is marked and enqueued, nothing is
/// expanded, and the rolling predecessor is the start itself.
proof fn lemma_init_inv(
    map: Grid,
    map0: Grid,
    seen: Seq<bool>,
    open: Seq<Tile>,
    start_pos: Vec2,
    end_pos: Vec2,
)
    requires
        map.wf(),
        map.width == map0.width,
        map.height == map0.height,
        map.in_bounds(start_pos),
        end_pos.x <= MAX_EXTENT,
        end_pos.y <= MAX_EXTENT,
        forall|p: Vec2|
            map.in_bounds(p) ==> {
                let t = #[trigger] map.tile_at(p);
                t.ground_type == map0.tile_at(p).ground_type && t.h == dist_sqr_spec(p, end_pos)
            },
        map.tile_at(start_pos).g == 0,
        seen.len() == map.width * map.height,
        forall|i: int|
            0 <= i < seen.len() ==> ((#[trigger] seen[i]) <==> i == seen_idx(
                start_pos,
                map.height as int,
            )),
        count_trues(seen) == 1,
        open.len() == 1,
        open[0] == map.tile_at(start_pos),
        map.tile_at(start_pos).g == 0,
        forall|p: Vec2|
            map.in_bounds(p) && p != start_pos ==> map.tile_at(p) == (Tile {
                h: dist_sqr_spec(p, end_pos) as u64,
                ..map0.tile_at(p)
            }),
    ensures
        search_inv(map, map0, seen, open, Seq::empty(), start_pos, start_pos, end_pos),
        expanded_closed(seen, map0, Seq::empty(), 0),
{
    let order = Seq::<Vec2>::empty();
    assert(open_has(open, start_pos));
    lemma_seen_idx_bounds(start_pos, map.width as int, map.height as int);
    assert forall|p: Vec2| map.in_bounds(p) implies (seen[seen_idx(p, map.height as int)] <==> (
    order.contains(p) || open_has(open, p))) by {
        lemma_seen_idx_bounds(p, map.width as int, map.height as int);
        if p == start_pos {
            assert(seen[seen_idx(p, map.height as int)]);
        } else {
            lemma_seen_idx_injective(p, start_pos, map.height as int);
            assert(!seen[seen_idx(p, map.height as int)]);
            if open_has(open, p) {
                let k = choose|k: int| 0 <= k < open.len() && open[k].pos == p;
                assert(false);
            }
        }
    }
    assert(1 <= map.width * map.height) by (nonlinear_arith)
        requires
            1 <= map.width,
            1 <= map.height,
    ;
    assert(chain_within(map, start_pos, start_pos, order, order.len()));
    // only the start is marked, and the start is reachable from itself
    assert(reachable_in(map0, start_pos, start_pos, 0));
    assert(reachable(map0, start_pos, start_pos));
    assert forall|p: Vec2|
        map.in_bounds(p) && seen[seen_idx(p, map.height as int)] implies reachable(
        map0,
        start_pos,
        p,
    ) by {
        lemma_seen_idx_injective(p, start_pos, map.height as int);
        lemma_seen_idx_bounds(p, map.width as int, map.height as int);
    }
    assert(search_inv(map, map0, seen, open, order, start_pos, start_pos, end_pos));
}

/// Initialize: precompute the heuristic for the goal, then seed the open set
/// and the seen marking with the start cell, whose accumulated cost is zero.
#[verifier::rlimit(100)]
fn init_search(map: &mut Grid, start_pos: Vec2, end_pos: Vec2) -> (r: (Vec<bool>, Vec<Tile>))
    requires
        old(map).wf(),
        old(map).in_bounds(start_pos),
        end_pos.x <= MAX_EXTENT,
        end_pos.y <= MAX_EXTENT,
    ensures
        search_inv(
            *final(map),
            *old(map),
            r.0@,
            r.1@,
            Seq::empty(),
            start_pos,
            start_pos,
            end_pos,
        ),
        expanded_closed(r.0@, *old(map), Seq::empty(), 0),
{
    let ghost map0 = *old(map);
    set_h_for_all_tiles(map, &end_pos);
    let width = map.width;
    let height = map.height;
    proof {
        assert(width * height <= 100_000_000) by (nonlinear_arith)
            requires
                width <= 10000,
                height <= 10000,
                0 <= width,
                0 <= height,
        ;
    }

    let mut st = map.get(start_pos);
    st.g = 0;
    map.set(start_pos, st);

    let n_cells = width * height;
    let mut seen: Vec<bool> = Vec::new();
    while seen.len() < n_cells
        invariant
            seen@.len() <= n_cells,
            forall|i: int| 0 <= i < seen@.len() ==> !seen@[i],
        decreases n_cells - seen@.len(),
    {
        seen.push(false);
    }
    proof {
        lemma_count_trues_all_false(seen@);
        lemma_seen_idx_bounds(start_pos, width as int, height as int);
    }
    let sidx = start_pos.x * height + start_pos.y;
    let ghost seen0 = seen@;
    seen[sidx] = true;
    proof {
        lemma_count_trues_update_true(seen0, sidx as int);
    }

    let mut possible_tiles: Vec<Tile> = Vec::new();
    possible_tiles.push(map.get(start_pos));

    proof {
        assert(possible_tiles@[0] == map.tile_at(start_pos));
        assert(count_trues(seen@) == 1);
        assert(map.tile_at(start_pos).g == 0);
        assert forall|p: Vec2|
            map.in_bounds(p) && p != start_pos implies map.tile_at(p) == (Tile {
            h: dist_sqr_spec(p, end_pos) as u64,
            ..map0.tile_at(p)
        }) by {}
        lemma_init_inv(*map, map0, seen@, possible_tiles@, start_pos, end_pos);
    }
    (seen, possible_tiles)
}

/// Runs one complete best-first search over the grid and returns the route
/// from `end_pos` back to `start_pos`.
///
/// The heuristic is precomputed for the whole grid first.  The loop then
/// repeatedly removes the open entry with the smallest `g + h`; on reaching
/// the goal it reconstructs the route by predecessor links, otherwise it
/// records the rolling predecessor, accumulates `g`, and enqueues every
/// not-yet-seen neighbor whose terrain is not forbidden: cells carrying the
/// maximum sentinel cost are never traversed.  The search always terminates;
/// it returns the empty sequence exactly when the goal cannot be reached
/// from the start through non-forbidden terrain.  The contract also exposes
/// the run itself: some expansion order carries the rolling-predecessor
/// bookkeeping in the grid, everything else is untouched, and a found goal
/// hangs off the last expanded cell.
#[verifier::rlimit(100)]
pub fn find_path_with_a_star(map: &mut Grid, start_pos: Vec2, end_pos: Vec2) -> (path: Vec<Tile>)
    requires
        old(map).wf(),
        old(map).in_bounds(start_pos),
        end_pos.x <= MAX_EXTENT,
        end_pos.y <= MAX_EXTENT,
    ensures
        final(map).wf(),
        final(map).width == old(map).width,
        final(map).height == old(map).height,
        forall|p: Vec2|
            final(map).in_bounds(p) ==> {
                let t = #[trigger] final(map).tile_at(p);
                t.pos == p && t.ground_type == old(map).tile_at(p).ground_type && t.h
                    == dist_sqr_spec(p, end_pos)
            },
        path@.len() == 0 <==> !reachable(*old(map), start_pos, end_pos),
        path@.len() >= 1 ==> final(map).in_bounds(end_pos),
        path@.len() >= 1 ==> path@[0] == final(map).tile_at(end_pos) && path@[path@.len()
            - 1] == final(map).tile_at(start_pos),
        forall|i: int|
            0 <= i < path@.len() ==> final(map).in_bounds((#[trigger] path@[i]).pos) && path@[i]
                == final(map).tile_at(path@[i].pos),
        forall|i: int, j: int|
            0 <= i && j == i + 1 && j < path@.len() ==> (#[trigger] path@[i]).pos != start_pos
                && (#[trigger] path@[j]).pos == path@[i].prev,
        forall|i: int, j: int| 0 <= i < j < path@.len() ==> path@[i].pos != path@[j].pos,
        start_pos == end_pos ==> path@.len() == 1 && path@[0].pos == start_pos,
        exists|ord: Seq<Vec2>|
            search_result_trace(*final(map), *old(map), ord, path@, start_pos, end_pos),
{
    let ghost map0 = *old(map);
    let (mut seen, mut possible_tiles) = init_search(map, start_pos, end_pos);
    let width = map.width;
    let height = map.height;
    let mut prev: Vec2 = Vec2 { x: start_pos.x, y: start_pos.y };
    let ghost mut order: Seq<Vec2> = Seq::empty();
    let mut found = false;
    while possible_tiles.len() != 0
        invariant_except_break
            !found,
        invariant
            map0 == *old(map),
            width == map.width,
            height == map.height,
            map.wf(),
            map.width == map0.width,
            map.height == map0.height,
            map.in_bounds(start_pos),
            forall|p: Vec2|
                map.in_bounds(p) ==> {
                    let t = #[trigger] map.tile_at(p);
                    t.pos == p && t.ground_type == map0.tile_at(p).ground_type && t.h
                        == dist_sqr_spec(p, end_pos)
                },
            found ==> map.in_bounds(end_pos) && reachable(map0, start_pos, end_pos) && (exists|
                n: nat,
            |
                chain_reaches(*map, end_pos, start_pos, n)),
            found ==> expansion_trace(*map, map0, order, start_pos, end_pos) && untouched_frame(
                *map,
                map0,
                order,
                start_pos,
                end_pos,
            ) && map.tile_at(end_pos).prev == (if order.len() == 0 {
                start_pos
            } else {
                order[order.len() - 1]
            }) && (start_pos != end_pos ==> order.len() >= 1 && (exists|i: int|
                0 <= i < order.len() && is_adjacent(order[i], end_pos))),
            !found ==> search_inv(*map, map0, seen@, possible_tiles@, order, prev, start_pos, end_pos),
            !found ==> expanded_closed(seen@, map0, order, order.len() as int),
        ensures
            found || possible_tiles@.len() == 0,
        decreases map.width * map.height - order.len(),
    {
        proof {
            assert forall|i: int| 0 <= i < possible_tiles@.len() implies f_score(
                #[trigger] possible_tiles@[i],
            ) <= u64::MAX by {
                let t = possible_tiles@[i];
                assert(t == map.tile_at(t.pos));
            }
        }
        let next_index = find_best_next_tile(&possible_tiles);
        let ghost open0 = possible_tiles@;
        let current = possible_tiles.remove(next_index);
        let c = current.pos;

        if c == end_pos {
            // Found: the goal was enqueued, so it is marked and therefore
            // reachable through non-forbidden terrain.
            proof {
                assert(open_has(open0, c)) by {
                    assert(open0[next_index as int].pos == c);
                }
                assert(map.in_bounds(open0[next_index as int].pos));
                assert(seen@[seen_idx(c, map.height as int)]);
                assert(reachable(map0, start_pos, end_pos));
            }
            // give the goal cell its predecessor; the route itself is
            // reconstructed after the loop
            let mut t = map.get(c);
            t.prev = prev;
            let ghost m_before = *map;
            map.set(c, t);
            proof {
                lemma_found_step(
                    m_before,
                    *map,
                    map0,
                    seen@,
                    open0,
                    order,
                    prev,
                    c,
                    t,
                    start_pos,
                    end_pos,
                    next_index as int,
                );
            }
            found = true;
            break;
        }

        // Expanding: record the rolling predecessor and accumulate g.
        expand_cell(
            map,
            &mut possible_tiles,
            &mut seen,
            current,
            prev,
            start_pos,
            end_pos,
            Ghost(map0),
            Ghost(open0),
            Ghost(order),
            Ghost(next_index as int),
        );
        proof {
            order = order.push(c);
        }
        prev = c;
    }

    if found {
        let path = create_final_path(start_pos, end_pos, map);
        proof {
            // a route from a cell to itself stops at its very first entry
            if start_pos == end_pos && path@.len() >= 2 {
                assert(path@[1].pos == path@[0].prev && path@[0].pos != start_pos);
                assert(false);
            }
            assert(search_result_trace(*map, map0, order, path@, start_pos, end_pos));
        }
        return path;
    }

    // Exhausted: the open set emptied without dequeuing the goal, so the
    // goal is not reachable from the start through non-forbidden terrain.
    let path: Vec<Tile> = Vec::new();
    proof {
        lemma_exhausted(*map, map0, seen@, possible_tiles@, order, prev, start_pos, end_pos);
        if start_pos == end_pos {
            assert(reachable_in(map0, start_pos, end_pos, 0));
            assert(reachable(map0, start_pos, end_pos));
            assert(false);
        }
        assert(expansion_trace(*map, map0, order, start_pos, end_pos));
        assert(untouched_frame(*map, map0, order, start_pos, end_pos));
        assert(search_result_trace(*map, map0, order, path@, start_pos, end_pos));
    }
    path
}

} // verus!
