use vstd::prelude::*;

verus! {

/// Largest extent a grid may have on either axis.  Keeping both coordinates
/// at or below this bound keeps every squared distance within `H_MAX` and
/// every accumulated traversal cost within `G_MAX`, so all score arithmetic
/// fits in `u64`.
pub const MAX_EXTENT: usize = 10000;

/// Upper bound on a heuristic value: `2 * MAX_EXTENT * MAX_EXTENT`.
pub const H_MAX: u64 = 200_000_000;

/// An integer (column, row) pair identifying one grid cell.
#[derive(Clone, Copy, PartialEq, Eq, Structural, Hash, Debug)]
pub struct Vec2 {
    pub x: usize,
    pub y: usize,
}

/// The squared Euclidean distance between two coordinates.
pub open spec fn dist_sqr_spec(a: Vec2, b: Vec2) -> int {
    (b.x - a.x) * (b.x - a.x) + (b.y - a.y) * (b.y - a.y)
}

/// Squared Euclidean distance between `a` and `b`.
///
/// This is the heuristic value the search precomputes for every cell: it is
/// the distance to the goal with terrain ignored, kept squared rather than
/// rooted since only the relative order of scores matters.
pub fn calc_dist_sqr(a: &Vec2, b: &Vec2) -> (d: u64)
    requires
        a.x <= MAX_EXTENT,
        a.y <= MAX_EXTENT,
        b.x <= MAX_EXTENT,
        b.y <= MAX_EXTENT,
    ensures
        d == dist_sqr_spec(*a, *b),
        d <= H_MAX,
{
    let dx: u64 = if b.x >= a.x { (b.x - a.x) as u64 } else { (a.x - b.x) as u64 };
    let dy: u64 = if b.y >= a.y { (b.y - a.y) as u64 } else { (a.y - b.y) as u64 };
    assert(dx * dx == (b.x - a.x) * (b.x - a.x) && dx * dx <= 100_000_000) by (nonlinear_arith)
        requires
            dx <= 10000,
            dx == b.x - a.x || dx == a.x - b.x,
    ;
    assert(dy * dy == (b.y - a.y) * (b.y - a.y) && dy * dy <= 100_000_000) by (nonlinear_arith)
        requires
            dy <= 10000,
            dy == b.y - a.y || dy == a.y - b.y,
    ;
    dx * dx + dy * dy
}

/// A squared distance is non-negative, and within `H_MAX` whenever both
/// coordinates stay within `MAX_EXTENT`.
pub broadcast proof fn lemma_dist_sqr_bounds(a: Vec2, b: Vec2)
    ensures
        0 <= #[trigger] dist_sqr_spec(a, b),
        (a.x <= MAX_EXTENT && a.y <= MAX_EXTENT && b.x <= MAX_EXTENT && b.y <= MAX_EXTENT)
            ==> dist_sqr_spec(a, b) <= H_MAX,
{
    let dx = b.x - a.x;
    let dy = b.y - a.y;
    assert(dx * dx >= 0 && dy * dy >= 0) by (nonlinear_arith);
    if a.x <= MAX_EXTENT && a.y <= MAX_EXTENT && b.x <= MAX_EXTENT && b.y <= MAX_EXTENT {
        assert(dx * dx <= 100_000_000 && dy * dy <= 100_000_000) by (nonlinear_arith)
            requires
                -10000 <= dx <= 10000,
                -10000 <= dy <= 10000,
        ;
    }
}

/// The heuristic law: with the goal fixed, the heuristic value is zero exactly
/// at the goal and strictly increases with the squared distance to the goal.
pub proof fn lemma_heuristic_monotone(a: Vec2, b: Vec2, goal: Vec2, ha: int, hb: int)
    requires
        ha == dist_sqr_spec(a, goal),
        hb == dist_sqr_spec(b, goal),
    ensures
        dist_sqr_spec(goal, goal) == 0,
        a == goal ==> ha == 0,
        a != goal ==> ha > 0,
        dist_sqr_spec(a, goal) < dist_sqr_spec(b, goal) ==> ha < hb,
{
    let dx = goal.x - a.x;
    let dy = goal.y - a.y;
    assert(dx * dx >= 0 && (dx != 0 ==> dx * dx >= 1)) by (nonlinear_arith);
    assert(dy * dy >= 0 && (dy != 0 ==> dy * dy >= 1)) by (nonlinear_arith);
}

} // verus!
