use crate::tile::Tile;
use vstd::prelude::*;

verus! {

/// The score `f = g + h` by which the frontier is ordered: accumulated cost
/// so far plus the heuristic estimate of the cost that remains.
pub open spec fn f_score(t: Tile) -> int {
    t.g + t.h
}

/// Picks the next cell to expand: the index of the open-set entry with the
/// smallest score `f = g + h`.  Ties are broken by first-found order in a
/// single left-to-right scan, so of several minimal entries the
/// earliest-inserted one wins; there is no secondary key.  The scan is O(n)
/// per call, an explicit simplicity trade-off for small grids.
pub fn find_best_next_tile(possible_tile: &Vec<Tile>) -> (best: usize)
    requires
        possible_tile@.len() > 0,
        forall|i: int|
            0 <= i < possible_tile@.len() ==> f_score(#[trigger] possible_tile@[i]) <= u64::MAX,
    ensures
        best < possible_tile@.len(),
        forall|i: int|
            0 <= i < possible_tile@.len() ==> f_score(possible_tile@[best as int]) <= f_score(
                #[trigger] possible_tile@[i],
            ),
        forall|i: int|
            0 <= i < best ==> f_score(#[trigger] possible_tile@[i]) > f_score(
                possible_tile@[best as int],
            ),
{
    let mut index: usize = 0;
    let mut current_score: u64 = possible_tile[0].g + possible_tile[0].h;
    for i in 0..possible_tile.len()
        invariant
            index < possible_tile@.len(),
            index <= i,
            forall|k: int|
                0 <= k < possible_tile@.len() ==> f_score(#[trigger] possible_tile@[k])
                    <= u64::MAX,
            current_score == f_score(possible_tile@[index as int]),
            forall|k: int|
                0 <= k < i ==> current_score <= f_score(#[trigger] possible_tile@[k]),
            forall|k: int|
                0 <= k < index ==> f_score(#[trigger] possible_tile@[k]) > current_score,
    {
        let this_score: u64 = possible_tile[i].g + possible_tile[i].h;
        if this_score < current_score {
            index = i;
            current_score = this_score;
        }
    }
    index
}

/// The tie-break law: if the entry at `i` has a minimal score and the later
/// entry at `j` scores exactly the same, a selection meeting the frontier
/// selector's contract never picks `j`; it picks `i` or an even earlier
/// minimal entry.
pub proof fn lemma_tie_break_first(open: Seq<Tile>, best: int, i: int, j: int)
    requires
        0 <= i < j < open.len(),
        f_score(open[i]) == f_score(open[j]),
        forall|k: int| 0 <= k < open.len() ==> f_score(open[i]) <= f_score(#[trigger] open[k]),
        0 <= best < open.len(),
        forall|k: int| 0 <= k < open.len() ==> f_score(open[best]) <= f_score(#[trigger] open[k]),
        forall|k: int| 0 <= k < best ==> f_score(#[trigger] open[k]) > f_score(open[best]),
    ensures
        best <= i,
        best != j,
{
    assert(f_score(open[best]) <= f_score(open[i]));
    assert(f_score(open[i]) <= f_score(open[best]));
}

} // verus!
