//! Row minima of implicitly given matrices, and the shortest-path
//! recurrences built on them.

use vstd::prelude::*;

pub mod monotone_minima;
pub mod smawk;
pub mod simple_larsch;
pub mod larsch;

pub use monotone_minima::monotone_minima;
pub use smawk::smawk;
pub use simple_larsch::simple_larsch_shortest_path;
pub use larsch::{Larsch, larsch_shortest_path};




verus! {

/// The value `cost(i, j)` returns.
pub open spec fn cost_at<F: Fn(usize, usize) -> u64>(cost: F, i: int, j: int) -> u64 {
    choose|v: u64| #[trigger] call_ensures(cost, (i as usize, j as usize), v)
}

/// `cost` may be called on every cell of the `rows x cols` matrix and returns one value per cell.
pub open spec fn cost_ok<F: Fn(usize, usize) -> u64>(cost: F, rows: int, cols: int) -> bool {
    forall|i: usize, j: usize| i < rows && j < cols ==> {
        &&& #[trigger] call_requires(cost, (i, j))
        &&& forall|v: u64| call_ensures(cost, (i, j), v) ==> v == cost_at(cost, i as int, j as int)
    }
}

/// One entry of the matrix.
pub fn call_cost<F: Fn(usize, usize) -> u64>(cost: &F, i: usize, j: usize, Ghost(rows): Ghost<int>, Ghost(cols): Ghost<int>) -> (v: u64)
    requires
        cost_ok(*cost, rows, cols),
        i < rows,
        j < cols,
    ensures
        v == cost_at(*cost, i as int, j as int),
{
    proof {
        assert(call_requires(*cost, (i, j)));
    }
    let v = cost(i, j);
    v
}

/// `j` is the leftmost minimum of row `i` within columns `[lo, hi)`.
pub open spec fn row_leftmost_min<F: Fn(usize, usize) -> u64>(cost: F, i: int, lo: int, hi: int, j: int) -> bool {
    &&& lo <= j < hi
    &&& forall|k: int| lo <= k < hi ==> cost_at(cost, i, j) <= #[trigger] cost_at(cost, i, k)
    &&& forall|k: int| lo <= k < j ==> cost_at(cost, i, j) < #[trigger] cost_at(cost, i, k)
}

/// Leftmost row minima move right (weakly) from row to row.
pub open spec fn monotone_argmins<F: Fn(usize, usize) -> u64>(cost: F, rows: int, cols: int) -> bool {
    forall|i1: int, i2: int, j1: int, j2: int|
        0 <= i1 < i2 < rows && #[trigger] row_leftmost_min(cost, i1, 0, cols, j1)
            && #[trigger] row_leftmost_min(cost, i2, 0, cols, j2) ==> j1 <= j2
}

/// Every nonempty row range has a leftmost minimum.
pub proof fn lemma_row_leftmost_min_exists<F: Fn(usize, usize) -> u64>(cost: F, i: int, lo: int, hi: int)
    requires
        lo < hi,
    ensures
        exists|j: int| row_leftmost_min(cost, i, lo, hi, j),
    decreases hi - lo,
{
    if hi == lo + 1 {
        assert(row_leftmost_min(cost, i, lo, hi, lo));
    } else {
        lemma_row_leftmost_min_exists(cost, i, lo, hi - 1);
        let j = choose|j: int| #[trigger] row_leftmost_min(cost, i, lo, hi - 1, j);
        if cost_at(cost, i, hi - 1) < cost_at(cost, i, j) {
            assert(row_leftmost_min(cost, i, lo, hi, hi - 1));
        } else {
            assert(row_leftmost_min(cost, i, lo, hi, j));
        }
    }
}

/// A leftmost minimum is unique.
pub proof fn lemma_row_leftmost_min_unique<F: Fn(usize, usize) -> u64>(cost: F, i: int, lo: int, hi: int, j1: int, j2: int)
    requires
        row_leftmost_min(cost, i, lo, hi, j1),
        row_leftmost_min(cost, i, lo, hi, j2),
    ensures
        j1 == j2,
{
    if j1 < j2 {
        assert(cost_at(cost, i, j2) < cost_at(cost, i, j1));
    } else if j2 < j1 {
        assert(cost_at(cost, i, j1) < cost_at(cost, i, j2));
    }
}

} // verus!
