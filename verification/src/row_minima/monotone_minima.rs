use vstd::prelude::*;

use crate::row_minima::{call_cost, cost_at, cost_ok, row_leftmost_min, monotone_argmins, lemma_row_leftmost_min_exists,
    lemma_row_leftmost_min_unique};

verus! {

/// Column of the leftmost minimum of every row, for a matrix whose leftmost row minima
/// move right from row to row (divide and conquer on rows).
pub fn monotone_minima<F>(rows: usize, cols: usize, cost: &F) -> (argmins: Vec<usize>)
    where
        F: Fn(usize, usize) -> u64,
    requires
        rows > 0 ==> cols > 0,
        cost_ok(*cost, rows as int, cols as int),
    ensures
        argmins@.len() == rows,
        forall|i: int| 0 <= i < rows ==> #[trigger] argmins@[i] < cols,
        monotone_argmins(*cost, rows as int, cols as int) ==> forall|i: int| 0 <= i < rows ==>
            row_leftmost_min(*cost, i, 0, cols as int, #[trigger] argmins@[i] as int),
{
    if rows == 0 {
        return Vec::new();
    }
    let mut argmins = vec![0; rows];
    proof {
        assert forall|r: int, j: int| 0 <= r < rows && #[trigger] row_leftmost_min(*cost, r, 0, cols as int, j)
            implies 0 <= j < cols by {}
    }
    monotone_minima_recursive_range(0, rows, 0, cols, cost, &mut argmins, Ghost(rows as int), Ghost(cols as int));
    argmins
}

/// Fill `argmins[row_start..row_end]`, knowing that those rows have their leftmost minima in
/// `[col_start, col_end)` whenever the matrix is monotone.
fn monotone_minima_recursive_range<F>(
    row_start: usize,
    row_end: usize,
    col_start: usize,
    col_end: usize,
    cost: &F,
    argmins: &mut Vec<usize>,
    Ghost(rows): Ghost<int>,
    Ghost(cols): Ghost<int>,
)
    where
        F: Fn(usize, usize) -> u64,
    requires
        row_start <= row_end <= rows == old(argmins)@.len(),
        col_start <= col_end <= cols,
        row_start < row_end ==> col_start < col_end,
        cost_ok(*cost, rows, cols),
        forall|i: int| 0 <= i < rows ==> #[trigger] old(argmins)@[i] < cols,
        monotone_argmins(*cost, rows, cols) ==> forall|r: int, j: int|
            row_start <= r < row_end && #[trigger] row_leftmost_min(*cost, r, 0, cols, j) ==> col_start <= j < col_end,
    ensures
        final(argmins)@.len() == rows,
        forall|i: int| 0 <= i < rows ==> #[trigger] final(argmins)@[i] < cols,
        forall|i: int| 0 <= i < rows && !(row_start <= i < row_end) ==> #[trigger] final(argmins)@[i] == old(argmins)@[i],
        monotone_argmins(*cost, rows, cols) ==> forall|i: int| row_start <= i < row_end ==>
            row_leftmost_min(*cost, i, 0, cols, #[trigger] final(argmins)@[i] as int),
    decreases row_end - row_start,
{
    if row_start >= row_end || col_start >= col_end {
        return;
    }
    if col_end - col_start == 1 {
        let mut i = row_start;
        while i < row_end
            invariant
                row_start <= i <= row_end <= rows == argmins@.len(),
                col_start + 1 == col_end <= cols,
                forall|k: int| 0 <= k < rows ==> #[trigger] argmins@[k] < cols,
                forall|k: int| 0 <= k < rows && !(row_start <= k < i) ==> #[trigger] argmins@[k] == old(argmins)@[k],
                forall|k: int| row_start <= k < i ==> #[trigger] argmins@[k] == col_start,
            decreases row_end - i,
        {
            argmins.set(i, col_start);
            i += 1;
        }
        proof {
            if monotone_argmins(*cost, rows, cols) {
                assert forall|i: int| row_start <= i < row_end implies
                    row_leftmost_min(*cost, i, 0, cols, #[trigger] argmins@[i] as int) by {
                    lemma_row_leftmost_min_exists(*cost, i, 0, cols);
                    let j = choose|j: int| row_leftmost_min(*cost, i, 0, cols, j);
                    assert(col_start <= j < col_end);
                }
            }
        }
        return;
    }
    let mid = row_start + (row_end - row_start) / 2;
    let mut best_col = col_start;
    let mut best_val = call_cost(cost, mid, best_col, Ghost(rows), Ghost(cols));
    let mut col = col_start + 1;
    while col < col_end
        invariant
            row_start <= mid < row_end <= rows,
            col_start < col <= col_end <= cols,
            cost_ok(*cost, rows, cols),
            row_leftmost_min(*cost, mid as int, col_start as int, col as int, best_col as int),
            best_val == cost_at(*cost, mid as int, best_col as int),
        decreases col_end - col,
    {
        let value = call_cost(cost, mid, col, Ghost(rows), Ghost(cols));
        if value < best_val {
            best_val = value;
            best_col = col;
        }
        col += 1;
    }
    argmins.set(mid, best_col);
    let ghost mono = monotone_argmins(*cost, rows, cols);
    proof {
        if mono {
            lemma_row_leftmost_min_exists(*cost, mid as int, 0, cols);
            let j = choose|j: int| row_leftmost_min(*cost, mid as int, 0, cols, j);
            assert(col_start <= j < col_end);
            assert(row_leftmost_min(*cost, mid as int, 0, cols, best_col as int)) by {
                if best_col < j {
                    assert(cost_at(*cost, mid as int, j) < cost_at(*cost, mid as int, best_col as int));
                } else if j < best_col {
                    assert(cost_at(*cost, mid as int, best_col as int) < cost_at(*cost, mid as int, j));
                }
            }
        }
    }
    if row_end - row_start == 1 {
        return;
    }
    let ghost a1 = argmins@;
    proof {
        if mono {
            assert forall|r: int, j: int| row_start <= r < mid && #[trigger] row_leftmost_min(*cost, r, 0, cols, j)
                implies col_start <= j < best_col + 1 by {
                assert(row_leftmost_min(*cost, mid as int, 0, cols, best_col as int));
            }
        }
    }
    monotone_minima_recursive_range(row_start, mid, col_start, best_col + 1, cost, argmins, Ghost(rows), Ghost(cols));
    let ghost a2 = argmins@;
    proof {
        if mono {
            assert forall|r: int, j: int| mid + 1 <= r < row_end && #[trigger] row_leftmost_min(*cost, r, 0, cols, j)
                implies best_col <= j < col_end by {
                assert(row_leftmost_min(*cost, mid as int, 0, cols, best_col as int));
            }
        }
    }
    monotone_minima_recursive_range(mid + 1, row_end, best_col, col_end, cost, argmins, Ghost(rows), Ghost(cols));
    proof {
        assert(argmins@[mid as int] == best_col);
        if mono {
            assert forall|i: int| row_start <= i < row_end implies
                row_leftmost_min(*cost, i, 0, cols, #[trigger] argmins@[i] as int) by {
                if i < mid {
                    assert(argmins@[i] == a2[i]);
                } else if i == mid {
                } else {
                }
            }
        }
    }
}

} // verus!
