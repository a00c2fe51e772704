use vstd::prelude::*;
use vstd::arithmetic::power2::{pow2, lemma2_to64, lemma_pow2_unfold, lemma_pow2_pos, lemma_pow2_strictly_increases};
use vstd::bits::{lemma_usize_shl_is_mul, lemma_usize_pow2_no_overflow};

use crate::row_minima::{call_cost, cost_at, cost_ok, lemma_row_leftmost_min_exists, row_leftmost_min};

verus! {

/// In every 2x2 submatrix, an upper-right entry below the upper-left one makes the lower-right
/// entry below the lower-left one.
pub open spec fn totally_monotone<F: Fn(usize, usize) -> u64>(cost: F, rows: int, cols: int) -> bool {
    forall|i1: int, i2: int, j1: int, j2: int|
        #![trigger cost_at(cost, i1, j1), cost_at(cost, i1, j2), cost_at(cost, i2, j1), cost_at(cost, i2, j2)]
        0 <= i1 < i2 < rows && 0 <= j1 < j2 < cols && cost_at(cost, i1, j2) < cost_at(cost, i1, j1) ==> cost_at(
            cost,
            i2,
            j2,
        ) < cost_at(cost, i2, j1)
}

/// The column of the leftmost minimum of row `i`.
spec fn lm<F: Fn(usize, usize) -> u64>(cost: F, i: int, cols: int) -> int {
    choose|j: int| row_leftmost_min(cost, i, 0, cols, j)
}

/// Row `i` is among the rows looked at when rows are taken `w` apart.
spec fn on_level(i: int, w: int) -> bool {
    (i + 1) % w == 0
}

/// The columns `s[a..b]` increase.
spec fn increasing(s: Seq<usize>, a: int, b: int) -> bool {
    forall|x: int, y: int| a <= x < y < b ==> s[x] < s[y]
}

/// Column `c` is among `s[a..b]`.
spec fn holds_col(s: Seq<usize>, a: int, b: int, c: int) -> bool {
    exists|x: int| a <= x < b && s[x] as int == c
}

/// A column for every row of a `rows x cols` matrix (SMAWK row reduction): when the matrix is
/// totally monotone, the column of the leftmost minimum of the row.
pub fn smawk<F>(rows: usize, cols: usize, cost: &F) -> (argmins: Vec<usize>)
    where
        F: Fn(usize, usize) -> u64,
    requires
        rows > 0 ==> cols > 0,
        rows <= usize::MAX / 16,
        cols <= usize::MAX / 16,
        cost_ok(*cost, rows as int, cols as int),
    ensures
        argmins@.len() == rows,
        forall|i: int| 0 <= i < rows ==> #[trigger] argmins@[i] < cols,
        totally_monotone(*cost, rows as int, cols as int) ==> forall|i: int| 0 <= i < rows ==> row_leftmost_min(
            *cost,
            i,
            0,
            cols as int,
            #[trigger] argmins@[i] as int,
        ),
{
    if rows == 0 {
        return Vec::new();
    }
    let mut solver = SmawkFast::new();
    let argmins = solver.solve(rows, cols, cost);
    proof {
        if totally_monotone(*cost, rows as int, cols as int) {
            assert forall|i: int| 0 <= i < rows implies row_leftmost_min(*cost, i, 0, cols as int, #[trigger] argmins@[i] as int) by {
                lemma_lm(*cost, i, cols as int);
            }
        }
    }
    argmins
}

/// `lm` is the leftmost minimum of its row.
proof fn lemma_lm<F: Fn(usize, usize) -> u64>(cost: F, i: int, cols: int)
    requires
        cols > 0,
    ensures
        row_leftmost_min(cost, i, 0, cols, lm(cost, i, cols)),
{
    lemma_row_leftmost_min_exists(cost, i, 0, cols);
}

/// One 2x2 submatrix of a totally monotone matrix.
proof fn lemma_tm<F: Fn(usize, usize) -> u64>(cost: F, rows: int, cols: int, i1: int, i2: int, j1: int, j2: int)
    requires
        totally_monotone(cost, rows, cols),
        0 <= i1 < i2 < rows,
        0 <= j1 < j2 < cols,
    ensures
        cost_at(cost, i1, j2) < cost_at(cost, i1, j1) ==> cost_at(cost, i2, j2) < cost_at(cost, i2, j1),
        cost_at(cost, i2, j1) <= cost_at(cost, i2, j2) ==> cost_at(cost, i1, j1) <= cost_at(cost, i1, j2),
{
    let a = cost_at(cost, i1, j1);
    let b = cost_at(cost, i1, j2);
    let c = cost_at(cost, i2, j1);
    let d = cost_at(cost, i2, j2);
}

/// In a totally monotone matrix the leftmost minima move right from row to row.
proof fn lemma_lm_monotone<F: Fn(usize, usize) -> u64>(cost: F, rows: int, cols: int, i1: int, i2: int)
    requires
        totally_monotone(cost, rows, cols),
        cols > 0,
        0 <= i1 <= i2 < rows,
    ensures
        lm(cost, i1, cols) <= lm(cost, i2, cols),
{
    lemma_lm(cost, i1, cols);
    lemma_lm(cost, i2, cols);
    let j1 = lm(cost, i1, cols);
    let j2 = lm(cost, i2, cols);
    if i1 < i2 && j2 < j1 {
        assert(cost_at(cost, i1, j1) < cost_at(cost, i1, j2));
        lemma_tm(cost, rows, cols, i1, i2, j2, j1);
        assert(cost_at(cost, i2, j2) <= cost_at(cost, i2, j1));
    }
}

/// A row on the level with rows `w` apart is the last of a block of `w` rows.
proof fn lemma_on_level(i: int, w: int)
    requires
        0 <= i,
        w >= 1,
        on_level(i, w),
    ensures
        i + 1 == ((i + 1) / w) * w,
        (i + 1) / w >= 1,
{
    vstd::arithmetic::div_mod::lemma_fundamental_div_mod(i + 1, w);
    assert((i + 1) / w >= 1) by {
        if (i + 1) / w <= 0 {
            assert(w * ((i + 1) / w) <= 0) by (nonlinear_arith)
                requires w >= 1, (i + 1) / w <= 0;
        }
    }
}

/// The rows of a level are among those of the level below it.
proof fn lemma_level_up(i: int, w: int)
    requires
        0 <= i,
        w >= 1,
        on_level(i, 2 * w),
    ensures
        on_level(i, w),
{
    lemma_on_level(i, 2 * w);
    let t = (i + 1) / (2 * w);
    assert(i + 1 == (2 * t) * w) by (nonlinear_arith)
        requires i + 1 == t * (2 * w);
    vstd::arithmetic::div_mod::lemma_mod_multiples_basic(2 * t, w);
}

/// A column popped off the reduction stack is the leftmost minimum of no row of the level.
proof fn lemma_popped<F: Fn(usize, usize) -> u64>(
    cost: F,
    rows: int,
    cols: int,
    w: int,
    top: int,
    sp: int,
    s: int,
    c: int,
)
    requires
        totally_monotone(cost, rows, cols),
        w >= 1,
        top >= 1,
        top * w <= rows,
        0 <= s < c < cols,
        cost_at(cost, top * w - 1, c) < cost_at(cost, top * w - 1, s),
        top >= 2 ==> 0 <= sp < s && cost_at(cost, (top - 1) * w - 1, sp) <= cost_at(cost, (top - 1) * w - 1, s),
    ensures
        forall|i: int| 0 <= i < rows && on_level(i, w) ==> lm(cost, i, cols) != s,
{
    assert forall|i: int| 0 <= i < rows && on_level(i, w) implies lm(cost, i, cols) != s by {
        lemma_lm(cost, i, cols);
        lemma_on_level(i, w);
        let t = (i + 1) / w;
        let r = top * w - 1;
        assert(top * w >= 1) by (nonlinear_arith)
            requires top >= 1, w >= 1;
        if t >= top {
            assert(t * w >= top * w) by (nonlinear_arith)
                requires t >= top, w >= 1;
            if i > r {
                lemma_tm(cost, rows, cols, r, i, s, c);
            }
            assert(cost_at(cost, i, c) < cost_at(cost, i, s));
        } else {
            let r1 = (top - 1) * w - 1;
            assert(t * w <= (top - 1) * w) by (nonlinear_arith)
                requires t <= top - 1, w >= 1;
            assert(top >= 2) by (nonlinear_arith)
                requires t >= 1, t < top;
            assert(r1 < rows) by (nonlinear_arith)
                requires r1 == (top - 1) * w - 1, top * w <= rows, w >= 1;
            if i < r1 {
                lemma_tm(cost, rows, cols, i, r1, sp, s);
            }
            assert(cost_at(cost, i, sp) <= cost_at(cost, i, s));
        }
    }
}

/// A column the reduction drops, the stack being full, is the leftmost minimum of no row of the
/// level.
proof fn lemma_dropped<F: Fn(usize, usize) -> u64>(cost: F, rows: int, cols: int, w: int, top: int, s: int, c: int)
    requires
        totally_monotone(cost, rows, cols),
        w >= 1,
        top >= 1,
        top * w <= rows,
        (top + 1) * w > rows,
        0 <= s < c < cols,
        cost_at(cost, top * w - 1, s) <= cost_at(cost, top * w - 1, c),
    ensures
        forall|i: int| 0 <= i < rows && on_level(i, w) ==> lm(cost, i, cols) != c,
{
    assert forall|i: int| 0 <= i < rows && on_level(i, w) implies lm(cost, i, cols) != c by {
        lemma_lm(cost, i, cols);
        lemma_on_level(i, w);
        let t = (i + 1) / w;
        let r = top * w - 1;
        assert(top * w >= 1) by (nonlinear_arith)
            requires top >= 1, w >= 1;
        assert(t <= top) by (nonlinear_arith)
            requires t * w <= rows, (top + 1) * w > rows, w >= 1;
        assert(t * w <= top * w) by (nonlinear_arith)
            requires t <= top, w >= 1;
        if i < r {
            lemma_tm(cost, rows, cols, i, r, s, c);
        }
        assert(cost_at(cost, i, s) <= cost_at(cost, i, c));
    }
}

/// A scan that keeps the first of the smallest values it meets, having met the leftmost minimum
/// of the row, ends on it.
proof fn lemma_scan_ends_on_lm<F: Fn(usize, usize) -> u64>(cost: F, row: int, cols: int, best: int)
    requires
        cols > 0,
        0 <= best < cols,
        cost_at(cost, row, best) <= cost_at(cost, row, lm(cost, row, cols)),
        lm(cost, row, cols) < best ==> cost_at(cost, row, best) < cost_at(cost, row, lm(cost, row, cols)),
    ensures
        best == lm(cost, row, cols),
{
    lemma_lm(cost, row, cols);
    let j = lm(cost, row, cols);
    assert(cost_at(cost, row, j) <= cost_at(cost, row, best));
}

struct SmawkFast {
    cols: Vec<usize>,
    row_argmin: Vec<usize>,
    stack: Vec<u64>,
}

/// `1 << k` for an exponent whose power fits below `bound`.
proof fn lemma_shift_fits(k: nat, bound: int)
    requires
        pow2(k) <= bound,
        bound <= usize::MAX / 4,
    ensures
        k < usize::BITS,
        (1usize << k as usize) == pow2(k),
        (2usize << k as usize) == 2 * pow2(k),
        2 * pow2(k) <= usize::MAX,
{
    lemma2_to64();
    if k >= usize::BITS {
        if k > usize::BITS {
            lemma_pow2_strictly_increases(usize::BITS as nat, k);
        }
        assert(false);
    }
    lemma_usize_pow2_no_overflow(k);
    lemma_usize_shl_is_mul(1, k as usize);
    lemma_pow2_unfold(k + 1);
    if k + 1 >= usize::BITS {
        assert(k + 1 == usize::BITS);
        assert(false);
    }
    lemma_usize_pow2_no_overflow(k + 1);
    lemma_usize_shl_is_mul(2, k as usize);
}

impl SmawkFast {
    fn new() -> (s: Self)
        ensures
            s.cols@.len() == 0,
            s.row_argmin@.len() == 0,
            s.stack@.len() == 0,
    {
        Self { cols: Vec::new(), row_argmin: Vec::new(), stack: Vec::new() }
    }

    spec fn ready(&self, rows: int, cols: int) -> bool {
        &&& self.row_argmin@.len() == rows
        &&& self.stack@.len() == rows
        &&& forall|i: int| 0 <= i < rows ==> #[trigger] self.row_argmin@[i] < cols
        &&& forall|i: int| 0 <= i < self.cols@.len() ==> #[trigger] self.cols@[i] < cols
    }

    fn solve<F>(&mut self, rows: usize, cols: usize, cost: &F) -> (argmins: Vec<usize>)
        where
            F: Fn(usize, usize) -> u64,
        requires
            old(self).cols@.len() == 0,
            old(self).row_argmin@.len() == 0,
            old(self).stack@.len() == 0,
            0 < rows <= usize::MAX / 16,
            0 < cols <= usize::MAX / 16,
            cost_ok(*cost, rows as int, cols as int),
        ensures
            argmins@.len() == rows,
            forall|i: int| 0 <= i < rows ==> #[trigger] argmins@[i] < cols,
            totally_monotone(*cost, rows as int, cols as int) ==> forall|i: int| 0 <= i < rows ==> #[trigger] argmins@[i]
                as int == lm(*cost, i, cols as int),
    {
        self.cols.clear();
        self.cols.reserve(cols + rows + rows);
        let mut c: usize = 0;
        while c < cols
            invariant
                c <= cols,
                self.cols@.len() == c,
                self.row_argmin@.len() == 0,
                self.stack@.len() == 0,
                forall|i: int| 0 <= i < c ==> #[trigger] self.cols@[i] == i,
            decreases cols - c,
        {
            self.cols.push(c);
            c += 1;
        }
        let mut i: usize = 0;
        while i < rows
            invariant
                i <= rows,
                self.row_argmin@.len() == i,
                self.stack@.len() == i,
                forall|k: int| 0 <= k < i ==> #[trigger] self.row_argmin@[k] == 0,
                self.cols@.len() == cols,
                forall|k: int| 0 <= k < cols ==> #[trigger] self.cols@[k] == k,
            decreases rows - i,
        {
            self.row_argmin.push(0);
            self.stack.push(0);
            i += 1;
        }
        proof {
            lemma2_to64();
            assert(pow2(0) == 1) by {
                lemma2_to64();
            }
            if totally_monotone(*cost, rows as int, cols as int) {
                assert forall|i: int| 0 <= i < rows && on_level(i, pow2(0) as int) implies #[trigger] holds_col(
                    self.cols@,
                    0,
                    cols as int,
                    lm(*cost, i, cols as int),
                ) by {
                    lemma_lm(*cost, i, cols as int);
                    let j = lm(*cost, i, cols as int);
                    assert(self.cols@[j] as int == j);
                }
            }
        }
        self.recur(rows, cols, 0, 0, cols, cost);
        proof {
            assert forall|i: int| 0 <= i < rows implies on_level(i, pow2(0) as int) by {}
        }
        let mut out: Vec<usize> = Vec::new();
        std::mem::swap(&mut out, &mut self.row_argmin);
        out
    }

    #[verifier::rlimit(80)]
    fn recur<F>(&mut self, rows: usize, cols: usize, level: usize, begin: usize, end: usize, cost: &F)
        where
            F: Fn(usize, usize) -> u64,
        requires
            old(self).ready(rows as int, cols as int),
            0 < rows <= usize::MAX / 16,
            0 < cols <= usize::MAX / 16,
            pow2(level as nat) <= rows,
            begin < end <= old(self).cols@.len(),
            old(self).cols@.len() <= cols + 2 * rows - 2 * ((rows as int) / (pow2(level as nat) as int)),
            cost_ok(*cost, rows as int, cols as int),
            increasing(old(self).cols@, begin as int, end as int),
            totally_monotone(*cost, rows as int, cols as int) ==> forall|i: int| 0 <= i < rows && on_level(
                i,
                pow2(level as nat) as int,
            ) ==> #[trigger] holds_col(old(self).cols@, begin as int, end as int, lm(*cost, i, cols as int)),
        ensures
            final(self).ready(rows as int, cols as int),
            final(self).cols@.len() <= cols + 2 * rows,
            final(self).cols@.len() >= old(self).cols@.len(),
            final(self).cols@.subrange(0, end as int) == old(self).cols@.subrange(0, end as int),
            forall|i: int| 0 <= i < rows && !on_level(i, pow2(level as nat) as int) ==> #[trigger] final(self).row_argmin@[i]
                == old(self).row_argmin@[i],
            totally_monotone(*cost, rows as int, cols as int) ==> forall|i: int| 0 <= i < rows && on_level(
                i,
                pow2(level as nat) as int,
            ) ==> #[trigger] final(self).row_argmin@[i] as int == lm(*cost, i, cols as int),
        decreases 64 - level,
    {
        let ghost tm = totally_monotone(*cost, rows as int, cols as int);
        let ghost old_cols = self.cols@;
        let ghost old_argmin = self.row_argmin@;
        proof {
            lemma_shift_fits(level as nat, rows as int);
            lemma_pow2_pos(level as nat);
        }
        let ghost w: int = pow2(level as nat) as int;
        if rows < (2usize << level) {
            // a single row on this level: the first one
            let row = (1usize << level) - 1;
            proof {
                assert(rows < 2 * w);
                assert(row == w - 1);
                assert forall|i: int| 0 <= i < rows && on_level(i, w) implies i == row by {
                    lemma_on_level(i, w);
                    let t = (i + 1) / w;
                    assert(t < 2) by (nonlinear_arith)
                        requires t * w == i + 1, i < rows, rows < 2 * w, w >= 1;
                    assert(i + 1 == w) by (nonlinear_arith)
                        requires i + 1 == t * w, t == 1;
                }
                assert(on_level(row as int, w)) by {
                    vstd::arithmetic::div_mod::lemma_mod_self_0(w);
                }
                if tm {
                    lemma_lm(*cost, row as int, cols as int);
                }
            }
            if end - begin == 1 {
                let c = self.cols[begin];
                self.row_argmin.set(row, c);
                proof {
                    if tm {
                        assert(holds_col(old_cols, begin as int, end as int, lm(*cost, row as int, cols as int)));
                    }
                }
                return;
            }
            let mut best_col = self.cols[begin];
            let mut best_val = call_cost(cost, row, best_col, Ghost(rows as int), Ghost(cols as int));
            let mut idx = begin + 1;
            while idx < end
                invariant
                    self.ready(rows as int, cols as int),
                    self.cols@ == old_cols,
                    self.row_argmin@ == old_argmin,
                    increasing(old_cols, begin as int, end as int),
                    begin < idx <= end <= self.cols@.len(),
                    row < rows,
                    best_col < cols,
                    cost_ok(*cost, rows as int, cols as int),
                    best_val == cost_at(*cost, row as int, best_col as int),
                    best_col <= old_cols[idx - 1],
                    forall|x: int| begin <= x < idx ==> best_val <= cost_at(*cost, row as int, #[trigger] old_cols[x] as int)
                        && (old_cols[x] < best_col ==> best_val < cost_at(*cost, row as int, old_cols[x] as int)),
                decreases end - idx,
            {
                let col = self.cols[idx];
                let value = call_cost(cost, row, col, Ghost(rows as int), Ghost(cols as int));
                if value < best_val {
                    best_val = value;
                    best_col = col;
                }
                idx += 1;
            }
            self.row_argmin.set(row, best_col);
            proof {
                if tm {
                    let j = lm(*cost, row as int, cols as int);
                    assert(holds_col(old_cols, begin as int, end as int, j));
                    let x = choose|x: int| begin <= x < end && old_cols[x] as int == j;
                    assert(old_cols[x] as int == j);
                    lemma_scan_ends_on_lm(*cost, row as int, cols as int, best_col as int);
                }
            }
            return;
        }
        // reduce: keep the columns that can still hold a minimum of the rows of the next level
        let mut top: usize = 0;
        let mut idx = begin;
        proof {
            assert(2 * w <= rows);
            vstd::arithmetic::div_mod::lemma_fundamental_div_mod(rows as int, w);
            vstd::arithmetic::div_mod::lemma_fundamental_div_mod(rows as int, 2 * w);
        }
        while idx < end
            invariant
                self.ready(rows as int, cols as int),
                0 < rows <= usize::MAX / 16,
                0 < cols <= usize::MAX / 16,
                begin <= idx <= end,
                end <= self.cols@.len(),
                w == pow2(level as nat),
                (1usize << level) == w,
                level < usize::BITS,
                1 <= w,
                2 * w <= rows,
                self.cols@.len() >= old(self).cols@.len(),
                top * w <= rows,
                end + top <= self.cols@.len(),
                self.cols@.len() <= cols + 2 * rows,
                self.cols@.len() == old(self).cols@.len() || self.cols@.len() <= end + (rows as int) / w,
                end <= old(self).cols@.len(),
                (rows as int) / w >= 0,
                old(self).cols@.len() <= cols + 2 * rows - 2 * ((rows as int) / w),
                top <= (rows as int) / w,
                idx > begin ==> top >= 1,
                idx == begin ==> top == 0,
                cost_ok(*cost, rows as int, cols as int),
                tm == totally_monotone(*cost, rows as int, cols as int),
                self.row_argmin@ == old_argmin,
                self.cols@.subrange(0, end as int) == old_cols.subrange(0, end as int),
                old_cols == old(self).cols@,
                increasing(old_cols, begin as int, end as int),
                increasing(self.cols@, end as int, end + top),
                idx < end ==> forall|k: int| end <= k < end + top ==> self.cols@[k] < old_cols[idx as int],
                forall|k: int| 0 <= k < top ==> #[trigger] self.stack@[k] == cost_at(
                    *cost,
                    (k + 1) * w - 1,
                    self.cols@[end + k] as int,
                ),
                forall|k: int| 0 <= k < top - 1 ==> #[trigger] self.stack@[k] <= cost_at(
                    *cost,
                    (k + 1) * w - 1,
                    self.cols@[end + k + 1] as int,
                ),
                tm ==> forall|i: int| 0 <= i < rows && on_level(i, w) && holds_col(
                    old_cols,
                    begin as int,
                    idx as int,
                    #[trigger] lm(*cost, i, cols as int),
                ) ==> holds_col(self.cols@, end as int, end + top, lm(*cost, i, cols as int)),
            decreases end - idx,
        {
            let col = self.cols[idx];
            proof {
                assert(self.cols@.subrange(0, end as int)[idx as int] == old_cols.subrange(0, end as int)[idx as int]);
                assert(old_cols[idx as int] == col);
            }
            let ghost cols_before = self.cols@;
            let ghost top_before = top;
            while top > 0
                invariant
                    self.cols@ == cols_before,
                    top <= top_before,
                    self.ready(rows as int, cols as int),
                    0 < rows <= usize::MAX / 16,
                    w == pow2(level as nat),
                    (1usize << level) == w,
                    level < usize::BITS,
                    1 <= w,
                    top * w <= rows,
                    top <= (rows as int) / w,
                    end + top <= self.cols@.len(),
                    col < cols,
                    cost_ok(*cost, rows as int, cols as int),
                    tm == totally_monotone(*cost, rows as int, cols as int),
                    forall|p: int| end <= p < end + top_before ==> #[trigger] self.cols@[p] < col,
                    increasing(self.cols@, end as int, end + top_before),
                    forall|k: int| 0 <= k < top_before ==> #[trigger] self.stack@[k] == cost_at(
                        *cost,
                        (k + 1) * w - 1,
                        self.cols@[end + k] as int,
                    ),
                    forall|k: int| 0 <= k < top_before - 1 ==> #[trigger] self.stack@[k] <= cost_at(
                        *cost,
                        (k + 1) * w - 1,
                        self.cols@[end + k + 1] as int,
                    ),
                    top_before * w <= rows,
                    tm ==> forall|p: int, i: int|
                        #![trigger self.cols@[p], lm(*cost, i, cols as int)]
                        end + top <= p < end + top_before && 0 <= i < rows && on_level(i, w) ==> lm(*cost, i, cols as int)
                            != self.cols@[p] as int,
                ensures
                    top > 0 ==> self.stack@[top - 1] <= cost_at(*cost, top * w - 1, col as int),
                    tm ==> forall|p: int, i: int|
                        #![trigger self.cols@[p], lm(*cost, i, cols as int)]
                        end + top <= p < end + top_before && 0 <= i < rows && on_level(i, w) ==> lm(*cost, i, cols as int)
                            != self.cols@[p] as int,
                    top <= top_before,
                    top * w <= rows,
                decreases top,
            {
                proof {
                    assert(top * w >= 1) by (nonlinear_arith)
                        requires top >= 1, w >= 1;
                    lemma_usize_shl_is_mul(top, level);
                }
                let row = (top << level) - 1;
                let v = call_cost(cost, row, col, Ghost(rows as int), Ghost(cols as int));
                if self.stack[top - 1] > v {
                    proof {
                        if tm {
                            let t = top as int;
                            let s = self.cols@[end + t - 1] as int;
                            let sp = if t >= 2 { self.cols@[end + t - 2] as int } else { 0 };
                            assert(self.stack@[t - 1] == cost_at(*cost, t * w - 1, s));
                            if t >= 2 {
                                assert(self.stack@[t - 2] <= cost_at(*cost, (t - 1) * w - 1, self.cols@[end + t - 1] as int));
                                assert(self.stack@[t - 2] == cost_at(*cost, (t - 1) * w - 1, self.cols@[end + t - 2] as int));
                            }
                            lemma_popped(*cost, rows as int, cols as int, w, t, sp, s, col as int);
                        }
                    }
                    top -= 1;
                    proof {
                        assert(top * w <= (top + 1) * w) by (nonlinear_arith)
                            requires w >= 1;
                    }
                } else {
                    break;
                }
            }
            proof {
                assert((top + 1) * w <= rows + w) by (nonlinear_arith)
                    requires top * w <= rows;
                assert((top + 1) * w <= usize::MAX);
                assert((top + 1) * w >= 1) by (nonlinear_arith)
                    requires w >= 1, top >= 0;
                lemma_usize_shl_is_mul((top + 1) as usize, level);
            }
            let row = ((top + 1) << level) - 1;
            let ghost was_top = top;
            let ghost cols_mid = self.cols@;
            if row < rows {
                proof {
                    assert(top < rows) by (nonlinear_arith)
                        requires (top + 1) * w <= rows, w >= 1;
                    vstd::arithmetic::div_mod::lemma_fundamental_div_mod(rows as int, w);
                    assert(top + 1 <= (rows as int) / w) by (nonlinear_arith)
                        requires (top + 1) * w <= rows, w >= 1, rows == w * ((rows as int) / w) + (rows as int) % w, (rows as int) % w < w;
                }
                if end + top == self.cols.len() {
                    proof {
                        vstd::arithmetic::div_mod::lemma_fundamental_div_mod(rows as int, w);
                        assert((rows as int) / w <= rows) by (nonlinear_arith)
                            requires w >= 1, rows == w * ((rows as int) / w) + (rows as int) % w, (rows as int) % w >= 0;
                    }
                    self.cols.push(col);
                } else {
                    self.cols.set(end + top, col);
                }
                let v = call_cost(cost, row, col, Ghost(rows as int), Ghost(cols as int));
                self.stack.set(top, v);
                top += 1;
            } else {
                proof {
                    if tm {
                        assert(top >= 1) by {
                            if top == 0 {
                                assert(row == w - 1);
                            }
                        }
                        let t = top as int;
                        assert(self.stack@[t - 1] == cost_at(*cost, t * w - 1, self.cols@[end + t - 1] as int));
                        lemma_dropped(*cost, rows as int, cols as int, w, t, self.cols@[end + t - 1] as int, col as int);
                    }
                }
            }
            idx += 1;
            proof {
                if idx - 1 == begin {
                    // the first column always survives: row 2^level - 1 exists
                    assert(was_top == 0);
                    assert(row == w - 1);
                }
                assert(self.cols@.subrange(0, end as int) =~= old_cols.subrange(0, end as int));
                assert forall|k: int| end <= k < end + top implies self.cols@[k] == cols_mid[k] || (k == end + was_top
                    && self.cols@[k] == col) by {}
                assert(increasing(self.cols@, end as int, end + top)) by {
                    assert forall|x: int, y: int| end <= x < y < end + top implies self.cols@[x] < self.cols@[y] by {
                        if y == end + was_top && top > was_top {
                            assert(cols_mid[x] < col);
                        } else {
                            assert(cols_mid[x] < cols_mid[y]);
                        }
                    }
                }
                if idx < end {
                    assert forall|k: int| end <= k < end + top implies self.cols@[k] < old_cols[idx as int] by {
                        assert(old_cols[idx - 1] < old_cols[idx as int]);
                        if k < end + was_top {
                            assert(cols_mid[k] < col);
                        }
                    }
                }
                assert forall|k: int| 0 <= k < top implies #[trigger] self.stack@[k] == cost_at(
                    *cost,
                    (k + 1) * w - 1,
                    self.cols@[end + k] as int,
                ) by {
                    if k < was_top {
                        assert(self.cols@[end + k] == cols_mid[end + k]);
                    }
                }
                assert forall|k: int| 0 <= k < top - 1 implies #[trigger] self.stack@[k] <= cost_at(
                    *cost,
                    (k + 1) * w - 1,
                    self.cols@[end + k + 1] as int,
                ) by {
                    if k + 1 < was_top {
                        assert(self.cols@[end + k + 1] == cols_mid[end + k + 1]);
                    }
                }
                if tm {
                    assert forall|i: int| 0 <= i < rows && on_level(i, w) && holds_col(
                        old_cols,
                        begin as int,
                        idx as int,
                        #[trigger] lm(*cost, i, cols as int),
                    ) implies holds_col(self.cols@, end as int, end + top, lm(*cost, i, cols as int)) by {
                        let j = lm(*cost, i, cols as int);
                        let x = choose|x: int| begin <= x < idx && old_cols[x] as int == j;
                        if x == idx - 1 {
                            // the column just met is on the stack, or it could not be a minimum
                            if top == was_top + 1 {
                                assert(self.cols@[end + was_top] as int == j);
                            }
                        } else {
                            assert(holds_col(old_cols, begin as int, idx - 1, j));
                            let y = choose|y: int| end <= y < end + top_before && cols_before[y] as int == j;
                            assert(y < end + was_top);
                            assert(self.cols@[y] == cols_mid[y]);
                        }
                    }
                }
            }
        }
        let next_begin = end;
        let next_end = end + top;
        proof {
            lemma_pow2_unfold(level as nat + 1);
            assert(top >= 1);
            vstd::arithmetic::div_mod::lemma_fundamental_div_mod(rows as int, w);
            vstd::arithmetic::div_mod::lemma_fundamental_div_mod(rows as int, pow2(level as nat + 1) as int);
            lemma_halve_div(rows as int, w);
            if tm {
                assert forall|i: int| 0 <= i < rows && on_level(i, pow2(level as nat + 1) as int) implies #[trigger] holds_col(
                    self.cols@,
                    next_begin as int,
                    next_end as int,
                    lm(*cost, i, cols as int),
                ) by {
                    lemma_on_level(i, 2 * w);
                    assert(on_level(i, w)) by {
                        let t = (i + 1) / (2 * w);
                        assert(i + 1 == (2 * t) * w) by (nonlinear_arith)
                            requires i + 1 == t * (2 * w);
                        vstd::arithmetic::div_mod::lemma_mod_multiples_basic(2 * t, w);
                    }
                    assert(holds_col(old_cols, begin as int, end as int, lm(*cost, i, cols as int)));
                }
            }
        }
        let ghost reduced = self.cols@;
        let ghost argmin_mid = self.row_argmin@;
        self.recur(rows, cols, level + 1, next_begin, next_end, cost);
        let ghost after_rec = self.row_argmin@;
        proof {
            assert(self.cols@.subrange(0, next_end as int) == reduced.subrange(0, next_end as int));
            assert forall|x: int| 0 <= x < next_end implies self.cols@[x] == reduced[x] by {
                assert(self.cols@.subrange(0, next_end as int)[x] == reduced.subrange(0, next_end as int)[x]);
            }
        }
        let offset = 1usize << level;
        let mut row = offset - 1;
        let mut pos = next_begin;
        let ghost mut k: int = 0;
        proof {
            assert(row == (2 * k + 1) * w - 1) by (nonlinear_arith)
                requires k == 0, row == w - 1;
            assert forall|i: int| 0 <= i < rows && !on_level(i, w) implies #[trigger] self.row_argmin@[i] == old_argmin[i] by {
                if on_level(i, 2 * w) {
                    lemma_level_up(i, w);
                }
            }
            if tm {
                assert forall|i: int| 0 <= i < rows && on_level(i, w) && i < row implies #[trigger] self.row_argmin@[i] as int
                    == lm(*cost, i, cols as int) by {
                    lemma_on_level(i, w);
                    let t = (i + 1) / w;
                    assert(i + 1 >= w) by (nonlinear_arith)
                        requires i + 1 == t * w, t >= 1, w >= 1;
                }
                assert forall|i: int| 0 <= i < rows && on_level(i, w) implies #[trigger] holds_col(
                    reduced,
                    next_begin as int,
                    next_end as int,
                    lm(*cost, i, cols as int),
                ) by {
                    assert(holds_col(old_cols, begin as int, end as int, lm(*cost, i, cols as int)));
                }
                lemma_lm(*cost, w - 1, cols as int);
                assert(on_level(w - 1, w)) by {
                    vstd::arithmetic::div_mod::lemma_mod_self_0(w);
                }
                let j = lm(*cost, w - 1, cols as int);
                assert(holds_col(reduced, next_begin as int, next_end as int, j));
                let x = choose|x: int| next_begin <= x < next_end && reduced[x] as int == j;
                if x > next_begin {
                    assert(reduced[next_begin as int] < reduced[x]);
                }
            }
        }
        while row < rows
            invariant
                self.ready(rows as int, cols as int),
                0 < rows <= usize::MAX / 16,
                0 < cols <= usize::MAX / 16,
                offset == w,
                1 <= w,
                2 * w <= rows,
                self.cols@.len() <= cols + 2 * rows,
                self.cols@.len() >= old(self).cols@.len(),
                next_begin <= pos < next_end <= self.cols@.len(),
                row <= rows + 2 * w,
                cost_ok(*cost, rows as int, cols as int),
                tm == totally_monotone(*cost, rows as int, cols as int),
                w == pow2(level as nat),
                pow2(level as nat + 1) == 2 * w,
                k >= 0,
                row == (2 * k + 1) * w - 1,
                forall|x: int| 0 <= x < next_end ==> self.cols@[x] == reduced[x],
                self.cols@.subrange(0, end as int) == old_cols.subrange(0, end as int),
                increasing(reduced, next_begin as int, next_end as int),
                forall|i: int| 0 <= i < rows && !on_level(i, w) ==> #[trigger] self.row_argmin@[i] == old_argmin[i],
                forall|i: int| 0 <= i < rows && on_level(i, 2 * w) ==> #[trigger] self.row_argmin@[i] == after_rec[i],
                tm ==> forall|i: int| 0 <= i < rows && on_level(i, 2 * w) ==> #[trigger] after_rec[i] as int == lm(
                    *cost,
                    i,
                    cols as int,
                ),
                tm ==> forall|i: int| 0 <= i < rows && on_level(i, w) && i < row ==> #[trigger] self.row_argmin@[i] as int
                    == lm(*cost, i, cols as int),
                tm ==> forall|i: int| 0 <= i < rows && on_level(i, w) ==> #[trigger] holds_col(
                    reduced,
                    next_begin as int,
                    next_end as int,
                    lm(*cost, i, cols as int),
                ),
                tm && row < rows ==> reduced[pos as int] <= lm(*cost, row as int, cols as int),
            decreases rows + 2 * w - row,
        {
            let ghost row_i = row as int;
            proof {
                assert(on_level(row_i, w)) by {
                    assert(row_i + 1 == (2 * k + 1) * w);
                    vstd::arithmetic::div_mod::lemma_mod_multiples_basic(2 * k + 1, w);
                }
                if tm {
                    lemma_lm(*cost, row_i, cols as int);
                }
            }
            let high = if row + offset < rows {
                proof {
                    assert(on_level(row_i + w, 2 * w)) by {
                        assert(row_i + w + 1 == (k + 1) * (2 * w)) by (nonlinear_arith)
                            requires row_i == (2 * k + 1) * w - 1;
                        vstd::arithmetic::div_mod::lemma_mod_multiples_basic(k + 1, 2 * w);
                    }
                }
                self.row_argmin[row + offset] + 1
            } else {
                cols
            };
            proof {
                if tm && row + offset < rows {
                    lemma_lm_monotone(*cost, rows as int, cols as int, row_i, row_i + w);
                }
            }
            let ghost pos0 = pos;
            let mut best_col = self.cols[pos];
            let mut best_val = call_cost(cost, row, best_col, Ghost(rows as int), Ghost(cols as int));
            while pos + 1 < next_end && self.cols[pos + 1] < high
                invariant
                    self.ready(rows as int, cols as int),
                    next_begin <= pos0 <= pos < next_end <= self.cols@.len(),
                    forall|x: int| 0 <= x < next_end ==> self.cols@[x] == reduced[x],
                    row < rows,
                    best_col < cols,
                    cost_ok(*cost, rows as int, cols as int),
                    best_val == cost_at(*cost, row as int, best_col as int),
                    best_col <= reduced[pos as int],
                    increasing(reduced, next_begin as int, next_end as int),
                    forall|x: int| pos0 <= x <= pos ==> best_val <= cost_at(*cost, row as int, #[trigger] reduced[x] as int)
                        && (reduced[x] < best_col ==> best_val < cost_at(*cost, row as int, reduced[x] as int)),
                    forall|x: int| pos0 < x <= pos ==> #[trigger] reduced[x] < high,
                decreases next_end - pos,
            {
                pos += 1;
                let col = self.cols[pos];
                let value = call_cost(cost, row, col, Ghost(rows as int), Ghost(cols as int));
                if value < best_val {
                    best_val = value;
                    best_col = col;
                }
            }
            self.row_argmin.set(row, best_col);
            proof {
                if tm {
                    let j = lm(*cost, row_i, cols as int);
                    assert(holds_col(reduced, next_begin as int, next_end as int, j));
                    let x = choose|x: int| next_begin <= x < next_end && reduced[x] as int == j;
                    // the column of the leftmost minimum was met by the scan
                    assert(pos0 <= x) by {
                        if x < pos0 {
                            assert(reduced[x] < reduced[pos0 as int]);
                        }
                    }
                    assert(x <= pos) by {
                        if x > pos {
                            assert(reduced[pos + 1] <= reduced[x]);
                            if row + offset < rows {
                                assert(after_rec[row_i + w] as int == lm(*cost, row_i + w, cols as int));
                            }
                        }
                    }
                    lemma_scan_ends_on_lm(*cost, row_i, cols as int, best_col as int);
                    // the next row of the level starts where this scan stopped
                    if row + 2 * offset < rows {
                        lemma_lm_monotone(*cost, rows as int, cols as int, row_i + w, row_i + 2 * w);
                        assert(reduced[pos as int] <= lm(*cost, row_i + w, cols as int)) by {
                            if pos > pos0 {
                                assert(reduced[pos as int] < high);
                            } else {
                                lemma_lm_monotone(*cost, rows as int, cols as int, row_i, row_i + w);
                            }
                            assert(after_rec[row_i + w] as int == lm(*cost, row_i + w, cols as int)) by {
                                assert(on_level(row_i + w, 2 * w)) by {
                                    assert(row_i + w + 1 == (k + 1) * (2 * w)) by (nonlinear_arith)
                                        requires row_i == (2 * k + 1) * w - 1;
                                    vstd::arithmetic::div_mod::lemma_mod_multiples_basic(k + 1, 2 * w);
                                }
                            }
                        }
                    }
                }
                assert forall|i: int| 0 <= i < rows && !on_level(i, w) implies #[trigger] self.row_argmin@[i] == old_argmin[i] by {
                    assert(i != row_i);
                }
                assert forall|i: int| 0 <= i < rows && on_level(i, 2 * w) implies #[trigger] self.row_argmin@[i] == after_rec[i] by {
                    if i == row_i {
                        lemma_on_level(i, 2 * w);
                        let t = (i + 1) / (2 * w);
                        assert((2 * k + 1) * w == t * (2 * w));
                        assert(false) by (nonlinear_arith)
                            requires (2 * k + 1) * w == t * (2 * w), w >= 1;
                    }
                }
                lemma2_to64();
                lemma_usize_shl_is_mul(offset, 1);
            }
            row += offset << 1;
            proof {
                let k_old = k;
                k = k + 1;
                assert(row == (2 * k + 1) * w - 1) by (nonlinear_arith)
                    requires row == row_i + 2 * w, row_i == (2 * k_old + 1) * w - 1, k == k_old + 1;
                if tm {
                    assert forall|i: int| 0 <= i < rows && on_level(i, w) && i < row implies #[trigger] self.row_argmin@[i]
                        as int == lm(*cost, i, cols as int) by {
                        if i != row_i && i > row_i {
                            // the row between, on the next level
                            lemma_on_level(i, w);
                            let t = (i + 1) / w;
                            assert(t == 2 * k) by (nonlinear_arith)
                                requires
                                    i + 1 == t * w,
                                    i > row_i,
                                    i < row,
                                    row_i == (2 * k_old + 1) * w - 1,
                                    row == (2 * k + 1) * w - 1,
                                    k == k_old + 1,
                                    w >= 1;
                            assert(on_level(i, 2 * w)) by {
                                assert(i + 1 == k * (2 * w)) by (nonlinear_arith)
                                    requires i + 1 == t * w, t == 2 * k;
                                vstd::arithmetic::div_mod::lemma_mod_multiples_basic(k, 2 * w);
                            }
                        }
                    }
                }
            }
        }
        proof {
            if tm {
                assert forall|i: int| 0 <= i < rows && on_level(i, w) implies #[trigger] self.row_argmin@[i] as int == lm(
                    *cost,
                    i,
                    cols as int,
                ) by {}
            }
            assert(self.cols@.subrange(0, end as int) =~= old_cols.subrange(0, end as int));
        }
    }
}

/// Halving the block count of `rows` at double width.
proof fn lemma_halve_div(rows: int, w: int)
    requires
        rows >= 0,
        w >= 1,
    ensures
        rows / (2 * w) == ((rows as int) / w) / 2,
        2 * (rows / (2 * w)) <= (rows as int) / w,
{
    vstd::arithmetic::div_mod::lemma_div_denominator(rows, w, 2);
    assert(2 * (((rows as int) / w) / 2) <= (rows as int) / w) by {
        vstd::arithmetic::div_mod::lemma_fundamental_div_mod((rows as int) / w, 2);
    }
}

} // verus!
