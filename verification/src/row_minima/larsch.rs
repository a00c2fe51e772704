use vstd::prelude::*;

use crate::row_minima::{call_cost, cost_at, cost_ok};

verus! {

/// A row level of the LARSCH recursion: answers rows `0..n` in order.
struct ReduceRow {
    n: usize,
    cur_row: usize,
    state: usize,
}

/// A column level: keeps the candidate columns for the odd rows of the row level above.
struct ReduceCol {
    n: usize,
    cur_row: usize,
    cols: Vec<usize>,
}

/// The recursion of LARSCH, one row level and one column level per halving of the size.
///
/// Row level `k + 1` sees row `i` of it as row `2i + 1` of row level `k`, and column `j` of
/// it as column `cols[k][j]` of row level `k`.
struct Reduce {
    rows: Vec<ReduceRow>,
    cols: Vec<ReduceCol>,
}

impl Reduce {
    /// The sizes halve from level to level, down to a last level of size below two.
    spec fn shape(&self) -> bool {
        &&& self.rows.len() == self.cols.len() + 1
        &&& forall|k: int| 0 <= k < self.cols.len() ==> {
            &&& #[trigger] self.cols@[k].n == self.rows@[k].n / 2
            &&& self.rows@[k + 1].n == self.rows@[k].n / 2
            &&& self.rows@[k].n / 2 > 0
        }
        &&& self.rows@[self.rows.len() - 1].n / 2 == 0
    }

    /// Row `i`, column `j` of row level `k` can be traced back to the first level.
    spec fn evaluable(&self, k: int, i: int, j: int) -> bool
        decreases k,
    {
        &&& 0 <= k < self.rows.len()
        &&& 0 <= i < self.rows@[k].n
        &&& 0 <= j
        &&& if k == 0 {
            j < self.rows@[0].n
        } else {
            &&& j < self.cols@[k - 1].cols.len()
            &&& self.evaluable(k - 1, 2 * i + 1, self.cols@[k - 1].cols@[j] as int)
        }
    }

    /// The entry at row `i`, column `j` of row level `k`: traced back through the column
    /// choices of the levels below to an entry of the matrix.
    spec fn traced<F: Fn(usize, usize) -> u64>(&self, cost: F, k: int, i: int, j: int) -> u64
        decreases k,
    {
        if k <= 0 {
            cost_at(cost, i, j)
        } else {
            self.traced(cost, k - 1, 2 * i + 1, self.cols@[k - 1].cols@[j] as int)
        }
    }

    /// Every entry of row `i <= n_k` and column `j <= limit` of row level `k` can be traced back.
    spec fn evaluable_upto(&self, k: int, limit: int) -> bool {
        forall|i: int, j: int| 0 <= i < self.rows@[k].n && 0 <= j <= limit ==> #[trigger] self.evaluable(k, i, j)
    }

    /// Counters of row level `k` and, below it, of column level `k` and row level `k + 1`.
    spec fn level_ok(&self, k: int) -> bool {
        let r = self.rows@[k];
        &&& r.cur_row <= r.n
        &&& r.state == 0 || r.state < r.cur_row
        &&& k < self.cols.len() ==> {
            let c = self.cols@[k];
            &&& c.cur_row == (if r.cur_row < r.n { r.cur_row as int } else { r.n - 1 } + 1) / 2
            &&& self.rows@[k + 1].cur_row == c.cur_row
            &&& c.cur_row <= c.cols.len() <= c.n
            &&& forall|e: int| 0 <= e < c.cols.len() ==> (#[trigger] c.cols@[e]) + 2 <= 2 * c.cur_row
        }
    }

    /// Every level from `k` on is between two calls.
    spec fn quiet_from(&self, k: int) -> bool {
        forall|l: int| k <= l < self.rows.len() ==> #[trigger] self.level_ok(l)
    }

    fn new(n: usize) -> (r: Self)
        ensures
            r.shape(),
            r.quiet_from(0),
            r.rows@[0].n == n,
            r.rows@[0].cur_row == 0,
    {
        let mut rows: Vec<ReduceRow> = Vec::new();
        let mut cols: Vec<ReduceCol> = Vec::new();
        rows.push(ReduceRow { n, cur_row: 0, state: 0 });
        let mut size = n;
        while size / 2 > 0
            invariant
                rows.len() == cols.len() + 1,
                rows@[0].n == n,
                rows@[rows.len() - 1].n == size,
                size <= n,
                forall|k: int| 0 <= k < cols.len() ==> {
                    &&& #[trigger] cols@[k].n == rows@[k].n / 2
                    &&& rows@[k + 1].n == rows@[k].n / 2
                    &&& rows@[k].n / 2 > 0
                },
                forall|k: int| 0 <= k < rows.len() ==> (#[trigger] rows@[k]).cur_row == 0 && rows@[k].state == 0,
                forall|k: int| 0 <= k < cols.len() ==> (#[trigger] cols@[k]).cur_row == 0 && cols@[k].cols.len() == 0,
            decreases size,
        {
            let half = size / 2;
            let ghost rows0 = rows@;
            let ghost cols0 = cols@;
            cols.push(ReduceCol { n: half, cur_row: 0, cols: Vec::with_capacity(half) });
            rows.push(ReduceRow { n: half, cur_row: 0, state: 0 });
            proof {
                assert forall|k: int| 0 <= k < cols.len() implies {
                    &&& #[trigger] cols@[k].n == rows@[k].n / 2
                    &&& rows@[k + 1].n == rows@[k].n / 2
                    &&& rows@[k].n / 2 > 0
                } by {
                    if k < cols0.len() {
                        assert(cols@[k] == cols0[k]);
                        assert(rows@[k] == rows0[k]);
                        assert(rows@[k + 1] == rows0[k + 1]);
                    } else {
                        assert(rows@[k] == rows0[k]);
                    }
                }
            }
            size = half;
        }
        let r = Self { rows, cols };
        assert forall|l: int| 0 <= l < r.rows.len() implies #[trigger] r.level_ok(l) by {
            if l < r.cols.len() {
                assert(r.cols@[l].cur_row == 0);
                assert(r.rows@[l + 1].cur_row == 0);
            }
        }
        r
    }

    /// Whether `self` and `other` agree on everything the tracing of row level `k` reads.
    spec fn same_below(&self, other: &Self, k: int) -> bool {
        &&& self.rows.len() == other.rows.len()
        &&& self.cols.len() == other.cols.len()
        &&& forall|l: int| 0 <= l <= k && l < self.rows.len() ==> (#[trigger] self.rows@[l]).n == other.rows@[l].n
        &&& forall|l: int| 0 <= l < k && l < self.cols.len() ==> (#[trigger] self.cols@[l]).cols@ == other.cols@[l].cols@
    }

    /// The shape holds of any state with the same sizes.
    proof fn lemma_shape_frame(&self, other: &Self)
        requires
            self.shape(),
            self.rows.len() == other.rows.len(),
            self.cols.len() == other.cols.len(),
            forall|l: int| 0 <= l < self.rows.len() ==> (#[trigger] self.rows@[l]).n == other.rows@[l].n,
            forall|l: int| 0 <= l < self.cols.len() ==> (#[trigger] self.cols@[l]).n == other.cols@[l].n,
        ensures
            other.shape(),
    {
        assert forall|k: int| 0 <= k < other.cols.len() implies {
            &&& #[trigger] other.cols@[k].n == other.rows@[k].n / 2
            &&& other.rows@[k + 1].n == other.rows@[k].n / 2
            &&& other.rows@[k].n / 2 > 0
        } by {
            assert(self.cols@[k].n == self.rows@[k].n / 2);
            assert(self.rows@[k + 1].n == other.rows@[k + 1].n);
            assert(self.rows@[k].n == other.rows@[k].n);
        }
        assert(self.rows@[self.rows.len() - 1].n == other.rows@[other.rows.len() - 1].n);
    }

    /// Tracing row level `k` reads only the sizes of the levels up to `k` and the columns kept
    /// above it.
    proof fn lemma_evaluable_frame(&self, other: &Self, k: int, i: int, j: int)
        requires
            self.shape(),
            self.same_below(other, k),
        ensures
            self.evaluable(k, i, j) == other.evaluable(k, i, j),
        decreases k,
    {
        if 0 < k < self.rows.len() && 0 <= j < self.cols@[k - 1].cols.len() {
            assert(self.same_below(other, k - 1));
            self.lemma_evaluable_frame(other, k - 1, 2 * i + 1, self.cols@[k - 1].cols@[j] as int);
            assert(self.cols@[k - 1].cols@ == other.cols@[k - 1].cols@);
        }
    }

    proof fn lemma_evaluable_upto_frame(&self, other: &Self, k: int, limit: int)
        requires
            self.shape(),
            self.same_below(other, k),
            0 <= k < self.rows.len(),
            self.evaluable_upto(k, limit),
        ensures
            other.evaluable_upto(k, limit),
    {
        assert forall|i: int, j: int| 0 <= i < other.rows@[k].n && 0 <= j <= limit implies #[trigger] other.evaluable(k, i, j) by {
            assert(self.evaluable(k, i, j));
            self.lemma_evaluable_frame(other, k, i, j);
        }
    }


    /// After row level `k` answered one more row, every level from `k` on is between calls
    /// again; `called` says whether the column level below was asked.
    proof fn lemma_quiet_after_row(&self, s0: &Self, k: int, called: bool)
        requires
            self.shape(),
            s0.shape(),
            self.rows.len() == s0.rows.len(),
            0 <= k < self.rows.len(),
            s0.quiet_from(k),
            self.rows@[k].n == s0.rows@[k].n,
            s0.rows@[k].cur_row < s0.rows@[k].n,
            self.rows@[k].cur_row == s0.rows@[k].cur_row + 1,
            self.rows@[k].state == 0 || self.rows@[k].state < self.rows@[k].cur_row,
            !called ==> {
                &&& s0.rows@[k].cur_row % 2 == 1 || s0.rows@[k].cur_row + 1 == s0.rows@[k].n
                &&& forall|l: int| k < l < self.rows.len() ==> #[trigger] self.rows@[l] == s0.rows@[l]
                &&& forall|l: int| k <= l < self.cols.len() ==> #[trigger] self.cols@[l] == s0.cols@[l]
            },
            called ==> {
                &&& s0.rows@[k].cur_row % 2 == 0 && s0.rows@[k].cur_row + 1 < s0.rows@[k].n
                &&& k < self.cols.len()
                &&& self.quiet_from(k + 1)
                &&& self.cols@[k].cur_row == s0.cols@[k].cur_row + 1
                &&& self.rows@[k + 1].cur_row == self.cols@[k].cur_row
                &&& self.cols@[k].cur_row <= self.cols@[k].cols.len() <= self.cols@[k].n
                &&& forall|e: int| 0 <= e < self.cols@[k].cols.len() ==> (#[trigger] self.cols@[k].cols@[e]) + 2 <= 2 * self.cols@[k].cur_row
            },
        ensures
            self.quiet_from(k),
    {
        assert(s0.level_ok(k));
        assert(self.level_ok(k));
        assert forall|l: int| k <= l < self.rows.len() implies #[trigger] self.level_ok(l) by {
            if l > k {
                if called {
                } else {
                    assert(s0.level_ok(l));
                    assert(self.rows@[l] == s0.rows@[l]);
                    if l < self.cols.len() {
                        assert(self.cols@[l] == s0.cols@[l]);
                        assert(self.rows@[l + 1] == s0.rows@[l + 1]);
                    }
                }
            }
        }
    }

    /// The value at row `i`, column `j` of row level `k`, read through the first level.
    fn eval<F: Fn(usize, usize) -> u64>(&self, cost: &F, k: usize, i: usize, j: usize) -> (v: u64)
        requires
            self.shape(),
            self.evaluable(k as int, i as int, j as int),
            cost_ok(*cost, self.rows@[0].n as int, self.rows@[0].n as int),
        ensures
            v == self.traced(*cost, k as int, i as int, j as int),
    {
        let ghost t = self.traced(*cost, k as int, i as int, j as int);
        let mut k = k;
        let mut i = i;
        let mut j = j;
        while k > 0
            invariant
                self.shape(),
                self.evaluable(k as int, i as int, j as int),
                self.traced(*cost, k as int, i as int, j as int) == t,
            decreases k,
        {
            k -= 1;
            assert(self.cols@[k as int].n == self.rows@[k as int].n / 2);
            let next = self.cols[k].cols[j];
            i = 2 * i + 1;
            j = next;
        }
        call_cost(cost, i, j, Ghost(self.rows@[0].n as int), Ghost(self.rows@[0].n as int))
    }

    /// Column of the minimum of the next row of column level `k`, which sees row `i` as row
    /// `2i + 1` of row level `k`.
    fn col_get_argmin<F: Fn(usize, usize) -> u64>(&mut self, cost: &F, k: usize) -> (r: usize)
        requires
            old(self).shape(),
            k < old(self).cols.len(),
            old(self).quiet_from(k + 1),
            old(self).cols@[k as int].cur_row < old(self).cols@[k as int].n,
            old(self).cols@[k as int].cur_row <= old(self).cols@[k as int].cols.len() <= old(self).cols@[k as int].n,
            forall|e: int| 0 <= e < old(self).cols@[k as int].cols.len() ==>
                (#[trigger] old(self).cols@[k as int].cols@[e]) + 2 <= 2 * old(self).cols@[k as int].cur_row,
            old(self).rows@[k + 1].cur_row == old(self).cols@[k as int].cur_row,
            old(self).evaluable_upto(k as int, 2 * old(self).cols@[k as int].cur_row),
            cost_ok(*cost, old(self).rows@[0].n as int, old(self).rows@[0].n as int),
        ensures
            final(self).shape(),
            final(self).quiet_from(k + 1),
            final(self).same_below(old(self), k as int),
            forall|l: int| 0 <= l <= k ==> #[trigger] final(self).rows@[l] == old(self).rows@[l],
            forall|l: int| 0 <= l < k ==> #[trigger] final(self).cols@[l] == old(self).cols@[l],
            final(self).cols@[k as int].n == old(self).cols@[k as int].n,
            final(self).cols@[k as int].cur_row == old(self).cols@[k as int].cur_row + 1,
            final(self).rows@[k + 1].cur_row == final(self).cols@[k as int].cur_row,
            final(self).cols@[k as int].cur_row <= final(self).cols@[k as int].cols.len() <= final(self).cols@[k as int].n,
            forall|e: int| 0 <= e < final(self).cols@[k as int].cols.len() ==>
                (#[trigger] final(self).cols@[k as int].cols@[e]) + 2 <= 2 * final(self).cols@[k as int].cur_row,
            r <= 2 * old(self).cols@[k as int].cur_row,
        decreases 2 * (old(self).rows.len() - k) - 1,
    {
        let ghost s0 = *self;
        let cur_row = self.cols[k].cur_row;
        self.cols[k].cur_row = cur_row + 1;
        proof {
            s0.lemma_shape_frame(self);
        }
        let candidates: [usize; 2] = if cur_row == 0 { [0, 0] } else { [2 * cur_row - 1, 2 * cur_row] };
        let count: usize = if cur_row == 0 { 1 } else { 2 };
        proof {
            assert(self.same_below(&s0, k as int));
            s0.lemma_evaluable_upto_frame(self, k as int, 2 * cur_row as int);
            assert(candidates[0] <= 2 * cur_row);
            assert(candidates[1] <= 2 * cur_row);
        }
        let mut t: usize = 0;
        while t < count
            invariant
                self.shape(),
                k < self.cols.len(),
                self.same_below(&s0, k as int),
                forall|l: int| 0 <= l < self.rows.len() ==> #[trigger] self.rows@[l] == s0.rows@[l],
                forall|l: int| 0 <= l < self.cols.len() && l != k ==> #[trigger] self.cols@[l] == s0.cols@[l],
                self.cols@[k as int].n == s0.cols@[k as int].n,
                self.cols@[k as int].cur_row == cur_row + 1,
                cur_row == s0.cols@[k as int].cur_row,
                cur_row < self.cols@[k as int].n,
                t <= count <= 2,
                t > 0 ==> cur_row + 1 <= self.cols@[k as int].cols.len(),
                cur_row <= self.cols@[k as int].cols.len() <= self.cols@[k as int].n,
                forall|e: int| 0 <= e < self.cols@[k as int].cols.len() ==> (#[trigger] self.cols@[k as int].cols@[e]) <= 2 * cur_row,
                candidates[0] <= 2 * cur_row,
                candidates[1] <= 2 * cur_row,
                self.evaluable_upto(k as int, 2 * cur_row as int),
                cost_ok(*cost, self.rows@[0].n as int, self.rows@[0].n as int),
            decreases count - t,
        {
            let col = candidates[t];
            let mut done = false;
            while !done
                invariant
                    self.shape(),
                    k < self.cols.len(),
                    self.same_below(&s0, k as int),
                    forall|l: int| 0 <= l < self.rows.len() ==> #[trigger] self.rows@[l] == s0.rows@[l],
                    forall|l: int| 0 <= l < self.cols.len() && l != k ==> #[trigger] self.cols@[l] == s0.cols@[l],
                    self.cols@[k as int].n == s0.cols@[k as int].n,
                    self.cols@[k as int].cur_row == cur_row + 1,
                    cur_row < self.cols@[k as int].n,
                    cur_row <= self.cols@[k as int].cols.len() <= self.cols@[k as int].n,
                    forall|e: int| 0 <= e < self.cols@[k as int].cols.len() ==> (#[trigger] self.cols@[k as int].cols@[e]) <= 2 * cur_row,
                    col <= 2 * cur_row,
                    self.evaluable_upto(k as int, 2 * cur_row as int),
                    cost_ok(*cost, self.rows@[0].n as int, self.rows@[0].n as int),
                decreases self.cols@[k as int].cols.len(), if done { 0int } else { 1int },
            {
                let size = self.cols[k].cols.len();
                if size == cur_row {
                    done = true;
                } else {
                    let last_col = self.cols[k].cols[size - 1];
                    proof {
                        assert(self.cols@[k as int].n == self.rows@[k as int].n / 2);
                        assert(self.evaluable(k as int, 2 * (size - 1) + 1, last_col as int));
                        assert(self.evaluable(k as int, 2 * (size - 1) + 1, col as int));
                    }
                    if self.eval(cost, k, 2 * (size - 1) + 1, last_col) > self.eval(cost, k, 2 * (size - 1) + 1, col) {
                        let ghost before = *self;
                        self.cols[k].cols.pop();
                        proof {
                            before.lemma_shape_frame(self);
                            assert(before.same_below(self, k as int));
                            before.lemma_evaluable_upto_frame(self, k as int, 2 * cur_row as int);
                        }
                    } else {
                        done = true;
                    }
                }
            }
            if self.cols[k].cols.len() != self.cols[k].n {
                let ghost before = *self;
                self.cols[k].cols.push(col);
                proof {
                    before.lemma_shape_frame(self);
                    assert(before.same_below(self, k as int));
                    before.lemma_evaluable_upto_frame(self, k as int, 2 * cur_row as int);
                }
            }
            t += 1;
        }
        let ghost s1 = *self;
        proof {
            assert(s1.quiet_from(k + 1)) by {
                assert forall|l: int| k + 1 <= l < s1.rows.len() implies #[trigger] s1.level_ok(l) by {
                    assert(s0.level_ok(l));
                    assert(s1.rows@[l] == s0.rows@[l]);
                    if l < s1.cols.len() {
                        assert(s1.cols@[l] == s0.cols@[l]);
                        assert(s1.rows@[l + 1] == s0.rows@[l + 1]);
                    }
                }
            }
            assert forall|i: int, j: int| 0 <= i < s1.rows@[k + 1].n && 0 <= j <= cur_row
                implies #[trigger] s1.evaluable(k + 1, i, j) by {
                assert(s1.cols@[k as int].n == s1.rows@[k as int].n / 2);
                assert(s1.rows@[k + 1].n == s1.rows@[k as int].n / 2);
                assert(s1.evaluable(k as int, 2 * i + 1, s1.cols@[k as int].cols@[j] as int));
            }
        }
        let index = self.row_get_argmin(cost, k + 1);
        proof {
            assert(self.cols@[k as int] == s1.cols@[k as int]);
        }
        self.cols[k].cols[index]
    }

    /// Column of the minimum of the next row of row level `k`.
    fn row_get_argmin<F: Fn(usize, usize) -> u64>(&mut self, cost: &F, k: usize) -> (r: usize)
        requires
            old(self).shape(),
            k < old(self).rows.len(),
            old(self).quiet_from(k as int),
            old(self).rows@[k as int].cur_row < old(self).rows@[k as int].n,
            old(self).evaluable_upto(k as int, old(self).rows@[k as int].cur_row as int),
            cost_ok(*cost, old(self).rows@[0].n as int, old(self).rows@[0].n as int),
        ensures
            final(self).shape(),
            final(self).quiet_from(k as int),
            final(self).same_below(old(self), k as int),
            forall|l: int| 0 <= l < k ==> #[trigger] final(self).rows@[l] == old(self).rows@[l],
            forall|l: int| 0 <= l < k ==> #[trigger] final(self).cols@[l] == old(self).cols@[l],
            final(self).rows@[k as int].cur_row == old(self).rows@[k as int].cur_row + 1,
            r <= old(self).rows@[k as int].cur_row,
        decreases 2 * (old(self).rows.len() - k),
    {
        let ghost s0 = *self;
        let n = self.rows[k].n;
        let cur_row = self.rows[k].cur_row;
        self.rows[k].cur_row = cur_row + 1;
        proof {
            s0.lemma_shape_frame(self);
            assert(s0.level_ok(k as int));
            assert(s0.same_below(self, k as int));
            s0.lemma_evaluable_upto_frame(self, k as int, cur_row as int);
            if k + 1 < self.rows.len() {
                assert(s0.level_ok(k + 1));
            }
            assert forall|l: int| k + 1 <= l < self.rows.len() implies #[trigger] self.level_ok(l) by {
                assert(s0.level_ok(l));
                assert(self.rows@[l] == s0.rows@[l]);
                if l < self.cols.len() {
                    assert(self.rows@[l + 1] == s0.rows@[l + 1]);
                }
            }
        }
        assert(cur_row & 1 == 0 <==> cur_row % 2 == 0) by (bit_vector);
        if cur_row & 1 == 0 {
            let prev_argmin = self.rows[k].state;
            let ghost s_mid = *self;
            let next_argmin = if cur_row + 1 == n {
                n - 1
            } else {
                self.col_get_argmin(cost, k)
            };
            let ghost s_after = *self;
            self.rows[k].state = next_argmin;
            proof {
                s_after.lemma_shape_frame(self);
                assert(self.same_below(&s0, k as int));
                s0.lemma_evaluable_upto_frame(self, k as int, cur_row as int);
                if cur_row + 1 != n {
                    assert(s_mid.cols@[k as int] == s0.cols@[k as int]);
                    assert(self.cols@[k as int] == s_after.cols@[k as int]);
                    assert forall|l: int| k + 1 <= l < self.rows.len() implies #[trigger] self.level_ok(l) by {
                        assert(s_after.level_ok(l));
                        assert(self.rows@[l] == s_after.rows@[l]);
                        if l < self.cols.len() {
                            assert(self.cols@[l] == s_after.cols@[l]);
                            assert(self.rows@[l + 1] == s_after.rows@[l + 1]);
                        }
                    }
                }
            }
            if prev_argmin == next_argmin {
                proof { self.lemma_quiet_after_row(&s0, k as int, cur_row + 1 != n); }
                return prev_argmin;
            }
            let mut ret = prev_argmin;
            let mut best_val = self.eval(cost, k, cur_row, ret);
            let mut col = prev_argmin + 1;
            while col <= next_argmin
                invariant
                    self.shape(),
                    self.evaluable_upto(k as int, cur_row as int),
                    next_argmin <= cur_row < self.rows@[k as int].n,
                    k < self.rows.len(),
                    ret <= cur_row,
                    cost_ok(*cost, self.rows@[0].n as int, self.rows@[0].n as int),
                decreases next_argmin + 1 - col,
            {
                let value = self.eval(cost, k, cur_row, col);
                if value < best_val {
                    best_val = value;
                    ret = col;
                }
                col += 1;
            }
            proof { self.lemma_quiet_after_row(&s0, k as int, cur_row + 1 != n); }
            ret
        } else {
            let state = self.rows[k].state;
            proof {
                assert(self.same_below(&s0, k as int));
                s0.lemma_evaluable_upto_frame(self, k as int, cur_row as int);
                self.lemma_quiet_after_row(&s0, k as int, false);
            }
            if self.eval(cost, k, cur_row, state) <= self.eval(cost, k, cur_row, cur_row) {
                state
            } else {
                cur_row
            }
        }
    }
}

/// Online row minima (LARSCH) of a square matrix answered row by row, for the shortest-path
/// recurrences whose costs are totally monotone; row `i` is answered by a column `j <= i`.
pub struct Larsch<F> {
    base: Reduce,
    cost: F,
}

impl<F: Fn(usize, usize) -> u64> Larsch<F> {
    /// The structure is consistent and the cost is defined on the whole matrix.
    pub closed spec fn wf(&self) -> bool {
        &&& self.base.shape()
        &&& self.base.quiet_from(0)
        &&& cost_ok(self.cost, self.base.rows@[0].n as int, self.base.rows@[0].n as int)
    }

    /// The number of rows (and columns).
    pub closed spec fn row_count(&self) -> nat {
        self.base.rows@[0].n as nat
    }

    /// The number of rows answered so far.
    pub closed spec fn answered(&self) -> nat {
        self.base.rows@[0].cur_row as nat
    }

    pub fn new(rows: usize, cost: F) -> (r: Self)
        requires
            cost_ok(cost, rows as int, rows as int),
        ensures
            r.wf(),
            r.row_count() == rows,
            r.answered() == 0,
    {
        let base = Reduce::new(rows);
        Self { base, cost }
    }

    /// Column of the minimum of the next row.
    pub fn get_argmin(&mut self) -> (r: usize)
        requires
            old(self).wf(),
            old(self).answered() < old(self).row_count(),
        ensures
            final(self).wf(),
            final(self).row_count() == old(self).row_count(),
            final(self).answered() == old(self).answered() + 1,
            r <= old(self).answered(),
    {
        proof {
            let b = self.base;
            assert forall|i: int, j: int| 0 <= i < b.rows@[0].n && 0 <= j <= b.rows@[0].cur_row
                implies #[trigger] b.evaluable(0, i, j) by {}
        }
        self.base.row_get_argmin(&self.cost, 0)
    }
}

/// The distance given to nodes not reached yet.
pub open spec fn larsch_inf() -> u64 {
    u64::MAX / 4
}

/// Costs that keep every distance within `larsch_inf()`: at most that value everywhere, and
/// at most a `1 / n` share of it below the diagonal.
pub open spec fn larsch_costs_ok<F: Fn(usize, usize) -> u64>(cost: F, n: int) -> bool {
    &&& cost_ok(cost, n, n)
    &&& forall|i: int, j: int| 0 <= i < n && 0 <= j < n ==> #[trigger] cost_at(cost, i, j) <= larsch_inf()
    &&& forall|i: int, j: int| 0 <= j < i < n ==> #[trigger] cost_at(cost, i, j) * n <= larsch_inf()
}

/// Shortest paths `0 -> row` in the complete DAG on `0..n` with edge costs `cost(row, col)`
/// for `col < row`, answering the rows of the recurrence online with LARSCH.
pub fn larsch_shortest_path<F>(n: usize, cost: F) -> (dp: Vec<u64>)
    where
        F: Fn(usize, usize) -> u64,
    requires
        larsch_costs_ok(cost, n as int),
    ensures
        dp@.len() == n,
        n > 0 ==> dp@[0] == 0,
        forall|i: int| 0 <= i < n ==> #[trigger] dp@[i] <= larsch_inf(),
        forall|i: int| 0 < i < n ==> exists|j: int| 0 <= j < i && #[trigger] dp@[i] == dp@[j] + cost_at(cost, i, j),
{
    if n == 0 {
        return Vec::new();
    }
    let inf = u64::MAX / 4;
    let mut dp = vec![inf; n];
    dp.set(0, 0);
    let mut larsch = Reduce::new(n - 1);
    let cost_ref = &cost;
    let mut row: usize = 1;
    assert(dp@[0] * n <= 0 * larsch_inf()) by (nonlinear_arith)
        requires
            dp@[0] == 0;
    while row < n
        invariant
            1 <= row <= n,
            dp@.len() == n,
            dp@[0] == 0,
            larsch_costs_ok(cost, n as int),
            larsch.shape(),
            larsch.quiet_from(0),
            larsch.rows@[0].n == n - 1,
            larsch.rows@[0].cur_row == row - 1,
            forall|i: int| 0 <= i < n ==> #[trigger] dp@[i] <= inf,
            forall|i: int| 0 <= i < row ==> #[trigger] dp@[i] * n <= i * larsch_inf(),
            forall|i: int| 0 < i < row ==> exists|j: int| 0 <= j < i && #[trigger] dp@[i] == dp@[j] + cost_at(cost, i, j),
            inf == larsch_inf(),
            *cost_ref == cost,
        decreases n - row,
    {
        let value_at = |i: usize, col: usize| -> (v: u64)
            requires
                i + 1 < n,
                col < n,
            ensures
                v == if i + 1 <= col { inf } else { (dp@[col as int] + cost_at(*cost_ref, (i + 1) as int, col as int)) as u64 },
        {
            let r = i + 1;
            if r <= col {
                return inf;
            }
            let c = call_cost(cost_ref, r, col, Ghost(n as int), Ghost(n as int));
            dp[col] + c
        };
        proof {
            assert forall|i: usize, j: usize| i < (n - 1) as int && j < (n - 1) as int implies {
                &&& #[trigger] call_requires(value_at, (i, j))
                &&& forall|v: u64| call_ensures(value_at, (i, j), v) ==> v == cost_at(value_at, i as int, j as int)
            } by {
                assert forall|v: u64| call_ensures(value_at, (i, j), v) implies v == cost_at(value_at, i as int, j as int) by {
                    assert(call_ensures(value_at, (i, j), cost_at(value_at, i as int, j as int)));
                }
            }
            let b = larsch;
            assert forall|i: int, j: int| 0 <= i < b.rows@[0].n && 0 <= j <= b.rows@[0].cur_row
                implies #[trigger] b.evaluable(0, i, j) by {}
        }
        let col = larsch.row_get_argmin(&value_at, 0);
        let c = call_cost(&cost, row, col, Ghost(n as int), Ghost(n as int));
        proof {
            assert(dp@[col as int] * n <= col * larsch_inf());
            assert(c * n <= larsch_inf());
            assert((dp@[col as int] + c) * n <= (col + 1) * larsch_inf()) by (nonlinear_arith)
                requires
                    dp@[col as int] * n <= col * larsch_inf(),
                    c * n <= larsch_inf();
            assert((col + 1) * larsch_inf() <= row * larsch_inf()) by (nonlinear_arith)
                requires col + 1 <= row;
            assert(row * larsch_inf() <= n * larsch_inf()) by (nonlinear_arith)
                requires row <= n;
            assert(dp@[col as int] + c <= larsch_inf()) by (nonlinear_arith)
                requires
                    (dp@[col as int] + c) * n <= n * larsch_inf(),
                    n > 0;
        }
        let value = dp[col] + c;
        let ghost before = dp@;
        dp.set(row, value);
        proof {
            assert forall|i: int| 0 < i < row + 1 implies exists|j: int| 0 <= j < i && #[trigger] dp@[i] == dp@[j] + cost_at(
                cost,
                i,
                j,
            ) by {
                if i == row {
                    assert(dp@[col as int] == before[col as int]);
                    assert(dp@[i] == dp@[col as int] + cost_at(cost, i, col as int));
                } else {
                    let j = choose|j: int| 0 <= j < i && #[trigger] before[i] == before[j] + cost_at(cost, i, j);
                    assert(dp@[i] == dp@[j] + cost_at(cost, i, j));
                }
            }
        }
        row += 1;
    }
    dp
}

} // verus!
