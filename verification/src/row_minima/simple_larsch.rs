use vstd::prelude::*;

use crate::row_minima::{call_cost, cost_at, cost_ok};

verus! {

/// The distance given to nodes not reached yet.
pub open spec fn spec_inf() -> u64 {
    u64::MAX / 4
}

/// Costs small enough that a distance plus a cost never overflows.
pub open spec fn costs_bounded<F: Fn(usize, usize) -> u64>(cost: F, n: int) -> bool {
    forall|i: int, j: int| 0 <= i < n && 0 <= j < n ==> #[trigger] cost_at(cost, i, j) <= u64::MAX - u64::MAX / 4
}

/// The edge costs below the diagonal have the Monge property: for `j1 < j2 < i1 < i2`,
/// `cost(i1, j1) + cost(i2, j2) <= cost(i1, j2) + cost(i2, j1)`.
pub open spec fn monge_below<F: Fn(usize, usize) -> u64>(cost: F, n: int) -> bool {
    forall|j1: int, j2: int, i1: int, i2: int|
        0 <= j1 < j2 < i1 < i2 < n ==> #[trigger] cost_at(cost, i1, j1) + #[trigger] cost_at(cost, i2, j2)
            <= cost_at(cost, i1, j2) + cost_at(cost, i2, j1)
}

/// Edge costs small enough that no path of at most `n` edges reaches `spec_inf()`: each is
/// at most an `n`-th of it.
pub open spec fn costs_small<F: Fn(usize, usize) -> u64>(cost: F, n: int) -> bool {
    forall|i: int, j: int| 0 <= j < i < n ==> #[trigger] cost_at(cost, i, j) * n <= spec_inf()
}

/// The lowest column the search ever tries for row `i`: the last row is never tried from
/// column 0 unless it is row 1.
pub open spec fn first_col(i: int, n: int) -> int {
    if i == n - 1 && n > 2 { 1 } else { 0 }
}

/// `d[i]` is the length of a path whose last edge leaves a node in `lo..i`.
pub open spec fn reached_through<F: Fn(usize, usize) -> u64>(cost: F, d: Seq<u64>, i: int, lo: int) -> bool {
    exists|j: int| lo <= j < i && d[i] == d[j] + #[trigger] cost_at(cost, i, j)
}

/// Row `i` is no longer than the path through row `i - 1`.
spec fn chained<F: Fn(usize, usize) -> u64>(cost: F, d: Seq<u64>, i: int) -> bool {
    d[i] <= d[i - 1] + cost_at(cost, i, i - 1)
}

/// `di`, reached through column `ai`, is the least of `dc[j] + cost(i, j)` over the columns
/// `lo..=hi`, and `ai` is the leftmost column that gives it.
#[verifier::opaque]
spec fn row_opt<F: Fn(usize, usize) -> u64>(cost: F, dc: Seq<u64>, di: int, ai: int, i: int, lo: int, hi: int) -> bool {
    &&& lo <= ai <= hi
    &&& di == dc[ai] + cost_at(cost, i, ai)
    &&& forall|j: int| lo <= j <= hi ==> di <= dc[j] + #[trigger] cost_at(cost, i, j)
    &&& forall|j: int| lo <= j < ai ==> di < dc[j] + #[trigger] cost_at(cost, i, j)
}

/// As `row_opt`, and for no column at all, the row is unreached with column 0 noted.
spec fn end_row<F: Fn(usize, usize) -> u64>(cost: F, dc: Seq<u64>, di: int, ai: int, i: int, lo: int, hi: int) -> bool {
    if lo > hi {
        di == spec_inf() && ai == 0
    } else {
        row_opt(cost, dc, di, ai, i, lo, hi)
    }
}

/// The lowest column tried for row `r` while it is a right end of the search.
spec fn end_lo(r: int, n: int) -> int {
    if r == n - 1 { 1 } else { 0 }
}

/// `row_opt` only reads the columns `lo..=hi` of `dc`.
proof fn lemma_row_opt_frame<F: Fn(usize, usize) -> u64>(cost: F, dc1: Seq<u64>, dc2: Seq<u64>, di: int, ai: int, i: int, lo: int, hi: int)
    requires
        row_opt(cost, dc1, di, ai, i, lo, hi),
        forall|j: int| lo <= j <= hi ==> #[trigger] dc1[j] == dc2[j],
    ensures
        row_opt(cost, dc2, di, ai, i, lo, hi),
{
    reveal(row_opt);
    assert(dc1[ai] == dc2[ai]);
    assert forall|j: int| lo <= j <= hi implies di <= dc2[j] + #[trigger] cost_at(cost, i, j) by {
        assert(dc1[j] == dc2[j]);
    }
    assert forall|j: int| lo <= j < ai implies di < dc2[j] + #[trigger] cost_at(cost, i, j) by {
        assert(dc1[j] == dc2[j]);
    }
}

/// `end_row` only reads the columns `lo..=hi` of `dc`.
proof fn lemma_end_row_frame<F: Fn(usize, usize) -> u64>(cost: F, dc1: Seq<u64>, dc2: Seq<u64>, di: int, ai: int, i: int, lo: int, hi: int)
    requires
        end_row(cost, dc1, di, ai, i, lo, hi),
        forall|j: int| lo <= j <= hi ==> #[trigger] dc1[j] == dc2[j],
    ensures
        end_row(cost, dc2, di, ai, i, lo, hi),
{
    if lo <= hi {
        lemma_row_opt_frame(cost, dc1, dc2, di, ai, i, lo, hi);
    }
}

/// Trying one more column `hi + 1`, with a strict improvement only, keeps `row_opt`.
proof fn lemma_row_opt_step<F: Fn(usize, usize) -> u64>(cost: F, dc: Seq<u64>, di: int, ai: int, i: int, lo: int, hi: int, d2: int, a2: int)
    requires
        lo > hi ==> di == spec_inf(),
        lo <= hi ==> row_opt(cost, dc, di, ai, i, lo, hi),
        lo <= hi + 1,
        dc[hi + 1] + cost_at(cost, i, hi + 1) < spec_inf(),
        dc[hi + 1] + cost_at(cost, i, hi + 1) < di ==> d2 == dc[hi + 1] + cost_at(cost, i, hi + 1) && a2 == hi + 1,
        !(dc[hi + 1] + cost_at(cost, i, hi + 1) < di) ==> d2 == di && a2 == ai,
    ensures
        row_opt(cost, dc, d2, a2, i, lo, hi + 1),
{
    reveal(row_opt);
    if lo > hi {
        assert(lo == hi + 1);
    } else {
        let c = dc[hi + 1] + cost_at(cost, i, hi + 1);
        if c < di {
            assert forall|j: int| lo <= j <= hi + 1 implies d2 <= dc[j] + #[trigger] cost_at(cost, i, j) by {
                if j <= hi {
                    assert(di <= dc[j] + cost_at(cost, i, j));
                }
            }
            assert forall|j: int| lo <= j < a2 implies d2 < dc[j] + #[trigger] cost_at(cost, i, j) by {
                assert(di <= dc[j] + cost_at(cost, i, j));
            }
        } else {
            assert forall|j: int| lo <= j <= hi + 1 implies d2 <= dc[j] + #[trigger] cost_at(cost, i, j) by {
                if j <= hi {
                    assert(di <= dc[j] + cost_at(cost, i, j));
                }
            }
        }
    }
}

/// The Monge inequality, read on the values `dc[j] + cost(i, j)`.
proof fn lemma_monge_val<F: Fn(usize, usize) -> u64>(cost: F, n: int, dc: Seq<u64>, j1: int, j2: int, i1: int, i2: int)
    requires
        monge_below(cost, n),
        0 <= j1 < j2 < i1 < i2 < n,
    ensures
        (dc[j1] + cost_at(cost, i1, j1)) + (dc[j2] + cost_at(cost, i2, j2)) <= (dc[j2] + cost_at(cost, i1, j2)) + (dc[j1]
            + cost_at(cost, i2, j1)),
{
    assert(cost_at(cost, i1, j1) + cost_at(cost, i2, j2) <= cost_at(cost, i1, j2) + cost_at(cost, i2, j1));
}

/// A distance at most `j` `n`-ths of `spec_inf()` plus one more edge stays below it.
proof fn lemma_val_small<F: Fn(usize, usize) -> u64>(cost: F, n: int, dc: Seq<u64>, i: int, j: int)
    requires
        costs_small(cost, n),
        0 <= j < i < n,
        dc[j] * n <= j * spec_inf(),
    ensures
        (dc[j] + cost_at(cost, i, j)) * n <= (j + 1) * spec_inf(),
        dc[j] + cost_at(cost, i, j) < spec_inf(),
{
    let c = cost_at(cost, i, j);
    let v = dc[j] + c;
    assert(c * n <= spec_inf());
    assert(v * n <= (j + 1) * spec_inf()) by (nonlinear_arith)
        requires
            v == dc[j] + c,
            dc[j] * n <= j * spec_inf(),
            c * n <= spec_inf();
    if v >= spec_inf() {
        vstd::arithmetic::mul::lemma_mul_inequality(spec_inf() as int, v, n);
        vstd::arithmetic::mul::lemma_mul_strict_inequality(j + 1, n, spec_inf() as int);
        vstd::arithmetic::mul::lemma_mul_is_commutative(j + 1, spec_inf() as int);
        vstd::arithmetic::mul::lemma_mul_is_commutative(n, spec_inf() as int);
    }
}

/// The columns tried for the middle row run forward: the leftmost best column of row `l`
/// is at or before the best column noted for row `r`, and that one is at most `l`.
proof fn lemma_range_ordered<F: Fn(usize, usize) -> u64>(cost: F, n: int, dc: Seq<u64>, a: Seq<usize>, l: int, r: int)
    requires
        monge_below(cost, n),
        0 <= l < r < n,
        a.len() == n,
        dc.len() == n,
        l == 0 ==> a[l] == 0,
        l >= 1 ==> row_opt(cost, dc, dc[l] as int, a[l] as int, l, 0, l - 1),
        end_row(cost, dc, dc[r] as int, a[r] as int, r, end_lo(r, n), l),
    ensures
        a[l] <= a[r] <= l,
{
    reveal(row_opt);
    let lo = end_lo(r, n);
    if lo > l {
    } else if l >= 1 {
        let x = a[l] as int;
        let b = a[r] as int;
        if b < x {
            if x >= lo {
                assert(dc[l] < dc[b] + cost_at(cost, l, b));
                lemma_monge_val(cost, n, dc, b, x, l, r);
                assert(dc[r] <= dc[x] + cost_at(cost, r, x));
                assert(false);
            }
        }
    }
}

/// The middle row, best over the columns `left..=right` tried, is best over all of
/// `0..=l`: columns before `left` lose to it as they lose in row `l`, and columns after
/// `right` lose as they lose in row `r`.
#[verifier::spinoff_prover]
proof fn lemma_lift<F: Fn(usize, usize) -> u64>(
    cost: F,
    n: int,
    dc: Seq<u64>,
    a: Seq<usize>,
    l: int,
    m: int,
    r: int,
    dm: int,
    am: int,
)
    requires
        monge_below(cost, n),
        0 <= l < m < r < n,
        a.len() == n,
        dc.len() == n,
        l == 0 ==> a[l] == 0,
        l >= 1 ==> row_opt(cost, dc, dc[l] as int, a[l] as int, l, 0, l - 1),
        end_row(cost, dc, dc[r] as int, a[r] as int, r, end_lo(r, n), l),
        a[r] <= l,
        row_opt(cost, dc, dm, am, m, a[l] as int, a[r] as int),
    ensures
        row_opt(cost, dc, dm, am, m, 0, l),
{
    reveal(row_opt);
    let x = a[l] as int;
    let b = a[r] as int;
    let lo = end_lo(r, n);
    assert forall|j: int| 0 <= j < x implies dm < dc[j] + #[trigger] cost_at(cost, m, j) by {
        assert(l >= 1);
        assert(dc[l] < dc[j] + cost_at(cost, l, j));
        lemma_monge_val(cost, n, dc, j, x, l, m);
    }
    assert forall|j: int| 0 <= j <= l implies dm <= dc[j] + #[trigger] cost_at(cost, m, j) by {
        if j < x {
            assert(dm < dc[j] + cost_at(cost, m, j));
        } else if j > b {
            assert(lo <= l);
            assert(dc[r] <= dc[j] + cost_at(cost, r, j));
            lemma_monge_val(cost, n, dc, b, j, m, r);
        }
    }
    assert forall|j: int| 0 <= j < am implies dm < dc[j] + #[trigger] cost_at(cost, m, j) by {
        if j < x {
            assert(dm < dc[j] + cost_at(cost, m, j));
        }
    }
}

/// The costs are Monge below the diagonal and small enough that no distance reaches the
/// unreached mark.
spec fn monge_small<F: Fn(usize, usize) -> u64>(cost: F, n: int) -> bool {
    monge_below(cost, n) && costs_small(cost, n)
}

/// Row `i` holds its final answer: the best over every column the search tries for it.
spec fn settled<F: Fn(usize, usize) -> u64>(cost: F, d: Seq<u64>, a: Seq<usize>, i: int, n: int) -> bool {
    row_opt(cost, d, d[i] as int, a[i] as int, i, first_col(i, n), i - 1)
}

/// The distance of row `i` is at most `i` `n`-ths of `spec_inf()`.
spec fn bounded_at(d: Seq<u64>, i: int, n: int) -> bool {
    d[i] * n <= i * spec_inf()
}

/// `settled` only reads the rows up to `i`.
proof fn lemma_settled_frame<F: Fn(usize, usize) -> u64>(cost: F, d1: Seq<u64>, a1: Seq<usize>, d2: Seq<u64>, a2: Seq<usize>, i: int, n: int)
    requires
        settled(cost, d1, a1, i, n),
        forall|k: int| 0 <= k <= i ==> #[trigger] d2[k] == d1[k],
        a2[i] == a1[i],
        i >= 1,
    ensures
        settled(cost, d2, a2, i, n),
{
    assert(d2[i] == d1[i]);
    lemma_row_opt_frame(cost, d1, d2, d1[i] as int, a1[i] as int, i, first_col(i, n), i - 1);
}

/// A row that is best over some columns, all of them bounded, is bounded too.
proof fn lemma_bound_from_opt<F: Fn(usize, usize) -> u64>(cost: F, n: int, dc: Seq<u64>, di: int, ai: int, i: int, lo: int, hi: int)
    requires
        costs_small(cost, n),
        row_opt(cost, dc, di, ai, i, lo, hi),
        0 <= lo,
        hi < i < n,
        dc[ai] * n <= ai * spec_inf(),
    ensures
        di * n <= i * spec_inf(),
        di < spec_inf(),
{
    reveal(row_opt);
    lemma_val_small(cost, n, dc, i, ai);
    vstd::arithmetic::mul::lemma_mul_inequality(ai + 1, i, spec_inf() as int);
}

/// The edge into the last row of the search, tried when `r == l + 1`, settles row `r`.
#[verifier::spinoff_prover]
proof fn lemma_base<F: Fn(usize, usize) -> u64>(cost: F, n: int, d0: Seq<u64>, a0: Seq<usize>, d1: Seq<u64>, a1: Seq<usize>, l: int, r: int)
    requires
        monge_small(cost, n),
        0 <= l,
        r == l + 1,
        r < n,
        d0.len() == n,
        d1.len() == n,
        forall|j: int| 0 <= j <= l ==> #[trigger] bounded_at(d0, j, n),
        end_row(cost, d0, d0[r] as int, a0[r] as int, r, end_lo(r, n), l),
        forall|k: int| 0 <= k < n && k != r ==> #[trigger] d1[k] == d0[k],
        d0[l] + cost_at(cost, r, l) < d0[r] ==> d1[r] == d0[l] + cost_at(cost, r, l) && a1[r] == l,
        !(d0[l] + cost_at(cost, r, l) < d0[r]) ==> d1[r] == d0[r] && a1[r] == a0[r],
    ensures
        settled(cost, d1, a1, r, n),
        bounded_at(d1, r, n),
{
    reveal(row_opt);
    let lo = end_lo(r, n);
    assert(bounded_at(d0, l, n));
    if lo <= l {
        assert(first_col(r, n) == lo);
        assert(d0[r] <= d0[l] + cost_at(cost, r, l));
        lemma_row_opt_frame(cost, d0, d1, d1[r] as int, a1[r] as int, r, lo, l);
        assert(bounded_at(d0, a0[r] as int, n));
        lemma_bound_from_opt(cost, n, d0, d1[r] as int, a1[r] as int, r, lo, l);
    } else {
        lemma_val_small(cost, n, d0, r, l);
        lemma_row_opt_step(cost, d0, d0[r] as int, a0[r] as int, r, 0, -1, d1[r] as int, a1[r] as int);
        lemma_row_opt_frame(cost, d0, d1, d1[r] as int, a1[r] as int, r, 0, l);
        lemma_bound_from_opt(cost, n, d0, d1[r] as int, a1[r] as int, r, 0, l);
    }
}

/// After the middle row `m` of the search on `l..=r` has tried the columns between the
/// best columns noted for `l` and `r`, the left half `l..=m` is ready to be searched.
#[verifier::spinoff_prover]
proof fn lemma_middle_row<F: Fn(usize, usize) -> u64>(
    cost: F,
    n: int,
    d0: Seq<u64>,
    a0: Seq<usize>,
    d1: Seq<u64>,
    a1: Seq<usize>,
    l: int,
    m: int,
    r: int,
)
    requires
        monge_small(cost, n),
        0 <= l < m < r < n,
        d0.len() == n,
        a0.len() == n,
        d1.len() == n,
        a1.len() == n,
        a0[0] == 0,
        forall|i: int| 1 <= i <= l ==> #[trigger] settled(cost, d0, a0, i, n),
        forall|i: int| 0 <= i <= l ==> #[trigger] bounded_at(d0, i, n),
        end_row(cost, d0, d0[r] as int, a0[r] as int, r, end_lo(r, n), l),
        a0[l] <= a0[r] <= l,
        row_opt(cost, d0, d1[m] as int, a1[m] as int, m, a0[l] as int, a0[r] as int),
        forall|i: int| 0 <= i < n && i != m ==> #[trigger] d1[i] == d0[i] && a1[i] == a0[i],
    ensures
        a1[0] == 0,
        forall|i: int| 1 <= i <= l ==> #[trigger] settled(cost, d1, a1, i, n),
        forall|i: int| 0 <= i <= l ==> #[trigger] bounded_at(d1, i, n),
        end_row(cost, d1, d1[m] as int, a1[m] as int, m, end_lo(m, n), l),
{
    assert(d1[0] == d0[0]);
    if l >= 1 {
        assert(settled(cost, d0, a0, l, n));
    }
    lemma_lift(cost, n, d0, a0, l, m, r, d1[m] as int, a1[m] as int);
    assert forall|k: int| 0 <= k <= l implies #[trigger] d0[k] == d1[k] by {
        assert(d1[k] == d0[k]);
    }
    lemma_row_opt_frame(cost, d0, d1, d1[m] as int, a1[m] as int, m, 0, l);
    assert forall|i: int| 1 <= i <= l implies #[trigger] settled(cost, d1, a1, i, n) by {
        assert forall|k: int| 0 <= k <= i implies #[trigger] d1[k] == d0[k] by {}
        lemma_settled_frame(cost, d0, a0, d1, a1, i, n);
    }
    assert forall|i: int| 0 <= i <= l implies #[trigger] bounded_at(d1, i, n) by {
        assert(bounded_at(d0, i, n));
        assert(d1[i] == d0[i]);
    }
}

/// Once the left half is searched and row `r` has tried the columns `l + 1..=m`, the right
/// half `m..=r` is ready to be searched.
#[verifier::spinoff_prover]
proof fn lemma_before_right_half<F: Fn(usize, usize) -> u64>(
    cost: F,
    n: int,
    d0: Seq<u64>,
    a0: Seq<usize>,
    d1: Seq<u64>,
    a1: Seq<usize>,
    d2: Seq<u64>,
    a2: Seq<usize>,
    d3: Seq<u64>,
    a3: Seq<usize>,
    l: int,
    m: int,
    r: int,
)
    requires
        monge_small(cost, n),
        0 <= l < m < r < n,
        d0.len() == n,
        d1.len() == n,
        d2.len() == n,
        d3.len() == n,
        a0[0] == 0,
        forall|i: int| 1 <= i <= l ==> #[trigger] settled(cost, d0, a0, i, n),
        forall|i: int| 0 <= i <= l ==> #[trigger] bounded_at(d0, i, n),
        forall|i: int| 0 <= i < n && i != m ==> #[trigger] d1[i] == d0[i] && a1[i] == a0[i],
        forall|i: int| 0 <= i < n && !(l < i <= m) ==> #[trigger] d2[i] == d1[i] && a2[i] == a1[i],
        forall|i: int| l < i <= m ==> #[trigger] settled(cost, d2, a2, i, n),
        forall|i: int| l < i <= m ==> #[trigger] bounded_at(d2, i, n),
        forall|i: int| 0 <= i < n && i != r ==> #[trigger] d3[i] == d2[i] && a3[i] == a2[i],
        end_row(cost, d2, d3[r] as int, a3[r] as int, r, end_lo(r, n), m),
    ensures
        a3[0] == 0,
        forall|i: int| 1 <= i <= m ==> #[trigger] settled(cost, d3, a3, i, n),
        forall|i: int| 0 <= i <= m ==> #[trigger] bounded_at(d3, i, n),
        end_row(cost, d3, d3[r] as int, a3[r] as int, r, end_lo(r, n), m),
{
    assert(d1[0] == d0[0] && a1[0] == a0[0]);
    assert(d2[0] == d1[0] && a2[0] == a1[0]);
    assert(d3[0] == d2[0] && a3[0] == a2[0]);
    assert forall|k: int| 0 <= k <= m implies #[trigger] d2[k] == d3[k] by {
        assert(d3[k] == d2[k]);
    }
    lemma_end_row_frame(cost, d2, d3, d3[r] as int, a3[r] as int, r, end_lo(r, n), m);
    assert forall|i: int| 1 <= i <= m implies #[trigger] settled(cost, d3, a3, i, n) by {
        if i <= l {
            assert forall|k: int| 0 <= k <= i implies #[trigger] d3[k] == d0[k] by {
                assert(d3[k] == d2[k]);
                assert(d2[k] == d1[k]);
                assert(d1[k] == d0[k]);
            }
            assert(d3[i] == d2[i] && d2[i] == d1[i] && d1[i] == d0[i]);
            assert(a3[i] == a2[i] && a2[i] == a1[i] && a1[i] == a0[i]);
            lemma_settled_frame(cost, d0, a0, d3, a3, i, n);
        } else {
            assert forall|k: int| 0 <= k <= i implies #[trigger] d3[k] == d2[k] by {}
            assert(d3[i] == d2[i]);
            lemma_settled_frame(cost, d2, a2, d3, a3, i, n);
        }
    }
    assert forall|i: int| 0 <= i <= m implies #[trigger] bounded_at(d3, i, n) by {
        if i <= l {
            assert(bounded_at(d0, i, n));
            assert(d3[i] == d2[i] && d2[i] == d1[i] && d1[i] == d0[i]);
        } else {
            assert(bounded_at(d2, i, n));
            assert(d3[i] == d2[i]);
        }
    }
}

/// Every row settled and bounded: each distance is below `spec_inf()`, no longer than any
/// path through a column tried for its row, and reached through one of those columns.
#[verifier::spinoff_prover]
proof fn lemma_settled_law<F: Fn(usize, usize) -> u64>(cost: F, n: int, d: Seq<u64>, a: Seq<usize>)
    requires
        monge_small(cost, n),
        d.len() == n,
        n > 1,
        d[0] == 0,
        forall|i: int| 0 < i <= n - 1 ==> #[trigger] settled(cost, d, a, i, n),
        forall|i: int| 0 < i <= n - 1 ==> #[trigger] bounded_at(d, i, n),
    ensures
        forall|i: int| 0 < i < n ==> #[trigger] d[i] < u64::MAX / 4,
        forall|i: int, j: int| 0 <= j < i < n && first_col(i, n) <= j ==> d[i] <= d[j] + #[trigger] cost_at(cost, i, j),
        forall|i: int| 0 < i < n ==> #[trigger] reached_through(cost, d, i, first_col(i, n)),
{
    reveal(row_opt);
    vstd::arithmetic::mul::lemma_mul_basics(n);
    assert(bounded_at(d, 0, n));
    assert forall|i: int| 0 < i < n implies #[trigger] d[i] < u64::MAX / 4 by {
        assert(settled(cost, d, a, i, n));
        let ai = a[i] as int;
        assert(bounded_at(d, ai, n));
        lemma_bound_from_opt(cost, n, d, d[i] as int, ai, i, first_col(i, n), i - 1);
    }
    assert forall|i: int, j: int| 0 <= j < i < n && first_col(i, n) <= j implies d[i] <= d[j] + #[trigger] cost_at(cost, i, j) by {
        assert(settled(cost, d, a, i, n));
    }
    assert forall|i: int| 0 < i < n implies #[trigger] reached_through(cost, d, i, first_col(i, n)) by {
        assert(settled(cost, d, a, i, n));
        let ai = a[i] as int;
        assert(first_col(i, n) <= ai < i && d[i] == d[ai] + cost_at(cost, i, ai));
    }
}

spec fn dist_ok(dist: Seq<u64>, argmins: Seq<usize>, n: int) -> bool {
    &&& dist.len() == n
    &&& argmins.len() == n
    &&& forall|i: int| 0 <= i < n ==> #[trigger] dist[i] <= spec_inf()
    &&& forall|i: int| 0 <= i < n ==> #[trigger] argmins[i] < n
    &&& n > 0 ==> dist[0] == 0
}

/// Node `i` is unreached, or its distance is that of node `argmins[i]`, before it, plus the
/// edge between them.
spec fn sound_at<F: Fn(usize, usize) -> u64>(cost: F, dist: Seq<u64>, argmins: Seq<usize>, i: int) -> bool {
    dist[i] == spec_inf() || (argmins[i] < i && dist[i] == dist[argmins[i] as int] + cost_at(cost, i, argmins[i] as int))
}

/// Shortest paths `0 -> row` in the complete DAG on `0..n` with edge costs `cost(row, col)`
/// for `col < row`, by the simplified LARSCH divide and conquer: each distance found is that of
/// a path (the distance of an earlier node plus one edge), and no longer than the path through
/// the node just before.
///
/// For Monge costs small enough that no path reaches the unreached mark, each distance is the
/// shortest-path recurrence: the least of `dist[j] + cost(i, j)` over the earlier nodes `j`,
/// and reached through one of them. The last node of three or more is searched from node 1 on:
/// the search never relaxes the edge from node 0 into it.
pub fn simple_larsch_shortest_path<F>(n: usize, cost: &F) -> (dist: Vec<u64>)
    where
        F: Fn(usize, usize) -> u64,
    requires
        cost_ok(*cost, n as int, n as int),
        costs_bounded(*cost, n as int),
    ensures
        dist@.len() == n,
        n > 0 ==> dist@[0] == 0,
        forall|i: int| 0 <= i < n ==> #[trigger] dist@[i] <= u64::MAX / 4,
        forall|i: int| 0 < i < n ==> #[trigger] dist@[i] == u64::MAX / 4 || exists|j: int| 0 <= j < i && dist@[i] == dist@[j]
            + cost_at(*cost, i, j),
        forall|i: int| 0 < i < n ==> #[trigger] dist@[i] <= dist@[i - 1] + cost_at(*cost, i, i - 1),
        monge_below(*cost, n as int) && costs_small(*cost, n as int) ==> forall|i: int| 0 < i < n ==> #[trigger] dist@[i]
            < u64::MAX / 4,
        monge_below(*cost, n as int) && costs_small(*cost, n as int) ==> forall|i: int, j: int|
            0 <= j < i < n && first_col(i, n as int) <= j ==> dist@[i] <= dist@[j] + #[trigger] cost_at(*cost, i, j),
        monge_below(*cost, n as int) && costs_small(*cost, n as int) ==> forall|i: int| 0 < i < n ==> #[trigger] reached_through(
            *cost,
            dist@,
            i,
            first_col(i, n as int),
        ),
{
    if n == 0 {
        return Vec::new();
    }
    let inf = u64::MAX / 4;
    let mut dist = vec![inf; n];
    dist.set(0, 0);
    let mut argmins: Vec<usize> = vec![0; n];
    if n > 1 {
        proof {
            vstd::arithmetic::mul::lemma_mul_basics(n as int);
            assert(bounded_at(dist@, 0, n as int));
        }
        dfs(0, n - 1, cost, &mut dist, &mut argmins, Ghost(n as int));
        proof {
            assert forall|i: int| 0 < i < n implies #[trigger] dist@[i] <= dist@[i - 1] + cost_at(*cost, i, i - 1) by {
                assert(chained(*cost, dist@, i));
            }
            if monge_small(*cost, n as int) {
                lemma_settled_law(*cost, n as int, dist@, argmins@);
            }
            assert forall|i: int| 0 < i < n implies #[trigger] dist@[i] == u64::MAX / 4 || exists|j: int| 0 <= j < i
                && dist@[i] == dist@[j] + cost_at(*cost, i, j) by {
                assert(sound_at(*cost, dist@, argmins@, i));
                if dist@[i] != spec_inf() {
                    let j = argmins@[i] as int;
                    assert(0 <= j < i && dist@[i] == dist@[j] + cost_at(*cost, i, j));
                }
            }
        }
    }
    dist
}

/// Relax edge `col -> row` if `row > col`.
fn update<F>(row: usize, col: usize, cost: &F, dist: &mut Vec<u64>, argmins: &mut Vec<usize>, Ghost(n): Ghost<int>)
    where
        F: Fn(usize, usize) -> u64,
    requires
        row < n,
        col < n,
        cost_ok(*cost, n, n),
        costs_bounded(*cost, n),
        dist_ok(old(dist)@, old(argmins)@, n),
    ensures
        dist_ok(final(dist)@, final(argmins)@, n),
        forall|i: int| 0 <= i < n && i != row ==> #[trigger] final(dist)@[i] == old(dist)@[i] && final(argmins)@[i]
            == old(argmins)@[i],
        final(dist)@[row as int] <= old(dist)@[row as int],
        final(dist)@[row as int] == old(dist)@[row as int] && final(argmins)@[row as int] == old(argmins)@[row as int]
            || (col < row && final(argmins)@[row as int] == col && final(dist)@[row as int] == old(dist)@[col as int]
            + cost_at(*cost, row as int, col as int)),
        col < row && old(dist)@[col as int] + cost_at(*cost, row as int, col as int) < old(dist)@[row as int]
            ==> final(dist)@[row as int] == old(dist)@[col as int] + cost_at(*cost, row as int, col as int)
            && final(argmins)@[row as int] == col,
        !(col < row && old(dist)@[col as int] + cost_at(*cost, row as int, col as int) < old(dist)@[row as int])
            ==> final(dist)@[row as int] == old(dist)@[row as int] && final(argmins)@[row as int] == old(argmins)@[row as int],
{
    if row <= col {
        return;
    }
    update_unchecked(row, col, cost, dist, argmins, Ghost(n));
}

/// Relax edge `col -> row`.
fn update_unchecked<F>(row: usize, col: usize, cost: &F, dist: &mut Vec<u64>, argmins: &mut Vec<usize>, Ghost(n): Ghost<int>)
    where
        F: Fn(usize, usize) -> u64,
    requires
        row < n,
        col < n,
        row > 0,
        cost_ok(*cost, n, n),
        costs_bounded(*cost, n),
        dist_ok(old(dist)@, old(argmins)@, n),
    ensures
        dist_ok(final(dist)@, final(argmins)@, n),
        forall|i: int| 0 <= i < n && i != row ==> #[trigger] final(dist)@[i] == old(dist)@[i] && final(argmins)@[i]
            == old(argmins)@[i],
        final(dist)@[row as int] <= old(dist)@[row as int],
        final(dist)@[row as int] <= old(dist)@[col as int] + cost_at(*cost, row as int, col as int),
        final(dist)@[row as int] == old(dist)@[row as int] && final(argmins)@[row as int] == old(argmins)@[row as int]
            || (final(argmins)@[row as int] == col && final(dist)@[row as int] == old(dist)@[col as int] + cost_at(
            *cost,
            row as int,
            col as int,
        )),
        old(dist)@[col as int] + cost_at(*cost, row as int, col as int) < old(dist)@[row as int]
            ==> final(dist)@[row as int] == old(dist)@[col as int] + cost_at(*cost, row as int, col as int)
            && final(argmins)@[row as int] == col,
        !(old(dist)@[col as int] + cost_at(*cost, row as int, col as int) < old(dist)@[row as int])
            ==> final(dist)@[row as int] == old(dist)@[row as int] && final(argmins)@[row as int] == old(argmins)@[row as int],
{
    let c = call_cost(cost, row, col, Ghost(n), Ghost(n));
    let candidate = dist[col] + c;
    if candidate < dist[row] {
        dist.set(row, candidate);
        argmins.set(row, col);
    }
}

/// Relax the middle row `m` from the columns `left..=right`.
#[verifier::spinoff_prover]
fn relax_middle<F>(
    l: usize,
    m: usize,
    r: usize,
    left: usize,
    right: usize,
    cost: &F,
    dist: &mut Vec<u64>,
    argmins: &mut Vec<usize>,
    Ghost(n): Ghost<int>,
)
    where
        F: Fn(usize, usize) -> u64,
    requires
        l < m < r < n,
        left < n,
        right < n,
        n <= usize::MAX,
        cost_ok(*cost, n, n),
        costs_bounded(*cost, n),
        dist_ok(old(dist)@, old(argmins)@, n),
        forall|i: int| l < i < r ==> #[trigger] old(dist)@[i] == spec_inf(),
        monge_small(*cost, n) ==> left <= right <= l,
        monge_small(*cost, n) ==> forall|j: int| 0 <= j <= l ==> #[trigger] bounded_at(old(dist)@, j, n),
    ensures
        dist_ok(final(dist)@, final(argmins)@, n),
        forall|i: int| 0 <= i < n && i != m ==> #[trigger] final(dist)@[i] == old(dist)@[i] && final(argmins)@[i]
            == old(argmins)@[i],
        sound_at(*cost, final(dist)@, final(argmins)@, m as int),
        final(dist)@[m as int] < spec_inf() ==> final(argmins)@[m as int] <= l,
        monge_small(*cost, n) ==> row_opt(
            *cost,
            old(dist)@,
            final(dist)@[m as int] as int,
            final(argmins)@[m as int] as int,
            m as int,
            left as int,
            right as int,
        ),
{
    let ghost d0 = dist@;
    let ghost good = monge_small(*cost, n);
    let mut col = left;
    while col <= right
        invariant
            l < m < r < n,
            left <= col,
            col <= right + 1 || col == left,
            left < n,
            right < n,
            n <= usize::MAX,
            cost_ok(*cost, n, n),
            costs_bounded(*cost, n),
            dist_ok(dist@, argmins@, n),
            d0.len() == n,
            forall|i: int| 0 <= i < n && i != m ==> #[trigger] dist@[i] == d0[i] && argmins@[i] == old(argmins)@[i],
            d0[m as int] == spec_inf(),
            sound_at(*cost, dist@, argmins@, m as int),
            dist@[m as int] < spec_inf() ==> argmins@[m as int] <= l,
            forall|i: int| l < i < r ==> #[trigger] d0[i] == spec_inf(),
            good == monge_small(*cost, n),
            good ==> left <= right <= l,
            good ==> forall|j: int| 0 <= j <= l ==> #[trigger] bounded_at(d0, j, n),
            good ==> (col == left ==> dist@[m as int] == spec_inf()),
            good ==> (col > left ==> row_opt(
                *cost,
                d0,
                dist@[m as int] as int,
                argmins@[m as int] as int,
                m as int,
                left as int,
                col - 1,
            )),
        decreases right + 1 - col,
    {
        let ghost db = dist@;
        let ghost ab = argmins@;
        update(m, col, cost, dist, argmins, Ghost(n));
        proof {
            if argmins@[m as int] != ab[m as int] || dist@[m as int] != db[m as int] {
                // an update only happens from a reached column, which lies at or before `l`
                if col > l {
                    assert(db[col as int] == spec_inf());
                }
                assert(dist@[col as int] == db[col as int]);
            } else if dist@[m as int] != spec_inf() {
                assert(dist@[ab[m as int] as int] == db[ab[m as int] as int]);
            }
            if good {
                assert(bounded_at(d0, col as int, n));
                lemma_val_small(*cost, n, d0, m as int, col as int);
                assert(db[col as int] == d0[col as int]);
                lemma_row_opt_step(
                    *cost,
                    d0,
                    db[m as int] as int,
                    ab[m as int] as int,
                    m as int,
                    left as int,
                    col - 1,
                    dist@[m as int] as int,
                    argmins@[m as int] as int,
                );
            }
        }
        col += 1;
    }
}

/// Relax the right row `r` from the columns `l + 1..=m`.
#[verifier::spinoff_prover]
fn relax_right<F>(l: usize, m: usize, r: usize, cost: &F, dist: &mut Vec<u64>, argmins: &mut Vec<usize>, Ghost(n): Ghost<int>)
    where
        F: Fn(usize, usize) -> u64,
    requires
        l < m < r < n,
        cost_ok(*cost, n, n),
        costs_bounded(*cost, n),
        dist_ok(old(dist)@, old(argmins)@, n),
        sound_at(*cost, old(dist)@, old(argmins)@, r as int),
        old(dist)@[r as int] < spec_inf() ==> old(argmins)@[r as int] <= m,
        monge_small(*cost, n) ==> forall|j: int| l < j <= m ==> #[trigger] bounded_at(old(dist)@, j, n),
        monge_small(*cost, n) ==> end_row(
            *cost,
            old(dist)@,
            old(dist)@[r as int] as int,
            old(argmins)@[r as int] as int,
            r as int,
            end_lo(r as int, n),
            l as int,
        ),
    ensures
        dist_ok(final(dist)@, final(argmins)@, n),
        forall|i: int| 0 <= i < n && i != r ==> #[trigger] final(dist)@[i] == old(dist)@[i] && final(argmins)@[i]
            == old(argmins)@[i],
        sound_at(*cost, final(dist)@, final(argmins)@, r as int),
        final(dist)@[r as int] < spec_inf() ==> final(argmins)@[r as int] <= m,
        monge_small(*cost, n) ==> end_row(
            *cost,
            old(dist)@,
            final(dist)@[r as int] as int,
            final(argmins)@[r as int] as int,
            r as int,
            end_lo(r as int, n),
            m as int,
        ),
{
    let ghost d2 = dist@;
    let ghost good = monge_small(*cost, n);
    let mut col = l + 1;
    while col <= m
        invariant
            l < m < r < n,
            l + 1 <= col <= m + 1,
            cost_ok(*cost, n, n),
            costs_bounded(*cost, n),
            dist_ok(dist@, argmins@, n),
            d2.len() == n,
            forall|i: int| 0 <= i < n && i != r ==> #[trigger] dist@[i] == d2[i] && argmins@[i] == old(argmins)@[i],
            sound_at(*cost, dist@, argmins@, r as int),
            dist@[r as int] < spec_inf() ==> argmins@[r as int] <= m,
            good == monge_small(*cost, n),
            good ==> forall|j: int| l < j <= m ==> #[trigger] bounded_at(d2, j, n),
            good ==> end_row(
                *cost,
                d2,
                dist@[r as int] as int,
                argmins@[r as int] as int,
                r as int,
                end_lo(r as int, n),
                col - 1,
            ),
        decreases m + 1 - col,
    {
        let ghost db = dist@;
        let ghost ab = argmins@;
        update_unchecked(r, col, cost, dist, argmins, Ghost(n));
        proof {
            if argmins@[r as int] != ab[r as int] || dist@[r as int] != db[r as int] {
                assert(dist@[col as int] == db[col as int]);
            } else if dist@[r as int] != spec_inf() {
                assert(dist@[ab[r as int] as int] == db[ab[r as int] as int]);
            }
            if good {
                assert(bounded_at(d2, col as int, n));
                lemma_val_small(*cost, n, d2, r as int, col as int);
                assert(db[col as int] == d2[col as int]);
                lemma_row_opt_step(
                    *cost,
                    d2,
                    db[r as int] as int,
                    ab[r as int] as int,
                    r as int,
                    end_lo(r as int, n),
                    col - 1,
                    dist@[r as int] as int,
                    argmins@[r as int] as int,
                );
            }
        }
        col += 1;
    }
}

/// After both halves are searched, the rows `l + 1..=r` are done and the others are as
/// they were.
#[verifier::spinoff_prover]
proof fn lemma_combine<F: Fn(usize, usize) -> u64>(
    cost: F,
    n: int,
    d0: Seq<u64>,
    a0: Seq<usize>,
    d1: Seq<u64>,
    a1: Seq<usize>,
    d2: Seq<u64>,
    a2: Seq<usize>,
    d3: Seq<u64>,
    a3: Seq<usize>,
    d4: Seq<u64>,
    a4: Seq<usize>,
    l: int,
    m: int,
    r: int,
)
    requires
        0 <= l < m < r < n,
        forall|i: int| 0 <= i < n && i != m ==> #[trigger] d1[i] == d0[i] && a1[i] == a0[i],
        forall|i: int| 0 <= i < n && !(l < i <= m) ==> #[trigger] d2[i] == d1[i] && a2[i] == a1[i],
        forall|i: int| 0 <= i < n && i != r ==> #[trigger] d3[i] == d2[i] && a3[i] == a2[i],
        forall|i: int| 0 <= i < n && !(m < i <= r) ==> #[trigger] d4[i] == d3[i] && a4[i] == a3[i],
        forall|i: int| l < i <= m ==> #[trigger] chained(cost, d2, i),
        forall|i: int| m < i <= r ==> #[trigger] chained(cost, d4, i),
        monge_small(cost, n) ==> forall|i: int| 1 <= i <= m ==> #[trigger] settled(cost, d3, a3, i, n),
        monge_small(cost, n) ==> forall|i: int| 0 <= i <= m ==> #[trigger] bounded_at(d3, i, n),
        monge_small(cost, n) ==> forall|i: int| m < i <= r ==> #[trigger] settled(cost, d4, a4, i, n),
        monge_small(cost, n) ==> forall|i: int| m < i <= r ==> #[trigger] bounded_at(d4, i, n),
    ensures
        forall|i: int| 0 <= i < n && !(l < i <= r) ==> #[trigger] d4[i] == d0[i] && a4[i] == a0[i],
        forall|i: int| l < i <= r ==> #[trigger] chained(cost, d4, i),
        monge_small(cost, n) ==> forall|i: int| l < i <= r ==> #[trigger] settled(cost, d4, a4, i, n),
        monge_small(cost, n) ==> forall|i: int| l < i <= r ==> #[trigger] bounded_at(d4, i, n),
{
    assert forall|i: int| 0 <= i < n && !(l < i <= r) implies #[trigger] d4[i] == d0[i] && a4[i] == a0[i] by {
        assert(d4[i] == d3[i] && d3[i] == d2[i] && d2[i] == d1[i] && d1[i] == d0[i]);
    }
    assert forall|i: int| l < i <= r implies #[trigger] chained(cost, d4, i) by {
        if i <= m {
            assert(chained(cost, d2, i));
            assert(d4[i] == d3[i] && d3[i] == d2[i]);
            assert(d4[i - 1] == d3[i - 1] && d3[i - 1] == d2[i - 1]);
        }
    }
    if monge_small(cost, n) {
        assert forall|i: int| l < i <= r implies #[trigger] settled(cost, d4, a4, i, n) by {
            if i <= m {
                lemma_keep_left_row(cost, n, d3, a3, d4, a4, i, m, r);
            }
        }
        assert forall|i: int| l < i <= r implies #[trigger] bounded_at(d4, i, n) by {
            if i <= m {
                lemma_keep_left_row(cost, n, d3, a3, d4, a4, i, m, r);
            }
        }
    }
}

/// A row `i` of the left half, settled before the right half is searched, stays settled.
proof fn lemma_keep_left_row<F: Fn(usize, usize) -> u64>(
    cost: F,
    n: int,
    d3: Seq<u64>,
    a3: Seq<usize>,
    d4: Seq<u64>,
    a4: Seq<usize>,
    i: int,
    m: int,
    r: int,
)
    requires
        1 <= i <= m < r < n,
        forall|k: int| 0 <= k < n && !(m < k <= r) ==> #[trigger] d4[k] == d3[k] && a4[k] == a3[k],
        forall|k: int| 1 <= k <= m ==> #[trigger] settled(cost, d3, a3, k, n),
        forall|k: int| 0 <= k <= m ==> #[trigger] bounded_at(d3, k, n),
    ensures
        settled(cost, d4, a4, i, n),
        bounded_at(d4, i, n),
{
    assert(settled(cost, d3, a3, i, n));
    assert(bounded_at(d3, i, n));
    assert forall|k: int| 0 <= k <= i implies #[trigger] d4[k] == d3[k] by {
        assert(d4[k] == d3[k] && a4[k] == a3[k]);
    }
    assert(d4[i] == d3[i] && a4[i] == a3[i]);
    lemma_settled_frame(cost, d3, a3, d4, a4, i, n);
}

#[verifier::rlimit(100)]
#[verifier::spinoff_prover]
fn dfs<F>(l: usize, r: usize, cost: &F, dist: &mut Vec<u64>, argmins: &mut Vec<usize>, Ghost(n): Ghost<int>)
    where
        F: Fn(usize, usize) -> u64,
    requires
        l < r < n,
        n <= usize::MAX,
        cost_ok(*cost, n, n),
        costs_bounded(*cost, n),
        dist_ok(old(dist)@, old(argmins)@, n),
        forall|i: int| 1 <= i <= l ==> #[trigger] sound_at(*cost, old(dist)@, old(argmins)@, i),
        sound_at(*cost, old(dist)@, old(argmins)@, r as int),
        old(dist)@[r as int] < spec_inf() ==> old(argmins)@[r as int] <= l,
        forall|i: int| l < i < r ==> #[trigger] old(dist)@[i] == spec_inf(),
        monge_small(*cost, n) ==> old(argmins)@[0] == 0,
        monge_small(*cost, n) ==> forall|i: int| 1 <= i <= l ==> #[trigger] settled(*cost, old(dist)@, old(argmins)@, i, n),
        monge_small(*cost, n) ==> forall|i: int| 0 <= i <= l ==> #[trigger] bounded_at(old(dist)@, i, n),
        monge_small(*cost, n) ==> end_row(
            *cost,
            old(dist)@,
            old(dist)@[r as int] as int,
            old(argmins)@[r as int] as int,
            r as int,
            end_lo(r as int, n),
            l as int,
        ),
    ensures
        dist_ok(final(dist)@, final(argmins)@, n),
        forall|i: int| 0 <= i < n && !(l < i <= r) ==> #[trigger] final(dist)@[i] == old(dist)@[i] && final(argmins)@[i]
            == old(argmins)@[i],
        forall|i: int| 1 <= i <= r ==> #[trigger] sound_at(*cost, final(dist)@, final(argmins)@, i),
        forall|i: int| l < i <= r ==> #[trigger] chained(*cost, final(dist)@, i),
        monge_small(*cost, n) ==> forall|i: int| l < i <= r ==> #[trigger] settled(*cost, final(dist)@, final(argmins)@, i, n),
        monge_small(*cost, n) ==> forall|i: int| l < i <= r ==> #[trigger] bounded_at(final(dist)@, i, n),
    decreases r - l,
{
    let ghost d0 = dist@;
    let ghost a0 = argmins@;
    let ghost good = monge_small(*cost, n);
    if r == l + 1 {
        update_unchecked(r, l, cost, dist, argmins, Ghost(n));
        proof {
            assert forall|i: int| 1 <= i <= r implies #[trigger] sound_at(*cost, dist@, argmins@, i) by {
                if i < r {
                    assert(sound_at(*cost, d0, a0, i));
                    if d0[i] != spec_inf() {
                        assert(dist@[a0[i] as int] == d0[a0[i] as int]);
                    }
                } else if dist@[i] != spec_inf() && argmins@[i] == a0[i] {
                    assert(dist@[a0[i] as int] == d0[a0[i] as int]);
                }
            }
            if good {
                lemma_base(*cost, n, d0, a0, dist@, argmins@, l as int, r as int);
            }
        }
        return;
    }
    if r <= l + 1 {
        return;
    }
    let m = l + (r - l) / 2;
    let left = argmins[l];
    let right = argmins[r];
    proof {
        if good {
            if l >= 1 {
                assert(settled(*cost, d0, a0, l as int, n));
            }
            lemma_range_ordered(*cost, n, d0, a0, l as int, r as int);
        }
    }
    relax_middle(l, m, r, left, right, cost, dist, argmins, Ghost(n));
    let ghost d1 = dist@;
    let ghost a1 = argmins@;
    proof {
        assert forall|i: int| 1 <= i <= l implies #[trigger] sound_at(*cost, d1, a1, i) by {
            assert(sound_at(*cost, d0, a0, i));
            if d0[i] != spec_inf() {
                assert(d1[a0[i] as int] == d0[a0[i] as int]);
            }
        }
        if good {
            lemma_middle_row(*cost, n, d0, a0, d1, a1, l as int, m as int, r as int);
        }
    }
    dfs(l, m, cost, dist, argmins, Ghost(n));
    let ghost d2 = dist@;
    let ghost a2 = argmins@;
    proof {
        // row `r` is still as it was, and so is what it leans on
        assert(d2[r as int] == d1[r as int]);
        assert(a2[r as int] == a1[r as int]);
        assert(d1[r as int] == d0[r as int]);
        assert(a1[r as int] == a0[r as int]);
        if d0[r as int] != spec_inf() {
            assert(d2[a0[r as int] as int] == d0[a0[r as int] as int]);
        }
        if good {
            assert forall|j: int| end_lo(r as int, n) <= j <= l implies #[trigger] d0[j] == d2[j] by {
                assert(d2[j] == d1[j]);
            }
            lemma_end_row_frame(*cost, d0, d2, d2[r as int] as int, a2[r as int] as int, r as int, end_lo(r as int, n), l as int);
        }
    }
    relax_right(l, m, r, cost, dist, argmins, Ghost(n));
    let ghost d3 = dist@;
    let ghost a3 = argmins@;
    proof {
        assert forall|i: int| 1 <= i <= m implies #[trigger] sound_at(*cost, d3, a3, i) by {
            assert(sound_at(*cost, d2, a2, i));
            if d2[i] != spec_inf() {
                assert(d3[a2[i] as int] == d2[a2[i] as int]);
            }
        }
        assert forall|i: int| m < i < r implies #[trigger] d3[i] == spec_inf() by {
            assert(d2[i] == d1[i]);
            assert(d1[i] == d0[i]);
        }
        if good {
            lemma_before_right_half(*cost, n, d0, a0, d1, a1, d2, a2, d3, a3, l as int, m as int, r as int);
        }
    }
    dfs(m, r, cost, dist, argmins, Ghost(n));
    proof {
        lemma_combine(*cost, n, d0, a0, d1, a1, d2, a2, d3, a3, dist@, argmins@, l as int, m as int, r as int);
    }
}

} // verus!
