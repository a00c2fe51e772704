use vstd::prelude::*;
use vstd::arithmetic::power2::{pow2, lemma2_to64, lemma_pow2_unfold, lemma_pow2_pos, lemma_pow2_strictly_increases};
use vstd::bits::{lemma_usize_shl_is_mul, lemma_usize_pow2_no_overflow, lemma_usize_shr_is_div};
use std::ops::Range;

use crate::rmq::{StaticRmq, is_leftmost_min, rmq_answer, rmq_len_ok, better, lemma_leftmost_min_concat,
    lemma_leftmost_min_single, lemma_leftmost_min_overlap};
use crate::rmq::util::{better_index, better_index_ordered, floor_log2_nonzero};
use crate::rmq::segment_tree::copy_values;

verus! {

/// Start of row `k` in the flattened table: rows have `n + 1 - 2^j` entries.
pub open spec fn row_offset(n: int, k: nat) -> int
    decreases k,
{
    if k == 0 {
        0
    } else {
        row_offset(n, (k - 1) as nat) + n + 1 - pow2((k - 1) as nat)
    }
}

/// Entry `i` of row `k` holds the leftmost minimum of `[i, i + 2^k)`.
pub open spec fn sparse_entry_ok(s: Seq<i64>, k: nat, i: int, t: int) -> bool {
    is_leftmost_min(s, i, i + pow2(k), t)
}

/// The flattened table `t` holds correct rows `0..levels`.
pub open spec fn sparse_rows_ok(s: Seq<i64>, levels: nat, t: Seq<int>) -> bool {
    let n = s.len() as int;
    forall|k: nat, i: int|
        k < levels && 0 <= i < n + 1 - pow2(k) ==> #[trigger] sparse_entry_ok(s, k, i, t[row_offset(n, k) + i])
}

#[derive(Clone, Debug)]
enum SparseTable {
    U32(Vec<u32>),
    Usize(Vec<usize>),
}

impl SparseTable {
    spec fn entries(&self) -> Seq<int> {
        match self {
            SparseTable::U32(t) => t@.map_values(|x: u32| x as int),
            SparseTable::Usize(t) => t@.map_values(|x: usize| x as int),
        }
    }
}

#[derive(Clone, Debug)]
pub struct SparseTableRmq {
    values: Vec<i64>,
    row_offsets: Vec<usize>,
    table: SparseTable,
}

proof fn lemma_row_offset_bounds(n: int, k: nat)
    requires
        n >= 1,
        pow2(k) <= 2 * n,
    ensures
        0 <= row_offset(n, k) <= k * n,
        forall|j: nat| j <= k ==> #[trigger] row_offset(n, j) <= row_offset(n, k),
    decreases k,
{
    if k > 0 {
        let k1 = (k - 1) as nat;
        lemma_pow2_unfold(k);
        lemma_row_offset_bounds(n, k1);
        lemma_pow2_pos(k1);
        assert(pow2(k1) <= n);
        assert(k1 * n + n == k * n) by (nonlinear_arith)
            requires k1 + 1 == k;
    }
}

/// Facts about a table with `levels` rows over `n` values.
pub(crate) proof fn lemma_levels(n: int, levels: nat)
    requires
        n >= 1,
        levels >= 1,
        pow2((levels - 1) as nat) <= n < pow2(levels),
        n <= usize::MAX / 64,
    ensures
        pow2(levels) <= 2 * n,
        levels <= 58,
        forall|k: nat| k < levels ==> #[trigger] pow2(k) <= n,
        row_offset(n, 0) == 0,
        row_offset(n, 1) == n,
        forall|j: nat, k: nat| j <= k <= levels ==> #[trigger] row_offset(n, j) <= #[trigger] row_offset(n, k),
        0 <= row_offset(n, levels) <= 64 * n,
        64 * n <= usize::MAX,
{
    lemma2_to64();
    lemma_pow2_unfold(levels);
    if levels > 58 {
        if levels - 1 > 58 {
            lemma_pow2_strictly_increases(58, (levels - 1) as nat);
        }
        vstd::arithmetic::power2::lemma2_to64_rest();
        assert(pow2(58) == 0x400000000000000);
        assert(false);
    }
    assert forall|k: nat| k < levels implies #[trigger] pow2(k) <= n by {
        if k < levels - 1 {
            lemma_pow2_strictly_increases(k, (levels - 1) as nat);
        }
    }
    assert forall|j: nat, k: nat| j <= k <= levels implies #[trigger] row_offset(n, j) <= #[trigger] row_offset(n, k) by {
        lemma_row_offset_bounds(n, levels);
        if k < levels {
            lemma_pow2_strictly_increases(k, levels);
        }
        lemma_row_offset_bounds(n, k);
    }
    lemma_row_offset_bounds(n, levels);
    assert(levels * n <= 64 * n) by (nonlinear_arith)
        requires levels <= 64, n >= 1;
}

impl SparseTableRmq {
    pub closed spec fn spec_values(&self) -> Seq<i64> {
        self.values@
    }

    pub closed spec fn inv(&self) -> bool {
        let n = self.values@.len() as int;
        let levels = self.row_offsets@.len();
        &&& rmq_len_ok(n as nat)
        &&& n > 0 ==> {
            &&& levels >= 1
            &&& pow2((levels - 1) as nat) <= n < pow2(levels)
            &&& levels <= 64
            &&& forall|k: int| 0 <= k < levels ==> #[trigger] self.row_offsets@[k] == row_offset(n, k as nat)
            &&& self.table.entries().len() == row_offset(n, levels)
            &&& sparse_rows_ok(self.values@, levels, self.table.entries())
            &&& (self.table is U32 ==> n <= u32::MAX)
        }
    }

    /// Number of values.
    pub fn len(&self) -> (r: usize)
        ensures
            r == self.spec_values().len(),
    {
        self.values.len()
    }

    /// Whether there are no values.
    pub fn is_empty(&self) -> (r: bool)
        ensures
            r == (self.spec_values().len() == 0),
    {
        self.values.len() == 0
    }
}

/// A power of two that fits in `usize` has an exponent below `usize::BITS`.
pub(crate) proof fn lemma_exp_below_bits(k: nat)
    requires
        pow2(k) <= usize::MAX,
    ensures
        k < usize::BITS,
{
    lemma2_to64();
    if k >= usize::BITS {
        if k > usize::BITS {
            lemma_pow2_strictly_increases(usize::BITS as nat, k);
        }
        assert(usize::BITS == 32 || usize::BITS == 64);
    }
}

pub(crate) proof fn lemma_span(k: u32)
    requires
        k < 64,
        pow2(k as nat) <= usize::MAX,
    ensures
        (1usize << k as usize) == pow2(k as nat),
        pow2(k as nat) < usize::MAX,
        k < usize::BITS,
{
    lemma_exp_below_bits(k as nat);
    lemma_usize_pow2_no_overflow(k as nat);
    lemma_usize_shl_is_mul(1, k as usize);
}

/// Fill the table row by row; entries are `u32` indices.
fn build_rows_u32(values: &Vec<i64>, row_offsets: &Vec<usize>, levels: usize, total_len: usize) -> (table: Vec<u32>)
    requires
        values@.len() >= 1,
        values@.len() <= u32::MAX,
        rmq_len_ok(values@.len()),
        levels == row_offsets@.len(),
        1 <= levels <= 64,
        pow2((levels - 1) as nat) <= values@.len() < pow2(levels as nat),
        forall|k: int| 0 <= k < levels ==> #[trigger] row_offsets@[k] == row_offset(values@.len() as int, k as nat),
        total_len == row_offset(values@.len() as int, levels as nat),
    ensures
        table@.len() == total_len,
        sparse_rows_ok(values@, levels as nat, table@.map_values(|x: u32| x as int)),
{
    let n = values.len();
    let ghost s = values@;
    let mut table: Vec<u32> = Vec::with_capacity(total_len);
    let mut i: usize = 0;
    proof {
        lemma2_to64();
        lemma_levels(n as int, levels as nat);
    }
    while i < n
        invariant
            i <= n,
            n == s.len(),
            n <= u32::MAX,
            table@.len() == i,
            forall|j: int| 0 <= j < i ==> #[trigger] table@[j] == j,
        decreases n - i,
    {
        table.push(i as u32);
        i += 1;
    }
    proof {
        lemma_levels(n as int, levels as nat);
        assert(row_offset(n as int, 1) == n);
        let tv = table@.map_values(|x: u32| x as int);
        assert forall|kk: nat, j: int| kk < 1 && 0 <= j < n + 1 - pow2(kk) implies #[trigger] sparse_entry_ok(s, kk, j, tv[row_offset(n as int, kk) + j]) by {
            lemma_leftmost_min_single(s, j);
        }
    }
    let mut k: usize = 1;
    while k < levels
        invariant
            1 <= k <= levels,
            n == s.len(),
            s == values@,
            n <= u32::MAX,
            rmq_len_ok(n as nat),
            levels == row_offsets@.len(),
            levels <= 64,
            pow2((levels - 1) as nat) <= n < pow2(levels as nat),
            forall|kk: int| 0 <= kk < levels ==> #[trigger] row_offsets@[kk] == row_offset(n as int, kk as nat),
            total_len == row_offset(n as int, levels as nat),
            table@.len() == row_offset(n as int, k as nat),
            n >= 1,
            sparse_rows_ok(s, k as nat, table@.map_values(|x: u32| x as int)),
        decreases levels - k,
    {
        proof {
            lemma_levels(n as int, levels as nat);
            assert(pow2(k as nat) <= n);
            assert(pow2((k - 1) as nat) <= n);
            lemma_span(k as u32);
            lemma_span((k - 1) as u32);
            lemma_pow2_unfold(k as nat);
        }
        let span = 1usize << k;
        let half = span >> 1;
        assert(half == pow2((k - 1) as nat)) by {
            lemma_usize_shr_is_div(span, 1);
            lemma2_to64();
        }
        assert(span <= n) by {
            if k < levels - 1 {
                lemma_pow2_strictly_increases(k as nat, (levels - 1) as nat);
            }
        }
        let len = n + 1 - span;
        proof {
            lemma_levels(n as int, levels as nat);
            assert(row_offset(n as int, (k + 1) as nat) == row_offset(n as int, k as nat) + n + 1 - pow2(k as nat));
            assert(row_offset(n as int, (k + 1) as nat) <= row_offset(n as int, levels as nat));
        }
        let base = row_offsets[k];
        let prev_base = row_offsets[k - 1];
        let ghost prev = table@.map_values(|x: u32| x as int);
        let mut i: usize = 0;
        while i < len
            invariant
                i <= len,
                len == n + 1 - span,
                span == pow2(k as nat),
                half == pow2((k - 1) as nat),
                span == 2 * half,
                1 <= k < levels,
                n == s.len(),
                s == values@,
                n <= u32::MAX,
                base == row_offset(n as int, k as nat),
                prev_base == row_offset(n as int, (k - 1) as nat),
                base == prev_base + n + 1 - half,
                table@.len() == base + i,
                base + len <= total_len,
                total_len == row_offset(n as int, levels as nat),
                rmq_len_ok(n as nat),
                n >= 1,
                levels <= 64,
                pow2((levels - 1) as nat) <= n < pow2(levels as nat),
                sparse_rows_ok(s, k as nat, table@.map_values(|x: u32| x as int)),
                forall|j: int| 0 <= j < i ==> #[trigger] sparse_entry_ok(s, k as nat, j, table@[base + j] as int),
            decreases len - i,
        {
            let a = table[prev_base + i] as usize;
            let b = table[prev_base + i + half] as usize;
            proof {
                let tv = table@.map_values(|x: u32| x as int);
                let k1 = (k - 1) as nat;
                assert(k1 < k);
                assert(0 <= i + half < n + 1 - pow2(k1));
                assert(row_offset(n as int, k1) + i == prev_base + i);
                assert(sparse_entry_ok(s, k1, i as int, tv[row_offset(n as int, k1) + i]));
                assert(sparse_entry_ok(s, k1, i + half, tv[row_offset(n as int, k1) + (i + half)]));
                assert(tv[prev_base + i] == a);
                assert(tv[prev_base + i + half] == b);
                lemma_leftmost_min_concat(s, i as int, i + half, i + span, a as int, b as int);
            }
            let best = better_index_ordered(values.as_slice(), a, b);
            let ghost old_table = table@;
            table.push(best as u32);
            proof {
                let tv = table@.map_values(|x: u32| x as int);
                let ov = old_table.map_values(|x: u32| x as int);
                assert forall|kk: nat, j: int| kk < k && 0 <= j < n + 1 - pow2(kk) implies #[trigger] sparse_entry_ok(s, kk, j, tv[row_offset(n as int, kk) + j]) by {
                    lemma_levels(n as int, levels as nat);
                    assert(row_offset(n as int, kk + 1) <= row_offset(n as int, k as nat));
                    assert(row_offset(n as int, kk + 1) == row_offset(n as int, kk) + n + 1 - pow2(kk));
                    assert(tv[row_offset(n as int, kk) + j] == ov[row_offset(n as int, kk) + j]);
                    assert(sparse_entry_ok(s, kk, j, ov[row_offset(n as int, kk) + j]));
                }
                assert forall|j: int| 0 <= j < i + 1 implies #[trigger] sparse_entry_ok(s, k as nat, j, table@[base + j] as int) by {
                    if j < i {
                        assert(table@[base + j] == old_table[base + j]);
                    }
                }
            }
            i += 1;
        }
        proof {
            let tv = table@.map_values(|x: u32| x as int);
            lemma_pow2_unfold(k as nat + 1);
            assert(row_offset(n as int, (k + 1) as nat) == base + len);
            assert forall|kk: nat, j: int| kk < k + 1 && 0 <= j < n + 1 - pow2(kk) implies #[trigger] sparse_entry_ok(s, kk, j, tv[row_offset(n as int, kk) + j]) by {
                if kk == k {
                    assert(sparse_entry_ok(s, k as nat, j, table@[base + j] as int));
                }
            }
        }
        k += 1;
    }
    table
}

/// Fill the table row by row; entries are `usize` indices.
fn build_rows_usize(values: &Vec<i64>, row_offsets: &Vec<usize>, levels: usize, total_len: usize) -> (table: Vec<usize>)
    requires
        values@.len() >= 1,
        rmq_len_ok(values@.len()),
        levels == row_offsets@.len(),
        1 <= levels <= 64,
        pow2((levels - 1) as nat) <= values@.len() < pow2(levels as nat),
        forall|k: int| 0 <= k < levels ==> #[trigger] row_offsets@[k] == row_offset(values@.len() as int, k as nat),
        total_len == row_offset(values@.len() as int, levels as nat),
    ensures
        table@.len() == total_len,
        sparse_rows_ok(values@, levels as nat, table@.map_values(|x: usize| x as int)),
{
    let n = values.len();
    let ghost s = values@;
    let mut table: Vec<usize> = Vec::with_capacity(total_len);
    let mut i: usize = 0;
    proof {
        lemma2_to64();
        lemma_levels(n as int, levels as nat);
    }
    while i < n
        invariant
            i <= n,
            n == s.len(),
            table@.len() == i,
            forall|j: int| 0 <= j < i ==> #[trigger] table@[j] == j,
        decreases n - i,
    {
        table.push(i);
        i += 1;
    }
    proof {
        lemma_levels(n as int, levels as nat);
        assert(row_offset(n as int, 1) == n);
        let tv = table@.map_values(|x: usize| x as int);
        assert forall|kk: nat, j: int| kk < 1 && 0 <= j < n + 1 - pow2(kk) implies #[trigger] sparse_entry_ok(s, kk, j, tv[row_offset(n as int, kk) + j]) by {
            lemma_leftmost_min_single(s, j);
        }
    }
    let mut k: usize = 1;
    while k < levels
        invariant
            1 <= k <= levels,
            n == s.len(),
            s == values@,
            rmq_len_ok(n as nat),
            levels == row_offsets@.len(),
            levels <= 64,
            pow2((levels - 1) as nat) <= n < pow2(levels as nat),
            forall|kk: int| 0 <= kk < levels ==> #[trigger] row_offsets@[kk] == row_offset(n as int, kk as nat),
            total_len == row_offset(n as int, levels as nat),
            table@.len() == row_offset(n as int, k as nat),
            n >= 1,
            sparse_rows_ok(s, k as nat, table@.map_values(|x: usize| x as int)),
        decreases levels - k,
    {
        proof {
            lemma_levels(n as int, levels as nat);
            assert(pow2(k as nat) <= n);
            assert(pow2((k - 1) as nat) <= n);
            lemma_span(k as u32);
            lemma_span((k - 1) as u32);
            lemma_pow2_unfold(k as nat);
        }
        let span = 1usize << k;
        let half = span >> 1;
        assert(half == pow2((k - 1) as nat)) by {
            lemma_usize_shr_is_div(span, 1);
            lemma2_to64();
        }
        assert(span <= n) by {
            if k < levels - 1 {
                lemma_pow2_strictly_increases(k as nat, (levels - 1) as nat);
            }
        }
        let len = n + 1 - span;
        proof {
            lemma_levels(n as int, levels as nat);
            assert(row_offset(n as int, (k + 1) as nat) == row_offset(n as int, k as nat) + n + 1 - pow2(k as nat));
            assert(row_offset(n as int, (k + 1) as nat) <= row_offset(n as int, levels as nat));
        }
        let base = row_offsets[k];
        let prev_base = row_offsets[k - 1];
        let mut i: usize = 0;
        while i < len
            invariant
                i <= len,
                len == n + 1 - span,
                span == pow2(k as nat),
                half == pow2((k - 1) as nat),
                span == 2 * half,
                1 <= k < levels,
                n == s.len(),
                s == values@,
                base == row_offset(n as int, k as nat),
                prev_base == row_offset(n as int, (k - 1) as nat),
                base == prev_base + n + 1 - half,
                table@.len() == base + i,
                base + len <= total_len,
                total_len == row_offset(n as int, levels as nat),
                rmq_len_ok(n as nat),
                n >= 1,
                levels <= 64,
                pow2((levels - 1) as nat) <= n < pow2(levels as nat),
                sparse_rows_ok(s, k as nat, table@.map_values(|x: usize| x as int)),
                forall|j: int| 0 <= j < i ==> #[trigger] sparse_entry_ok(s, k as nat, j, table@[base + j] as int),
            decreases len - i,
        {
            let a = table[prev_base + i];
            let b = table[prev_base + i + half];
            proof {
                let tv = table@.map_values(|x: usize| x as int);
                let k1 = (k - 1) as nat;
                assert(k1 < k);
                assert(0 <= i + half < n + 1 - pow2(k1));
                assert(row_offset(n as int, k1) + i == prev_base + i);
                assert(sparse_entry_ok(s, k1, i as int, tv[row_offset(n as int, k1) + i]));
                assert(sparse_entry_ok(s, k1, i + half, tv[row_offset(n as int, k1) + (i + half)]));
                assert(tv[prev_base + i] == a);
                assert(tv[prev_base + i + half] == b);
                lemma_leftmost_min_concat(s, i as int, i + half, i + span, a as int, b as int);
            }
            let best = better_index_ordered(values.as_slice(), a, b);
            let ghost old_table = table@;
            table.push(best);
            proof {
                let tv = table@.map_values(|x: usize| x as int);
                let ov = old_table.map_values(|x: usize| x as int);
                assert forall|kk: nat, j: int| kk < k && 0 <= j < n + 1 - pow2(kk) implies #[trigger] sparse_entry_ok(s, kk, j, tv[row_offset(n as int, kk) + j]) by {
                    lemma_levels(n as int, levels as nat);
                    assert(row_offset(n as int, kk + 1) <= row_offset(n as int, k as nat));
                    assert(row_offset(n as int, kk + 1) == row_offset(n as int, kk) + n + 1 - pow2(kk));
                    assert(tv[row_offset(n as int, kk) + j] == ov[row_offset(n as int, kk) + j]);
                    assert(sparse_entry_ok(s, kk, j, ov[row_offset(n as int, kk) + j]));
                }
                assert forall|j: int| 0 <= j < i + 1 implies #[trigger] sparse_entry_ok(s, k as nat, j, table@[base + j] as int) by {
                    if j < i {
                        assert(table@[base + j] == old_table[base + j]);
                    }
                }
            }
            i += 1;
        }
        proof {
            let tv = table@.map_values(|x: usize| x as int);
            lemma_pow2_unfold(k as nat + 1);
            assert(row_offset(n as int, (k + 1) as nat) == base + len);
            assert forall|kk: nat, j: int| kk < k + 1 && 0 <= j < n + 1 - pow2(kk) implies #[trigger] sparse_entry_ok(s, kk, j, tv[row_offset(n as int, kk) + j]) by {
                if kk == k {
                    assert(sparse_entry_ok(s, k as nat, j, table@[base + j] as int));
                }
            }
        }
        k += 1;
    }
    table
}

impl StaticRmq for SparseTableRmq {
    open spec fn values(&self) -> Seq<i64> {
        self.spec_values()
    }

    open spec fn wf(&self) -> bool {
        self.inv()
    }

    fn new(values: &[i64]) -> (res: Self) {
        let n = values.len();
        let values = copy_values(values);
        if n == 0 {
            return Self { values, row_offsets: Vec::new(), table: SparseTable::U32(Vec::new()) };
        }
        let lg = floor_log2_nonzero(n);
        let levels = (lg as usize) + 1;
        proof {
            lemma2_to64();
            lemma_pow2_unfold(lg as nat + 1);
            lemma_levels(n as int, levels as nat);
        }
        let mut total_len: usize = 0;
        let mut k: usize = 0;
        while k < levels
            invariant
                k <= levels,
                levels == lg + 1,
                levels <= 58,
                pow2(lg as nat) <= n < pow2(levels as nat),
                rmq_len_ok(n as nat),
                n >= 1,
                total_len == row_offset(n as int, k as nat),
            decreases levels - k,
        {
            proof {
                lemma_levels(n as int, levels as nat);
                assert(pow2(k as nat) <= n);
                lemma_span(k as u32);
                assert(row_offset(n as int, (k + 1) as nat) <= row_offset(n as int, levels as nat));
            }
            total_len += n + 1 - (1usize << k);
            k += 1;
        }
        let mut row_offsets: Vec<usize> = Vec::with_capacity(levels);
        let mut offset: usize = 0;
        let mut k: usize = 0;
        while k < levels
            invariant
                k <= levels,
                levels == lg + 1,
                levels <= 58,
                pow2(lg as nat) <= n < pow2(levels as nat),
                rmq_len_ok(n as nat),
                n >= 1,
                total_len == row_offset(n as int, levels as nat),
                offset == row_offset(n as int, k as nat),
                row_offsets@.len() == k,
                forall|j: int| 0 <= j < k ==> #[trigger] row_offsets@[j] == row_offset(n as int, j as nat),
            decreases levels - k,
        {
            proof {
                lemma_levels(n as int, levels as nat);
                assert(pow2(k as nat) <= n);
                lemma_span(k as u32);
                assert(row_offset(n as int, (k + 1) as nat) <= row_offset(n as int, levels as nat));
            }
            row_offsets.push(offset);
            offset += n + 1 - (1usize << k);
            k += 1;
        }
        let table = if n <= u32::MAX as usize {
            SparseTable::U32(build_rows_u32(&values, &row_offsets, levels, total_len))
        } else {
            SparseTable::Usize(build_rows_usize(&values, &row_offsets, levels, total_len))
        };
        Self { values, row_offsets, table }
    }

    fn argmin(&self, range: Range<usize>) -> (res: Option<usize>) {
        let n = self.values.len();
        if range.start >= range.end || range.end > n {
            return None;
        }
        let len = range.end - range.start;
        if len == 1 {
            proof {
                lemma_leftmost_min_single(self.values@, range.start as int);
            }
            return Some(range.start);
        }
        let k = floor_log2_nonzero(len) as usize;
        let ghost levels = self.row_offsets@.len();
        proof {
            lemma_levels(n as int, levels as nat);
            if k >= levels {
                if k > levels {
                    lemma_pow2_strictly_increases(levels as nat, k as nat);
                }
                assert(false);
            }
            assert(pow2(k as nat) <= n);
            lemma_span(k as u32);
            lemma_pow2_unfold(k as nat + 1);
        }
        let span = 1usize << k;
        let base = self.row_offsets[k];
        let ghost s = self.values@;
        proof {
            let e = self.table.entries();
            assert(row_offset(n as int, (k + 1) as nat) == row_offset(n as int, k as nat) + n + 1 - pow2(k as nat));
            assert(row_offset(n as int, (k + 1) as nat) <= row_offset(n as int, levels as nat));
            assert(sparse_entry_ok(s, k as nat, range.start as int, e[row_offset(n as int, k as nat) + range.start]));
            assert(sparse_entry_ok(s, k as nat, range.end - span, e[row_offset(n as int, k as nat) + (range.end - span)]));
            lemma_leftmost_min_overlap(s, range.start as int, range.end - span, range.start + span, range.end as int,
                e[base + range.start], e[base + range.end - span]);
        }
        match &self.table {
            SparseTable::U32(table) => {
                let a = table[base + range.start] as usize;
                let b = table[base + (range.end - span)] as usize;
                Some(better_index(self.values.as_slice(), a, b))
            }
            SparseTable::Usize(table) => {
                let a = table[base + range.start];
                let b = table[base + (range.end - span)];
                Some(better_index(self.values.as_slice(), a, b))
            }
        }
    }
}

} // verus!
