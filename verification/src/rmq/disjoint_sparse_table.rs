use vstd::prelude::*;
use vstd::arithmetic::power2::{pow2, lemma2_to64, lemma_pow2_unfold, lemma_pow2_pos, lemma_pow2_strictly_increases, lemma_pow2_adds};
use vstd::arithmetic::div_mod::{lemma_fundamental_div_mod, lemma_fundamental_div_mod_converse};
use vstd::bits::{lemma_usize_shl_is_mul, lemma_usize_pow2_no_overflow, lemma_usize_shr_is_div};
use std::ops::Range;

use crate::rmq::{StaticRmq, is_leftmost_min, rmq_answer, rmq_len_ok, lemma_leftmost_min_concat,
    lemma_leftmost_min_single};
use crate::rmq::util::{better_index_ordered, floor_log2_nonzero};
use crate::rmq::segment_tree::copy_values;

verus! {

/// The block of level `lv` containing `i` starts at a multiple of `2^(lv+1)`;
/// its first half ends at `mid`.  Entry `i` holds the leftmost minimum of
/// `[i, mid)` when `i` is in the first half, else of `[mid, i + 1)`.
pub open spec fn dst_mid(n: int, lv: nat, i: int) -> int {
    let seg = pow2(lv + 1) as int;
    let bs = (i / seg) * seg;
    let m = bs + pow2(lv);
    if m <= n { m } else { n }
}

pub open spec fn dst_entry_ok(s: Seq<i64>, lv: nat, i: int, t: int) -> bool {
    let m = dst_mid(s.len() as int, lv, i);
    if i < m {
        is_leftmost_min(s, i, m, t)
    } else {
        is_leftmost_min(s, m, i + 1, t)
    }
}

pub open spec fn dst_levels_ok(s: Seq<i64>, levels: nat, t: Seq<int>) -> bool {
    let n = s.len() as int;
    forall|lv: nat, i: int| lv < levels && 0 <= i < n ==> #[trigger] dst_entry_ok(s, lv, i, t[lv * n + i])
}

#[derive(Clone, Debug)]
enum DstTable {
    U16(Vec<u16>),
    U32(Vec<u32>),
    Usize(Vec<usize>),
}

impl DstTable {
    spec fn entries(&self) -> Seq<int> {
        match self {
            DstTable::U16(t) => t@.map_values(|x: u16| x as int),
            DstTable::U32(t) => t@.map_values(|x: u32| x as int),
            DstTable::Usize(t) => t@.map_values(|x: usize| x as int),
        }
    }
}

#[derive(Clone, Debug)]
pub struct DisjointSparseTableRmq {
    values: Vec<i64>,
    n: usize,
    levels: usize,
    table: DstTable,
}

impl DisjointSparseTableRmq {
    pub closed spec fn spec_values(&self) -> Seq<i64> {
        self.values@
    }

    pub closed spec fn inv(&self) -> bool {
        let n = self.n as int;
        &&& self.values@.len() == n
        &&& rmq_len_ok(n as nat)
        &&& n >= 2 ==> {
            &&& 1 <= self.levels <= 64
            &&& pow2((self.levels - 1) as nat) <= n - 1 < pow2(self.levels as nat)
            &&& self.table.entries().len() == self.levels * n
            &&& dst_levels_ok(self.values@, self.levels as nat, self.table.entries())
            &&& (self.table is U16 ==> n <= 0x10000)
            &&& (self.table is U32 ==> n <= u32::MAX)
        }
    }

    /// Number of values.
    pub fn len(&self) -> (r: usize)
        requires
            self.inv(),
        ensures
            r == self.spec_values().len(),
    {
        self.n
    }

    /// Whether there are no values.
    pub fn is_empty(&self) -> (r: bool)
        requires
            self.inv(),
        ensures
            r == (self.spec_values().len() == 0),
    {
        self.n == 0
    }
}

proof fn lemma_pow_fits(k: nat, n: int)
    requires
        pow2(k) <= n,
        n <= usize::MAX,
    ensures
        k < usize::BITS,
        k < 64,
        (1usize << k as usize) == pow2(k),
{
    lemma2_to64();
    if k >= usize::BITS {
        if k > usize::BITS {
            lemma_pow2_strictly_increases(usize::BITS as nat, k);
        }
        assert(false);
    }
    lemma_usize_pow2_no_overflow(k);
    lemma_usize_shl_is_mul(1, k as usize);
}

/// Position `i` inside block `q` of width `seg` has quotient `q`.
proof fn lemma_in_block(i: int, q: int, seg: int)
    requires
        seg > 0,
        q >= 0,
        q * seg <= i < q * seg + seg,
    ensures
        i / seg == q,
{
    lemma_fundamental_div_mod_converse(i, seg, q, i - q * seg);
}

/// Highest differing bit of `l < r` splits them across the middle of one block.
proof fn lemma_xor_split(l: usize, r: usize, lv: u32)
    requires
        l < r,
        lv < 64,
        lv < usize::BITS,
        pow2(lv as nat) <= (l ^ r) < pow2(lv as nat + 1),
    ensures
        l as int / pow2(lv as nat + 1) as int == r as int / pow2(lv as nat + 1) as int,
        l < (l as int / pow2(lv as nat + 1) as int) * pow2(lv as nat + 1) + pow2(lv as nat) <= r,
{
    let x = l ^ r;
    let k = lv as usize;
    lemma_usize_shr_is_div(x, k);
    lemma_pow2_pos(lv as nat);
    lemma_pow2_unfold(lv as nat + 1);
    let w = pow2(lv as nat);
    // x >> lv == 1
    assert(x as nat / w == 1) by {
        lemma_fundamental_div_mod(x as int, w as int);
        assert(x as nat / w >= 1) by (nonlinear_arith)
            requires x >= w, w > 0, x == w * (x as nat / w) + x as nat % w, x as nat % w < w;
        assert(x as nat / w < 2) by (nonlinear_arith)
            requires x < 2 * w, w > 0, x == w * (x as nat / w) + x as nat % w, x as nat % w >= 0;
    }
    assert(x >> k == 1usize);
    assert((l ^ r) >> k == 1usize && l < r && k < usize::BITS ==>
        ((l >> k) & 1usize) == 0usize && ((r >> k) & 1usize) == 1usize
        && (l >> k) >> 1usize == (r >> k) >> 1usize) by (bit_vector);
    let yl = l >> k;
    let yr = r >> k;
    assert(yl >> 1usize == yl / 2 && (yl & 1usize) == yl % 2) by (bit_vector);
    assert(yr >> 1usize == yr / 2 && (yr & 1usize) == yr % 2) by (bit_vector);
    lemma_usize_shr_is_div(l, k);
    lemma_usize_shr_is_div(r, k);
    let q = yl / 2;
    assert(yl == 2 * q);
    assert(yr == 2 * q + 1);
    // l = yl * w + (l % w), r = yr * w + (r % w)
    lemma_fundamental_div_mod(l as int, w as int);
    lemma_fundamental_div_mod(r as int, w as int);
    let seg = pow2(lv as nat + 1);
    assert(seg == 2 * w);
    assert(q * seg <= l < q * seg + w) by (nonlinear_arith)
        requires l == w * yl + l as nat % w, 0 <= l as nat % w < w, yl == 2 * q, seg == 2 * w, w > 0;
    assert(q * seg + w <= r < q * seg + seg) by (nonlinear_arith)
        requires r == w * yr + r as nat % w, 0 <= r as nat % w < w, yr == 2 * q + 1, seg == 2 * w, w > 0;
    lemma_in_block(l as int, q as int, seg as int);
    lemma_in_block(r as int, q as int, seg as int);
}


/// Fill every level of the table; entries are `u16` indices.
fn build_levels_u16(values: &Vec<i64>, levels: usize) -> (table: Vec<u16>)
    requires
        values@.len() >= 2,
        values@.len() <= 0x10000,
        rmq_len_ok(values@.len()),
        1 <= levels <= 64,
        pow2((levels - 1) as nat) <= values@.len() - 1 < pow2(levels as nat),
    ensures
        table@.len() == levels * values@.len(),
        dst_levels_ok(values@, levels as nat, table@.map_values(|x: u16| x as int)),
{
    let n = values.len();
    let ghost s = values@;
    proof {
        assert(levels * n <= 64 * n) by (nonlinear_arith)
            requires levels <= 64;
    }
    let mut table: Vec<u16> = vec![0; levels * n];
    proof {
        lemma_pow2_pos(0);
    }
    let mut level: usize = 0;
    while level < levels
        invariant
            n == s.len(),
            s == values@,
            n >= 2,
            n <= 0x10000,
            rmq_len_ok(n as nat),
            1 <= levels <= 64,
            pow2((levels - 1) as nat) <= n - 1 < pow2(levels as nat),
            level <= levels,
            levels * n <= usize::MAX,
            table@.len() == levels * n,
            forall|lv: nat, i: int| lv < level && 0 <= i < n ==> #[trigger] dst_entry_ok(s, lv, i, table@[lv * n + i] as int),
        decreases levels - level,
    {
        proof {
            assert(level * n + n <= levels * n) by (nonlinear_arith)
                requires level < levels, n >= 0;
            if level < levels - 1 {
                lemma_pow2_strictly_increases(level as nat, (levels - 1) as nat);
            }
            lemma_pow_fits(level as nat, n as int);
            lemma_pow2_unfold(level as nat + 1);
            lemma_pow2_pos(level as nat);
        }
        let base = level * n;
        let half = 1usize << level;
        assert(half <= n);
        let seg_len = half * 2;
        proof {
            lemma_pow2_unfold(level as nat + 1);
        }
        let mut block_start: usize = 0;
        let ghost mut q: int = 0;
        while block_start < n
            invariant
                n == s.len(),
                s == values@,
                n >= 2,
                n <= 0x10000,
                rmq_len_ok(n as nat),
                level < levels <= 64,
                table@.len() == levels * n,
                base == level * n,
                base + n <= levels * n,
                levels * n <= usize::MAX,
                half == pow2(level as nat),
                half >= 1,
                seg_len == pow2(level as nat + 1),
                seg_len == 2 * half,
                half <= n,
                q >= 0,
                block_start == q * seg_len,
                block_start <= n + seg_len,
                forall|lv: nat, i: int| lv < level && 0 <= i < n ==> #[trigger] dst_entry_ok(s, lv, i, table@[lv * n + i] as int),
                forall|i: int| 0 <= i < block_start && i < n ==> #[trigger] dst_entry_ok(s, level as nat, i, table@[base + i] as int),
            decreases n + seg_len - block_start,
        {
            let block_end = if block_start + seg_len < n { block_start + seg_len } else { n };
            let mid = if block_start + half < block_end { block_start + half } else { block_end };
            let ghost old_table = table@;
            proof {
                assert forall|i: int| block_start <= i < block_end implies #[trigger] dst_mid(n as int, level as nat, i) == mid by {
                    lemma_in_block(i, q, seg_len as int);
                }
            }
            if mid > block_start {
                table.set(base + mid - 1, (mid - 1) as u16);
                proof {
                    lemma_leftmost_min_single(s, mid - 1);
                }
                let mut i: usize = mid - 1;
                while i > block_start
                    invariant
                        n == s.len(),
                        s == values@,
                        n <= 0x10000,
                        block_start < mid <= block_end <= n,
                        block_start <= i < mid,
                        table@.len() == levels * n,
                        base == level * n,
                        base + n <= levels * n,
                        levels * n <= usize::MAX,
                        forall|j: int| block_start <= j < block_end ==> #[trigger] dst_mid(n as int, level as nat, j) == mid,
                        forall|j: int| i <= j < mid ==> #[trigger] is_leftmost_min(s, j, mid as int, table@[base + j] as int),
                        forall|j: int| 0 <= j < levels * n && !(base + block_start <= j < base + mid) ==> #[trigger] table@[j] == old_table[j],
                    decreases i,
                {
                    let right = table[base + i] as usize;
                    assert(is_leftmost_min(s, i as int, mid as int, table@[base + i] as int));
                    let best = better_index_ordered(values.as_slice(), i - 1, right);
                    proof {
                        lemma_leftmost_min_single(s, i - 1);
                        lemma_leftmost_min_concat(s, i - 1, i as int, mid as int, i - 1, right as int);
                    }
                    table.set(base + i - 1, best as u16);
                    i -= 1;
                }
            }
            let ghost mid_table = table@;
            if mid < block_end {
                table.set(base + mid, mid as u16);
                proof {
                    lemma_leftmost_min_single(s, mid as int);
                }
                let mut i: usize = mid + 1;
                while i < block_end
                    invariant
                        n == s.len(),
                        s == values@,
                        n <= 0x10000,
                        block_start <= mid < block_end <= n,
                        mid < i <= block_end,
                        table@.len() == levels * n,
                        base == level * n,
                        base + n <= levels * n,
                        levels * n <= usize::MAX,
                        forall|j: int| mid <= j < i ==> #[trigger] is_leftmost_min(s, mid as int, j + 1, table@[base + j] as int),
                        forall|j: int| 0 <= j < levels * n && !(base + mid <= j < base + block_end) ==> #[trigger] table@[j] == mid_table[j],
                    decreases block_end - i,
                {
                    let left = table[base + i - 1] as usize;
                    assert(is_leftmost_min(s, mid as int, (i - 1) + 1, table@[base + (i - 1)] as int));
                    let best = better_index_ordered(values.as_slice(), left, i);
                    proof {
                        lemma_leftmost_min_single(s, i as int);
                        lemma_leftmost_min_concat(s, mid as int, i as int, i + 1, left as int, i as int);
                    }
                    table.set(base + i, best as u16);
                    i += 1;
                }
            }
            proof {
                assert forall|lv: nat, i: int| lv < level && 0 <= i < n implies #[trigger] dst_entry_ok(s, lv, i, table@[lv * n + i] as int) by {
                    assert(lv * n + i < base) by (nonlinear_arith)
                        requires lv < level, i < n, base == level * n;
                    assert(lv * n + i >= 0) by (nonlinear_arith)
                        requires lv >= 0, i >= 0, n >= 0;
                    assert(table@[lv * n + i] == old_table[lv * n + i]);
                }
                assert forall|i: int| 0 <= i < block_start + seg_len && i < n implies #[trigger] dst_entry_ok(s, level as nat, i, table@[base + i] as int) by {
                    if i < block_start {
                        assert(table@[base + i] == old_table[base + i]);
                    } else {
                        assert(dst_mid(n as int, level as nat, i) == mid);
                    }
                }
            }
            block_start = block_start + seg_len;
            proof {
                q = q + 1;
                assert(block_start == q * seg_len) by (nonlinear_arith)
                    requires block_start == (q - 1) * seg_len + seg_len;
            }
        }
        level += 1;
    }
    proof {
        let tv = table@.map_values(|x: u16| x as int);
        assert forall|lv: nat, i: int| lv < levels && 0 <= i < n implies #[trigger] dst_entry_ok(s, lv, i, tv[lv * n + i]) by {
            assert(lv * n + i < levels * n) by (nonlinear_arith)
                requires lv < levels, i < n;
            assert(lv * n + i >= 0) by (nonlinear_arith)
                requires lv >= 0, i >= 0, n >= 0;
            assert(dst_entry_ok(s, lv, i, table@[lv * n + i] as int));
        }
    }
    table
}

/// Fill every level of the table; entries are `u32` indices.
fn build_levels_u32(values: &Vec<i64>, levels: usize) -> (table: Vec<u32>)
    requires
        values@.len() >= 2,
        values@.len() <= u32::MAX,
        rmq_len_ok(values@.len()),
        1 <= levels <= 64,
        pow2((levels - 1) as nat) <= values@.len() - 1 < pow2(levels as nat),
    ensures
        table@.len() == levels * values@.len(),
        dst_levels_ok(values@, levels as nat, table@.map_values(|x: u32| x as int)),
{
    let n = values.len();
    let ghost s = values@;
    proof {
        assert(levels * n <= 64 * n) by (nonlinear_arith)
            requires levels <= 64;
    }
    let mut table: Vec<u32> = vec![0; levels * n];
    proof {
        lemma_pow2_pos(0);
    }
    let mut level: usize = 0;
    while level < levels
        invariant
            n == s.len(),
            s == values@,
            n >= 2,
            n <= u32::MAX,
            rmq_len_ok(n as nat),
            1 <= levels <= 64,
            pow2((levels - 1) as nat) <= n - 1 < pow2(levels as nat),
            level <= levels,
            levels * n <= usize::MAX,
            table@.len() == levels * n,
            forall|lv: nat, i: int| lv < level && 0 <= i < n ==> #[trigger] dst_entry_ok(s, lv, i, table@[lv * n + i] as int),
        decreases levels - level,
    {
        proof {
            assert(level * n + n <= levels * n) by (nonlinear_arith)
                requires level < levels, n >= 0;
            if level < levels - 1 {
                lemma_pow2_strictly_increases(level as nat, (levels - 1) as nat);
            }
            lemma_pow_fits(level as nat, n as int);
            lemma_pow2_unfold(level as nat + 1);
            lemma_pow2_pos(level as nat);
        }
        let base = level * n;
        let half = 1usize << level;
        assert(half <= n);
        let seg_len = half * 2;
        proof {
            lemma_pow2_unfold(level as nat + 1);
        }
        let mut block_start: usize = 0;
        let ghost mut q: int = 0;
        while block_start < n
            invariant
                n == s.len(),
                s == values@,
                n >= 2,
                n <= u32::MAX,
                rmq_len_ok(n as nat),
                level < levels <= 64,
                table@.len() == levels * n,
                base == level * n,
                base + n <= levels * n,
                levels * n <= usize::MAX,
                half == pow2(level as nat),
                half >= 1,
                seg_len == pow2(level as nat + 1),
                seg_len == 2 * half,
                half <= n,
                q >= 0,
                block_start == q * seg_len,
                block_start <= n + seg_len,
                forall|lv: nat, i: int| lv < level && 0 <= i < n ==> #[trigger] dst_entry_ok(s, lv, i, table@[lv * n + i] as int),
                forall|i: int| 0 <= i < block_start && i < n ==> #[trigger] dst_entry_ok(s, level as nat, i, table@[base + i] as int),
            decreases n + seg_len - block_start,
        {
            let block_end = if block_start + seg_len < n { block_start + seg_len } else { n };
            let mid = if block_start + half < block_end { block_start + half } else { block_end };
            let ghost old_table = table@;
            proof {
                assert forall|i: int| block_start <= i < block_end implies #[trigger] dst_mid(n as int, level as nat, i) == mid by {
                    lemma_in_block(i, q, seg_len as int);
                }
            }
            if mid > block_start {
                table.set(base + mid - 1, (mid - 1) as u32);
                proof {
                    lemma_leftmost_min_single(s, mid - 1);
                }
                let mut i: usize = mid - 1;
                while i > block_start
                    invariant
                        n == s.len(),
                        s == values@,
                        n <= u32::MAX,
                        block_start < mid <= block_end <= n,
                        block_start <= i < mid,
                        table@.len() == levels * n,
                        base == level * n,
                        base + n <= levels * n,
                        levels * n <= usize::MAX,
                        forall|j: int| block_start <= j < block_end ==> #[trigger] dst_mid(n as int, level as nat, j) == mid,
                        forall|j: int| i <= j < mid ==> #[trigger] is_leftmost_min(s, j, mid as int, table@[base + j] as int),
                        forall|j: int| 0 <= j < levels * n && !(base + block_start <= j < base + mid) ==> #[trigger] table@[j] == old_table[j],
                    decreases i,
                {
                    let right = table[base + i] as usize;
                    assert(is_leftmost_min(s, i as int, mid as int, table@[base + i] as int));
                    let best = better_index_ordered(values.as_slice(), i - 1, right);
                    proof {
                        lemma_leftmost_min_single(s, i - 1);
                        lemma_leftmost_min_concat(s, i - 1, i as int, mid as int, i - 1, right as int);
                    }
                    table.set(base + i - 1, best as u32);
                    i -= 1;
                }
            }
            let ghost mid_table = table@;
            if mid < block_end {
                table.set(base + mid, mid as u32);
                proof {
                    lemma_leftmost_min_single(s, mid as int);
                }
                let mut i: usize = mid + 1;
                while i < block_end
                    invariant
                        n == s.len(),
                        s == values@,
                        n <= u32::MAX,
                        block_start <= mid < block_end <= n,
                        mid < i <= block_end,
                        table@.len() == levels * n,
                        base == level * n,
                        base + n <= levels * n,
                        levels * n <= usize::MAX,
                        forall|j: int| mid <= j < i ==> #[trigger] is_leftmost_min(s, mid as int, j + 1, table@[base + j] as int),
                        forall|j: int| 0 <= j < levels * n && !(base + mid <= j < base + block_end) ==> #[trigger] table@[j] == mid_table[j],
                    decreases block_end - i,
                {
                    let left = table[base + i - 1] as usize;
                    assert(is_leftmost_min(s, mid as int, (i - 1) + 1, table@[base + (i - 1)] as int));
                    let best = better_index_ordered(values.as_slice(), left, i);
                    proof {
                        lemma_leftmost_min_single(s, i as int);
                        lemma_leftmost_min_concat(s, mid as int, i as int, i + 1, left as int, i as int);
                    }
                    table.set(base + i, best as u32);
                    i += 1;
                }
            }
            proof {
                assert forall|lv: nat, i: int| lv < level && 0 <= i < n implies #[trigger] dst_entry_ok(s, lv, i, table@[lv * n + i] as int) by {
                    assert(lv * n + i < base) by (nonlinear_arith)
                        requires lv < level, i < n, base == level * n;
                    assert(lv * n + i >= 0) by (nonlinear_arith)
                        requires lv >= 0, i >= 0, n >= 0;
                    assert(table@[lv * n + i] == old_table[lv * n + i]);
                }
                assert forall|i: int| 0 <= i < block_start + seg_len && i < n implies #[trigger] dst_entry_ok(s, level as nat, i, table@[base + i] as int) by {
                    if i < block_start {
                        assert(table@[base + i] == old_table[base + i]);
                    } else {
                        assert(dst_mid(n as int, level as nat, i) == mid);
                    }
                }
            }
            block_start = block_start + seg_len;
            proof {
                q = q + 1;
                assert(block_start == q * seg_len) by (nonlinear_arith)
                    requires block_start == (q - 1) * seg_len + seg_len;
            }
        }
        level += 1;
    }
    proof {
        let tv = table@.map_values(|x: u32| x as int);
        assert forall|lv: nat, i: int| lv < levels && 0 <= i < n implies #[trigger] dst_entry_ok(s, lv, i, tv[lv * n + i]) by {
            assert(lv * n + i < levels * n) by (nonlinear_arith)
                requires lv < levels, i < n;
            assert(lv * n + i >= 0) by (nonlinear_arith)
                requires lv >= 0, i >= 0, n >= 0;
            assert(dst_entry_ok(s, lv, i, table@[lv * n + i] as int));
        }
    }
    table
}

/// Fill every level of the table; entries are `usize` indices.
fn build_levels_usize(values: &Vec<i64>, levels: usize) -> (table: Vec<usize>)
    requires
        values@.len() >= 2,
        rmq_len_ok(values@.len()),
        1 <= levels <= 64,
        pow2((levels - 1) as nat) <= values@.len() - 1 < pow2(levels as nat),
    ensures
        table@.len() == levels * values@.len(),
        dst_levels_ok(values@, levels as nat, table@.map_values(|x: usize| x as int)),
{
    let n = values.len();
    let ghost s = values@;
    proof {
        assert(levels * n <= 64 * n) by (nonlinear_arith)
            requires levels <= 64;
    }
    let mut table: Vec<usize> = vec![0; levels * n];
    proof {
        lemma_pow2_pos(0);
    }
    let mut level: usize = 0;
    while level < levels
        invariant
            n == s.len(),
            s == values@,
            n >= 2,
                rmq_len_ok(n as nat),
            1 <= levels <= 64,
            pow2((levels - 1) as nat) <= n - 1 < pow2(levels as nat),
            level <= levels,
            levels * n <= usize::MAX,
            table@.len() == levels * n,
            forall|lv: nat, i: int| lv < level && 0 <= i < n ==> #[trigger] dst_entry_ok(s, lv, i, table@[lv * n + i] as int),
        decreases levels - level,
    {
        proof {
            assert(level * n + n <= levels * n) by (nonlinear_arith)
                requires level < levels, n >= 0;
            if level < levels - 1 {
                lemma_pow2_strictly_increases(level as nat, (levels - 1) as nat);
            }
            lemma_pow_fits(level as nat, n as int);
            lemma_pow2_unfold(level as nat + 1);
            lemma_pow2_pos(level as nat);
        }
        let base = level * n;
        let half = 1usize << level;
        assert(half <= n);
        let seg_len = half * 2;
        proof {
            lemma_pow2_unfold(level as nat + 1);
        }
        let mut block_start: usize = 0;
        let ghost mut q: int = 0;
        while block_start < n
            invariant
                n == s.len(),
                s == values@,
                n >= 2,
                        rmq_len_ok(n as nat),
                level < levels <= 64,
                table@.len() == levels * n,
                base == level * n,
                base + n <= levels * n,
                levels * n <= usize::MAX,
                half == pow2(level as nat),
                half >= 1,
                seg_len == pow2(level as nat + 1),
                seg_len == 2 * half,
                half <= n,
                q >= 0,
                block_start == q * seg_len,
                block_start <= n + seg_len,
                forall|lv: nat, i: int| lv < level && 0 <= i < n ==> #[trigger] dst_entry_ok(s, lv, i, table@[lv * n + i] as int),
                forall|i: int| 0 <= i < block_start && i < n ==> #[trigger] dst_entry_ok(s, level as nat, i, table@[base + i] as int),
            decreases n + seg_len - block_start,
        {
            let block_end = if block_start + seg_len < n { block_start + seg_len } else { n };
            let mid = if block_start + half < block_end { block_start + half } else { block_end };
            let ghost old_table = table@;
            proof {
                assert forall|i: int| block_start <= i < block_end implies #[trigger] dst_mid(n as int, level as nat, i) == mid by {
                    lemma_in_block(i, q, seg_len as int);
                }
            }
            if mid > block_start {
                table.set(base + mid - 1, (mid - 1) as usize);
                proof {
                    lemma_leftmost_min_single(s, mid - 1);
                }
                let mut i: usize = mid - 1;
                while i > block_start
                    invariant
                        n == s.len(),
                        s == values@,
                                        block_start < mid <= block_end <= n,
                        block_start <= i < mid,
                        table@.len() == levels * n,
                        base == level * n,
                        base + n <= levels * n,
                        levels * n <= usize::MAX,
                        forall|j: int| block_start <= j < block_end ==> #[trigger] dst_mid(n as int, level as nat, j) == mid,
                        forall|j: int| i <= j < mid ==> #[trigger] is_leftmost_min(s, j, mid as int, table@[base + j] as int),
                        forall|j: int| 0 <= j < levels * n && !(base + block_start <= j < base + mid) ==> #[trigger] table@[j] == old_table[j],
                    decreases i,
                {
                    let right = table[base + i] as usize;
                    assert(is_leftmost_min(s, i as int, mid as int, table@[base + i] as int));
                    let best = better_index_ordered(values.as_slice(), i - 1, right);
                    proof {
                        lemma_leftmost_min_single(s, i - 1);
                        lemma_leftmost_min_concat(s, i - 1, i as int, mid as int, i - 1, right as int);
                    }
                    table.set(base + i - 1, best as usize);
                    i -= 1;
                }
            }
            let ghost mid_table = table@;
            if mid < block_end {
                table.set(base + mid, mid as usize);
                proof {
                    lemma_leftmost_min_single(s, mid as int);
                }
                let mut i: usize = mid + 1;
                while i < block_end
                    invariant
                        n == s.len(),
                        s == values@,
                                        block_start <= mid < block_end <= n,
                        mid < i <= block_end,
                        table@.len() == levels * n,
                        base == level * n,
                        base + n <= levels * n,
                        levels * n <= usize::MAX,
                        forall|j: int| mid <= j < i ==> #[trigger] is_leftmost_min(s, mid as int, j + 1, table@[base + j] as int),
                        forall|j: int| 0 <= j < levels * n && !(base + mid <= j < base + block_end) ==> #[trigger] table@[j] == mid_table[j],
                    decreases block_end - i,
                {
                    let left = table[base + i - 1] as usize;
                    assert(is_leftmost_min(s, mid as int, (i - 1) + 1, table@[base + (i - 1)] as int));
                    let best = better_index_ordered(values.as_slice(), left, i);
                    proof {
                        lemma_leftmost_min_single(s, i as int);
                        lemma_leftmost_min_concat(s, mid as int, i as int, i + 1, left as int, i as int);
                    }
                    table.set(base + i, best as usize);
                    i += 1;
                }
            }
            proof {
                assert forall|lv: nat, i: int| lv < level && 0 <= i < n implies #[trigger] dst_entry_ok(s, lv, i, table@[lv * n + i] as int) by {
                    assert(lv * n + i < base) by (nonlinear_arith)
                        requires lv < level, i < n, base == level * n;
                    assert(lv * n + i >= 0) by (nonlinear_arith)
                        requires lv >= 0, i >= 0, n >= 0;
                    assert(table@[lv * n + i] == old_table[lv * n + i]);
                }
                assert forall|i: int| 0 <= i < block_start + seg_len && i < n implies #[trigger] dst_entry_ok(s, level as nat, i, table@[base + i] as int) by {
                    if i < block_start {
                        assert(table@[base + i] == old_table[base + i]);
                    } else {
                        assert(dst_mid(n as int, level as nat, i) == mid);
                    }
                }
            }
            block_start = block_start + seg_len;
            proof {
                q = q + 1;
                assert(block_start == q * seg_len) by (nonlinear_arith)
                    requires block_start == (q - 1) * seg_len + seg_len;
            }
        }
        level += 1;
    }
    proof {
        let tv = table@.map_values(|x: usize| x as int);
        assert forall|lv: nat, i: int| lv < levels && 0 <= i < n implies #[trigger] dst_entry_ok(s, lv, i, tv[lv * n + i]) by {
            assert(lv * n + i < levels * n) by (nonlinear_arith)
                requires lv < levels, i < n;
            assert(lv * n + i >= 0) by (nonlinear_arith)
                requires lv >= 0, i >= 0, n >= 0;
            assert(dst_entry_ok(s, lv, i, table@[lv * n + i] as int));
        }
    }
    table
}

impl StaticRmq for DisjointSparseTableRmq {
    open spec fn values(&self) -> Seq<i64> {
        self.spec_values()
    }

    open spec fn wf(&self) -> bool {
        self.inv()
    }

    fn new(values: &[i64]) -> (res: Self) {
        let n = values.len();
        let values = copy_values(values);
        if n == 0 {
            return Self { values, n, levels: 0, table: DstTable::U32(Vec::new()) };
        }
        if n == 1 {
            return Self { values, n, levels: 0, table: DstTable::U32(Vec::new()) };
        }
        let levels = (floor_log2_nonzero(n - 1) as usize) + 1;
        proof {
            lemma_pow2_unfold(levels as nat);
        }
        let table = if n <= 0x10000 {
            DstTable::U16(build_levels_u16(&values, levels))
        } else if n <= u32::MAX as usize {
            DstTable::U32(build_levels_u32(&values, levels))
        } else {
            DstTable::Usize(build_levels_usize(&values, levels))
        };
        Self { values, n, levels, table }
    }

    fn argmin(&self, range: Range<usize>) -> (res: Option<usize>) {
        let n = self.n;
        if range.start >= range.end || range.end > n {
            return None;
        }
        let l = range.start;
        let r = range.end - 1;
        if l == r {
            proof {
                lemma_leftmost_min_single(self.values@, l as int);
            }
            return Some(l);
        }
        let x = l ^ r;
        assert(x != 0) by (bit_vector)
            requires x == l ^ r, l != r;
        let level = floor_log2_nonzero(x) as usize;
        let ghost s = self.values@;
        proof {
            let lv = self.levels;
            lemma_pow_fits((lv - 1) as nat, n as int);
            lemma_pow2_unfold(lv as nat);
            // both endpoints lie below 2^levels, hence so does their xor
            let big = pow2(lv as nat);
            if level >= lv {
                assert(r < big);
                if lv < usize::BITS {
                    lemma_usize_pow2_no_overflow(lv as nat);
                    lemma_usize_shl_is_mul(1, lv as usize);
                    let kk = lv as usize;
                    lemma_usize_shr_is_div(l, kk);
                    lemma_usize_shr_is_div(r, kk);
                    lemma_usize_shr_is_div(x, kk);
                    vstd::arithmetic::div_mod::lemma_basic_div(l as int, big as int);
                    vstd::arithmetic::div_mod::lemma_basic_div(r as int, big as int);
                    assert(l as nat / big == 0);
                    assert(r as nat / big == 0);
                    assert((l >> kk) == 0usize && (r >> kk) == 0usize ==> ((l ^ r) >> kk) == 0usize) by (bit_vector);
                    if level > lv {
                        lemma_pow2_strictly_increases(lv as nat, level as nat);
                    }
                    assert(x as nat / big >= 1) by {
                        lemma_fundamental_div_mod(x as int, big as int);
                        assert(x as nat / big >= 1) by (nonlinear_arith)
                            requires x >= big, big > 0, x == big * (x as nat / big) + x as nat % big, x as nat % big < big;
                    }
                    assert(false);
                } else {
                    lemma2_to64();
                    assert(false);
                }
            }
            lemma_pow_fits(level as nat, x as int);
            lemma_xor_split(l, r, level as u32);
            assert(level * n + n <= lv * n) by (nonlinear_arith)
                requires level < lv, n >= 0;
            assert(lv * n <= usize::MAX) by (nonlinear_arith)
                requires lv <= 64, n <= usize::MAX / 64;
            let e = self.table.entries();
            assert(dst_entry_ok(s, level as nat, l as int, e[level * n + l]));
            assert(dst_entry_ok(s, level as nat, r as int, e[level * n + r]));
            let m = dst_mid(n as int, level as nat, l as int);
            assert(m == dst_mid(n as int, level as nat, r as int));
            lemma_leftmost_min_concat(s, l as int, m, r + 1, e[level * n + l], e[level * n + r]);
        }
        let base = level * n;
        match &self.table {
            DstTable::U16(table) => {
                let a = table[base + l] as usize;
                let b = table[base + r] as usize;
                Some(better_index_ordered(self.values.as_slice(), a, b))
            }
            DstTable::U32(table) => {
                let a = table[base + l] as usize;
                let b = table[base + r] as usize;
                Some(better_index_ordered(self.values.as_slice(), a, b))
            }
            DstTable::Usize(table) => {
                let a = table[base + l];
                let b = table[base + r];
                Some(better_index_ordered(self.values.as_slice(), a, b))
            }
        }
    }
}

} // verus!
