use vstd::prelude::*;
use vstd::arithmetic::power2::{pow2, lemma2_to64, lemma_pow2_unfold, lemma_pow2_pos, lemma_pow2_strictly_increases};
use vstd::arithmetic::div_mod::{lemma_fundamental_div_mod, lemma_fundamental_div_mod_converse};
use vstd::std_specs::bits::{u64_trailing_zeros, axiom_u64_trailing_zeros};
use std::ops::Range;

use crate::rmq::{StaticRmq, is_leftmost_min, rmq_answer, rmq_len_ok, better, lemma_leftmost_min_concat,
    lemma_leftmost_min_single, lemma_leftmost_min_overlap};
use crate::rmq::util::{better_index, better_index_ordered, floor_log2_nonzero, is_strictly_less};
use crate::rmq::segment_tree::copy_values;
use crate::rmq::sparse_table::{row_offset, lemma_levels, lemma_span};

verus! {

/// Boundary of block `b`: `min(b * bs, n)`.
pub open spec fn bound(n: int, bs: int, b: int) -> int {
    if b * bs <= n { b * bs } else { n }
}

proof fn lemma_bound_mono(n: int, bs: int, b1: int, b2: int)
    requires
        0 <= b1 <= b2,
        bs >= 1,
        n >= 0,
    ensures
        0 <= bound(n, bs, b1) <= bound(n, bs, b2) <= n,
{
    assert(b1 * bs <= b2 * bs) by (nonlinear_arith)
        requires b1 <= b2, bs >= 1;
    assert(b1 * bs >= 0) by (nonlinear_arith)
        requires b1 >= 0, bs >= 1;
}

/// Entry `i` of row `k` holds the leftmost minimum of blocks `[i, i + 2^k)`.
pub open spec fn block_entry_ok(s: Seq<i64>, bs: int, k: nat, i: int, t: int) -> bool {
    is_leftmost_min(s, bound(s.len() as int, bs, i), bound(s.len() as int, bs, i + pow2(k)), t)
}

#[derive(Clone, Debug)]
struct IndexSparseTable {
    n: usize,
    log2: Vec<u8>,
    row_offsets: Vec<usize>,
    table: Vec<usize>,
}

impl IndexSparseTable {
    /// Sparse table over `n` blocks of width `bs` of `s`.
    spec fn inv(&self, s: Seq<i64>, bs: int) -> bool {
        let m = self.n as int;
        let levels = self.row_offsets@.len();
        &&& bs >= 1
        &&& self.log2@.len() == m + 1
        &&& forall|i: int| 1 <= i <= m ==> pow2(#[trigger] self.log2@[i] as nat) <= i < pow2(self.log2@[i] as nat + 1)
        &&& m <= s.len()
        &&& (m - 1) * bs < s.len() <= m * bs
        &&& m > 0 ==> {
            &&& levels >= 1
            &&& pow2((levels - 1) as nat) <= m < pow2(levels)
            &&& levels <= 64
            &&& rmq_len_ok(m as nat)
            &&& forall|k: int| 0 <= k < levels ==> #[trigger] self.row_offsets@[k] == row_offset(m, k as nat)
            &&& self.table@.len() == row_offset(m, levels)
            &&& forall|k: nat, i: int| k < levels && 0 <= i < m + 1 - pow2(k) ==>
                #[trigger] block_entry_ok(s, bs, k, i, self.table@[row_offset(m, k) + i] as int)
        }
    }

    fn new(values: &[i64], indices: Vec<usize>, Ghost(bs): Ghost<int>) -> (res: Self)
        requires
            bs >= 1,
            rmq_len_ok(values@.len()),
            indices@.len() <= values@.len(),
            (indices@.len() - 1) * bs < values@.len() <= indices@.len() * bs,
            forall|b: int| 0 <= b < indices@.len() ==> #[trigger] is_leftmost_min(values@,
                bound(values@.len() as int, bs, b), bound(values@.len() as int, bs, b + 1), indices@[b] as int),
        ensures
            res.inv(values@, bs),
            res.n == indices@.len(),
    {
        let n = indices.len();
        let ghost s = values@;
        if n == 0 {
            let log2 = vec![0u8];
            return Self { n, log2, row_offsets: Vec::new(), table: Vec::new() };
        }
        let mut log2 = vec![0u8; n + 1];
        let mut i: usize = 2;
        proof {
            lemma2_to64();
        }
        while i <= n
            invariant
                2 <= i <= n + 1,
                n <= usize::MAX / 64,
                log2@.len() == n + 1,
                log2@[1] == 0,
                forall|j: int| 1 <= j < i ==> pow2(#[trigger] log2@[j] as nat) <= j < pow2(log2@[j] as nat + 1) && log2@[j] < 63,
            decreases n + 1 - i,
        {
            let h = i / 2;
            assert(1 <= h < i);
            let prev = log2[h];
            proof {
                assert(pow2(prev as nat) <= h < pow2(prev as nat + 1));
                lemma_pow2_unfold(prev as nat + 1);
                lemma_pow2_unfold(prev as nat + 2);
                if prev + 1 >= 63 {
                    lemma_pow2_strictly_increases(62, prev as nat + 1);
                    vstd::arithmetic::power2::lemma2_to64_rest();
                    assert(false);
                }
            }
            log2.set(i, prev + 1);
            i += 1;
        }
        let levels = (floor_log2_nonzero(n) as usize) + 1;
        proof {
            lemma_pow2_unfold(levels as nat);
            lemma_levels(n as int, levels as nat);
        }
        let mut total_len: usize = 0;
        let mut k: usize = 0;
        while k < levels
            invariant
                k <= levels,
                1 <= levels <= 58,
                pow2((levels - 1) as nat) <= n < pow2(levels as nat),
                rmq_len_ok(n as nat),
                n >= 1,
                total_len == row_offset(n as int, k as nat),
            decreases levels - k,
        {
            proof {
                lemma_levels(n as int, levels as nat);
                assert(pow2(k as nat) <= n);
                lemma_span(k as u32);
                assert(row_offset(n as int, (k + 1) as nat) <= row_offset(n as int, levels as nat));
            }
            total_len += n + 1 - (1usize << k);
            k += 1;
        }
        let mut row_offsets: Vec<usize> = Vec::with_capacity(levels);
        let mut table: Vec<usize> = Vec::with_capacity(total_len);
        row_offsets.push(0);
        let mut i: usize = 0;
        while i < n
            invariant
                i <= n,
                n == indices@.len(),
                table@.len() == i,
                forall|j: int| 0 <= j < i ==> #[trigger] table@[j] == indices@[j],
            decreases n - i,
        {
            table.push(indices[i]);
            i += 1;
        }
        proof {
            lemma_levels(n as int, levels as nat);
            assert forall|kk: nat, j: int| kk < 1 && 0 <= j < n + 1 - pow2(kk) implies
                #[trigger] block_entry_ok(s, bs, kk, j, table@[row_offset(n as int, kk) + j] as int) by {
                assert(pow2(0) == 1);
                assert(is_leftmost_min(s, bound(s.len() as int, bs, j), bound(s.len() as int, bs, j + 1), indices@[j] as int));
            }
            assert forall|kk: nat, j: int| kk < 1 && 0 <= j < n + 1 - pow2(kk) implies
                #[trigger] table@[row_offset(n as int, kk) + j] < s.len() by {
                assert(pow2(0) == 1);
                assert(is_leftmost_min(s, bound(s.len() as int, bs, j), bound(s.len() as int, bs, j + 1), indices@[j] as int));
                lemma_bound_mono(s.len() as int, bs, j, j + 1);
            }
        }
        let mut k: usize = 1;
        while k < levels
            invariant
                1 <= k <= levels,
                n == indices@.len(),
                1 <= levels <= 58,
                pow2((levels - 1) as nat) <= n < pow2(levels as nat),
                rmq_len_ok(n as nat),
                rmq_len_ok(s.len()),
                s == values@,
                bs >= 1,
                n >= 1,
                total_len == row_offset(n as int, levels as nat),
                row_offsets@.len() == k,
                forall|j: int| 0 <= j < k ==> #[trigger] row_offsets@[j] == row_offset(n as int, j as nat),
                table@.len() == row_offset(n as int, k as nat),
                forall|kk: nat, j: int| kk < k && 0 <= j < n + 1 - pow2(kk) ==>
                    #[trigger] block_entry_ok(s, bs, kk, j, table@[row_offset(n as int, kk) + j] as int),
                forall|kk: nat, j: int| kk < k && 0 <= j < n + 1 - pow2(kk) ==>
                    #[trigger] table@[row_offset(n as int, kk) + j] < s.len(),
            decreases levels - k,
        {
            proof {
                lemma_levels(n as int, levels as nat);
                assert(pow2(k as nat) <= n);
                assert(pow2((k - 1) as nat) <= n);
                lemma_span(k as u32);
                lemma_span((k - 1) as u32);
                lemma_pow2_unfold(k as nat);
            }
            let span = 1usize << k;
            let half = span / 2;
            let len = n + 1 - span;
            row_offsets.push(table.len());
            let prev_start = row_offsets[k - 1];
            proof {
                assert(row_offset(n as int, (k + 1) as nat) == row_offset(n as int, k as nat) + n + 1 - pow2(k as nat));
                assert(row_offset(n as int, (k + 1) as nat) <= row_offset(n as int, levels as nat));
            }
            let ghost base = table@.len();
            let mut i: usize = 0;
            while i < len
                invariant
                    i <= len,
                    len == n + 1 - span,
                    span == pow2(k as nat),
                    half == pow2((k - 1) as nat),
                    span == 2 * half,
                    1 <= k < levels,
                    n == indices@.len(),
                    s == values@,
                    rmq_len_ok(s.len()),
                    bs >= 1,
                    n >= 1,
                    base == row_offset(n as int, k as nat),
                    1 <= levels <= 58,
                    pow2((levels - 1) as nat) <= n < pow2(levels as nat),
                    rmq_len_ok(n as nat),
                    prev_start == row_offset(n as int, (k - 1) as nat),
                    base == prev_start + n + 1 - half,
                    table@.len() == base + i,
                    base + len <= total_len,
                    total_len == row_offset(n as int, levels as nat),
                    forall|kk: nat, j: int| kk < k && 0 <= j < n + 1 - pow2(kk) ==>
                        #[trigger] block_entry_ok(s, bs, kk, j, table@[row_offset(n as int, kk) + j] as int),
                    forall|kk: nat, j: int| kk < k && 0 <= j < n + 1 - pow2(kk) ==>
                        #[trigger] table@[row_offset(n as int, kk) + j] < s.len(),
                    forall|j: int| 0 <= j < i ==> #[trigger] block_entry_ok(s, bs, k as nat, j, table@[base + j] as int),
                    forall|j: int| 0 <= j < i ==> #[trigger] table@[base + j] < s.len(),
                decreases len - i,
            {
                let a = table[prev_start + i];
                let b = table[prev_start + i + half];
                let ghost nn = s.len() as int;
                proof {
                    let k1 = (k - 1) as nat;
                    assert(0 <= i + half < n + 1 - pow2(k1));
                    assert(block_entry_ok(s, bs, k1, i as int, table@[row_offset(n as int, k1) + i] as int));
                    assert(block_entry_ok(s, bs, k1, i + half, table@[row_offset(n as int, k1) + (i + half)] as int));
                    assert(table@[row_offset(n as int, k1) + i] < s.len());
                    assert(table@[row_offset(n as int, k1) + (i + half)] < s.len());
                    lemma_bound_mono(nn, bs, i as int, i + half);
                    lemma_bound_mono(nn, bs, i + half, i + span);
                    lemma_leftmost_min_concat(s, bound(nn, bs, i as int), bound(nn, bs, i + half), bound(nn, bs, i + span), a as int, b as int);
                }
                let best = better_index_ordered(values, a, b);
                let ghost old_table = table@;
                table.push(best);
                proof {
                    lemma_levels(n as int, levels as nat);
                    assert forall|kk: nat, j: int| kk < k && 0 <= j < n + 1 - pow2(kk) implies
                        #[trigger] block_entry_ok(s, bs, kk, j, table@[row_offset(n as int, kk) + j] as int) by {
                        assert(row_offset(n as int, kk + 1) <= row_offset(n as int, k as nat));
                        assert(row_offset(n as int, kk + 1) == row_offset(n as int, kk) + n + 1 - pow2(kk));
                        assert(table@[row_offset(n as int, kk) + j] == old_table[row_offset(n as int, kk) + j]);
                    }
                    assert forall|kk: nat, j: int| kk < k && 0 <= j < n + 1 - pow2(kk) implies
                        #[trigger] table@[row_offset(n as int, kk) + j] < s.len() by {
                        assert(row_offset(n as int, kk + 1) <= row_offset(n as int, k as nat));
                        assert(row_offset(n as int, kk + 1) == row_offset(n as int, kk) + n + 1 - pow2(kk));
                        assert(table@[row_offset(n as int, kk) + j] == old_table[row_offset(n as int, kk) + j]);
                    }
                    assert forall|j: int| 0 <= j < i + 1 implies #[trigger] block_entry_ok(s, bs, k as nat, j, table@[base + j] as int) by {
                        if j < i {
                            assert(table@[base + j] == old_table[base + j]);
                        }
                    }
                    assert forall|j: int| 0 <= j < i + 1 implies #[trigger] table@[base + j] < s.len() by {
                        if j < i {
                            assert(table@[base + j] == old_table[base + j]);
                        }
                    }
                }
                i += 1;
            }
            proof {
                lemma_pow2_unfold(k as nat + 1);
                assert forall|kk: nat, j: int| kk < k + 1 && 0 <= j < n + 1 - pow2(kk) implies
                    #[trigger] block_entry_ok(s, bs, kk, j, table@[row_offset(n as int, kk) + j] as int) by {
                    if kk == k {
                        assert(block_entry_ok(s, bs, k as nat, j, table@[base + j] as int));
                    }
                }
                assert forall|kk: nat, j: int| kk < k + 1 && 0 <= j < n + 1 - pow2(kk) implies
                    #[trigger] table@[row_offset(n as int, kk) + j] < s.len() by {
                    if kk == k {
                        assert(table@[base + j] < s.len());
                    }
                }
            }
            k += 1;
        }
        Self { n, log2, row_offsets, table }
    }

    /// Leftmost minimum over blocks `[start, end)`.
    fn argmin_assume_valid(&self, values: &[i64], start: usize, end: usize, Ghost(bs): Ghost<int>) -> (r: usize)
        requires
            self.inv(values@, bs),
            start < end <= self.n,
        ensures
            is_leftmost_min(values@, bound(values@.len() as int, bs, start as int), bound(values@.len() as int, bs, end as int), r as int),
    {
        let ghost s = values@;
        let m = self.n;
        let len = end - start;
        let k = self.log2[len] as usize;
        let ghost levels = self.row_offsets@.len();
        proof {
            assert(pow2(k as nat) <= len < pow2(k as nat + 1));
            lemma_pow2_unfold(k as nat + 1);
            lemma_levels(m as int, levels as nat);
            if k >= levels {
                if k > levels {
                    lemma_pow2_strictly_increases(levels as nat, k as nat);
                }
                assert(false);
            }
            assert(pow2(k as nat) <= m);
            lemma_span(k as u32);
        }
        let span = 1usize << k;
        let base = self.row_offsets[k];
        proof {
            assert(row_offset(m as int, (k + 1) as nat) == row_offset(m as int, k as nat) + m + 1 - pow2(k as nat));
            assert(row_offset(m as int, (k + 1) as nat) <= row_offset(m as int, levels as nat));
        }
        let a = self.table[base + start];
        let b = self.table[base + (end - span)];
        proof {
            let nn = s.len() as int;
            assert(block_entry_ok(s, bs, k as nat, start as int, self.table@[row_offset(m as int, k as nat) + start] as int));
            assert(block_entry_ok(s, bs, k as nat, end - span, self.table@[row_offset(m as int, k as nat) + (end - span)] as int));
            lemma_bound_mono(nn, bs, start as int, end - span);
            lemma_bound_mono(nn, bs, end - span, start + span);
            lemma_bound_mono(nn, bs, start + span, end as int);
            lemma_leftmost_min_overlap(s, bound(nn, bs, start as int), bound(nn, bs, end - span),
                bound(nn, bs, start + span), bound(nn, bs, end as int), a as int, b as int);
        }
        better_index(values, a, b)
    }
}

/// Positions `j <= q` whose value is at most every value in `(j, q]`.
pub open spec fn suffix_min(s: Seq<i64>, j: int, q: int) -> bool {
    forall|k: int| j < k <= q ==> s[j] <= #[trigger] s[k]
}

pub open spec fn bit(x: u64, j: int) -> bool {
    (x >> (j as u64)) & 1u64 == 1u64
}

/// Mask of `q` (block starting at `st`) marks the local offsets `j < q - st` with `suffix_min`.
pub open spec fn mask_ok(s: Seq<i64>, st: int, q: int, m: u64) -> bool {
    forall|j: int| 0 <= j < 64 ==> (#[trigger] bit(m, j) <==> (st + j < q && suffix_min(s, st + j, q)))
}

#[derive(Clone, Debug)]
pub struct AlstrupRmq {
    values: Vec<i64>,
    block_size: usize,
    l_masks: Vec<u64>,
    block_mins_st: IndexSparseTable,
}

proof fn lemma_bit_or_shift(m: u64, p: u64, j: u64)
    requires
        p < 64,
        j < 64,
    ensures
        ((m | (1u64 << p)) >> j) & 1u64 == 1u64 <==> (((m >> j) & 1u64) == 1u64 || j == p),
{
    assert(p < 64 && j < 64 ==> (((m | (1u64 << p)) >> j) & 1u64 == 1u64 <==> (((m >> j) & 1u64) == 1u64 || j == p))) by (bit_vector);
}

proof fn lemma_zero_bits(j: int)
    requires
        0 <= j < 64,
    ensures
        !bit(0, j),
{
    let jj = j as u64;
    assert((0u64 >> jj) & 1u64 == 0u64) by (bit_vector);
}

/// Values strictly above a candidate `p` to its left: every position in `[a, p)` outside the
/// `suffix_min` set of `q` has a value greater than `s[p]`.
proof fn lemma_not_suffix_min_greater(s: Seq<i64>, a: int, p: int, q: int)
    requires
        0 <= a <= p <= q < s.len(),
        p == q || suffix_min(s, p, q),
        forall|j: int| a <= j < p ==> !#[trigger] suffix_min(s, j, q),
    ensures
        forall|j: int| a <= j < p ==> s[p] < #[trigger] s[j],
    decreases p - a,
{
    if a < p {
        lemma_not_suffix_min_greater(s, a + 1, p, q);
        assert(!suffix_min(s, a, q));
        let k = choose|k: int| a < k <= q && !(s[a] <= s[k]);
        if k > p {
            assert(s[p] <= s[k]);
        } else if k < p {
            assert(s[p] < s[k]);
        }
    }
}

impl AlstrupRmq {
    pub closed spec fn spec_values(&self) -> Seq<i64> {
        self.values@
    }

    pub closed spec fn inv(&self) -> bool {
        let n = self.values@.len() as int;
        let bs = self.block_size as int;
        &&& rmq_len_ok(n as nat)
        &&& 1 <= bs <= 63
        &&& n > 0 ==> {
            &&& self.l_masks@.len() == n
            &&& forall|q: int| 0 <= q < n ==> #[trigger] mask_ok(self.values@, (q / bs) * bs, q, self.l_masks@[q])
            &&& self.block_mins_st.inv(self.values@, bs)
            &&& self.block_mins_st.n == (n + bs - 1) / bs
        }
    }

    fn choose_block_size(n: usize) -> (r: usize)
        ensures
            1 <= r <= 63,
            n <= 1 ==> r == 1,
            n > 1 ==> exists|lg: nat|
                #![trigger pow2(lg)]
                pow2(lg) <= n < pow2(lg + 1) && r == (if lg / 2 > 1 {
                    if lg / 2 < 63 {
                        lg / 2
                    } else {
                        63
                    }
                } else {
                    1
                }),
    {
        if n <= 1 {
            return 1;
        }
        let lg = floor_log2_nonzero(n) as usize;
        let m = if lg / 2 > 1 { lg / 2 } else { 1 };
        if m < 63 { m } else { 63 }
    }

    /// Leftmost minimum of `[block_start + local_l, block_start + local_r]`.
    fn block_argmin(block_start: usize, block_len: usize, l_masks: &[u64], local_l: usize, local_r: usize,
        Ghost(s): Ghost<Seq<i64>>) -> (r: usize)
        requires
            local_l <= local_r < block_len <= 63,
            block_start + block_len <= s.len(),
            s.len() <= usize::MAX,
            l_masks@.len() == s.len(),
            mask_ok(s, block_start as int, block_start + local_r, l_masks@[block_start + local_r]),
        ensures
            is_leftmost_min(s, block_start + local_l, block_start + local_r + 1, r as int),
    {
        let m = l_masks[block_start + local_r];
        let w = m >> (local_l as u64);
        let ghost st = block_start as int;
        let ghost q = block_start + local_r;
        let pos = if w == 0 {
            local_r
        } else {
            local_l + (w.trailing_zeros() as usize)
        };
        proof {
            let ll = local_l as u64;
            assert forall|i: u64| i < 64 && ll + i < 64 implies #[trigger] ((w >> i) & 1u64) == ((m >> (ll + i)) & 1u64) by {
                assert(ll < 64 && i < 64 && ll + i < 64 ==> ((m >> ll) >> i) & 1u64 == (m >> (ll + i)) & 1u64) by (bit_vector);
            }
            // bits of m at or above local_r are clear
            if w == 0 {
                assert forall|g: int| st + local_l <= g < q implies !#[trigger] suffix_min(s, g, q) by {
                    let j = g - st;
                    let i = (j - local_l) as u64;
                    assert((0u64 >> i) & 1u64 == 0u64) by (bit_vector);
                    assert(((w >> i) & 1u64) == ((m >> (ll + i)) & 1u64));
                    assert(!bit(m, j));
                }
                lemma_not_suffix_min_greater(s, st + local_l, q, q);
            } else {
                axiom_u64_trailing_zeros(w);
                let t = u64_trailing_zeros(w) as u64;
                assert(t < 64);
                assert((w >> t) & 1u64 == 1u64);
                // the bit found lies at a valid offset below local_r
                if ll + t >= 64 {
                    assert(ll <= 62 && t < 64 && ll + t >= 64 ==> (m >> ll) >> t == 0u64) by (bit_vector);
                    assert(w >> t == 0u64);
                    assert((0u64 & 1u64) == 0u64) by (bit_vector);
                    assert(false);
                }
                assert(bit(m, local_l + t));
                assert(st + local_l + t < q && suffix_min(s, st + local_l + t, q));
                let p = st + local_l + t;
                assert forall|g: int| st + local_l <= g < p implies !#[trigger] suffix_min(s, g, q) by {
                    let j = g - st;
                    let i = (j - local_l) as u64;
                    assert((w >> i) & 1u64 == 0u64);
                    assert(((w >> i) & 1u64) == ((m >> (ll + i)) & 1u64));
                    assert(!bit(m, j));
                }
                lemma_not_suffix_min_greater(s, st + local_l, p, q);
            }
        }
        block_start + pos
    }
}

proof fn lemma_three_ranges(s: Seq<i64>, l: int, x: int, y: int, r: int, a: int, m: int, b: int)
    requires
        l <= x <= y <= r,
        is_leftmost_min(s, l, x, a),
        is_leftmost_min(s, x, y, m),
        is_leftmost_min(s, y, r, b),
    ensures
        is_leftmost_min(s, l, r, better(s, better(s, a, b), m)),
{
    lemma_leftmost_min_concat(s, l, x, y, a, m);
    let am = if s[a] <= s[m] { a } else { m };
    lemma_leftmost_min_concat(s, l, y, r, am, b);
}

impl StaticRmq for AlstrupRmq {
    open spec fn values(&self) -> Seq<i64> {
        self.spec_values()
    }

    open spec fn wf(&self) -> bool {
        self.inv()
    }

    fn new(values: &[i64]) -> (res: Self) {
        let n = values.len();
        let values = copy_values(values);
        let block_size = Self::choose_block_size(n);
        let ghost s = values@;
        let ghost bs = block_size as int;
        if n == 0 {
            let empty: Vec<i64> = Vec::new();
            return Self {
                values,
                block_size,
                l_masks: Vec::new(),
                block_mins_st: IndexSparseTable::new(empty.as_slice(), Vec::new(), Ghost(bs)),
            };
        }
        let blocks_len = (n + block_size - 1) / block_size;
        proof {
            lemma_fundamental_div_mod((n + bs - 1) as int, bs);
            assert((blocks_len - 1) * bs < n <= blocks_len * bs) by (nonlinear_arith)
                requires n + bs - 1 == bs * blocks_len + (n + bs - 1) % bs, 0 <= (n + bs - 1) % bs < bs, bs >= 1, n >= 1;
        }
        let mut l_masks: Vec<u64> = vec![0u64; n];
        let mut block_mins: Vec<usize> = Vec::with_capacity(blocks_len);
        let mut stack: Vec<usize> = Vec::with_capacity(block_size);
        let mut block_id: usize = 0;
        while block_id < blocks_len
            invariant
                n == s.len(),
                s == values@,
                rmq_len_ok(n as nat),
                1 <= bs <= 63,
                bs == block_size,
                (blocks_len - 1) * bs < n <= blocks_len * bs,
                block_id <= blocks_len,
                l_masks@.len() == n,
                block_mins@.len() == block_id,
                forall|q: int| 0 <= q < n && q < block_id * bs ==> #[trigger] mask_ok(s, (q / bs) * bs, q, l_masks@[q]),
                forall|q: int| 0 <= q < n && q >= block_id * bs ==> #[trigger] l_masks@[q] == 0,
                forall|b: int| 0 <= b < block_id ==> #[trigger] is_leftmost_min(s, bound(n as int, bs, b), bound(n as int, bs, b + 1), block_mins@[b] as int),
            decreases blocks_len - block_id,
        {
            proof {
                assert(block_id * bs < n) by (nonlinear_arith)
                    requires block_id < blocks_len, (blocks_len - 1) * bs < n, bs >= 1;
            }
            let start = block_id * block_size;
            let end = if start + block_size < n { start + block_size } else { n };
            let len = end - start;
            proof {
                assert forall|q: int| start <= q < end implies #[trigger] (q / bs) == block_id by {
                    lemma_fundamental_div_mod_converse(q, bs, block_id as int, q - block_id * bs);
                }
            }
            stack.clear();
            let mut q: usize = 0;
            while q < len
                invariant
                    n == s.len(),
                    s == values@,
                    1 <= bs <= 63,
                    start == block_id * bs,
                    start < end <= n,
                    len == end - start,
                    len <= bs,
                    q <= len,
                    l_masks@.len() == n,
                    forall|qq: int| start <= qq < end ==> #[trigger] (qq / bs) == block_id,
                    forall|i: int| 0 <= i < stack@.len() ==> #[trigger] stack@[i] < q,
                    forall|i: int, i2: int| 0 <= i < i2 < stack@.len() ==> stack@[i] < stack@[i2],
                    q > 0 ==> forall|j: int| 0 <= j < q ==> (stack@.contains(j as usize) <==> #[trigger] suffix_min(s, start + j, start + q - 1)),
                    q == 0 ==> stack@.len() == 0,
                    forall|qq: int| 0 <= qq < n && qq < start ==> #[trigger] mask_ok(s, (qq / bs) * bs, qq, l_masks@[qq]),
                    forall|qq: int| start <= qq < start + q ==> #[trigger] mask_ok(s, start as int, qq, l_masks@[qq]),
                    forall|qq: int| 0 <= qq < n && qq >= start + q ==> #[trigger] l_masks@[qq] == 0,
                decreases len - q,
            {
                let global_q = start + q;
                let ghost before = stack@;
                // pop every position whose value exceeds the new one
                let mut done = false;
                while !done && stack.len() > 0
                    invariant
                        done ==> stack@.len() > 0 && s[start + stack@[stack@.len() - 1]] <= s[global_q as int],
                        n == s.len(),
                        s == values@,
                        start < end <= n,
                        global_q == start + q,
                        q < len,
                        len == end - start,
                        forall|i: int| 0 <= i < stack@.len() ==> #[trigger] stack@[i] < q,
                        forall|i: int, i2: int| 0 <= i < i2 < stack@.len() ==> stack@[i] < stack@[i2],
                        stack@.len() <= before.len(),
                        forall|i: int| 0 <= i < stack@.len() ==> #[trigger] stack@[i] == before[i],
                        forall|i: int| stack@.len() <= i < before.len() ==> s[start + before[i]] > s[global_q as int],
                    decreases stack@.len() + (if done { 0int } else { 1int }),
                {
                    let top = stack[stack.len() - 1];
                    if is_strictly_less(values.as_slice(), start + top, global_q) {
                        done = true;
                    } else {
                        stack.pop();
                    }
                }
                let g: Option<usize> = if stack.len() > 0 { Some(stack[stack.len() - 1]) } else { None };
                proof {
                    // the remaining stack is exactly the suffix minima of start..=global_q below q
                    assert forall|j: int| 0 <= j < q implies (stack@.contains(j as usize) <==> #[trigger] suffix_min(s, start + j, global_q as int)) by {
                        if q > 0 {
                            assert(before.contains(j as usize) <==> suffix_min(s, start + j, start + q - 1));
                        }
                        if stack@.contains(j as usize) {
                            let i = choose|i: int| 0 <= i < stack@.len() && stack@[i] == j as usize;
                            assert(before[i] == j);
                            assert(before.contains(j as usize));
                            // values along the stack are non-decreasing, and the top is not above the new value
                            let it = stack@.len() - 1;
                            if i < it {
                                assert(before.contains(before[it]));
                                assert(suffix_min(s, start + j, start + q - 1));
                                assert(s[start + j] <= s[start + before[it]]);
                            }
                            assert(done || stack@.len() == 0 || s[start + before[it]] <= s[global_q as int]);
                        } else {
                            if suffix_min(s, start + j, global_q as int) {
                                assert(suffix_min(s, start + j, start + q - 1));
                                assert(before.contains(j as usize));
                                let i = choose|i: int| 0 <= i < before.len() && before[i] == j as usize;
                                if i < stack@.len() {
                                    assert(stack@[i] == j);
                                    assert(stack@.contains(j as usize));
                                } else {
                                    assert(s[start + before[i]] > s[global_q as int]);
                                }
                            }
                        }
                    }
                }
                if q > 0 {
                    match g {
                        Some(p) => {
                            let global_p = start + p;
                            proof {
                                assert(stack@.contains(p));
                                assert(mask_ok(s, start as int, global_p as int, l_masks@[global_p as int]));
                            }
                            let mask = l_masks[global_p] | (1u64 << (p as u64));
                            proof {
                                assert forall|j: int| 0 <= j < 64 implies (#[trigger] bit(mask, j) <==> (start + j < global_q && suffix_min(s, start + j, global_q as int))) by {
                                    let mg = l_masks@[global_p as int];
                                    lemma_bit_or_shift(mg, p as u64, j as u64);
                                    assert(bit(mask, j) <==> (bit(mg, j) || j == p));
                                    assert(bit(mg, j) <==> (start + j < global_p && suffix_min(s, start + j, global_p as int)));
                                    assert(stack@[stack@.len() - 1] == p);
                                    if j == p {
                                        assert(suffix_min(s, start + p, global_q as int));
                                    } else if j < p {
                                        assert(suffix_min(s, start + p, global_q as int));
                                        if suffix_min(s, start + j, global_p as int) {
                                            assert forall|k: int| start + j < k <= global_q implies s[start + j] <= #[trigger] s[k] by {
                                                if k > global_p {
                                                    assert(s[start + p] <= s[k]);
                                                    assert(s[start + j] <= s[global_p as int]);
                                                }
                                            }
                                        }
                                        if suffix_min(s, start + j, global_q as int) {
                                            assert forall|k: int| start + j < k <= global_p implies s[start + j] <= #[trigger] s[k] by {
                                            }
                                        }
                                    } else if j < q {
                                        if suffix_min(s, start + j, global_q as int) {
                                            assert(stack@.contains(j as usize));
                                            let i = choose|i: int| 0 <= i < stack@.len() && stack@[i] == j as usize;
                                            if i < stack@.len() - 1 {
                                                assert(stack@[i] < stack@[stack@.len() - 1]);
                                            }
                                            assert(false);
                                        }
                                    }
                                }
                            }
                            l_masks.set(global_q, mask);
                        }
                        None => {
                            proof {
                                assert forall|j: int| 0 <= j < 64 implies (#[trigger] bit(0, j) <==> (start + j < global_q && suffix_min(s, start + j, global_q as int))) by {
                                    lemma_zero_bits(j);
                                    if j < q && suffix_min(s, start + j, global_q as int) {
                                        assert(stack@.contains(j as usize));
                                    }
                                }
                                assert(l_masks@[global_q as int] == 0);
                            }
                        }
                    }
                } else {
                    proof {
                        assert forall|j: int| 0 <= j < 64 implies (#[trigger] bit(0, j) <==> (start + j < global_q && suffix_min(s, start + j, global_q as int))) by {
                            lemma_zero_bits(j);
                        }
                    }
                }
                let ghost pre_push = stack@;
                stack.push(q);
                proof {
                    assert(stack@ == pre_push.push(q));
                    assert forall|j: int| 0 <= j < q + 1 implies (stack@.contains(j as usize) <==> #[trigger] suffix_min(s, start + j, start + (q + 1) - 1)) by {
                        if j == q {
                            assert(stack@[stack@.len() - 1] == q);
                        } else {
                            if stack@.contains(j as usize) {
                                let i = choose|i: int| 0 <= i < stack@.len() && stack@[i] == j as usize;
                                assert(i < pre_push.len());
                                assert(pre_push[i] == j);
                                assert(pre_push.contains(j as usize));
                            } else {
                                if suffix_min(s, start + j, global_q as int) {
                                    assert(pre_push.contains(j as usize));
                                    let i = choose|i: int| 0 <= i < pre_push.len() && pre_push[i] == j as usize;
                                    assert(stack@[i] == j);
                                }
                            }
                        }
                    }
                }
                q += 1;
            }
            // the leftmost minimum of the block
            let mut best_local: usize = 0;
            let mut best_val = values[start];
            let mut i: usize = 1;
            proof {
                lemma_leftmost_min_single(s, start as int);
            }
            while i < len
                invariant
                    n == s.len(),
                    s == values@,
                    start < end <= n,
                    len == end - start,
                    1 <= i <= len,
                    best_local < i,
                    best_val == s[start + best_local],
                    is_leftmost_min(s, start as int, start + i, start + best_local),
                decreases len - i,
            {
                let v = values[start + i];
                if v < best_val {
                    best_local = i;
                    best_val = v;
                }
                i += 1;
            }
            block_mins.push(start + best_local);
            proof {
                assert(bound(n as int, bs, block_id as int) == start);
                assert((block_id + 1) * bs == start + bs) by (nonlinear_arith)
                    requires start == block_id * bs;
                assert(bound(n as int, bs, block_id + 1) == end);
                assert forall|qq: int| 0 <= qq < n && qq < (block_id + 1) * bs implies #[trigger] mask_ok(s, (qq / bs) * bs, qq, l_masks@[qq]) by {
                    if qq >= start {
                        assert(qq / bs == block_id);
                    }
                }
            }
            block_id += 1;
        }
        proof {
            assert(blocks_len <= n) by (nonlinear_arith)
                requires (blocks_len - 1) * bs < n, bs >= 1;
        }
        let block_mins_st = IndexSparseTable::new(values.as_slice(), block_mins, Ghost(bs));
        Self { values, block_size, l_masks, block_mins_st }
    }

    fn argmin(&self, range: Range<usize>) -> (res: Option<usize>) {
        let n = self.values.len();
        if range.start >= range.end || range.end > n {
            return None;
        }
        if n == 0 {
            return None;
        }
        let ghost s = self.values@;
        let bs = self.block_size;
        let l = range.start;
        let r = range.end - 1;
        let bl = l / bs;
        let br = r / bs;
        proof {
            lemma_fundamental_div_mod(l as int, bs as int);
            lemma_fundamental_div_mod(r as int, bs as int);
            assert(bl <= br) by {
                vstd::arithmetic::div_mod::lemma_div_is_ordered(l as int, r as int, bs as int);
            }
            assert(mask_ok(s, (l as int / (bs as int)) * (bs as int), l as int, self.l_masks@[l as int]));
            assert(0 <= r < s.len());
            assert(mask_ok(s, (r as int / (bs as int)) * (bs as int), r as int, self.l_masks@[r as int]));
            assert(bl * bs <= l < bl * bs + bs) by (nonlinear_arith)
                requires l == bs * bl + l % bs, 0 <= l % bs < bs;
            assert(br * bs <= r < br * bs + bs) by (nonlinear_arith)
                requires r == bs * br + r % bs, 0 <= r % bs < bs;
            assert((bl + 1) * bs == bl * bs + bs) by (nonlinear_arith);
            assert((br + 1) * bs == br * bs + bs) by (nonlinear_arith);
        }
        if bl == br {
            let block_start = bl * bs;
            let block_end = if (bl + 1) * bs < n { (bl + 1) * bs } else { n };
            let block_len = block_end - block_start;
            let local_l = l - block_start;
            let local_r = r - block_start;
            return Some(Self::block_argmin(block_start, block_len, self.l_masks.as_slice(), local_l, local_r, Ghost(s)));
        }
        proof {
            assert(bl * bs + bs <= br * bs) by (nonlinear_arith)
                requires bl < br, bs >= 1;
        }
        let left_start = bl * bs;
        let left_end = if (bl + 1) * bs < n { (bl + 1) * bs } else { n };
        let left_len = left_end - left_start;
        let left_local_l = l - left_start;
        proof {
            assert(left_end == (bl + 1) * bs);
            assert(mask_ok(s, ((left_end - 1) as int / bs as int) * bs, left_end - 1, self.l_masks@[left_end - 1]));
            lemma_fundamental_div_mod_converse(left_end - 1, bs as int, bl as int, bs - 1);
        }
        let left = Self::block_argmin(left_start, left_len, self.l_masks.as_slice(), left_local_l, left_len - 1, Ghost(s));
        let right_start = br * bs;
        let right_end = if (br + 1) * bs < n { (br + 1) * bs } else { n };
        let right_len = right_end - right_start;
        let right_local_r = r - right_start;
        let right = Self::block_argmin(right_start, right_len, self.l_masks.as_slice(), 0, right_local_r, Ghost(s));
        proof {
            assert(bl * bs + bs <= br * bs) by (nonlinear_arith)
                requires bl < br, bs >= 1;
        }
        let mut ans = better_index_ordered(self.values.as_slice(), left, right);
        proof {
            if bl + 1 == br {
                lemma_leftmost_min_concat(s, l as int, left_end as int, r + 1, left as int, right as int);
            }
        }
        if bl + 1 < br {
            proof {
                let m = self.block_mins_st.n as int;
                lemma_fundamental_div_mod((n + bs - 1) as int, bs as int);
                assert(br < m) by (nonlinear_arith)
                    requires br * bs <= r, r < n, n <= m * bs, bs >= 1;
            }
            let mid = self.block_mins_st.argmin_assume_valid(self.values.as_slice(), bl + 1, br, Ghost(bs as int));
            proof {
                assert(bound(n as int, bs as int, bl + 1) == left_end);
                assert(bound(n as int, bs as int, br as int) == right_start);
                lemma_three_ranges(s, l as int, left_end as int, right_start as int, r + 1, left as int, mid as int, right as int);
            }
            ans = better_index(self.values.as_slice(), ans, mid);
        }
        Some(ans)
    }
}

} // verus!
