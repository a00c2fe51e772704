use vstd::prelude::*;
use vstd::arithmetic::power2::{pow2, lemma2_to64, lemma_pow2_unfold, lemma_pow2_pos, lemma_pow2_strictly_increases, lemma_pow2_adds};
use std::ops::Range;

use crate::rmq::{StaticRmq, is_leftmost_min, rmq_answer, rmq_len_ok, lemma_leftmost_min_concat, lemma_leftmost_min_single};
use crate::rmq::util::better_index_ordered;

verus! {

/// Marks an empty node.
pub const NONE: usize = usize::MAX;

/// What a node over `[lo, hi)` (clipped to the values) must hold.
pub open spec fn entry_ok(s: Seq<i64>, lo: int, hi: int, t: usize) -> bool {
    let h2 = if hi <= s.len() { hi } else { s.len() as int };
    if lo < h2 {
        is_leftmost_min(s, lo, h2, t as int)
    } else {
        t == NONE
    }
}

/// Node `k` at height `h` covers leaves `[k * 2^h - size, (k + 1) * 2^h - size)`.
pub open spec fn tree_node_ok(s: Seq<i64>, size: int, tree: Seq<usize>, k: int, h: nat) -> bool {
    (1 <= k && size <= k * pow2(h) < 2 * size) ==> entry_ok(
        s,
        k * pow2(h) - size,
        (k + 1) * pow2(h) - size,
        tree[k],
    )
}

/// Combine two entries; `a`'s range lies left of `b`'s.
fn better_or_none_ordered(values: &[i64], a: usize, b: usize) -> (r: usize)
    requires
        a == NONE || a < values@.len(),
        b == NONE || b < values@.len(),
        a != NONE && b != NONE ==> a < b,
    ensures
        r == if a == NONE {
            b
        } else if b == NONE {
            a
        } else if values@[a as int] <= values@[b as int] {
            a
        } else {
            b
        },
{
    if a == NONE {
        return b;
    }
    if b == NONE {
        return a;
    }
    better_index_ordered(values, a, b)
}

proof fn lemma_entry_combine(s: Seq<i64>, lo: int, mid: int, hi: int, a: usize, b: usize)
    requires
        0 <= lo <= mid <= hi,
        s.len() < NONE,
        entry_ok(s, lo, mid, a),
        entry_ok(s, mid, hi, b),
    ensures
        a == NONE || a < s.len(),
        b == NONE || b < s.len(),
        a != NONE && b != NONE ==> a < b,
        entry_ok(
            s,
            lo,
            hi,
            if a == NONE {
                b
            } else if b == NONE {
                a
            } else if s[a as int] <= s[b as int] {
                a
            } else {
                b
            },
        ),
{
    let n = s.len() as int;
    let m2 = if mid <= n { mid } else { n };
    let h2 = if hi <= n { hi } else { n };
    if lo < m2 && m2 < h2 {
        lemma_leftmost_min_concat(s, lo, m2, h2, a as int, b as int);
    }
}

pub struct SegmentTreeRmq {
    values: Vec<i64>,
    size: usize,
    tree: Vec<usize>,
    height: Ghost<nat>,
}

impl SegmentTreeRmq {
    pub closed spec fn spec_values(&self) -> Seq<i64> {
        self.values@
    }

    pub closed spec fn inv(&self) -> bool {
        let n = self.values@.len();
        &&& n < NONE
        &&& rmq_len_ok(n)
        &&& n == 0 ==> self.size == 0 && self.tree@.len() == 0
        &&& n > 0 ==> {
            &&& self.size == pow2(self.height@)
            &&& n <= self.size
            &&& self.size <= usize::MAX / 16
            &&& self.tree@.len() == 2 * self.size
            &&& forall|k: int, h: nat| #[trigger] tree_node_ok(self.values@, self.size as int, self.tree@, k, h)
        }
    }

    /// Number of values.
    pub fn len(&self) -> (r: usize)
        ensures
            r == self.spec_values().len(),
    {
        self.values.len()
    }

    /// Whether there are no values.
    pub fn is_empty(&self) -> (r: bool)
        ensures
            r == (self.spec_values().len() == 0),
    {
        self.values.len() == 0
    }
}

pub(crate) fn copy_values(values: &[i64]) -> (v: Vec<i64>)
    ensures
        v@ == values@,
{
    let mut v: Vec<i64> = Vec::with_capacity(values.len());
    let mut i: usize = 0;
    while i < values.len()
        invariant
            i <= values@.len(),
            v@ == values@.subrange(0, i as int),
        decreases values@.len() - i,
    {
        v.push(values[i]);
        i += 1;
        assert(v@ =~= values@.subrange(0, i as int));
    }
    assert(v@ =~= values@);
    v
}

proof fn lemma_pow2_ge_two(h: nat)
    requires
        h >= 1,
    ensures
        pow2(h) >= 2,
{
    lemma_pow2_unfold(h);
    lemma_pow2_pos((h - 1) as nat);
}

/// Children of an internal node at height `h` are nodes at height `h - 1`.
proof fn lemma_children_in_range(size: int, big_h: nat, i: int, h: nat)
    requires
        size == pow2(big_h),
        1 <= i < size,
        size <= i * pow2(h) < 2 * size,
    ensures
        h >= 1,
        pow2(h) == 2 * pow2((h - 1) as nat),
        size <= (2 * i) * pow2((h - 1) as nat) < 2 * size,
        size <= (2 * i + 1) * pow2((h - 1) as nat) < 2 * size,
        (2 * i + 1) * pow2((h - 1) as nat) == i * pow2(h) + pow2((h - 1) as nat),
        (2 * i + 2) * pow2((h - 1) as nat) == (i + 1) * pow2(h),
        (2 * i) * pow2((h - 1) as nat) == i * pow2(h),
{
    if h == 0 {
        lemma2_to64();
        assert(i * pow2(h) == i);
    }
    lemma_pow2_unfold(h);
    let w = pow2((h - 1) as nat);
    lemma_pow2_pos((h - 1) as nat);
    // 2 * size is a multiple of 2^h
    if h > big_h + 1 {
        lemma_pow2_strictly_increases(big_h + 1, h);
        lemma_pow2_unfold(big_h + 1);
        assert(i * pow2(h) >= pow2(h)) by (nonlinear_arith)
            requires i >= 1, pow2(h) > 0;
    }
    assert(h <= big_h + 1);
    lemma_pow2_adds(h, (big_h + 1 - h) as nat);
    lemma_pow2_unfold(big_h + 1);
    let q = pow2((big_h + 1 - h) as nat);
    assert(2 * size == pow2(h) * q);
    assert(i * pow2(h) + pow2(h) <= 2 * size) by (nonlinear_arith)
        requires i * pow2(h) < pow2(h) * q, pow2(h) > 0, 2 * size == pow2(h) * q;
    assert((2 * i) * w == i * pow2(h)) by (nonlinear_arith)
        requires pow2(h) == 2 * w;
    assert((2 * i + 1) * w == i * pow2(h) + w) by (nonlinear_arith)
        requires pow2(h) == 2 * w;
    assert((2 * i + 2) * w == (i + 1) * pow2(h)) by (nonlinear_arith)
        requires pow2(h) == 2 * w;
}

impl StaticRmq for SegmentTreeRmq {
    open spec fn values(&self) -> Seq<i64> {
        self.spec_values()
    }

    open spec fn wf(&self) -> bool {
        self.inv()
    }

    fn new(values: &[i64]) -> (res: Self) {
        let n = values.len();
        let values = copy_values(values);
        if n == 0 {
            return Self { values, size: 0, tree: Vec::new(), height: Ghost(0) };
        }
        let mut size: usize = 1;
        let ghost mut big_h: nat = 0;
        proof {
            lemma2_to64();
        }
        while size < n
            invariant
                size == pow2(big_h),
                1 <= size,
                n <= usize::MAX / 64,
                size < 2 * n,
            decreases 2 * n - size,
        {
            proof {
                lemma_pow2_unfold(big_h + 1);
            }
            size = size * 2;
            proof {
                big_h = big_h + 1;
            }
        }
        let mut tree: Vec<usize> = vec![NONE; 2 * size];
        let mut i: usize = 0;
        while i < n
            invariant
                n == values@.len(),
                n <= size,
                i <= n,
                tree@.len() == 2 * size,
                size <= usize::MAX / 16,
                forall|j: int| 0 <= j < 2 * size ==> #[trigger] tree@[j] == if size <= j < size + i { (j - size) as usize } else { NONE },
            decreases n - i,
        {
            tree.set(size + i, i);
            i += 1;
        }
        // leaves: height 0 only
        let ghost s = values@;
        assert forall|k: int, h: nat| k >= size implies #[trigger] tree_node_ok(s, size as int, tree@, k, h) by {
            if 1 <= k && size <= k * pow2(h) < 2 * size {
                if h >= 1 {
                    lemma_pow2_ge_two(h);
                    assert(k * pow2(h) >= 2 * k) by (nonlinear_arith)
                        requires pow2(h) >= 2, k >= 0;
                    assert(false);
                }
                assert(h == 0);
                lemma2_to64();
                assert(pow2(h) == 1);
                assert(k * pow2(h) == k) by (nonlinear_arith) requires pow2(h) == 1;
                assert((k + 1) * pow2(h) == k + 1) by (nonlinear_arith) requires pow2(h) == 1;
                assert(k < 2 * size);
                if k - size < n {
                    lemma_leftmost_min_single(s, k - size);
                    assert(tree@[k] == (k - size) as usize);
                } else {
                    assert(tree@[k] == NONE);
                }
            }
        }
        let mut i: usize = size - 1;
        while i >= 1
            invariant
                n == values@.len(),
                s == values@,
                1 <= n <= size,
                size == pow2(big_h),
                size <= usize::MAX / 16,
                i < size,
                tree@.len() == 2 * size,
                forall|k: int, h: nat| k > i ==> #[trigger] tree_node_ok(s, size as int, tree@, k, h),
            decreases i,
        {
            let a = tree[2 * i];
            let b = tree[2 * i + 1];
            proof {
                // establish the preconditions from some height where both children live
                lemma_node_at_height(size as int, big_h, i as int);
                let hh = choose|hh: nat| size <= (i as int) * #[trigger] pow2(hh) < 2 * size;
                lemma_children_in_range(size as int, big_h, i as int, hh);
                let w = pow2((hh - 1) as nat);
                assert((2 * i + 1) * w <= (2 * i + 2) * w) by (nonlinear_arith)
                    requires w >= 0;
                assert((2 * i) * w <= (2 * i + 1) * w) by (nonlinear_arith)
                    requires w >= 0;
                assert(tree_node_ok(s, size as int, tree@, 2 * i, (hh - 1) as nat));
                assert(tree_node_ok(s, size as int, tree@, 2 * i + 1, (hh - 1) as nat));
                lemma_entry_combine(s, (2 * i) * w - size, (2 * i + 1) * w - size, (2 * i + 2) * w - size, a, b);
            }
            let best = better_or_none_ordered(&values, a, b);
            let ghost old_tree = tree@;
            tree.set(i, best);
            proof {
                assert forall|k: int, h: nat| k > i - 1 implies #[trigger] tree_node_ok(s, size as int, tree@, k, h) by {
                    if k == i {
                        if 1 <= k && size <= k * pow2(h) < 2 * size {
                            lemma_children_in_range(size as int, big_h, i as int, h);
                            let w = pow2((h - 1) as nat);
                            assert((2 * i + 1) * w <= (2 * i + 2) * w) by (nonlinear_arith)
                                requires w >= 0;
                            assert((2 * i) * w <= (2 * i + 1) * w) by (nonlinear_arith)
                                requires w >= 0;
                            assert(tree_node_ok(s, size as int, old_tree, 2 * i, (h - 1) as nat));
                            assert(tree_node_ok(s, size as int, old_tree, 2 * i + 1, (h - 1) as nat));
                            assert(a == old_tree[2 * i]);
                            assert(b == old_tree[2 * i + 1]);
                            lemma_entry_combine(s, (2 * i) * w - size, (2 * i + 1) * w - size, (2 * i + 2) * w - size, a, b);
                            assert(tree@[k] == best);
                            assert(k * pow2(h) == (2 * i) * w);
                            assert((k + 1) * pow2(h) == (2 * i + 2) * w);
                        }
                    } else {
                        assert(tree_node_ok(s, size as int, old_tree, k, h));
                        if 1 <= k && size <= k * pow2(h) < 2 * size {
                            lemma_pow2_pos(h);
                            assert(k <= k * pow2(h)) by (nonlinear_arith)
                                requires pow2(h) >= 1, k >= 1;
                            assert(tree@[k] == old_tree[k]);
                        }
                    }
                }
            }
            i -= 1;
        }
        Self { values, size, tree, height: Ghost(big_h) }
    }

    fn argmin(&self, range: Range<usize>) -> (res: Option<usize>) {
        let n = self.values.len();
        if range.start >= range.end || range.end > n {
            return None;
        }
        let start = range.start;
        let end = range.end;
        let size = self.size;
        let ghost s = self.values@;
        let mut l = start + size;
        let mut r = end + size;
        let mut left = NONE;
        let mut right = NONE;
        let values = &self.values;
        let tree = &self.tree;
        let ghost mut h: nat = 0;
        proof {
            lemma2_to64();
        }
        while l < r
            invariant
                s == values@,
                n == s.len(),
                0 <= start < end <= n <= size,
                size <= usize::MAX / 16,
                tree@.len() == 2 * size,
                forall|k: int, hh: nat| #[trigger] tree_node_ok(s, size as int, tree@, k, hh),
                l <= r,
                start + size <= l * pow2(h) <= r * pow2(h) <= end + size,
                pow2(h) >= 1,
                entry_ok(s, start as int, l * pow2(h) - size, left),
                entry_ok(s, r * pow2(h) - size, end as int, right),
                n < NONE,
            decreases r - l,
        {
            let ghost w = pow2(h);
            assert(l < 2 * size) by (nonlinear_arith)
                requires l < r, r * w <= end + size, end <= size, w >= 1;
            assert(r <= 2 * size) by (nonlinear_arith)
                requires r * w <= end + size, end <= size, w >= 1;
            assert((l & 1) == 1 <==> l % 2 == 1) by (bit_vector);
            if (l & 1) == 1 {
                proof {
                    assert(tree_node_ok(s, size as int, tree@, l as int, h));
                    assert((l + 1) * w <= r * w) by (nonlinear_arith)
                        requires l < r, w >= 1;
                    assert((l + 1) * w == l * w + w) by (nonlinear_arith);
                    assert(l >= 1) by (nonlinear_arith)
                        requires l * w >= size + start, size >= 1, l * w >= 0, w >= 1;
                    lemma_entry_combine(s, start as int, l * w - size, (l + 1) * w - size, left, tree@[l as int]);
                }
                left = better_or_none_ordered(values, left, tree[l]);
                l += 1;
            }
            assert((r & 1) == 1 <==> r % 2 == 1) by (bit_vector);
            if (r & 1) == 1 {
                proof {
                    assert((r - 1) * w == r * w - w) by (nonlinear_arith);
                    assert(l * w <= (r - 1) * w) by (nonlinear_arith)
                        requires l <= r - 1, w >= 1;
                    assert(r >= 1);
                    assert(r - 1 >= 1) by (nonlinear_arith)
                        requires (r - 1) * w >= size + start, size >= 1, w >= 1, r >= 1;
                    assert(tree_node_ok(s, size as int, tree@, r - 1, h));
                    lemma_entry_combine(s, (r - 1) * w - size, r * w - size, end as int, tree@[r - 1], right);
                }
                r -= 1;
                right = better_or_none_ordered(values, tree[r], right);
            }
            proof {
                // both are even now
                if l < r || l == r {
                }
            }
            assert(l % 2 == 0 || l == r);
            let ghost lo = l;
            let ghost ro = r;
            assert(l >> 1 == l / 2) by (bit_vector);
            assert(r >> 1 == r / 2) by (bit_vector);
            l >>= 1;
            r >>= 1;
            proof {
                lemma_pow2_unfold(h + 1);
                let w2 = pow2(h + 1);
                assert(w2 == 2 * w);
                if lo % 2 == 0 {
                    assert(l * w2 == lo * w) by (nonlinear_arith)
                        requires w2 == 2 * w, lo == 2 * l;
                }
                assert(ro % 2 == 0);
                assert(r * w2 == ro * w) by (nonlinear_arith)
                    requires w2 == 2 * w, ro == 2 * r;
                if lo % 2 != 0 {
                    // lo == ro, odd is impossible since ro is even
                    assert(false);
                }
                h = h + 1;
            }
        }
        proof {
            lemma_entry_combine(s, start as int, l * pow2(h) - size, end as int, left, right);
        }
        let ans = better_or_none_ordered(values, left, right);
        if ans != NONE {
            Some(ans)
        } else {
            None
        }
    }
}

/// Every internal node lies at some height.
proof fn lemma_node_at_height(size: int, big_h: nat, i: int)
    requires
        size == pow2(big_h),
        1 <= i < size,
    ensures
        exists|hh: nat| size <= i * #[trigger] pow2(hh) < 2 * size,
    decreases size - i,
{
    if 2 * i >= size {
        lemma_pow2_unfold(1);
        lemma2_to64();
        assert(size <= i * pow2(1) < 2 * size);
    } else {
        lemma_node_at_height(size, big_h, 2 * i);
        let hh = choose|hh: nat| size <= (2 * i) * #[trigger] pow2(hh) < 2 * size;
        lemma_pow2_unfold(hh + 1);
        assert(i * pow2(hh + 1) == (2 * i) * pow2(hh)) by (nonlinear_arith)
            requires pow2(hh + 1) == 2 * pow2(hh);
        assert(size <= i * pow2(hh + 1) < 2 * size);
    }
}

} // verus!
