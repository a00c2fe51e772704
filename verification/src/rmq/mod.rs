//! Static range-minimum queries.
//!
//! Query ranges are half-open `[l, r)`; the answer is the index of the
//! leftmost minimum, or `None` when the range is empty or out of bounds.

use vstd::prelude::*;
use std::ops::Range;

pub mod util;
pub mod segment_tree;
pub mod sparse_table;
pub mod disjoint_sparse_table;
pub mod alstrup;

pub use segment_tree::SegmentTreeRmq;
pub use sparse_table::SparseTableRmq;
pub use disjoint_sparse_table::DisjointSparseTableRmq;
pub use alstrup::AlstrupRmq;




verus! {

/// `i` is the leftmost position of a minimum of `s` on `[l, r)`.
pub open spec fn is_leftmost_min(s: Seq<i64>, l: int, r: int, i: int) -> bool {
    &&& l <= i < r
    &&& forall|j: int| l <= j < r ==> s[i] <= #[trigger] s[j]
    &&& forall|j: int| l <= j < i ==> s[i] < #[trigger] s[j]
}

/// The answer a query on `[l, r)` must give over `s`.
pub open spec fn rmq_answer(s: Seq<i64>, l: int, r: int, res: Option<usize>) -> bool {
    match res {
        Some(i) => l < r <= s.len() && is_leftmost_min(s, l, r, i as int),
        None => !(l < r <= s.len()),
    }
}

/// Largest input these tables are built for: every index table fits in `usize`.
pub open spec fn rmq_len_ok(n: nat) -> bool {
    n <= usize::MAX / 64
}

/// Static RMQ interface.
pub trait StaticRmq: Sized {
    /// The values the structure answers queries over.
    spec fn values(&self) -> Seq<i64>;

    /// The internal tables agree with `values`.
    spec fn wf(&self) -> bool;

    fn new(values: &[i64]) -> (res: Self)
        requires
            rmq_len_ok(values@.len()),
        ensures
            res.wf(),
            res.values() == values@,
    ;

    fn argmin(&self, range: Range<usize>) -> (res: Option<usize>)
        requires
            self.wf(),
        ensures
            rmq_answer(self.values(), range.start as int, range.end as int, res),
    ;
}

/// There is at most one leftmost minimum.
pub proof fn lemma_leftmost_min_unique(s: Seq<i64>, l: int, r: int, i: int, j: int)
    requires
        is_leftmost_min(s, l, r, i),
        is_leftmost_min(s, l, r, j),
    ensures
        i == j,
{
    if i < j {
        assert(s[j] < s[i]);
    } else if j < i {
        assert(s[i] < s[j]);
    }
}

/// Any two structures built on the same values answer every query alike.
pub proof fn law_answers_agree(s: Seq<i64>, l: int, r: int, a: Option<usize>, b: Option<usize>)
    requires
        rmq_answer(s, l, r, a),
        rmq_answer(s, l, r, b),
    ensures
        a == b,
{
    if a is Some && b is Some {
        lemma_leftmost_min_unique(s, l, r, a.unwrap() as int, b.unwrap() as int);
    }
}

/// Every non-empty range inside the values has an answer, and it is one of its positions.
pub proof fn law_answer_exists(s: Seq<i64>, l: int, r: int, a: Option<usize>)
    requires
        rmq_answer(s, l, r, a),
        0 <= l < r <= s.len(),
    ensures
        a is Some,
        l <= a.unwrap() < r,
        forall|j: int| l <= j < r ==> s[a.unwrap() as int] <= #[trigger] s[j],
{
}

/// A single position is its own minimum.
pub proof fn lemma_leftmost_min_single(s: Seq<i64>, i: int)
    ensures
        is_leftmost_min(s, i, i + 1, i),
{
}

/// Minima of two adjacent ranges combine, the left one winning ties.
pub proof fn lemma_leftmost_min_concat(s: Seq<i64>, l: int, m: int, r: int, a: int, b: int)
    requires
        is_leftmost_min(s, l, m, a),
        is_leftmost_min(s, m, r, b),
    ensures
        is_leftmost_min(s, l, r, if s[a] <= s[b] { a } else { b }),
{
    if s[a] <= s[b] {
        assert forall|j: int| l <= j < r implies s[a] <= #[trigger] s[j] by {
            if j >= m {
                assert(s[b] <= s[j]);
            }
        }
    } else {
        assert forall|j: int| l <= j < r implies s[b] <= #[trigger] s[j] by {
            if j < m {
                assert(s[a] <= s[j]);
            }
        }
        assert forall|j: int| l <= j < b implies s[b] < #[trigger] s[j] by {
            if j < m {
                assert(s[a] <= s[j]);
            }
        }
    }
}

/// The better of two candidate positions: smaller value, then smaller index.
pub open spec fn better(s: Seq<i64>, a: int, b: int) -> int {
    if s[a] < s[b] || (s[a] == s[b] && a < b) { a } else { b }
}

/// Minima of two overlapping (or adjacent) ranges combine into the minimum of their union.
pub proof fn lemma_leftmost_min_overlap(s: Seq<i64>, l: int, m1: int, m2: int, r: int, a: int, b: int)
    requires
        l <= m1 <= m2 <= r,
        is_leftmost_min(s, l, m2, a),
        is_leftmost_min(s, m1, r, b),
    ensures
        is_leftmost_min(s, l, r, better(s, a, b)),
{
    let c = better(s, a, b);
    assert forall|j: int| l <= j < r implies s[c] <= #[trigger] s[j] by {
        if j < m2 {
            assert(s[a] <= s[j]);
        } else {
            assert(s[b] <= s[j]);
        }
    }
    assert forall|j: int| l <= j < c implies s[c] < #[trigger] s[j] by {
        if c == a {
            assert(s[a] < s[j]);
        } else {
            if j < m1 {
                assert(s[a] <= s[j]);
                if j < a {
                    assert(s[a] < s[j]);
                }
            } else {
                assert(s[b] < s[j]);
            }
        }
    }
}

} // verus!
