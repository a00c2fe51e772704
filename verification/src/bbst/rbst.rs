use vstd::prelude::*;
use std::ops::Range;

use crate::bbst::policy::{LazyMapMonoid, fold, act_seq, lemma_fold_concat, lemma_fold_single, lemma_fold_act,
    lemma_act_seq_compose, lemma_act_seq_unit, lemma_act_reverse, lemma_reverse_concat, lemma_act_concat,
    upd, lemma_upd_split, lemma_fold_around};
use crate::bbst::{SequenceBase, SequenceSplitMerge, SequenceAgg, SequenceLazy, SequenceReverse, range_ok,
    lemma_three_parts};

verus! {

/// Implicit randomized binary search tree.
pub struct ImplicitRbst<P: LazyMapMonoid> {
    root: Option<Box<Node<P>>>,
    len: usize,
    rng: XorShift64,
}

/// Marsaglia's xorshift generator on 64 bits.
#[derive(Clone, Copy)]
struct XorShift64 {
    state: u64,
}

impl XorShift64 {
    fn new(seed: u64) -> (r: Self)
        ensures
            r.state == seed,
    {
        Self { state: seed }
    }

    fn next_u64(&mut self) -> (r: u64)
        ensures
            r == final(self).state,
    {
        let mut x = self.state;
        x ^= x << 13u64;
        x ^= x >> 7u64;
        x ^= x << 17u64;
        self.state = x;
        x
    }

    /// A generator seeded from this one.
    fn fork(&mut self) -> (r: Self)
        ensures
            r.state == final(self).state,
    {
        let seed = self.next_u64();
        Self::new(seed)
    }
}

/// Seed used by `new`.
const DEFAULT_SEED: u64 = 0x5EED_1B57;

struct Node<P: LazyMapMonoid> {
    key: P::Key,
    agg: P::Agg,
    agg_rev: P::Agg,
    lazy: P::Act,
    lazy_pending: bool,
    rev: bool,
    size: u32,
    left_size: u32,
    left: Option<Box<Node<P>>>,
    right: Option<Box<Node<P>>>,
}

/// What pending tags do to a child's keys: reverse them, then apply the action.
spec fn pend<P: LazyMapMonoid>(rev: bool, pending: bool, lazy: P::Act, s: Seq<P::Key>) -> Seq<P::Key> {
    let t = if rev { s.reverse() } else { s };
    if pending { act_seq::<P>(t, lazy) } else { t }
}

/// Keys of a subtree in order, with every pending tag applied.
spec fn lview<P: LazyMapMonoid>(l: Option<Box<Node<P>>>) -> Seq<P::Key>
    decreases l,
{
    match l {
        None => Seq::empty(),
        Some(n) => pend::<P>(n.rev, n.lazy_pending, n.lazy, lview::<P>(n.left)) + seq![n.key]
            + pend::<P>(n.rev, n.lazy_pending, n.lazy, lview::<P>(n.right)),
    }
}

/// Sizes and aggregates of every node describe its subtree.
spec fn lwf<P: LazyMapMonoid>(l: Option<Box<Node<P>>>) -> bool
    decreases l,
{
    match l {
        None => true,
        Some(n) => {
            &&& lwf::<P>(n.left)
            &&& lwf::<P>(n.right)
            &&& n.size == lview::<P>(l).len()
            &&& n.left_size == lview::<P>(n.left).len()
            &&& n.agg == fold::<P>(lview::<P>(l))
            &&& n.agg_rev == fold::<P>(lview::<P>(l).reverse())
            &&& (!n.lazy_pending ==> n.lazy == P::spec_act_unit())
        }
    }
}

spec fn nview<P: LazyMapMonoid>(n: Node<P>) -> Seq<P::Key> {
    lview::<P>(Some(Box::new(n)))
}

spec fn nwf<P: LazyMapMonoid>(n: Node<P>) -> bool {
    lwf::<P>(Some(Box::new(n)))
}

/// The length of a subtree.
spec fn llen<P: LazyMapMonoid>(l: Option<Box<Node<P>>>) -> nat {
    lview::<P>(l).len()
}

/// A node without children holds its own key only.
proof fn lemma_leaf<P: LazyMapMonoid>(n: Node<P>)
    requires
        n.left is None,
        n.right is None,
    ensures
        nview::<P>(n) == seq![n.key],
{
    let e = Seq::<P::Key>::empty();
    assert(lview::<P>(n.left) == e);
    assert(lview::<P>(n.right) == e);
    assert(e.reverse() =~= e);
    assert(act_seq::<P>(e, n.lazy) =~= e);
    assert(act_seq::<P>(e.reverse(), n.lazy) =~= e);
    assert(nview::<P>(n) =~= seq![n.key]);
}

proof fn lemma_pend_len<P: LazyMapMonoid>(rev: bool, pending: bool, lazy: P::Act, s: Seq<P::Key>)
    ensures
        pend::<P>(rev, pending, lazy, s).len() == s.len(),
{
}

impl<P: LazyMapMonoid> Node<P> {
    fn new(key: P::Key) -> (n: Self)
        ensures
            nwf::<P>(n),
            nview::<P>(n) == seq![key],
            n.left is None,
            n.right is None,
    {
        let agg = P::agg_from_key(&key);
        let agg_rev = P::agg_copy(&agg);
        let n = Self {
            key,
            agg,
            agg_rev,
            lazy: P::act_unit(),
            lazy_pending: false,
            rev: false,
            size: 1,
            left_size: 0,
            left: None,
            right: None,
        };
        proof {
            lemma_leaf::<P>(n);
            assert(lwf::<P>(n.left));
            assert(lwf::<P>(n.right));
            lemma_fold_single::<P>(n.key);
            assert(seq![n.key].reverse() =~= seq![n.key]);
        }
        n
    }

    fn size(node: &Option<Box<Node<P>>>) -> (r: u32)
        requires
            lwf::<P>(*node),
        ensures
            r == llen::<P>(*node),
    {
        match node {
            Some(n) => n.size,
            None => 0,
        }
    }

    fn agg(node: &Option<Box<Node<P>>>) -> (r: P::Agg)
        requires
            lwf::<P>(*node),
        ensures
            r == fold::<P>(lview::<P>(*node)),
    {
        match node {
            Some(n) => P::agg_copy(&n.agg),
            None => P::agg_unit(),
        }
    }

    fn agg_rev(node: &Option<Box<Node<P>>>) -> (r: P::Agg)
        requires
            lwf::<P>(*node),
        ensures
            r == fold::<P>(lview::<P>(*node).reverse()),
    {
        match node {
            Some(n) => P::agg_copy(&n.agg_rev),
            None => {
                assert(lview::<P>(*node).reverse() =~= Seq::<P::Key>::empty());
                P::agg_unit()
            },
        }
    }

    /// Recompute sizes and aggregates of a node without pending tags.
    fn recalc(&mut self)
        requires
            !old(self).rev,
            !old(self).lazy_pending,
            old(self).lazy == P::spec_act_unit(),
            lwf::<P>(old(self).left),
            lwf::<P>(old(self).right),
            1 + llen::<P>(old(self).left) + llen::<P>(old(self).right) <= u32::MAX,
        ensures
            nwf::<P>(*final(self)),
            nview::<P>(*final(self)) == lview::<P>(old(self).left) + seq![old(self).key] + lview::<P>(old(self).right),
            final(self).left == old(self).left,
            final(self).right == old(self).right,
            final(self).key == old(self).key,
            !final(self).rev,
            !final(self).lazy_pending,
            final(self).lazy == P::spec_act_unit(),
    {
        let left_agg = Self::agg(&self.left);
        let right_agg = Self::agg(&self.right);
        let left_rev = Self::agg_rev(&self.left);
        let right_rev = Self::agg_rev(&self.right);
        let left_size = Self::size(&self.left);
        let right_size = Self::size(&self.right);

        self.left_size = left_size;
        self.size = 1 + left_size + right_size;
        self.agg = P::agg_merge(&left_agg, &self.key, &right_agg);
        self.agg_rev = P::agg_merge(&right_rev, &self.key, &left_rev);
        proof {
            let l = lview::<P>(self.left);
            let r = lview::<P>(self.right);
            lemma_act_seq_unit::<P>(l);
            lemma_act_seq_unit::<P>(r);
            assert(nview::<P>(*self) =~= l + seq![self.key] + r);
            lemma_fold_concat::<P>(l, self.key, r);
            lemma_reverse_concat(l, self.key, r);
            lemma_fold_concat::<P>(r.reverse(), self.key, l.reverse());
        }
    }

    /// Apply `act` to the whole subtree, lazily.
    fn apply_action(&mut self, act: &P::Act)
        requires
            nwf::<P>(*old(self)),
        ensures
            nwf::<P>(*final(self)),
            nview::<P>(*final(self)) == act_seq::<P>(nview::<P>(*old(self)), *act),
            final(self).size == old(self).size,
            final(self).left_size == old(self).left_size,
            final(self).left == old(self).left,
            final(self).right == old(self).right,
            final(self).rev == old(self).rev,
    {
        let ghost before = nview::<P>(*self);
        let ghost l = lview::<P>(self.left);
        let ghost r = lview::<P>(self.right);
        let ghost pl = pend::<P>(self.rev, self.lazy_pending, self.lazy, l);
        let ghost pr = pend::<P>(self.rev, self.lazy_pending, self.lazy, r);
        self.key = P::act_apply_key(&self.key, act);
        let size = self.size as usize;
        self.agg = P::act_apply_agg(&self.agg, act, size);
        self.agg_rev = P::act_apply_agg(&self.agg_rev, act, size);
        self.lazy = P::act_compose(act, &self.lazy);
        self.lazy_pending = true;
        proof {
            let old_key = before[pl.len() as int];
            let t_l = if self.rev { l.reverse() } else { l };
            let t_r = if self.rev { r.reverse() } else { r };
            lemma_act_concat::<P>(pl, old_key, pr, *act);
            // the new tags act as the old ones followed by `act`
            assert(pend::<P>(self.rev, true, self.lazy, l) == act_seq::<P>(pl, *act)) by {
                lemma_act_seq_compose::<P>(t_l, *act, old(self).lazy);
                if !old(self).lazy_pending {
                    lemma_act_seq_unit::<P>(t_l);
                }
            }
            assert(pend::<P>(self.rev, true, self.lazy, r) == act_seq::<P>(pr, *act)) by {
                lemma_act_seq_compose::<P>(t_r, *act, old(self).lazy);
                if !old(self).lazy_pending {
                    lemma_act_seq_unit::<P>(t_r);
                }
            }
            assert(before =~= pl + seq![old_key] + pr);
            assert(nview::<P>(*self) =~= act_seq::<P>(before, *act));
            lemma_fold_act::<P>(before, *act);
            lemma_fold_act::<P>(before.reverse(), *act);
            lemma_act_reverse::<P>(before, *act);
        }
    }

    /// Reverse the whole subtree, lazily.
    fn apply_reverse(&mut self)
        requires
            nwf::<P>(*old(self)),
        ensures
            nwf::<P>(*final(self)),
            nview::<P>(*final(self)) == nview::<P>(*old(self)).reverse(),
            final(self).size == old(self).size,
    {
        let ghost before = nview::<P>(*self);
        proof {
            lemma_pend_len::<P>(self.rev, self.lazy_pending, self.lazy, lview::<P>(self.left));
            lemma_pend_len::<P>(self.rev, self.lazy_pending, self.lazy, lview::<P>(self.right));
        }
        self.rev = !self.rev;
        std::mem::swap(&mut self.left, &mut self.right);
        std::mem::swap(&mut self.agg, &mut self.agg_rev);
        self.left_size = self.size - 1 - self.left_size;
        proof {
            let l = lview::<P>(old(self).left);
            let r = lview::<P>(old(self).right);
            let p = |s: Seq<P::Key>| pend::<P>(old(self).rev, old(self).lazy_pending, old(self).lazy, s);
            let q = |s: Seq<P::Key>| pend::<P>(self.rev, self.lazy_pending, self.lazy, s);
            // q(s) == p(s).reverse()
            assert(q(r) == p(r).reverse()) by {
                if old(self).lazy_pending {
                    lemma_act_reverse::<P>(if old(self).rev { r.reverse() } else { r }, self.lazy);
                    assert(r.reverse().reverse() =~= r);
                } else {
                    assert(r.reverse().reverse() =~= r);
                }
            }
            assert(q(l) == p(l).reverse()) by {
                if old(self).lazy_pending {
                    lemma_act_reverse::<P>(if old(self).rev { l.reverse() } else { l }, self.lazy);
                    assert(l.reverse().reverse() =~= l);
                } else {
                    assert(l.reverse().reverse() =~= l);
                }
            }
            lemma_reverse_concat(p(l), self.key, p(r));
            assert(nview::<P>(*self) == q(r) + seq![self.key] + q(l));
            assert(before.reverse().reverse() =~= before);
        }
    }

    /// Hand pending tags down to the children.
    fn push(&mut self)
        requires
            nwf::<P>(*old(self)),
        ensures
            nwf::<P>(*final(self)),
            nview::<P>(*final(self)) == nview::<P>(*old(self)),
            nview::<P>(*final(self)) == lview::<P>(final(self).left) + seq![final(self).key] + lview::<P>(final(self).right),
            !final(self).rev,
            !final(self).lazy_pending,
            final(self).lazy == P::spec_act_unit(),
            final(self).key == old(self).key,
            final(self).size == old(self).size,
            final(self).left_size == old(self).left_size,
            lwf::<P>(final(self).left),
            lwf::<P>(final(self).right),
    {
        if !self.rev && !self.lazy_pending {
            proof {
                lemma_act_seq_unit::<P>(lview::<P>(self.left));
            }
            return;
        }
        let ghost before = nview::<P>(*self);
        let ghost l0 = lview::<P>(self.left);
        let ghost r0 = lview::<P>(self.right);
        if self.rev {
            match &mut self.left {
                Some(left) => left.apply_reverse(),
                None => {},
            }
            match &mut self.right {
                Some(right) => right.apply_reverse(),
                None => {},
            }
            self.rev = false;
            proof {
                assert(lview::<P>(self.left) == l0.reverse());
                assert(lview::<P>(self.right) == r0.reverse());
            }
        }
        let ghost l1 = lview::<P>(self.left);
        let ghost r1 = lview::<P>(self.right);
        if self.lazy_pending {
            let act = P::act_copy(&self.lazy);
            match &mut self.left {
                Some(left) => left.apply_action(&act),
                None => {},
            }
            match &mut self.right {
                Some(right) => right.apply_action(&act),
                None => {},
            }
            self.lazy = P::act_unit();
            self.lazy_pending = false;
            proof {
                assert(lview::<P>(self.left) == act_seq::<P>(l1, act));
                assert(lview::<P>(self.right) == act_seq::<P>(r1, act));
            }
        }
        proof {
            lemma_act_seq_unit::<P>(lview::<P>(self.left));
            lemma_act_seq_unit::<P>(lview::<P>(self.right));
            assert(nview::<P>(*self) =~= before);
        }
    }
}

impl<P: LazyMapMonoid> ImplicitRbst<P> {
    pub fn new() -> (t: Self)
        ensures
            t.wf(),
            t.seq() == Seq::<P::Key>::empty(),
    {
        Self::with_seed(DEFAULT_SEED)
    }

    pub fn with_seed(seed: u64) -> (t: Self)
        ensures
            t.wf(),
            t.seq() == Seq::<P::Key>::empty(),
    {
        Self { root: None, len: 0, rng: XorShift64::new(seed) }
    }

    /// The positions a range names, if it is valid.
    fn normalize_range(range: Range<usize>, len: usize) -> (r: Option<(usize, usize)>)
        ensures
            r == if range.start <= range.end <= len {
                Some((range.start, range.end))
            } else {
                None::<(usize, usize)>
            },
    {
        let start = range.start;
        let end = range.end;
        if start > end || end > len {
            return None;
        }
        Some((start, end))
    }

    /// Aggregate of positions `[start, end)` of a subtree.
    #[verifier::spinoff_prover]
    #[verifier::rlimit(50)]
    fn fold_range(node: &mut Option<Box<Node<P>>>, start: usize, end: usize) -> (r: P::Agg)
        requires
            lwf::<P>(*old(node)),
            end <= llen::<P>(*old(node)),
        ensures
            lwf::<P>(*final(node)),
            lview::<P>(*final(node)) == lview::<P>(*old(node)),
            r == if start < end {
                fold::<P>(lview::<P>(*old(node)).subrange(start as int, end as int))
            } else {
                P::spec_agg_unit()
            },
        decreases llen::<P>(*old(node)),
    {
        if start >= end {
            return P::agg_unit();
        }
        match node {
            None => P::agg_unit(),
            Some(node_ref) => {
                let ghost whole = nview::<P>(**node_ref);
                let size = node_ref.size as usize;
                if start == 0 && end == size {
                    assert(whole.subrange(0, end as int) =~= whole);
                    return P::agg_copy(&node_ref.agg);
                }
                node_ref.push();
                let ghost l = lview::<P>(node_ref.left);
                let ghost r = lview::<P>(node_ref.right);
                let left_size = node_ref.left_size as usize;
                if end <= left_size {
                    let res = Self::fold_range(&mut node_ref.left, start, end);
                    assert(whole.subrange(start as int, end as int) =~= l.subrange(start as int, end as int));
                    return res;
                }
                if start > left_size {
                    let res = Self::fold_range(&mut node_ref.right, start - left_size - 1, end - left_size - 1);
                    assert(whole.subrange(start as int, end as int)
                        =~= r.subrange(start - left_size - 1, end - left_size - 1));
                    return res;
                }
                let left_agg = if start < left_size {
                    Self::fold_range(&mut node_ref.left, start, left_size)
                } else {
                    P::agg_unit()
                };
                let right_agg = if end > left_size + 1 {
                    Self::fold_range(&mut node_ref.right, 0, end - left_size - 1)
                } else {
                    P::agg_unit()
                };
                proof {
                    lemma_fold_around::<P>(l, node_ref.key, r, start as int, end as int);
                }
                P::agg_merge(&left_agg, &node_ref.key, &right_agg)
            },
        }
    }

    /// Apply `act` to positions `[start, end)` of a subtree.
    fn update_range(node: &mut Option<Box<Node<P>>>, start: usize, end: usize, act: &P::Act)
        requires
            lwf::<P>(*old(node)),
            end <= llen::<P>(*old(node)),
        ensures
            lwf::<P>(*final(node)),
            lview::<P>(*final(node)) == upd::<P>(lview::<P>(*old(node)), start as int, end as int, *act),
        decreases llen::<P>(*old(node)),
    {
        if start >= end {
            return;
        }
        match node {
            None => {},
            Some(node_ref) => {
                let ghost whole = nview::<P>(**node_ref);
                let size = node_ref.size as usize;
                if start == 0 && end == size {
                    node_ref.apply_action(act);
                    assert(whole.subrange(0, end as int) =~= whole);
                    assert(upd::<P>(whole, 0, end as int, *act) =~= act_seq::<P>(whole, *act));
                    return;
                }
                node_ref.push();
                let ghost l = lview::<P>(node_ref.left);
                let ghost r = lview::<P>(node_ref.right);
                let ghost k = node_ref.key;
                let left_size = node_ref.left_size as usize;
                if start < left_size {
                    let left_end = if left_size < end { left_size } else { end };
                    Self::update_range(&mut node_ref.left, start, left_end, act);
                }
                if start <= left_size && end > left_size {
                    node_ref.key = P::act_apply_key(&node_ref.key, act);
                }
                if end > left_size + 1 {
                    let right_start = if start > left_size + 1 { start - left_size - 1 } else { 0 };
                    let right_end = end - left_size - 1;
                    Self::update_range(&mut node_ref.right, right_start, right_end, act);
                }
                proof {
                    lemma_upd_split::<P>(l, k, r, start as int, end as int, *act);
                    let le = if end < l.len() { end as int } else { l.len() as int };
                    assert(start >= left_size ==> upd::<P>(l, start as int, le, *act) == l);
                    assert(end <= left_size + 1 ==> upd::<P>(r, 0, end - left_size - 1, *act) == r);
                }
                node_ref.recalc();
            },
        }
    }

    /// The first `left_count` keys, and the rest.
    #[verifier::rlimit(60)]
    fn split(root: Option<Box<Node<P>>>, left_count: usize) -> (r: (Option<Box<Node<P>>>, Option<Box<Node<P>>>))
        requires
            lwf::<P>(root),
        ensures
            lwf::<P>(r.0),
            lwf::<P>(r.1),
            lview::<P>(r.0) == lview::<P>(root).take(
                if left_count <= llen::<P>(root) { left_count as int } else { llen::<P>(root) as int },
            ),
            lview::<P>(r.1) == lview::<P>(root).skip(
                if left_count <= llen::<P>(root) { left_count as int } else { llen::<P>(root) as int },
            ),
    {
        let ghost total = lview::<P>(root);
        let ghost target = left_count;
        let mut node = root;
        let mut left_count = left_count;
        let mut left_stack: Vec<Box<Node<P>>> = Vec::new();
        let mut right_stack: Vec<Box<Node<P>>> = Vec::new();
        let mut right: Option<Box<Node<P>>> = None;
        let mut done = false;
        assert(lseq::<P>(left_stack@) =~= Seq::<P::Key>::empty());
        assert(rseq::<P>(right_stack@) =~= Seq::<P::Key>::empty());
        assert(total =~= lseq::<P>(left_stack@) + lview::<P>(node) + lview::<P>(right) + rseq::<P>(right_stack@));
        while !done
            invariant
                lwf::<P>(node),
                lwf::<P>(right),
                total.len() <= u32::MAX,
                forall|i: int| 0 <= i < left_stack.len() ==> #[trigger] stacked::<P>(*left_stack@[i], false),
                forall|i: int| 0 <= i < right_stack.len() ==> #[trigger] stacked::<P>(*right_stack@[i], true),
                total == lseq::<P>(left_stack@) + lview::<P>(node) + lview::<P>(right) + rseq::<P>(right_stack@),
                lseq::<P>(left_stack@).len() + left_count == target,
                target <= total.len() ==> left_count <= llen::<P>(node) + llen::<P>(right),
                target > total.len() ==> right is None && right_stack.len() == 0,
                right is Some ==> done && left_count == 0,
                done ==> node is None,
            decreases llen::<P>(node), if done { 0int } else { 1int },
        {
            let ghost ls = lseq::<P>(left_stack@);
            let ghost rs = rseq::<P>(right_stack@);
            match node.take() {
                None => {
                    done = true;
                },
                Some(current) => {
                    let mut current = current;
                    current.push();
                    proof {
                        lemma_act_seq_unit::<P>(lview::<P>(current.left));
                    }
                    if left_count == 0 {
                        right = Some(current);
                        done = true;
                    } else {
                        let left_size = current.left_size as usize;
                        if left_count <= left_size {
                            let next = current.left.take();
                            let ghost k = current.key;
                            let ghost rr = lview::<P>(current.right);
                            let ghost c0 = right_stack@;
                            right_stack.push(current);
                            node = next;
                            proof {
                                assert(right_stack@.drop_last() =~= c0);
                                assert(rseq::<P>(right_stack@) == seq![k] + rr + rs);
                                assert(total =~= lseq::<P>(left_stack@) + lview::<P>(node) + lview::<P>(right) + rseq::<P>(right_stack@));
                            }
                        } else {
                            left_count -= left_size + 1;
                            let next = current.right.take();
                            let ghost k = current.key;
                            let ghost ll = lview::<P>(current.left);
                            let ghost c0 = left_stack@;
                            left_stack.push(current);
                            node = next;
                            proof {
                                assert(left_stack@.drop_last() =~= c0);
                                assert(lseq::<P>(left_stack@) == ls + ll + seq![k]);
                                assert(total =~= lseq::<P>(left_stack@) + lview::<P>(node) + lview::<P>(right) + rseq::<P>(right_stack@));
                            }
                        }
                    }
                },
            }
        }
        let ghost ls = lseq::<P>(left_stack@);
        let ghost rs = rseq::<P>(right_stack@);
        let ghost rmid = lview::<P>(right);
        let mut left: Option<Box<Node<P>>> = None;
        assert(lseq::<P>(left_stack@) + lview::<P>(left) =~= ls);
        while left_stack.len() > 0
            invariant
                lwf::<P>(left),
                total.len() <= u32::MAX,
                forall|i: int| 0 <= i < left_stack.len() ==> #[trigger] stacked::<P>(*left_stack@[i], false),
                lseq::<P>(left_stack@) + lview::<P>(left) == ls,
                ls.len() + rmid.len() + rs.len() == total.len(),
            decreases left_stack.len(),
        {
            let ghost c = left_stack@;
            let mut current = left_stack.pop().unwrap();
            proof {
                assert(stacked::<P>(*c[c.len() - 1], false));
                assert(c.drop_last() =~= left_stack@);
                assert(lseq::<P>(c) == lseq::<P>(left_stack@) + lview::<P>(current.left) + seq![current.key]);
                assert((lseq::<P>(c) + lview::<P>(left)).len() == ls.len());
            }
            current.right = left;
            current.recalc();
            left = Some(current);
            assert(lseq::<P>(left_stack@) + lview::<P>(left) =~= ls);
        }
        assert(lview::<P>(right) + rseq::<P>(right_stack@) =~= rmid + rs);
        while right_stack.len() > 0
            invariant
                lwf::<P>(right),
                total.len() <= u32::MAX,
                forall|i: int| 0 <= i < right_stack.len() ==> #[trigger] stacked::<P>(*right_stack@[i], true),
                lview::<P>(right) + rseq::<P>(right_stack@) == rmid + rs,
                ls.len() + rmid.len() + rs.len() == total.len(),
            decreases right_stack.len(),
        {
            let ghost c = right_stack@;
            let mut current = right_stack.pop().unwrap();
            proof {
                assert(stacked::<P>(*c[c.len() - 1], true));
                assert(c.drop_last() =~= right_stack@);
                assert(rseq::<P>(c) == seq![current.key] + lview::<P>(current.right) + rseq::<P>(right_stack@));
                assert((lview::<P>(right) + rseq::<P>(c)).len() == rmid.len() + rs.len());
            }
            current.left = right;
            current.recalc();
            right = Some(current);
            assert(lview::<P>(right) + rseq::<P>(right_stack@) =~= rmid + rs);
        }
        proof {
            assert(lseq::<P>(left_stack@) =~= Seq::<P::Key>::empty());
            assert(rseq::<P>(right_stack@) =~= Seq::<P::Key>::empty());
            assert(lview::<P>(left) =~= ls);
            assert(lview::<P>(right) =~= rmid + rs);
            let c = if target <= total.len() { target as int } else { total.len() as int };
            assert(total =~= ls + (rmid + rs));
            assert(ls.len() == c);
            assert(total.take(c) =~= ls);
            assert(total.skip(c) =~= rmid + rs);
        }
        (left, right)
    }

    /// Join two subtrees, the root drawn at random in proportion to their sizes.
    fn merge_nodes(&mut self, left: Option<Box<Node<P>>>, right: Option<Box<Node<P>>>) -> (r: Option<Box<Node<P>>>)
        requires
            lwf::<P>(left),
            lwf::<P>(right),
            llen::<P>(left) + llen::<P>(right) <= u32::MAX,
        ensures
            lwf::<P>(r),
            lview::<P>(r) == lview::<P>(left) + lview::<P>(right),
            final(self).root == old(self).root,
            final(self).len == old(self).len,
        decreases llen::<P>(left) + llen::<P>(right),
    {
        match (left, right) {
            (None, right) => {
                assert(Seq::<P::Key>::empty() + lview::<P>(right) =~= lview::<P>(right));
                right
            },
            (left, None) => {
                assert(lview::<P>(left) + Seq::<P::Key>::empty() =~= lview::<P>(left));
                left
            },
            (Some(left), Some(right)) => {
                let mut left = left;
                let mut right = right;
                let ghost lv = nview::<P>(*left);
                let ghost rv = nview::<P>(*right);
                let left_size = left.size as usize;
                let right_size = right.size as usize;
                let total = left_size + right_size;
                let draw = self.rng.next_u64();
                assert((draw as u128) * (total as u128) <= 0xffff_ffff_ffff_ffff_ffff_ffff_ffff_ffffu128) by (nonlinear_arith)
                    requires
                        draw <= 0xffff_ffff_ffff_ffffu64,
                        total <= 0xffff_ffffusize,
                ;
                let pick = ((draw as u128 * total as u128) >> 64u128) as usize;
                if pick < left_size {
                    left.push();
                    let ghost ll = lview::<P>(left.left);
                    let ghost lr = lview::<P>(left.right);
                    let ghost k = left.key;
                    left.right = self.merge_nodes(left.right.take(), Some(right));
                    left.recalc();
                    assert(ll + seq![k] + (lr + rv) =~= lv + rv);
                    Some(left)
                } else {
                    right.push();
                    let ghost rl = lview::<P>(right.left);
                    let ghost rr = lview::<P>(right.right);
                    let ghost k = right.key;
                    right.left = self.merge_nodes(Some(left), right.left.take());
                    right.recalc();
                    assert((lv + rl) + seq![k] + rr =~= lv + rv);
                    Some(right)
                }
            },
        }
    }

    fn get_node(node: &mut Option<Box<Node<P>>>, index: usize) -> (r: Option<&P::Key>)
        requires
            lwf::<P>(*old(node)),
        ensures
            lwf::<P>(*final(node)),
            lview::<P>(*final(node)) == lview::<P>(*old(node)),
            index < llen::<P>(*old(node)) ==> r == Some(&lview::<P>(*old(node))[index as int]),
            index >= llen::<P>(*old(node)) ==> r is None,
        decreases llen::<P>(*old(node)),
    {
        match node {
            None => None,
            Some(current) => {
                current.push();
                let left_size = current.left_size as usize;
                if index < left_size {
                    Self::get_node(&mut current.left, index)
                } else if index == left_size {
                    Some(&current.key)
                } else {
                    Self::get_node(&mut current.right, index - (left_size + 1))
                }
            },
        }
    }
}

/// A node waiting on a stack of `split`: no tags, the child on the cut side taken away.
spec fn stacked<P: LazyMapMonoid>(n: Node<P>, on_right: bool) -> bool {
    &&& !n.rev
    &&& !n.lazy_pending
    &&& n.lazy == P::spec_act_unit()
    &&& if on_right { n.left is None && lwf::<P>(n.right) } else { n.right is None && lwf::<P>(n.left) }
}

/// Keys held by the left stack of `split`.
spec fn lseq<P: LazyMapMonoid>(c: Seq<Box<Node<P>>>) -> Seq<P::Key>
    decreases c.len(),
{
    if c.len() == 0 {
        Seq::empty()
    } else {
        lseq::<P>(c.drop_last()) + lview::<P>(c.last().left) + seq![c.last().key]
    }
}

/// Keys held by the right stack of `split`.
spec fn rseq<P: LazyMapMonoid>(c: Seq<Box<Node<P>>>) -> Seq<P::Key>
    decreases c.len(),
{
    if c.len() == 0 {
        Seq::empty()
    } else {
        seq![c.last().key] + lview::<P>(c.last().right) + rseq::<P>(c.drop_last())
    }
}

impl<P: LazyMapMonoid> Default for ImplicitRbst<P> {
    fn default() -> (t: Self)
        ensures
            t.wf(),
            t.seq() == Seq::<P::Key>::empty(),
    {
        Self::new()
    }
}

impl<P: LazyMapMonoid> SequenceBase for ImplicitRbst<P> {
    type Key = P::Key;

    closed spec fn seq(&self) -> Seq<P::Key> {
        lview::<P>(self.root)
    }

    closed spec fn wf(&self) -> bool {
        &&& lwf::<P>(self.root)
        &&& self.len == llen::<P>(self.root)
    }

    open spec fn max_len() -> nat {
        u32::MAX as nat
    }

    fn len(&self) -> (r: usize) {
        self.len
    }

    fn get(&mut self, index: usize) -> (r: Option<&P::Key>) {
        if index >= self.len {
            return None;
        }
        Self::get_node(&mut self.root, index)
    }

    fn insert(&mut self, index: usize, key: P::Key) {
        if index > self.len {
            return;
        }
        let ghost before = self.seq();
        let node = Some(Box::new(Node::new(key)));
        let (left, right) = Self::split(self.root.take(), index);
        let merged = self.merge_nodes(left, node);
        self.root = self.merge_nodes(merged, right);
        self.len += 1;
        assert(before.take(index as int) + seq![key] + before.skip(index as int) =~= before.insert(index as int, key));
    }

    fn remove(&mut self, index: usize) -> (r: Option<P::Key>) {
        if index >= self.len {
            return None;
        }
        let ghost before = self.seq();
        let (left, rest) = Self::split(self.root.take(), index);
        let (target, right) = Self::split(rest, 1);
        self.root = self.merge_nodes(left, right);
        self.len -= 1;
        proof {
            assert(before.take(index as int) + before.skip(index as int + 1) =~= before.remove(index as int));
            assert(before.skip(index as int).skip(1) =~= before.skip(index as int + 1));
        }
        match target {
            Some(node) => {
                proof {
                    assert(before.skip(index as int).take(1) =~= seq![before[index as int]]);
                    lemma_pend_len::<P>(node.rev, node.lazy_pending, node.lazy, lview::<P>(node.left));
                    assert(nview::<P>(*node)[0] == node.key);
                }
                Some(node.key)
            },
            None => None,
        }
    }
}

impl<P: LazyMapMonoid> SequenceSplitMerge for ImplicitRbst<P> {
    fn split_at(&mut self, index: usize) -> (right: Self) {
        let count = if index < self.len { index } else { self.len };
        let (left, right) = Self::split(self.root.take(), count);
        self.root = left;
        self.len = Node::size(&self.root) as usize;
        let len = Node::size(&right) as usize;
        Self { root: right, len, rng: self.rng.fork() }
    }

    fn merge(&mut self, right: Self) {
        let root = self.root.take();
        self.root = self.merge_nodes(root, right.root);
        self.len = Node::size(&self.root) as usize;
    }
}

impl<P: LazyMapMonoid> SequenceAgg for ImplicitRbst<P> {
    type Agg = P::Agg;

    open spec fn spec_fold(s: Seq<P::Key>) -> P::Agg {
        fold::<P>(s)
    }

    fn fold(&mut self, range: Range<usize>) -> (r: P::Agg) {
        let (start, end) = match Self::normalize_range(range, self.len) {
            Some(bounds) => bounds,
            None => return P::agg_unit(),
        };
        if start == end {
            assert(self.seq().subrange(start as int, end as int) =~= Seq::<P::Key>::empty());
            return P::agg_unit();
        }
        Self::fold_range(&mut self.root, start, end)
    }
}

impl<P: LazyMapMonoid> SequenceLazy for ImplicitRbst<P> {
    type Act = P::Act;

    open spec fn spec_apply(key: P::Key, act: P::Act) -> P::Key {
        P::spec_act_apply_key(key, act)
    }

    fn update(&mut self, range: Range<usize>, act: P::Act) {
        let (start, end) = match Self::normalize_range(range, self.len) {
            Some(bounds) => bounds,
            None => return,
        };
        let ghost before = self.seq();
        if start == end {
            proof {
                lemma_three_parts(before, start as int, end as int);
                assert(act_seq::<P>(before.subrange(start as int, end as int), act) =~= Seq::<P::Key>::empty());
            }
            return;
        }
        Self::update_range(&mut self.root, start, end, &act);
    }
}

impl<P: LazyMapMonoid> SequenceReverse for ImplicitRbst<P> {
    #[verifier::rlimit(40)]
    fn reverse(&mut self, range: Range<usize>) {
        let (start, end) = match Self::normalize_range(range, self.len) {
            Some(bounds) => bounds,
            None => return,
        };
        let ghost before = self.seq();
        if start == end {
            proof {
                lemma_three_parts(before, start as int, end as int);
                assert(before.subrange(start as int, end as int).reverse() =~= Seq::<P::Key>::empty());
            }
            return;
        }
        let (left, rest) = Self::split(self.root.take(), start);
        let (mid, right) = Self::split(rest, end - start);
        let mut mid = mid;
        match &mut mid {
            Some(node) => node.apply_reverse(),
            None => {},
        }
        let merged = self.merge_nodes(mid, right);
        self.root = self.merge_nodes(left, merged);
        proof {
            lemma_three_parts(before, start as int, end as int);
            assert(lview::<P>(left) + (lview::<P>(mid) + lview::<P>(right))
                =~= lview::<P>(left) + lview::<P>(mid) + lview::<P>(right));
        }
    }
}

} // verus!
