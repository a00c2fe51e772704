use vstd::prelude::*;
use std::ops::Range;

use crate::bbst::policy::{LazyMapMonoid, fold, act_seq, lemma_fold_concat, lemma_fold_single, lemma_fold_act,
    lemma_act_seq_compose, lemma_act_seq_unit, lemma_act_reverse, lemma_reverse_concat, lemma_act_concat,
    upd, lemma_upd_split, lemma_fold_around};
use crate::bbst::{SequenceBase, SequenceSplitMerge, SequenceAgg, SequenceLazy, SequenceReverse, range_ok,
    lemma_three_parts};

verus! {

/// Implicit red-black tree.
pub struct ImplicitRbTree<P: LazyMapMonoid> {
    root: Option<Box<Node<P>>>,
    len: u32,
}

struct Node<P: LazyMapMonoid> {
    key: P::Key,
    agg: P::Agg,
    agg_rev: P::Agg,
    lazy: P::Act,
    lazy_pending: bool,
    rev: bool,
    size: u32,
    red: bool,
    black_height: u8,
    left: Option<Box<Node<P>>>,
    right: Option<Box<Node<P>>>,
}

/// What pending tags do to a child's keys: reverse them, then apply the action.
spec fn pend<P: LazyMapMonoid>(rev: bool, pending: bool, lazy: P::Act, s: Seq<P::Key>) -> Seq<P::Key> {
    let t = if rev { s.reverse() } else { s };
    if pending { act_seq::<P>(t, lazy) } else { t }
}

/// Keys of a subtree in order, with every pending tag applied.
spec fn lview<P: LazyMapMonoid>(l: Option<Box<Node<P>>>) -> Seq<P::Key>
    decreases l,
{
    match l {
        None => Seq::empty(),
        Some(n) => pend::<P>(n.rev, n.lazy_pending, n.lazy, lview::<P>(n.left)) + seq![n.key]
            + pend::<P>(n.rev, n.lazy_pending, n.lazy, lview::<P>(n.right)),
    }
}

/// Sizes and aggregates of every node describe its subtree.
spec fn lwf<P: LazyMapMonoid>(l: Option<Box<Node<P>>>) -> bool
    decreases l,
{
    match l {
        None => true,
        Some(n) => {
            &&& lwf::<P>(n.left)
            &&& lwf::<P>(n.right)
            &&& n.size == lview::<P>(l).len()
            &&& n.agg == fold::<P>(lview::<P>(l))
            &&& n.agg_rev == fold::<P>(lview::<P>(l).reverse())
            &&& (!n.lazy_pending ==> n.lazy == P::spec_act_unit())
        }
    }
}

spec fn nview<P: LazyMapMonoid>(n: Node<P>) -> Seq<P::Key> {
    lview::<P>(Some(Box::new(n)))
}

spec fn nwf<P: LazyMapMonoid>(n: Node<P>) -> bool {
    lwf::<P>(Some(Box::new(n)))
}

/// The length of a subtree.
spec fn llen<P: LazyMapMonoid>(l: Option<Box<Node<P>>>) -> nat {
    lview::<P>(l).len()
}

/// A node without children holds its own key only.
proof fn lemma_leaf<P: LazyMapMonoid>(n: Node<P>)
    requires
        n.left is None,
        n.right is None,
    ensures
        nview::<P>(n) == seq![n.key],
{
    let e = Seq::<P::Key>::empty();
    assert(lview::<P>(n.left) == e);
    assert(lview::<P>(n.right) == e);
    assert(e.reverse() =~= e);
    assert(act_seq::<P>(e, n.lazy) =~= e);
    assert(act_seq::<P>(e.reverse(), n.lazy) =~= e);
    assert(nview::<P>(n) =~= seq![n.key]);
}

proof fn lemma_pend_len<P: LazyMapMonoid>(rev: bool, pending: bool, lazy: P::Act, s: Seq<P::Key>)
    ensures
        pend::<P>(rev, pending, lazy, s).len() == s.len(),
{
}

impl<P: LazyMapMonoid> Node<P> {
    fn new(key: P::Key, red: bool) -> (n: Self)
        ensures
            nwf::<P>(n),
            nview::<P>(n) == seq![key],
            n.left is None,
            n.right is None,
            !n.rev && !n.lazy_pending && n.lazy == P::spec_act_unit(),
            n.key == key,
    {
        let agg = P::agg_from_key(&key);
        let agg_rev = P::agg_copy(&agg);
        let n = Self {
            key,
            agg,
            agg_rev,
            lazy: P::act_unit(),
            lazy_pending: false,
            rev: false,
            size: 1,
            red,
            black_height: if red { 0 } else { 1 },
            left: None,
            right: None,
        };
        proof {
            lemma_leaf::<P>(n);
            assert(lwf::<P>(n.left));
            assert(lwf::<P>(n.right));
            lemma_fold_single::<P>(n.key);
            assert(seq![n.key].reverse() =~= seq![n.key]);
        }
        n
    }

    fn size(node: &Option<Box<Node<P>>>) -> (r: u32)
        requires
            lwf::<P>(*node),
        ensures
            r == llen::<P>(*node),
    {
        match node {
            Some(n) => n.size,
            None => 0,
        }
    }

    fn agg(node: &Option<Box<Node<P>>>) -> (r: P::Agg)
        requires
            lwf::<P>(*node),
        ensures
            r == fold::<P>(lview::<P>(*node)),
    {
        match node {
            Some(n) => P::agg_copy(&n.agg),
            None => P::agg_unit(),
        }
    }

    fn agg_rev(node: &Option<Box<Node<P>>>) -> (r: P::Agg)
        requires
            lwf::<P>(*node),
        ensures
            r == fold::<P>(lview::<P>(*node).reverse()),
    {
        match node {
            Some(n) => P::agg_copy(&n.agg_rev),
            None => {
                assert(lview::<P>(*node).reverse() =~= Seq::<P::Key>::empty());
                P::agg_unit()
            },
        }
    }

    /// Recompute sizes and aggregates of a node without pending tags.
    fn recalc(&mut self)
        requires
            !old(self).rev,
            !old(self).lazy_pending,
            old(self).lazy == P::spec_act_unit(),
            lwf::<P>(old(self).left),
            lwf::<P>(old(self).right),
            1 + llen::<P>(old(self).left) + llen::<P>(old(self).right) <= u32::MAX,
        ensures
            nwf::<P>(*final(self)),
            nview::<P>(*final(self)) == lview::<P>(old(self).left) + seq![old(self).key] + lview::<P>(old(self).right),
            final(self).left == old(self).left,
            final(self).right == old(self).right,
            final(self).key == old(self).key,
            !final(self).rev,
            !final(self).lazy_pending,
            final(self).lazy == P::spec_act_unit(),
            final(self).red == old(self).red,
    {
        let left_agg = Self::agg(&self.left);
        let right_agg = Self::agg(&self.right);
        let left_rev = Self::agg_rev(&self.left);
        let right_rev = Self::agg_rev(&self.right);
        let left_size = Self::size(&self.left);
        let right_size = Self::size(&self.right);

        self.size = 1 + left_size + right_size;
        self.agg = P::agg_merge(&left_agg, &self.key, &right_agg);
        self.agg_rev = P::agg_merge(&right_rev, &self.key, &left_rev);
        self.recalc_black_height();
        proof {
            let l = lview::<P>(self.left);
            let r = lview::<P>(self.right);
            lemma_act_seq_unit::<P>(l);
            lemma_act_seq_unit::<P>(r);
            assert(nview::<P>(*self) =~= l + seq![self.key] + r);
            lemma_fold_concat::<P>(l, self.key, r);
            lemma_reverse_concat(l, self.key, r);
            lemma_fold_concat::<P>(r.reverse(), self.key, l.reverse());
        }
    }

    /// Black nodes on the way down, counted by the taller side (saturating).
    fn recalc_black_height(&mut self)
        ensures
            final(self).left == old(self).left,
            final(self).right == old(self).right,
            final(self).key == old(self).key,
            final(self).red == old(self).red,
            final(self).rev == old(self).rev,
            final(self).lazy_pending == old(self).lazy_pending,
            final(self).lazy == old(self).lazy,
            final(self).size == old(self).size,
            final(self).agg == old(self).agg,
            final(self).agg_rev == old(self).agg_rev,
            ({
                let lb = match old(self).left {
                    Some(n) => n.black_height,
                    None => 0u8,
                };
                let rb = match old(self).right {
                    Some(n) => n.black_height,
                    None => 0u8,
                };
                let c = if lb >= rb { lb } else { rb };
                final(self).black_height == (if old(self).red || c == u8::MAX { c } else { (c + 1) as u8 })
            }),
    {
        let left_bh = match &self.left {
            Some(n) => n.black_height,
            None => 0,
        };
        let right_bh = match &self.right {
            Some(n) => n.black_height,
            None => 0,
        };
        let child_bh = if left_bh >= right_bh { left_bh } else { right_bh };
        self.black_height = if self.red || child_bh == u8::MAX { child_bh } else { child_bh + 1 };
    }

    /// Apply `act` to the whole subtree, lazily.
    fn apply_action(&mut self, act: &P::Act)
        requires
            nwf::<P>(*old(self)),
        ensures
            nwf::<P>(*final(self)),
            nview::<P>(*final(self)) == act_seq::<P>(nview::<P>(*old(self)), *act),
            final(self).size == old(self).size,
            final(self).red == old(self).red,
            final(self).left == old(self).left,
            final(self).right == old(self).right,
            final(self).rev == old(self).rev,
    {
        let ghost before = nview::<P>(*self);
        let ghost l = lview::<P>(self.left);
        let ghost r = lview::<P>(self.right);
        let ghost pl = pend::<P>(self.rev, self.lazy_pending, self.lazy, l);
        let ghost pr = pend::<P>(self.rev, self.lazy_pending, self.lazy, r);
        self.key = P::act_apply_key(&self.key, act);
        let size = self.size as usize;
        self.agg = P::act_apply_agg(&self.agg, act, size);
        self.agg_rev = P::act_apply_agg(&self.agg_rev, act, size);
        self.lazy = P::act_compose(act, &self.lazy);
        self.lazy_pending = true;
        proof {
            let old_key = before[pl.len() as int];
            let t_l = if self.rev { l.reverse() } else { l };
            let t_r = if self.rev { r.reverse() } else { r };
            lemma_act_concat::<P>(pl, old_key, pr, *act);
            // the new tags act as the old ones followed by `act`
            assert(pend::<P>(self.rev, true, self.lazy, l) == act_seq::<P>(pl, *act)) by {
                lemma_act_seq_compose::<P>(t_l, *act, old(self).lazy);
                if !old(self).lazy_pending {
                    lemma_act_seq_unit::<P>(t_l);
                }
            }
            assert(pend::<P>(self.rev, true, self.lazy, r) == act_seq::<P>(pr, *act)) by {
                lemma_act_seq_compose::<P>(t_r, *act, old(self).lazy);
                if !old(self).lazy_pending {
                    lemma_act_seq_unit::<P>(t_r);
                }
            }
            assert(before =~= pl + seq![old_key] + pr);
            assert(nview::<P>(*self) =~= act_seq::<P>(before, *act));
            lemma_fold_act::<P>(before, *act);
            lemma_fold_act::<P>(before.reverse(), *act);
            lemma_act_reverse::<P>(before, *act);
        }
    }

    /// Reverse the whole subtree, lazily.
    fn apply_reverse(&mut self)
        requires
            nwf::<P>(*old(self)),
        ensures
            nwf::<P>(*final(self)),
            nview::<P>(*final(self)) == nview::<P>(*old(self)).reverse(),
            final(self).size == old(self).size,
            final(self).red == old(self).red,
    {
        let ghost before = nview::<P>(*self);
        proof {
            lemma_pend_len::<P>(self.rev, self.lazy_pending, self.lazy, lview::<P>(self.left));
            lemma_pend_len::<P>(self.rev, self.lazy_pending, self.lazy, lview::<P>(self.right));
        }
        self.rev = !self.rev;
        std::mem::swap(&mut self.left, &mut self.right);
        std::mem::swap(&mut self.agg, &mut self.agg_rev);
        proof {
            let l = lview::<P>(old(self).left);
            let r = lview::<P>(old(self).right);
            let p = |s: Seq<P::Key>| pend::<P>(old(self).rev, old(self).lazy_pending, old(self).lazy, s);
            let q = |s: Seq<P::Key>| pend::<P>(self.rev, self.lazy_pending, self.lazy, s);
            // q(s) == p(s).reverse()
            assert(q(r) == p(r).reverse()) by {
                if old(self).lazy_pending {
                    lemma_act_reverse::<P>(if old(self).rev { r.reverse() } else { r }, self.lazy);
                    assert(r.reverse().reverse() =~= r);
                } else {
                    assert(r.reverse().reverse() =~= r);
                }
            }
            assert(q(l) == p(l).reverse()) by {
                if old(self).lazy_pending {
                    lemma_act_reverse::<P>(if old(self).rev { l.reverse() } else { l }, self.lazy);
                    assert(l.reverse().reverse() =~= l);
                } else {
                    assert(l.reverse().reverse() =~= l);
                }
            }
            lemma_reverse_concat(p(l), self.key, p(r));
            assert(nview::<P>(*self) == q(r) + seq![self.key] + q(l));
            assert(before.reverse().reverse() =~= before);
        }
    }

    /// Hand pending tags down to the children.
    fn push(&mut self)
        requires
            nwf::<P>(*old(self)) || (!old(self).rev && !old(self).lazy_pending),
        ensures
            final(self).red == old(self).red,
            !old(self).rev && !old(self).lazy_pending ==> *final(self) == *old(self),
            nwf::<P>(*old(self)) ==> {
                &&& nwf::<P>(*final(self))
                &&& nview::<P>(*final(self)) == nview::<P>(*old(self))
                &&& nview::<P>(*final(self)) == lview::<P>(final(self).left) + seq![final(self).key] + lview::<P>(final(self).right)
                &&& !final(self).rev
                &&& !final(self).lazy_pending
                &&& final(self).lazy == P::spec_act_unit()
                &&& final(self).key == old(self).key
                &&& final(self).size == old(self).size
                &&& final(self).left is Some == old(self).left is Some
                &&& final(self).right is Some == old(self).right is Some
                &&& lwf::<P>(final(self).left)
                &&& lwf::<P>(final(self).right)
            },
    {
        if !self.rev && !self.lazy_pending {
            proof {
                lemma_act_seq_unit::<P>(lview::<P>(self.left));
            }
            return;
        }
        let ghost before = nview::<P>(*self);
        let ghost l0 = lview::<P>(self.left);
        let ghost r0 = lview::<P>(self.right);
        if self.rev {
            match &mut self.left {
                Some(left) => left.apply_reverse(),
                None => {},
            }
            match &mut self.right {
                Some(right) => right.apply_reverse(),
                None => {},
            }
            self.rev = false;
            proof {
                assert(lview::<P>(self.left) == l0.reverse());
                assert(lview::<P>(self.right) == r0.reverse());
            }
        }
        let ghost l1 = lview::<P>(self.left);
        let ghost r1 = lview::<P>(self.right);
        if self.lazy_pending {
            let act = P::act_copy(&self.lazy);
            match &mut self.left {
                Some(left) => left.apply_action(&act),
                None => {},
            }
            match &mut self.right {
                Some(right) => right.apply_action(&act),
                None => {},
            }
            self.lazy = P::act_unit();
            self.lazy_pending = false;
            proof {
                assert(lview::<P>(self.left) == act_seq::<P>(l1, act));
                assert(lview::<P>(self.right) == act_seq::<P>(r1, act));
            }
        }
        proof {
            lemma_act_seq_unit::<P>(lview::<P>(self.left));
            lemma_act_seq_unit::<P>(lview::<P>(self.right));
            assert(nview::<P>(*self) =~= before);
        }
    }
}

/// A node with no pending tags whose children are sound; its own sizes may be stale.
spec fn ready<P: LazyMapMonoid>(n: Node<P>) -> bool {
    &&& !n.rev
    &&& !n.lazy_pending
    &&& n.lazy == P::spec_act_unit()
    &&& lwf::<P>(n.left)
    &&& lwf::<P>(n.right)
    &&& 1 + llen::<P>(n.left) + llen::<P>(n.right) <= u32::MAX
}

/// The keys a node without pending tags stands for.
spec fn cview<P: LazyMapMonoid>(n: Node<P>) -> Seq<P::Key> {
    lview::<P>(n.left) + seq![n.key] + lview::<P>(n.right)
}

/// A sound node without pending tags is ready, and stands for its children and key.
proof fn lemma_clean<P: LazyMapMonoid>(n: Node<P>)
    requires
        nwf::<P>(n),
        !n.rev,
        !n.lazy_pending,
        n.lazy == P::spec_act_unit(),
    ensures
        ready::<P>(n),
        nview::<P>(n) == cview::<P>(n),
{
    lemma_act_seq_unit::<P>(lview::<P>(n.left));
    lemma_act_seq_unit::<P>(lview::<P>(n.right));
    assert(nview::<P>(n) =~= cview::<P>(n));
}

/// Whether a link holds a red node.
spec fn red_at<P: LazyMapMonoid>(l: Option<Box<Node<P>>>) -> bool {
    match l {
        Some(n) => n.red,
        None => false,
    }
}

impl<P: LazyMapMonoid> ImplicitRbTree<P> {
    pub fn new() -> (t: Self)
        ensures
            t.wf(),
            t.seq() == Seq::<P::Key>::empty(),
    {
        Self::with_seed(0)
    }

    pub fn with_seed(_seed: u64) -> (t: Self)
        ensures
            t.wf(),
            t.seq() == Seq::<P::Key>::empty(),
    {
        Self { root: None, len: 0 }
    }

    /// The positions a range names, if it is valid.
    fn normalize_range(range: Range<usize>, len: usize) -> (r: Option<(usize, usize)>)
        ensures
            r == if range.start <= range.end <= len {
                Some((range.start, range.end))
            } else {
                None::<(usize, usize)>
            },
    {
        let start = range.start;
        let end = range.end;
        if start > end || end > len {
            return None;
        }
        Some((start, end))
    }

    /// Aggregate of positions `[start, end)` of a subtree.
    #[verifier::spinoff_prover]
    #[verifier::rlimit(50)]
    fn fold_range(node: &mut Option<Box<Node<P>>>, start: usize, end: usize) -> (r: P::Agg)
        requires
            lwf::<P>(*old(node)),
            end <= llen::<P>(*old(node)),
        ensures
            lwf::<P>(*final(node)),
            lview::<P>(*final(node)) == lview::<P>(*old(node)),
            r == if start < end {
                fold::<P>(lview::<P>(*old(node)).subrange(start as int, end as int))
            } else {
                P::spec_agg_unit()
            },
        decreases llen::<P>(*old(node)),
    {
        if start >= end {
            return P::agg_unit();
        }
        match node {
            None => P::agg_unit(),
            Some(node_ref) => {
                let ghost whole = nview::<P>(**node_ref);
                let size = node_ref.size as usize;
                if start == 0 && end == size {
                    assert(whole.subrange(0, end as int) =~= whole);
                    return P::agg_copy(&node_ref.agg);
                }
                node_ref.push();
                let ghost l = lview::<P>(node_ref.left);
                let ghost r = lview::<P>(node_ref.right);
                let left_size = Node::size(&node_ref.left) as usize;
                if end <= left_size {
                    let res = Self::fold_range(&mut node_ref.left, start, end);
                    assert(whole.subrange(start as int, end as int) =~= l.subrange(start as int, end as int));
                    return res;
                }
                if start > left_size {
                    let res = Self::fold_range(&mut node_ref.right, start - left_size - 1, end - left_size - 1);
                    assert(whole.subrange(start as int, end as int)
                        =~= r.subrange(start - left_size - 1, end - left_size - 1));
                    return res;
                }
                let left_agg = if start < left_size {
                    Self::fold_range(&mut node_ref.left, start, left_size)
                } else {
                    P::agg_unit()
                };
                let right_agg = if end > left_size + 1 {
                    Self::fold_range(&mut node_ref.right, 0, end - left_size - 1)
                } else {
                    P::agg_unit()
                };
                proof {
                    lemma_fold_around::<P>(l, node_ref.key, r, start as int, end as int);
                }
                P::agg_merge(&left_agg, &node_ref.key, &right_agg)
            },
        }
    }

    /// Apply `act` to positions `[start, end)` of a subtree.
    fn update_range(node: &mut Option<Box<Node<P>>>, start: usize, end: usize, act: &P::Act)
        requires
            lwf::<P>(*old(node)),
            end <= llen::<P>(*old(node)),
        ensures
            lwf::<P>(*final(node)),
            lview::<P>(*final(node)) == upd::<P>(lview::<P>(*old(node)), start as int, end as int, *act),
        decreases llen::<P>(*old(node)),
    {
        if start >= end {
            return;
        }
        match node {
            None => {},
            Some(node_ref) => {
                let ghost whole = nview::<P>(**node_ref);
                let size = node_ref.size as usize;
                if start == 0 && end == size {
                    node_ref.apply_action(act);
                    assert(whole.subrange(0, end as int) =~= whole);
                    assert(upd::<P>(whole, 0, end as int, *act) =~= act_seq::<P>(whole, *act));
                    return;
                }
                node_ref.push();
                let ghost l = lview::<P>(node_ref.left);
                let ghost r = lview::<P>(node_ref.right);
                let ghost k = node_ref.key;
                let left_size = Node::size(&node_ref.left) as usize;
                if start < left_size {
                    let left_end = if left_size < end { left_size } else { end };
                    Self::update_range(&mut node_ref.left, start, left_end, act);
                }
                if start <= left_size && end > left_size {
                    node_ref.key = P::act_apply_key(&node_ref.key, act);
                }
                if end > left_size + 1 {
                    let right_start = if start > left_size + 1 { start - left_size - 1 } else { 0 };
                    let right_end = end - left_size - 1;
                    Self::update_range(&mut node_ref.right, right_start, right_end, act);
                }
                proof {
                    lemma_upd_split::<P>(l, k, r, start as int, end as int, *act);
                    let le = if end < l.len() { end as int } else { l.len() as int };
                    assert(start >= left_size ==> upd::<P>(l, start as int, le, *act) == l);
                    assert(end <= left_size + 1 ==> upd::<P>(r, 0, end - left_size - 1, *act) == r);
                }
                node_ref.recalc();
            },
        }
    }

    /// Recolor the node a link holds, if any.
    fn paint(node: &mut Option<Box<Node<P>>>, red: bool)
        requires
            lwf::<P>(*old(node)),
        ensures
            lwf::<P>(*final(node)),
            lview::<P>(*final(node)) == lview::<P>(*old(node)),
            final(node).is_some() == old(node).is_some(),
            *final(node) matches Some(n) ==> {
                let o = old(node).unwrap();
                &&& n.left == o.left
                &&& n.right == o.right
                &&& n.rev == o.rev
                &&& n.lazy_pending == o.lazy_pending
                &&& n.lazy == o.lazy
                &&& n.key == o.key
                &&& n.size == o.size
            },
    {
        match node {
            Some(n) => {
                n.red = red;
                n.recalc_black_height();
            },
            None => {},
        }
    }

    fn is_red(node: &Option<Box<Node<P>>>) -> (r: bool)
        ensures
            r == red_at::<P>(*node),
    {
        match node {
            Some(n) => n.red,
            None => false,
        }
    }

    /// Paint the root black.
    fn make_black(root: Option<Box<Node<P>>>) -> (r: Option<Box<Node<P>>>)
        requires
            lwf::<P>(root),
        ensures
            lwf::<P>(r),
            lview::<P>(r) == lview::<P>(root),
    {
        let mut root = root;
        match &mut root {
            Some(node) => {
                if node.red {
                    node.red = false;
                    node.recalc_black_height();
                }
            },
            None => {},
        }
        root
    }

    fn rotate_left(root: Box<Node<P>>) -> (r: Box<Node<P>>)
        requires
            nwf::<P>(*root) || ready::<P>(*root),
            root.right is Some,
        ensures
            nwf::<P>(*r),
            !r.rev && !r.lazy_pending && r.lazy == P::spec_act_unit(),
            ready::<P>(*root) ==> nview::<P>(*r) == cview::<P>(*root),
            nwf::<P>(*root) ==> nview::<P>(*r) == nview::<P>(*root),
            r.left is Some,
            r.left matches Some(l) ==> !l.rev && !l.lazy_pending && l.lazy == P::spec_act_unit(),
    {
        let ghost orig = if ready::<P>(*root) { cview::<P>(*root) } else { nview::<P>(*root) };
        proof {
            if nwf::<P>(*root) && ready::<P>(*root) {
                lemma_clean::<P>(*root);
            }
        }
        let mut root = root;
        root.push();
        proof {
            lemma_act_seq_unit::<P>(lview::<P>(root.left));
            lemma_act_seq_unit::<P>(lview::<P>(root.right));
        }
        let mut right = root.right.take().unwrap();
        right.push();
        root.right = right.left.take();
        root.recalc();
        let ghost rv = nview::<P>(*root);
        right.left = Some(root);
        assert(lview::<P>(right.left) == rv);
        right.recalc();
        assert(nview::<P>(*right) =~= orig);
        right
    }

    fn rotate_right(root: Box<Node<P>>) -> (r: Box<Node<P>>)
        requires
            nwf::<P>(*root) || ready::<P>(*root),
            root.left is Some,
        ensures
            nwf::<P>(*r),
            !r.rev && !r.lazy_pending && r.lazy == P::spec_act_unit(),
            ready::<P>(*root) ==> nview::<P>(*r) == cview::<P>(*root),
            nwf::<P>(*root) ==> nview::<P>(*r) == nview::<P>(*root),
            r.right is Some,
            r.right matches Some(l) ==> !l.rev && !l.lazy_pending && l.lazy == P::spec_act_unit(),
    {
        let ghost orig = if ready::<P>(*root) { cview::<P>(*root) } else { nview::<P>(*root) };
        proof {
            if nwf::<P>(*root) && ready::<P>(*root) {
                lemma_clean::<P>(*root);
            }
        }
        let mut root = root;
        root.push();
        proof {
            lemma_act_seq_unit::<P>(lview::<P>(root.left));
            lemma_act_seq_unit::<P>(lview::<P>(root.right));
        }
        let mut left = root.left.take().unwrap();
        left.push();
        root.left = left.right.take();
        root.recalc();
        let ghost rv = nview::<P>(*root);
        left.right = Some(root);
        assert(lview::<P>(left.right) == rv);
        left.recalc();
        assert(nview::<P>(*left) =~= orig);
        left
    }

    #[verifier::spinoff_prover]
    #[verifier::rlimit(40)]
    fn insert_at(node: Option<Box<Node<P>>>, index: usize, key: P::Key) -> (r: Option<Box<Node<P>>>)
        requires
            lwf::<P>(node),
            index <= llen::<P>(node),
            llen::<P>(node) < u32::MAX,
        ensures
            lwf::<P>(r),
            lview::<P>(r) == lview::<P>(node).insert(index as int, key),
        decreases llen::<P>(node),
    {
        match node {
            None => {
                let n = Box::new(Node::new(key, true));
                assert(Seq::<P::Key>::empty().insert(0, key) =~= seq![key]);
                Some(n)
            },
            Some(node) => {
                let mut node = node;
                let ghost before = nview::<P>(*node);
                node.push();
                let ghost l = lview::<P>(node.left);
                let ghost r = lview::<P>(node.right);
                let left_size = Node::size(&node.left) as usize;
                if index <= left_size {
                    let left = node.left.take();
                    node.left = Self::insert_at(left, index, key);
                    assert(l.insert(index as int, key) + seq![node.key] + r =~= before.insert(index as int, key));
                } else {
                    let right = node.right.take();
                    node.right = Self::insert_at(right, index - left_size - 1, key);
                    assert(l + seq![node.key] + r.insert(index - left_size - 1, key) =~= before.insert(index as int, key));
                }
                Some(Self::fix_up(node))
            },
        }
    }

    /// Restore the black heights after the left subtree of `node` lost one; also says whether
    /// the whole subtree lost one.
    #[verifier::rlimit(60)]
    fn fix_double_black_left(node: Box<Node<P>>) -> (r: (Box<Node<P>>, bool))
        requires
            ready::<P>(*node),
        ensures
            nwf::<P>(*r.0),
            nview::<P>(*r.0) == cview::<P>(*node),
            !r.0.rev && !r.0.lazy_pending && r.0.lazy == P::spec_act_unit(),
        decreases cview::<P>(*node).len(),
    {
        let ghost orig = cview::<P>(*node);
        let mut node = node;
        if Self::is_red(&node.right) {
            let mut new_root = Self::rotate_left(node);
            Self::paint(&mut new_root.left, true);
            new_root.red = false;
            proof {
                lemma_clean::<P>(*new_root);
            }
            let ghost lr = lview::<P>(new_root.right);
            let ghost k = new_root.key;
            let left = new_root.left.take().unwrap();
            proof {
                lemma_clean::<P>(*left);
            }
            let (fixed_left, needs_fix) = Self::fix_double_black_left(left);
            new_root.left = Some(fixed_left);
            new_root.recalc();
            return (new_root, needs_fix);
        }
        let sibling_left_red = match &node.right {
            Some(sibling) => Self::is_red(&sibling.left),
            None => false,
        };
        let sibling_right_red = match &node.right {
            Some(sibling) => Self::is_red(&sibling.right),
            None => false,
        };
        if !sibling_left_red && !sibling_right_red {
            Self::paint(&mut node.right, true);
            if node.red {
                node.red = false;
                node.recalc_black_height();
                node.recalc();
                return (node, false);
            }
            node.recalc_black_height();
            node.recalc();
            return (node, true);
        }
        let parent_red = node.red;
        if !sibling_right_red {
            let right = node.right.take().unwrap();
            let right = Self::rotate_right(right);
            node.right = Some(right);
        }
        let mut new_root = Self::rotate_left(node);
        new_root.red = parent_red;
        Self::paint(&mut new_root.left, false);
        Self::paint(&mut new_root.right, false);
        proof {
            lemma_clean::<P>(*new_root);
        }
        new_root.recalc();
        (new_root, false)
    }

    /// Restore the black heights after the right subtree of `node` lost one; also says whether
    /// the whole subtree lost one.
    #[verifier::rlimit(60)]
    fn fix_double_black_right(node: Box<Node<P>>) -> (r: (Box<Node<P>>, bool))
        requires
            ready::<P>(*node),
        ensures
            nwf::<P>(*r.0),
            nview::<P>(*r.0) == cview::<P>(*node),
            !r.0.rev && !r.0.lazy_pending && r.0.lazy == P::spec_act_unit(),
        decreases cview::<P>(*node).len(),
    {
        let ghost orig = cview::<P>(*node);
        let mut node = node;
        if Self::is_red(&node.left) {
            let mut new_root = Self::rotate_right(node);
            Self::paint(&mut new_root.right, true);
            new_root.red = false;
            proof {
                lemma_clean::<P>(*new_root);
            }
            let right = new_root.right.take().unwrap();
            proof {
                lemma_clean::<P>(*right);
            }
            let (fixed_right, needs_fix) = Self::fix_double_black_right(right);
            new_root.right = Some(fixed_right);
            new_root.recalc();
            return (new_root, needs_fix);
        }
        let sibling_left_red = match &node.left {
            Some(sibling) => Self::is_red(&sibling.left),
            None => false,
        };
        let sibling_right_red = match &node.left {
            Some(sibling) => Self::is_red(&sibling.right),
            None => false,
        };
        if !sibling_left_red && !sibling_right_red {
            Self::paint(&mut node.left, true);
            if node.red {
                node.red = false;
                node.recalc_black_height();
                node.recalc();
                return (node, false);
            }
            node.recalc_black_height();
            node.recalc();
            return (node, true);
        }
        let parent_red = node.red;
        if !sibling_left_red {
            let left = node.left.take().unwrap();
            let left = Self::rotate_left(left);
            node.left = Some(left);
        }
        let mut new_root = Self::rotate_right(node);
        new_root.red = parent_red;
        Self::paint(&mut new_root.left, false);
        Self::paint(&mut new_root.right, false);
        proof {
            lemma_clean::<P>(*new_root);
        }
        new_root.recalc();
        (new_root, false)
    }

    /// Remove the first key; also says whether the black height dropped.
    fn delete_min(node: Box<Node<P>>) -> (r: (Option<Box<Node<P>>>, P::Key, bool))
        requires
            nwf::<P>(*node),
        ensures
            lwf::<P>(r.0),
            nview::<P>(*node).len() > 0,
            r.1 == nview::<P>(*node)[0],
            lview::<P>(r.0) == nview::<P>(*node).drop_first(),
        decreases nview::<P>(*node).len(),
    {
        let mut node = node;
        let ghost before = nview::<P>(*node);
        node.push();
        if node.left.is_none() {
            assert(before =~= seq![node.key] + lview::<P>(node.right));
            let right = node.right.take();
            let key = node.key;
            if node.red {
                return (right, key, false);
            }
            match right {
                Some(right) => {
                    let mut right = right;
                    if right.red {
                        right.red = false;
                        right.recalc_black_height();
                        return (Some(right), key, false);
                    }
                    return (Some(right), key, true);
                },
                None => {
                    return (None, key, true);
                },
            }
        }
        let ghost r = lview::<P>(node.right);
        let left = node.left.take().unwrap();
        let (new_left, key, needs_fix) = Self::delete_min(left);
        node.left = new_left;
        if needs_fix {
            let (node, needs_fix) = Self::fix_double_black_left(node);
            assert(nview::<P>(*node) =~= before.drop_first());
            return (Some(node), key, needs_fix);
        }
        node.recalc();
        assert(nview::<P>(*node) =~= before.drop_first());
        (Some(node), key, false)
    }

    /// Remove the key at `index`, if any; also says whether the black height dropped.
    #[verifier::rlimit(60)]
    fn delete_at(node: Option<Box<Node<P>>>, index: usize) -> (r: (Option<Box<Node<P>>>, Option<P::Key>, bool))
        requires
            lwf::<P>(node),
        ensures
            lwf::<P>(r.0),
            index < llen::<P>(node) ==> r.1 == Some(lview::<P>(node)[index as int])
                && lview::<P>(r.0) == lview::<P>(node).remove(index as int),
            index >= llen::<P>(node) ==> r.1 is None && lview::<P>(r.0) == lview::<P>(node),
        decreases llen::<P>(node),
    {
        let mut node = match node {
            Some(node) => node,
            None => return (None, None, false),
        };
        let ghost before = nview::<P>(*node);
        node.push();
        let ghost l = lview::<P>(node.left);
        let ghost r = lview::<P>(node.right);
        let left_size = Node::size(&node.left) as usize;
        if index < left_size {
            let left = node.left.take();
            let (new_left, removed, needs_fix) = Self::delete_at(left, index);
            node.left = new_left;
            assert(l.remove(index as int) + seq![node.key] + r =~= before.remove(index as int));
            if needs_fix {
                let (node, needs_fix) = Self::fix_double_black_left(node);
                return (Some(node), removed, needs_fix);
            }
            node.recalc();
            return (Some(node), removed, false);
        }
        if index > left_size {
            let right = node.right.take();
            let (new_right, removed, needs_fix) = Self::delete_at(right, index - left_size - 1);
            node.right = new_right;
            proof {
                if index < before.len() {
                    assert(l + seq![node.key] + r.remove(index - left_size - 1) =~= before.remove(index as int));
                } else {
                    assert(l + seq![node.key] + r =~= before);
                }
            }
            if needs_fix {
                let (node, needs_fix) = Self::fix_double_black_right(node);
                return (Some(node), removed, needs_fix);
            }
            node.recalc();
            return (Some(node), removed, false);
        }
        Self::delete_here(node)
    }

    /// Remove the key of a node without pending tags; also says whether the black height dropped.
    #[verifier::rlimit(40)]
    fn delete_here(node: Box<Node<P>>) -> (r: (Option<Box<Node<P>>>, Option<P::Key>, bool))
        requires
            ready::<P>(*node),
        ensures
            lwf::<P>(r.0),
            r.1 == Some(node.key),
            lview::<P>(r.0) == lview::<P>(node.left) + lview::<P>(node.right),
    {
        let mut node = node;
        let ghost l = lview::<P>(node.left);
        let ghost r = lview::<P>(node.right);
        match (node.left.take(), node.right.take()) {
            (None, None) => {
                assert(l + r =~= Seq::<P::Key>::empty());
                let old_key = node.key;
                if node.red {
                    return (None, Some(old_key), false);
                }
                (None, Some(old_key), true)
            },
            (Some(child), None) => {
                assert(l + r =~= l);
                let mut child = child;
                let old_key = node.key;
                if node.red {
                    return (Some(child), Some(old_key), false);
                }
                if child.red {
                    child.red = false;
                    child.recalc_black_height();
                    return (Some(child), Some(old_key), false);
                }
                (Some(child), Some(old_key), true)
            },
            (None, Some(child)) => {
                assert(l + r =~= r);
                let mut child = child;
                let old_key = node.key;
                if node.red {
                    return (Some(child), Some(old_key), false);
                }
                if child.red {
                    child.red = false;
                    child.recalc_black_height();
                    return (Some(child), Some(old_key), false);
                }
                (Some(child), Some(old_key), true)
            },
            (Some(left), Some(right)) => {
                node.left = Some(left);
                let (new_right, succ_key, needs_fix) = Self::delete_min(right);
                node.right = new_right;
                let mut old_key = succ_key;
                std::mem::swap(&mut node.key, &mut old_key);
                assert(l + seq![succ_key] + lview::<P>(node.right) =~= l + r);
                if needs_fix {
                    let (node, needs_fix) = Self::fix_double_black_right(node);
                    return (Some(node), Some(old_key), needs_fix);
                }
                node.recalc();
                (Some(node), Some(old_key), false)
            },
        }
    }

    /// Recompute `node` and repair a red node with a red child below it.
    #[verifier::rlimit(60)]
    fn fix_up(node: Box<Node<P>>) -> (r: Box<Node<P>>)
        requires
            ready::<P>(*node),
        ensures
            nwf::<P>(*r),
            nview::<P>(*r) == cview::<P>(*node),
            !r.rev && !r.lazy_pending && r.lazy == P::spec_act_unit(),
    {
        let mut node = node;
        if node.red {
            node.recalc();
            return node;
        }
        let left_red = Self::is_red(&node.left);
        let right_red = Self::is_red(&node.right);
        if left_red {
            let left_left_red = match &node.left {
                Some(left) => Self::is_red(&left.left),
                None => false,
            };
            let left_right_red = match &node.left {
                Some(left) => Self::is_red(&left.right),
                None => false,
            };
            if left_left_red || left_right_red {
                if left_right_red {
                    let left = match node.left.take() {
                        Some(left) => Some(Self::rotate_left(left)),
                        None => None,
                    };
                    node.left = left;
                }
                let mut root = Self::rotate_right(node);
                root.red = true;
                match &mut root.left {
                    Some(left) => {
                        left.push();
                        left.red = false;
                        left.recalc();
                    },
                    None => {},
                }
                match &mut root.right {
                    Some(right) => {
                        right.push();
                        right.red = false;
                        right.recalc();
                    },
                    None => {},
                }
                proof {
                    lemma_clean::<P>(*root);
                }
                root.recalc();
                return root;
            }
        }
        if right_red {
            let right_left_red = match &node.right {
                Some(right) => Self::is_red(&right.left),
                None => false,
            };
            let right_right_red = match &node.right {
                Some(right) => Self::is_red(&right.right),
                None => false,
            };
            if right_left_red || right_right_red {
                if right_left_red {
                    let right = match node.right.take() {
                        Some(right) => Some(Self::rotate_right(right)),
                        None => None,
                    };
                    node.right = right;
                }
                let mut root = Self::rotate_left(node);
                root.red = true;
                match &mut root.left {
                    Some(left) => {
                        left.push();
                        left.red = false;
                        left.recalc();
                    },
                    None => {},
                }
                match &mut root.right {
                    Some(right) => {
                        right.push();
                        right.red = false;
                        right.recalc();
                    },
                    None => {},
                }
                proof {
                    lemma_clean::<P>(*root);
                }
                root.recalc();
                return root;
            }
        }
        node.recalc();
        node
    }

    /// Join `left`, `key` and `right` down the right spine of the taller `left`.
    fn join_left(left: Box<Node<P>>, key: P::Key, right: Option<Box<Node<P>>>, target_bh: u8) -> (r: Box<Node<P>>)
        requires
            nwf::<P>(*left),
            lwf::<P>(right),
            nview::<P>(*left).len() + 1 + llen::<P>(right) <= u32::MAX,
        ensures
            nwf::<P>(*r),
            nview::<P>(*r) == nview::<P>(*left) + seq![key] + lview::<P>(right),
            !r.rev && !r.lazy_pending && r.lazy == P::spec_act_unit(),
        decreases nview::<P>(*left).len(),
    {
        let ghost lv = nview::<P>(*left);
        let mut left = left;
        left.push();
        let ghost ll = lview::<P>(left.left);
        let ghost lr = lview::<P>(left.right);
        let right_bh = match &left.right {
            Some(n) => n.black_height,
            None => 0,
        };
        if right_bh == target_bh {
            let mut node = Box::new(Node::new(key, true));
            node.left = left.right.take();
            node.right = right;
            node.recalc();
            left.right = Some(node);
            let r = Self::fix_up(left);
            assert(ll + seq![left.key] + (lr + seq![key] + lview::<P>(right)) =~= lv + seq![key] + lview::<P>(right));
            return r;
        }
        if left.right.is_none() {
            let mut node = Box::new(Node::new(key, true));
            node.left = None;
            node.right = right;
            node.recalc();
            left.right = Some(node);
            let r = Self::fix_up(left);
            assert(ll + seq![left.key] + (Seq::<P::Key>::empty() + seq![key] + lview::<P>(right)) =~= lv + seq![key] + lview::<P>(right));
            return r;
        }
        let right_child = left.right.take().unwrap();
        let merged = Self::join_left(right_child, key, right, target_bh);
        left.right = Some(merged);
        let r = Self::fix_up(left);
        assert(ll + seq![left.key] + (lr + seq![key] + lview::<P>(right)) =~= lv + seq![key] + lview::<P>(right));
        r
    }

    /// Join `left`, `key` and `right` down the left spine of the taller `right`.
    fn join_right(right: Box<Node<P>>, key: P::Key, left: Option<Box<Node<P>>>, target_bh: u8) -> (r: Box<Node<P>>)
        requires
            nwf::<P>(*right),
            lwf::<P>(left),
            nview::<P>(*right).len() + 1 + llen::<P>(left) <= u32::MAX,
        ensures
            nwf::<P>(*r),
            nview::<P>(*r) == lview::<P>(left) + seq![key] + nview::<P>(*right),
            !r.rev && !r.lazy_pending && r.lazy == P::spec_act_unit(),
        decreases nview::<P>(*right).len(),
    {
        let ghost rv = nview::<P>(*right);
        let mut right = right;
        right.push();
        let ghost rl = lview::<P>(right.left);
        let ghost rr = lview::<P>(right.right);
        let left_bh = match &right.left {
            Some(n) => n.black_height,
            None => 0,
        };
        if left_bh == target_bh {
            let mut node = Box::new(Node::new(key, true));
            node.left = left;
            node.right = right.left.take();
            node.recalc();
            right.left = Some(node);
            let r = Self::fix_up(right);
            assert((lview::<P>(left) + seq![key] + rl) + seq![right.key] + rr =~= lview::<P>(left) + seq![key] + rv);
            return r;
        }
        if right.left.is_none() {
            let mut node = Box::new(Node::new(key, true));
            node.left = left;
            node.right = None;
            node.recalc();
            right.left = Some(node);
            let r = Self::fix_up(right);
            assert((lview::<P>(left) + seq![key] + Seq::<P::Key>::empty()) + seq![right.key] + rr =~= lview::<P>(left) + seq![key] + rv);
            return r;
        }
        let left_child = right.left.take().unwrap();
        let merged = Self::join_right(left_child, key, left, target_bh);
        right.left = Some(merged);
        let r = Self::fix_up(right);
        assert((lview::<P>(left) + seq![key] + rl) + seq![right.key] + rr =~= lview::<P>(left) + seq![key] + rv);
        r
    }

    /// Join two trees around a key.
    fn join(left: Option<Box<Node<P>>>, key: P::Key, right: Option<Box<Node<P>>>) -> (r: Option<Box<Node<P>>>)
        requires
            lwf::<P>(left),
            lwf::<P>(right),
            llen::<P>(left) + 1 + llen::<P>(right) <= u32::MAX,
        ensures
            lwf::<P>(r),
            lview::<P>(r) == lview::<P>(left) + seq![key] + lview::<P>(right),
    {
        match (left, right) {
            (None, None) => {
                let n = Box::new(Node::new(key, false));
                assert(Seq::<P::Key>::empty() + seq![key] + Seq::<P::Key>::empty() =~= seq![key]);
                Some(n)
            },
            (None, Some(right)) => {
                let merged = Self::join_right(right, key, None, 0);
                Self::make_black(Some(merged))
            },
            (Some(left), None) => {
                let merged = Self::join_left(left, key, None, 0);
                Self::make_black(Some(merged))
            },
            (Some(left), Some(right)) => {
                let bh_left = left.black_height;
                let bh_right = right.black_height;
                if bh_left == bh_right {
                    let mut node = Box::new(Node::new(key, true));
                    node.left = Some(left);
                    node.right = Some(right);
                    node.recalc();
                    proof {
                        lemma_clean::<P>(*node);
                    }
                    Self::make_black(Some(Self::fix_up(node)))
                } else if bh_left > bh_right {
                    let merged = Self::join_left(left, key, Some(right), bh_right);
                    Self::make_black(Some(merged))
                } else {
                    let merged = Self::join_right(right, key, Some(left), bh_left);
                    Self::make_black(Some(merged))
                }
            },
        }
    }

    /// Split off the last key.
    fn pop_last(root: Option<Box<Node<P>>>) -> (r: (Option<Box<Node<P>>>, Option<P::Key>))
        requires
            lwf::<P>(root),
        ensures
            lwf::<P>(r.0),
            llen::<P>(root) > 0 ==> r.1 == Some(lview::<P>(root).last()) && lview::<P>(r.0) == lview::<P>(root).drop_last(),
            llen::<P>(root) == 0 ==> r.1 is None && r.0 is None,
    {
        let len = Node::size(&root) as usize;
        if len == 0 {
            return (None, None);
        }
        let ghost before = lview::<P>(root);
        let (left, right) = Self::split(root, len - 1);
        assert(before.take(len - 1) =~= before.drop_last());
        let key = match right {
            Some(node) => {
                proof {
                    assert(before.skip(len - 1) =~= seq![before.last()]);
                    lemma_pend_len::<P>(node.rev, node.lazy_pending, node.lazy, lview::<P>(node.left));
                    assert(nview::<P>(*node)[0] == node.key);
                }
                Some(node.key)
            },
            None => None,
        };
        (left, key)
    }

    #[verifier::rlimit(40)]
    fn split(root: Option<Box<Node<P>>>, left_count: usize) -> (r: (Option<Box<Node<P>>>, Option<Box<Node<P>>>))
        requires
            lwf::<P>(root),
        ensures
            lwf::<P>(r.0),
            lwf::<P>(r.1),
            lview::<P>(r.0) == lview::<P>(root).take(
                if left_count <= llen::<P>(root) { left_count as int } else { llen::<P>(root) as int },
            ),
            lview::<P>(r.1) == lview::<P>(root).skip(
                if left_count <= llen::<P>(root) { left_count as int } else { llen::<P>(root) as int },
            ),
        decreases llen::<P>(root),
    {
        let mut node = match root {
            Some(node) => node,
            None => {
                assert(Seq::<P::Key>::empty().take(0) =~= Seq::<P::Key>::empty());
                assert(Seq::<P::Key>::empty().skip(0) =~= Seq::<P::Key>::empty());
                return (None, None);
            },
        };
        let ghost before = nview::<P>(*node);
        node.push();
        let ghost l = lview::<P>(node.left);
        let ghost r = lview::<P>(node.right);
        let ghost k = node.key;
        let left_size = Node::size(&node.left) as usize;
        if left_count <= left_size {
            let (left, right) = Self::split(node.left.take(), left_count);
            node.left = right;
            let node = Self::fix_up(node);
            assert(l.take(left_count as int) =~= before.take(left_count as int));
            assert(l.skip(left_count as int) + seq![k] + r =~= before.skip(left_count as int));
            (left, Some(node))
        } else {
            let (left, right) = Self::split(node.right.take(), left_count - left_size - 1);
            node.right = left;
            let node = Self::fix_up(node);
            proof {
                let c = if left_count <= before.len() { left_count as int } else { before.len() as int };
                let rc = if left_count - left_size - 1 <= r.len() { left_count - left_size - 1 } else { r.len() as int };
                assert(l + seq![k] + r.take(rc) =~= before.take(c));
                assert(r.skip(rc) =~= before.skip(c));
            }
            (Some(node), right)
        }
    }

    fn merge(left: Option<Box<Node<P>>>, right: Option<Box<Node<P>>>) -> (r: Option<Box<Node<P>>>)
        requires
            lwf::<P>(left),
            lwf::<P>(right),
            llen::<P>(left) + llen::<P>(right) <= u32::MAX,
        ensures
            lwf::<P>(r),
            lview::<P>(r) == lview::<P>(left) + lview::<P>(right),
    {
        match (left, right) {
            (None, right) => {
                assert(Seq::<P::Key>::empty() + lview::<P>(right) =~= lview::<P>(right));
                right
            },
            (left, None) => {
                assert(lview::<P>(left) + Seq::<P::Key>::empty() =~= lview::<P>(left));
                left
            },
            (Some(left), Some(right)) => {
                let ghost lv = nview::<P>(*left);
                let ghost rv = nview::<P>(*right);
                let (left, key) = Self::pop_last(Some(left));
                match key {
                    Some(key) => {
                        let r = Self::join(left, key, Some(right));
                        assert(lv.drop_last() + seq![key] + rv =~= lv + rv);
                        r
                    },
                    None => Some(right),
                }
            },
        }
    }

    fn get_node(node: &mut Option<Box<Node<P>>>, index: usize) -> (r: Option<&P::Key>)
        requires
            lwf::<P>(*old(node)),
        ensures
            lwf::<P>(*final(node)),
            lview::<P>(*final(node)) == lview::<P>(*old(node)),
            index < llen::<P>(*old(node)) ==> r == Some(&lview::<P>(*old(node))[index as int]),
            index >= llen::<P>(*old(node)) ==> r is None,
        decreases llen::<P>(*old(node)),
    {
        match node {
            None => None,
            Some(current) => {
                current.push();
                let left_size = Node::size(&current.left) as usize;
                if index < left_size {
                    Self::get_node(&mut current.left, index)
                } else if index == left_size {
                    Some(&current.key)
                } else {
                    Self::get_node(&mut current.right, index - (left_size + 1))
                }
            },
        }
    }
}

impl<P: LazyMapMonoid> Default for ImplicitRbTree<P> {
    fn default() -> (t: Self)
        ensures
            t.wf(),
            t.seq() == Seq::<P::Key>::empty(),
    {
        Self::new()
    }
}

impl<P: LazyMapMonoid> SequenceBase for ImplicitRbTree<P> {
    type Key = P::Key;

    closed spec fn seq(&self) -> Seq<P::Key> {
        lview::<P>(self.root)
    }

    closed spec fn wf(&self) -> bool {
        &&& lwf::<P>(self.root)
        &&& self.len == llen::<P>(self.root)
    }

    open spec fn max_len() -> nat {
        u32::MAX as nat
    }

    fn len(&self) -> (r: usize) {
        self.len as usize
    }

    fn get(&mut self, index: usize) -> (r: Option<&P::Key>) {
        if index >= self.len as usize {
            return None;
        }
        Self::get_node(&mut self.root, index)
    }

    fn insert(&mut self, index: usize, key: P::Key) {
        if index > self.len as usize {
            return;
        }
        self.root = Self::insert_at(self.root.take(), index, key);
        self.root = Self::make_black(self.root.take());
        self.len += 1;
    }

    fn remove(&mut self, index: usize) -> (r: Option<P::Key>) {
        if index >= self.len as usize {
            return None;
        }
        let (root, removed, _needs_fix) = Self::delete_at(self.root.take(), index);
        self.root = root;
        self.root = Self::make_black(self.root.take());
        self.len -= 1;
        removed
    }
}

impl<P: LazyMapMonoid> SequenceSplitMerge for ImplicitRbTree<P> {
    fn split_at(&mut self, index: usize) -> (right: Self) {
        let count = if index < self.len as usize { index } else { self.len as usize };
        let (left, right) = Self::split(self.root.take(), count);
        self.root = Self::make_black(left);
        self.len = Node::size(&self.root);
        let right = Self::make_black(right);
        let len = Node::size(&right);
        Self { root: right, len }
    }

    fn merge(&mut self, right: Self) {
        self.root = Self::merge(self.root.take(), right.root);
        self.len = Node::size(&self.root);
    }
}

impl<P: LazyMapMonoid> SequenceAgg for ImplicitRbTree<P> {
    type Agg = P::Agg;

    open spec fn spec_fold(s: Seq<P::Key>) -> P::Agg {
        fold::<P>(s)
    }

    fn fold(&mut self, range: Range<usize>) -> (r: P::Agg) {
        let (start, end) = match Self::normalize_range(range, self.len as usize) {
            Some(bounds) => bounds,
            None => return P::agg_unit(),
        };
        if start == end {
            assert(self.seq().subrange(start as int, end as int) =~= Seq::<P::Key>::empty());
            return P::agg_unit();
        }
        Self::fold_range(&mut self.root, start, end)
    }
}

impl<P: LazyMapMonoid> SequenceLazy for ImplicitRbTree<P> {
    type Act = P::Act;

    open spec fn spec_apply(key: P::Key, act: P::Act) -> P::Key {
        P::spec_act_apply_key(key, act)
    }

    fn update(&mut self, range: Range<usize>, act: P::Act) {
        let (start, end) = match Self::normalize_range(range, self.len as usize) {
            Some(bounds) => bounds,
            None => return,
        };
        let ghost before = self.seq();
        if start == end {
            proof {
                lemma_three_parts(before, start as int, end as int);
                assert(act_seq::<P>(before.subrange(start as int, end as int), act) =~= Seq::<P::Key>::empty());
            }
            return;
        }
        Self::update_range(&mut self.root, start, end, &act);
    }
}

impl<P: LazyMapMonoid> SequenceReverse for ImplicitRbTree<P> {
    #[verifier::rlimit(40)]
    fn reverse(&mut self, range: Range<usize>) {
        let (start, end) = match Self::normalize_range(range, self.len as usize) {
            Some(bounds) => bounds,
            None => return,
        };
        let ghost before = self.seq();
        if start == end {
            proof {
                lemma_three_parts(before, start as int, end as int);
                assert(before.subrange(start as int, end as int).reverse() =~= Seq::<P::Key>::empty());
            }
            return;
        }
        let (left, rest) = Self::split(self.root.take(), start);
        let (mid, right) = Self::split(rest, end - start);
        let mut mid = mid;
        match &mut mid {
            Some(node) => node.apply_reverse(),
            None => {},
        }
        self.root = Self::merge(left, Self::merge(mid, right));
        proof {
            lemma_three_parts(before, start as int, end as int);
            assert(lview::<P>(left) + (lview::<P>(mid) + lview::<P>(right))
                =~= lview::<P>(left) + lview::<P>(mid) + lview::<P>(right));
        }
    }
}

} // verus!
