use vstd::prelude::*;
use std::ops::Range;

use crate::bbst::policy::{LazyMapMonoid, fold, act_seq, lemma_fold_concat, lemma_fold_single, lemma_fold_act,
    lemma_act_seq_compose, lemma_act_seq_unit, lemma_act_reverse, lemma_reverse_concat, lemma_act_concat};
use crate::bbst::{SequenceBase, SequenceSplitMerge, SequenceAgg, SequenceLazy, SequenceReverse, range_ok,
    lemma_three_parts};

verus! {

/// Implicit AVL tree.
pub struct ImplicitAvl<P: LazyMapMonoid> {
    root: Option<Box<Node<P>>>,
    len: usize,
}

struct Node<P: LazyMapMonoid> {
    key: P::Key,
    agg: P::Agg,
    agg_rev: P::Agg,
    lazy: P::Act,
    lazy_pending: bool,
    rev: bool,
    size: u32,
    height: u8,
    left: Option<Box<Node<P>>>,
    right: Option<Box<Node<P>>>,
}

/// What pending tags do to a child's keys: reverse them, then apply the action.
pub open spec fn pend<P: LazyMapMonoid>(rev: bool, pending: bool, lazy: P::Act, s: Seq<P::Key>) -> Seq<P::Key> {
    let t = if rev { s.reverse() } else { s };
    if pending { act_seq::<P>(t, lazy) } else { t }
}

/// Keys of a subtree in order, with every pending tag applied.
spec fn lview<P: LazyMapMonoid>(l: Option<Box<Node<P>>>) -> Seq<P::Key>
    decreases l,
{
    match l {
        None => Seq::empty(),
        Some(n) => pend::<P>(n.rev, n.lazy_pending, n.lazy, lview::<P>(n.left)) + seq![n.key]
            + pend::<P>(n.rev, n.lazy_pending, n.lazy, lview::<P>(n.right)),
    }
}

/// Sizes and aggregates of every node describe its subtree.
spec fn lwf<P: LazyMapMonoid>(l: Option<Box<Node<P>>>) -> bool
    decreases l,
{
    match l {
        None => true,
        Some(n) => {
            &&& lwf::<P>(n.left)
            &&& lwf::<P>(n.right)
            &&& n.size == lview::<P>(l).len()
            &&& n.agg == fold::<P>(lview::<P>(l))
            &&& n.agg_rev == fold::<P>(lview::<P>(l).reverse())
            &&& (!n.lazy_pending ==> n.lazy == P::spec_act_unit())
        }
    }
}

spec fn nview<P: LazyMapMonoid>(n: Node<P>) -> Seq<P::Key> {
    lview::<P>(Some(Box::new(n)))
}

spec fn nwf<P: LazyMapMonoid>(n: Node<P>) -> bool {
    lwf::<P>(Some(Box::new(n)))
}

/// The length of a subtree.
spec fn llen<P: LazyMapMonoid>(l: Option<Box<Node<P>>>) -> nat {
    lview::<P>(l).len()
}

/// A node without children holds its own key only.
proof fn lemma_leaf<P: LazyMapMonoid>(n: Node<P>)
    requires
        n.left is None,
        n.right is None,
    ensures
        nview::<P>(n) == seq![n.key],
{
    let e = Seq::<P::Key>::empty();
    assert(lview::<P>(n.left) == e);
    assert(lview::<P>(n.right) == e);
    assert(e.reverse() =~= e);
    assert(act_seq::<P>(e, n.lazy) =~= e);
    assert(act_seq::<P>(e.reverse(), n.lazy) =~= e);
    assert(nview::<P>(n) =~= seq![n.key]);
}

proof fn lemma_pend_len<P: LazyMapMonoid>(rev: bool, pending: bool, lazy: P::Act, s: Seq<P::Key>)
    ensures
        pend::<P>(rev, pending, lazy, s).len() == s.len(),
{
}

impl<P: LazyMapMonoid> Node<P> {
    fn new(key: P::Key) -> (n: Self)
        ensures
            nwf::<P>(n),
            nview::<P>(n) == seq![key],
            n.left is None,
            n.right is None,
            n.height == 1,
    {
        let agg = P::agg_from_key(&key);
        let agg_rev = P::agg_copy(&agg);
        let n = Self {
            key,
            agg,
            agg_rev,
            lazy: P::act_unit(),
            lazy_pending: false,
            rev: false,
            size: 1,
            height: 1,
            left: None,
            right: None,
        };
        proof {
            lemma_leaf::<P>(n);
            assert(lwf::<P>(n.left));
            assert(lwf::<P>(n.right));
            lemma_fold_single::<P>(n.key);
            assert(seq![n.key].reverse() =~= seq![n.key]);
        }
        n
    }

    fn size(node: &Option<Box<Node<P>>>) -> (r: u32)
        requires
            lwf::<P>(*node),
        ensures
            r == llen::<P>(*node),
    {
        match node {
            Some(n) => n.size,
            None => 0,
        }
    }

    fn height(node: &Option<Box<Node<P>>>) -> (r: u8)
        ensures
            r == match *node {
                Some(n) => n.height,
                None => 0u8,
            },
    {
        match node {
            Some(n) => n.height,
            None => 0,
        }
    }

    fn agg(node: &Option<Box<Node<P>>>) -> (r: P::Agg)
        requires
            lwf::<P>(*node),
        ensures
            r == fold::<P>(lview::<P>(*node)),
    {
        match node {
            Some(n) => P::agg_copy(&n.agg),
            None => P::agg_unit(),
        }
    }

    fn agg_rev(node: &Option<Box<Node<P>>>) -> (r: P::Agg)
        requires
            lwf::<P>(*node),
        ensures
            r == fold::<P>(lview::<P>(*node).reverse()),
    {
        match node {
            Some(n) => P::agg_copy(&n.agg_rev),
            None => {
                assert(lview::<P>(*node).reverse() =~= Seq::<P::Key>::empty());
                P::agg_unit()
            },
        }
    }

    /// Recompute size, height and aggregates of a node without pending tags.
    fn recalc(&mut self)
        requires
            !old(self).rev,
            !old(self).lazy_pending,
            old(self).lazy == P::spec_act_unit(),
            lwf::<P>(old(self).left),
            lwf::<P>(old(self).right),
            1 + llen::<P>(old(self).left) + llen::<P>(old(self).right) <= u32::MAX,
        ensures
            nwf::<P>(*final(self)),
            nview::<P>(*final(self)) == lview::<P>(old(self).left) + seq![old(self).key] + lview::<P>(old(self).right),
            final(self).left == old(self).left,
            final(self).right == old(self).right,
            final(self).key == old(self).key,
            !final(self).rev,
            !final(self).lazy_pending,
            final(self).height as int == 1 + (if Self::spec_height(old(self).left) >= Self::spec_height(old(self).right) {
                Self::spec_height(old(self).left)
            } else {
                Self::spec_height(old(self).right)
            }) || final(self).height == u8::MAX,
    {
        let left_agg = Self::agg(&self.left);
        let right_agg = Self::agg(&self.right);
        let left_rev = Self::agg_rev(&self.left);
        let right_rev = Self::agg_rev(&self.right);
        let left_size = Self::size(&self.left);
        let right_size = Self::size(&self.right);
        let left_height = Self::height(&self.left);
        let right_height = Self::height(&self.right);

        self.size = 1 + left_size + right_size;
        let h = if left_height >= right_height { left_height } else { right_height };
        // heights stay far below 255 in any tree that fits in memory
        self.height = if h < u8::MAX { h + 1 } else { h };
        self.agg = P::agg_merge(&left_agg, &self.key, &right_agg);
        self.agg_rev = P::agg_merge(&right_rev, &self.key, &left_rev);
        proof {
            let l = lview::<P>(self.left);
            let r = lview::<P>(self.right);
            lemma_act_seq_unit::<P>(l);
            lemma_act_seq_unit::<P>(r);
            assert(nview::<P>(*self) =~= l + seq![self.key] + r);
            lemma_fold_concat::<P>(l, self.key, r);
            lemma_reverse_concat(l, self.key, r);
            lemma_fold_concat::<P>(r.reverse(), self.key, l.reverse());
        }
    }

    spec fn spec_height(node: Option<Box<Node<P>>>) -> int {
        match node {
            Some(n) => n.height as int,
            None => 0,
        }
    }

    /// Apply `act` to the whole subtree, lazily.
    fn apply_action(&mut self, act: &P::Act)
        requires
            nwf::<P>(*old(self)),
        ensures
            nwf::<P>(*final(self)),
            nview::<P>(*final(self)) == act_seq::<P>(nview::<P>(*old(self)), *act),
            final(self).size == old(self).size,
            final(self).height == old(self).height,
    {
        let ghost before = nview::<P>(*self);
        let ghost l = lview::<P>(self.left);
        let ghost r = lview::<P>(self.right);
        let ghost pl = pend::<P>(self.rev, self.lazy_pending, self.lazy, l);
        let ghost pr = pend::<P>(self.rev, self.lazy_pending, self.lazy, r);
        self.key = P::act_apply_key(&self.key, act);
        let size = self.size as usize;
        self.agg = P::act_apply_agg(&self.agg, act, size);
        self.agg_rev = P::act_apply_agg(&self.agg_rev, act, size);
        self.lazy = P::act_compose(act, &self.lazy);
        self.lazy_pending = true;
        proof {
            let old_key = before[pl.len() as int];
            let t_l = if self.rev { l.reverse() } else { l };
            let t_r = if self.rev { r.reverse() } else { r };
            lemma_act_concat::<P>(pl, old_key, pr, *act);
            // the new tags act as the old ones followed by `act`
            assert(pend::<P>(self.rev, true, self.lazy, l) == act_seq::<P>(pl, *act)) by {
                lemma_act_seq_compose::<P>(t_l, *act, old(self).lazy);
                if !old(self).lazy_pending {
                    lemma_act_seq_unit::<P>(t_l);
                }
            }
            assert(pend::<P>(self.rev, true, self.lazy, r) == act_seq::<P>(pr, *act)) by {
                lemma_act_seq_compose::<P>(t_r, *act, old(self).lazy);
                if !old(self).lazy_pending {
                    lemma_act_seq_unit::<P>(t_r);
                }
            }
            assert(before =~= pl + seq![old_key] + pr);
            assert(nview::<P>(*self) =~= act_seq::<P>(before, *act));
            lemma_fold_act::<P>(before, *act);
            lemma_fold_act::<P>(before.reverse(), *act);
            lemma_act_reverse::<P>(before, *act);
        }
    }

    /// Reverse the whole subtree, lazily.
    fn apply_reverse(&mut self)
        requires
            nwf::<P>(*old(self)),
        ensures
            nwf::<P>(*final(self)),
            nview::<P>(*final(self)) == nview::<P>(*old(self)).reverse(),
            final(self).size == old(self).size,
            final(self).height == old(self).height,
    {
        let ghost before = nview::<P>(*self);
        self.rev = !self.rev;
        std::mem::swap(&mut self.left, &mut self.right);
        std::mem::swap(&mut self.agg, &mut self.agg_rev);
        proof {
            let l = lview::<P>(old(self).left);
            let r = lview::<P>(old(self).right);
            let p = |s: Seq<P::Key>| pend::<P>(old(self).rev, old(self).lazy_pending, old(self).lazy, s);
            let q = |s: Seq<P::Key>| pend::<P>(self.rev, self.lazy_pending, self.lazy, s);
            // q(s) == p(s).reverse()
            assert(q(r) == p(r).reverse()) by {
                if old(self).lazy_pending {
                    lemma_act_reverse::<P>(if old(self).rev { r.reverse() } else { r }, self.lazy);
                    assert(r.reverse().reverse() =~= r);
                } else {
                    assert(r.reverse().reverse() =~= r);
                }
            }
            assert(q(l) == p(l).reverse()) by {
                if old(self).lazy_pending {
                    lemma_act_reverse::<P>(if old(self).rev { l.reverse() } else { l }, self.lazy);
                    assert(l.reverse().reverse() =~= l);
                } else {
                    assert(l.reverse().reverse() =~= l);
                }
            }
            lemma_reverse_concat(p(l), self.key, p(r));
            assert(nview::<P>(*self) == q(r) + seq![self.key] + q(l));
            assert(before.reverse().reverse() =~= before);
        }
    }

    /// Hand pending tags down to the children.
    fn push(&mut self)
        requires
            nwf::<P>(*old(self)),
        ensures
            nwf::<P>(*final(self)),
            nview::<P>(*final(self)) == nview::<P>(*old(self)),
            nview::<P>(*final(self)) == lview::<P>(final(self).left) + seq![final(self).key] + lview::<P>(final(self).right),
            !final(self).rev,
            !final(self).lazy_pending,
            final(self).lazy == P::spec_act_unit(),
            final(self).key == old(self).key,
            final(self).size == old(self).size,
            final(self).height == old(self).height,
            final(self).left is Some == old(self).left is Some,
            final(self).right is Some == old(self).right is Some,
            lwf::<P>(final(self).left),
            lwf::<P>(final(self).right),
            Self::spec_height(final(self).left) == Self::spec_height(old(self).left) || old(self).rev,
            Self::spec_height(final(self).right) == Self::spec_height(old(self).right) || old(self).rev,
            old(self).rev ==> Self::spec_height(final(self).left) == Self::spec_height(old(self).left)
                && Self::spec_height(final(self).right) == Self::spec_height(old(self).right),
    {
        if !self.rev && !self.lazy_pending {
            proof {
                lemma_act_seq_unit::<P>(lview::<P>(self.left));
            }
            return;
        }
        let ghost before = nview::<P>(*self);
        let ghost l0 = lview::<P>(self.left);
        let ghost r0 = lview::<P>(self.right);
        if self.rev {
            match &mut self.left {
                Some(left) => left.apply_reverse(),
                None => {},
            }
            match &mut self.right {
                Some(right) => right.apply_reverse(),
                None => {},
            }
            self.rev = false;
            proof {
                assert(lview::<P>(self.left) == l0.reverse());
                assert(lview::<P>(self.right) == r0.reverse());
            }
        }
        let ghost l1 = lview::<P>(self.left);
        let ghost r1 = lview::<P>(self.right);
        if self.lazy_pending {
            let act = P::act_copy(&self.lazy);
            match &mut self.left {
                Some(left) => left.apply_action(&act),
                None => {},
            }
            match &mut self.right {
                Some(right) => right.apply_action(&act),
                None => {},
            }
            self.lazy = P::act_unit();
            self.lazy_pending = false;
            proof {
                assert(lview::<P>(self.left) == act_seq::<P>(l1, act));
                assert(lview::<P>(self.right) == act_seq::<P>(r1, act));
            }
        }
        proof {
            lemma_act_seq_unit::<P>(lview::<P>(self.left));
            lemma_act_seq_unit::<P>(lview::<P>(self.right));
            assert(nview::<P>(*self) =~= before);
        }
    }
}

impl<P: LazyMapMonoid> ImplicitAvl<P> {
    pub fn new() -> (t: Self)
        ensures
            t.wf(),
            t.seq() == Seq::<P::Key>::empty(),
    {
        Self::with_seed(0)
    }

    pub fn with_seed(_seed: u64) -> (t: Self)
        ensures
            t.wf(),
            t.seq() == Seq::<P::Key>::empty(),
    {
        Self { root: None, len: 0 }
    }

    /// The positions a range names, if it is valid.
    fn normalize_range(range: Range<usize>, len: usize) -> (r: Option<(usize, usize)>)
        ensures
            r == if range.start <= range.end <= len {
                Some((range.start, range.end))
            } else {
                None::<(usize, usize)>
            },
    {
        let start = range.start;
        let end = range.end;
        if start > end || end > len {
            return None;
        }
        Some((start, end))
    }

    fn rotate_right(root: Box<Node<P>>) -> (r: Box<Node<P>>)
        requires
            nwf::<P>(*root),
            root.left is Some,
        ensures
            nwf::<P>(*r),
            nview::<P>(*r) == nview::<P>(*root),
            r.right is Some && r.right->0.key == root.key,
    {
        let ghost orig = nview::<P>(*root);
        let mut root = root;
        root.push();
        let mut left = root.left.take().expect("rotate_right needs left");
        left.push();
        root.left = left.right.take();
        proof {
            assert(llen::<P>(root.left) + llen::<P>(root.right) < u32::MAX);
        }
        root.recalc();
        let ghost rv = nview::<P>(*root);
        left.right = Some(root);
        proof {
            assert(lview::<P>(left.right) == rv);
        }
        left.recalc();
        proof {
            assert(nview::<P>(*left) =~= orig);
        }
        left
    }

    fn rotate_left(root: Box<Node<P>>) -> (r: Box<Node<P>>)
        requires
            nwf::<P>(*root),
            root.right is Some,
        ensures
            nwf::<P>(*r),
            nview::<P>(*r) == nview::<P>(*root),
            r.left is Some && r.left->0.key == root.key,
    {
        let ghost orig = nview::<P>(*root);
        let mut root = root;
        root.push();
        let mut right = root.right.take().expect("rotate_left needs right");
        right.push();
        root.right = right.left.take();
        root.recalc();
        let ghost rv = nview::<P>(*root);
        right.left = Some(root);
        proof {
            assert(lview::<P>(right.left) == rv);
        }
        right.recalc();
        proof {
            assert(nview::<P>(*right) =~= orig);
        }
        right
    }

    /// Recompute `node` and restore balance by rotations.
    #[verifier::spinoff_prover]
    #[verifier::rlimit(60)]
    fn rebalance(node: Box<Node<P>>) -> (r: Box<Node<P>>)
        requires
            !node.rev,
            !node.lazy_pending,
            node.lazy == P::spec_act_unit(),
            lwf::<P>(node.left),
            lwf::<P>(node.right),
            1 + llen::<P>(node.left) + llen::<P>(node.right) <= u32::MAX,
        ensures
            nwf::<P>(*r),
            nview::<P>(*r) == lview::<P>(node.left) + seq![node.key] + lview::<P>(node.right),
    {
        let mut node = node;
        node.recalc();
        let balance = Node::height(&node.left) as i32 - Node::height(&node.right) as i32;
        if balance > 1 {
            let mut rotate_child = false;
            match &node.left {
                Some(left) => {
                    if Node::height(&left.right) > Node::height(&left.left) {
                        rotate_child = true;
                    }
                },
                None => {},
            }
            if rotate_child {
                let ghost nv = nview::<P>(*node);
                let left = node.left.take().unwrap();
                node.left = Some(Self::rotate_left(left));
                proof {
                    assert(nview::<P>(*node) == nv);
                }
            }
            if node.left.is_some() {
                return Self::rotate_right(node);
            }
            return node;
        }
        if balance < -1 {
            let mut rotate_child = false;
            match &node.right {
                Some(right) => {
                    if Node::height(&right.left) > Node::height(&right.right) {
                        rotate_child = true;
                    }
                },
                None => {},
            }
            if rotate_child {
                let ghost nv = nview::<P>(*node);
                let right = node.right.take().unwrap();
                node.right = Some(Self::rotate_right(right));
                proof {
                    assert(nview::<P>(*node) == nv);
                }
            }
            if node.right.is_some() {
                return Self::rotate_left(node);
            }
            return node;
        }
        node
    }

    #[verifier::spinoff_prover]
    #[verifier::rlimit(60)]
    fn insert_node(root: Option<Box<Node<P>>>, index: usize, key: P::Key) -> (r: Option<Box<Node<P>>>)
        requires
            lwf::<P>(root),
            index <= llen::<P>(root),
            llen::<P>(root) < u32::MAX,
        ensures
            lwf::<P>(r),
            lview::<P>(r) == lview::<P>(root).insert(index as int, key),
        decreases llen::<P>(root),
    {
        let mut node = match root {
            Some(node) => node,
            None => {
                let n = Box::new(Node::new(key));
                proof {
                    assert(Seq::<P::Key>::empty().insert(0, key) =~= seq![key]);
                }
                return Some(n);
            },
        };
        let ghost before = nview::<P>(*node);
        node.push();
        let left_size = Node::size(&node.left) as usize;
        if index <= left_size {
            let ghost l = lview::<P>(node.left);
            node.left = Self::insert_node(node.left.take(), index, key);
            proof {
                assert(l.insert(index as int, key) + seq![node.key] + lview::<P>(node.right)
                    =~= before.insert(index as int, key));
            }
        } else {
            let ghost r = lview::<P>(node.right);
            node.right = Self::insert_node(node.right.take(), index - left_size - 1, key);
            proof {
                assert(lview::<P>(node.left) + seq![node.key] + r.insert(index - left_size - 1, key)
                    =~= before.insert(index as int, key));
            }
        }
        Some(Self::rebalance(node))
    }

    #[verifier::spinoff_prover]
    #[verifier::rlimit(60)]
    fn remove_min(root: Box<Node<P>>) -> (r: (Option<Box<Node<P>>>, P::Key))
        requires
            nwf::<P>(*root),
        ensures
            lwf::<P>(r.0),
            nview::<P>(*root).len() > 0,
            r.1 == nview::<P>(*root)[0],
            lview::<P>(r.0) == nview::<P>(*root).drop_first(),
        decreases nview::<P>(*root).len(),
    {
        let mut root = root;
        let ghost before = nview::<P>(*root);
        root.push();
        if root.left.is_none() {
            proof {
                assert(before =~= seq![root.key] + lview::<P>(root.right));
            }
            let right = root.right.take();
            return (right, root.key);
        }
        let ghost r = lview::<P>(root.right);
        let (left, key) = Self::remove_min(root.left.take().unwrap());
        root.left = left;
        let root = Self::rebalance(root);
        proof {
            assert(nview::<P>(*root) =~= before.drop_first());
        }
        (Some(root), key)
    }

    #[verifier::spinoff_prover]
    #[verifier::rlimit(60)]
    fn remove_node(root: Option<Box<Node<P>>>, index: usize) -> (r: (Option<Box<Node<P>>>, Option<P::Key>))
        requires
            lwf::<P>(root),
        ensures
            lwf::<P>(r.0),
            index < llen::<P>(root) ==> r.1 == Some(lview::<P>(root)[index as int])
                && lview::<P>(r.0) == lview::<P>(root).remove(index as int),
            index >= llen::<P>(root) ==> r.1 is None && lview::<P>(r.0) == lview::<P>(root),
        decreases llen::<P>(root),
    {
        let mut node = match root {
            Some(node) => node,
            None => return (None, None),
        };
        let ghost before = nview::<P>(*node);
        node.push();
        let left_size = Node::size(&node.left) as usize;
        if index < left_size {
            let ghost l = lview::<P>(node.left);
            let (left, removed) = Self::remove_node(node.left.take(), index);
            node.left = left;
            proof {
                assert(l.remove(index as int) + seq![node.key] + lview::<P>(node.right)
                    =~= before.remove(index as int));
            }
            return (Some(Self::rebalance(node)), removed);
        }
        if index > left_size {
            let ghost r = lview::<P>(node.right);
            let (right, removed) = Self::remove_node(node.right.take(), index - left_size - 1);
            node.right = right;
            proof {
                if index < before.len() {
                    assert(lview::<P>(node.left) + seq![node.key] + r.remove(index - left_size - 1)
                        =~= before.remove(index as int));
                } else {
                    assert(lview::<P>(node.left) + seq![node.key] + r =~= before);
                }
            }
            return (Some(Self::rebalance(node)), removed);
        }

        let ghost l = lview::<P>(node.left);
        let ghost r = lview::<P>(node.right);
        let (rest, removed) = Self::remove_root(node);
        proof {
            assert(l + r =~= before.remove(index as int));
        }
        (rest, Some(removed))
    }

    /// The children of a node without pending tags, joined.
    #[verifier::spinoff_prover]
    #[verifier::rlimit(60)]
    fn remove_root(node: Box<Node<P>>) -> (r: (Option<Box<Node<P>>>, P::Key))
        requires
            !node.rev,
            !node.lazy_pending,
            node.lazy == P::spec_act_unit(),
            lwf::<P>(node.left),
            lwf::<P>(node.right),
            1 + llen::<P>(node.left) + llen::<P>(node.right) <= u32::MAX,
        ensures
            lwf::<P>(r.0),
            lview::<P>(r.0) == lview::<P>(node.left) + lview::<P>(node.right),
            r.1 == node.key,
    {
        let mut node = node;
        let ghost l = lview::<P>(node.left);
        let ghost r = lview::<P>(node.right);
        if node.left.is_none() {
            proof {
                assert(l + r =~= r);
            }
            return (node.right.take(), node.key);
        }
        if node.right.is_none() {
            proof {
                assert(l + r =~= l);
            }
            return (node.left.take(), node.key);
        }
        let (right, successor) = Self::remove_min(node.right.take().unwrap());
        node.right = right;
        let mut removed = successor;
        std::mem::swap(&mut node.key, &mut removed);
        proof {
            assert(l + seq![successor] + lview::<P>(node.right) =~= l + r);
        }
        (Some(Self::rebalance(node)), removed)
    }

    #[verifier::spinoff_prover]
    #[verifier::rlimit(60)]
    fn split(root: Option<Box<Node<P>>>, left_count: usize) -> (r: (Option<Box<Node<P>>>, Option<Box<Node<P>>>))
        requires
            lwf::<P>(root),
        ensures
            lwf::<P>(r.0),
            lwf::<P>(r.1),
            lview::<P>(r.0) == lview::<P>(root).take(
                if left_count <= llen::<P>(root) { left_count as int } else { llen::<P>(root) as int },
            ),
            lview::<P>(r.1) == lview::<P>(root).skip(
                if left_count <= llen::<P>(root) { left_count as int } else { llen::<P>(root) as int },
            ),
        decreases llen::<P>(root),
    {
        let mut node = match root {
            Some(node) => node,
            None => {
                proof {
                    assert(Seq::<P::Key>::empty().take(0) =~= Seq::<P::Key>::empty());
                    assert(Seq::<P::Key>::empty().skip(0) =~= Seq::<P::Key>::empty());
                }
                return (None, None);
            },
        };
        let ghost before = nview::<P>(*node);
        node.push();
        if left_count == 0 {
            proof {
                assert(before.take(0) =~= Seq::<P::Key>::empty());
                assert(before.skip(0) =~= before);
            }
            return (None, Some(node));
        }
        if left_count >= node.size as usize {
            proof {
                assert(before.take(before.len() as int) =~= before);
                assert(before.skip(before.len() as int) =~= Seq::<P::Key>::empty());
            }
            return (Some(node), None);
        }
        let left_size = Node::size(&node.left) as usize;
        if left_count <= left_size {
            let ghost l = lview::<P>(node.left);
            let ghost rr = lview::<P>(node.right);
            let ghost k = node.key;
            let (left, right) = Self::split(node.left.take(), left_count);
            node.left = right;
            let node = Self::rebalance(node);
            proof {
                assert(l.take(left_count as int) =~= before.take(left_count as int));
                assert(l.skip(left_count as int) + seq![k] + rr =~= before.skip(left_count as int));
            }
            (left, Some(node))
        } else {
            let ghost r = lview::<P>(node.right);
            let ghost lv = lview::<P>(node.left);
            let ghost k = node.key;
            let (left, right) = Self::split(node.right.take(), left_count - left_size - 1);
            node.right = left;
            let node = Self::rebalance(node);
            proof {
                assert(lv + seq![k] + r.take(left_count - left_size - 1) =~= before.take(left_count as int));
                assert(r.skip(left_count - left_size - 1) =~= before.skip(left_count as int));
            }
            (Some(node), right)
        }
    }

    #[verifier::spinoff_prover]
    #[verifier::rlimit(60)]
    fn merge(left: Option<Box<Node<P>>>, right: Option<Box<Node<P>>>) -> (r: Option<Box<Node<P>>>)
        requires
            lwf::<P>(left),
            lwf::<P>(right),
            llen::<P>(left) + llen::<P>(right) <= u32::MAX,
        ensures
            lwf::<P>(r),
            lview::<P>(r) == lview::<P>(left) + lview::<P>(right),
        decreases llen::<P>(left) + llen::<P>(right),
    {
        match (left, right) {
            (None, right) => {
                proof {
                    assert(Seq::<P::Key>::empty() + lview::<P>(right) =~= lview::<P>(right));
                }
                right
            },
            (left, None) => {
                proof {
                    assert(lview::<P>(left) + Seq::<P::Key>::empty() =~= lview::<P>(left));
                }
                left
            },
            (Some(mut left), Some(mut right)) => {
                let ghost lv = nview::<P>(*left);
                let ghost rv = nview::<P>(*right);
                if left.height >= right.height {
                    left.push();
                    let ghost ll = lview::<P>(left.left);
                    let ghost lr = lview::<P>(left.right);
                    let ghost k = left.key;
                    left.right = Self::merge(left.right.take(), Some(right));
                    proof {
                        assert(ll + seq![k] + (lr + rv) =~= lv + rv);
                    }
                    Some(Self::rebalance(left))
                } else {
                    right.push();
                    let ghost rl = lview::<P>(right.left);
                    let ghost rr = lview::<P>(right.right);
                    let ghost k = right.key;
                    right.left = Self::merge(Some(left), right.left.take());
                    proof {
                        assert((lv + rl) + seq![k] + rr =~= lv + rv);
                    }
                    Some(Self::rebalance(right))
                }
            },
        }
    }

    fn get_node(node: &mut Option<Box<Node<P>>>, index: usize) -> (r: Option<&P::Key>)
        requires
            lwf::<P>(*old(node)),
        ensures
            lwf::<P>(*final(node)),
            lview::<P>(*final(node)) == lview::<P>(*old(node)),
            index < llen::<P>(*old(node)) ==> r == Some(&lview::<P>(*old(node))[index as int]),
            index >= llen::<P>(*old(node)) ==> r is None,
        decreases llen::<P>(*old(node)),
    {
        match node {
            None => None,
            Some(current) => {
                current.push();
                let left_size = Node::size(&current.left) as usize;
                if index < left_size {
                    Self::get_node(&mut current.left, index)
                } else if index == left_size {
                    Some(&current.key)
                } else {
                    Self::get_node(&mut current.right, index - (left_size + 1))
                }
            },
        }
    }

    /// Split into `[0, start)`, `[start, end)`, `[end, len)`.
    fn split3(root: Option<Box<Node<P>>>, start: usize, end: usize) -> (r: (Option<Box<Node<P>>>, Option<Box<Node<P>>>, Option<Box<Node<P>>>))
        requires
            lwf::<P>(root),
            start <= end <= llen::<P>(root),
        ensures
            lwf::<P>(r.0),
            lwf::<P>(r.1),
            lwf::<P>(r.2),
            lview::<P>(r.0) == lview::<P>(root).take(start as int),
            lview::<P>(r.1) == lview::<P>(root).subrange(start as int, end as int),
            lview::<P>(r.2) == lview::<P>(root).skip(end as int),
    {
        let (left, rest) = Self::split(root, start);
        let (mid, right) = Self::split(rest, end - start);
        proof {
            lemma_three_parts(lview::<P>(root), start as int, end as int);
        }
        (left, mid, right)
    }

    /// Merge three parts back.
    fn merge3(left: Option<Box<Node<P>>>, mid: Option<Box<Node<P>>>, right: Option<Box<Node<P>>>) -> (r: Option<Box<Node<P>>>)
        requires
            lwf::<P>(left),
            lwf::<P>(mid),
            lwf::<P>(right),
            llen::<P>(left) + llen::<P>(mid) + llen::<P>(right) <= u32::MAX,
        ensures
            lwf::<P>(r),
            lview::<P>(r) == lview::<P>(left) + lview::<P>(mid) + lview::<P>(right),
    {
        let r = Self::merge(left, Self::merge(mid, right));
        proof {
            assert(lview::<P>(left) + (lview::<P>(mid) + lview::<P>(right))
                =~= lview::<P>(left) + lview::<P>(mid) + lview::<P>(right));
        }
        r
    }
}

impl<P: LazyMapMonoid> Default for ImplicitAvl<P> {
    fn default() -> (t: Self)
        ensures
            t.wf(),
            t.seq() == Seq::<P::Key>::empty(),
    {
        Self::new()
    }
}

impl<P: LazyMapMonoid> SequenceBase for ImplicitAvl<P> {
    type Key = P::Key;

    closed spec fn seq(&self) -> Seq<P::Key> {
        lview::<P>(self.root)
    }

    closed spec fn wf(&self) -> bool {
        &&& lwf::<P>(self.root)
        &&& self.len == llen::<P>(self.root)
    }

    open spec fn max_len() -> nat {
        u32::MAX as nat
    }

    fn len(&self) -> (r: usize) {
        self.len
    }

    fn get(&mut self, index: usize) -> (r: Option<&P::Key>) {
        if index >= self.len {
            return None;
        }
        Self::get_node(&mut self.root, index)
    }

    fn insert(&mut self, index: usize, key: P::Key) {
        if index > self.len {
            return;
        }
        self.root = Self::insert_node(self.root.take(), index, key);
        self.len += 1;
    }

    fn remove(&mut self, index: usize) -> (r: Option<P::Key>) {
        if index >= self.len {
            return None;
        }
        let (root, removed) = Self::remove_node(self.root.take(), index);
        self.root = root;
        self.len -= 1;
        removed
    }
}

impl<P: LazyMapMonoid> SequenceSplitMerge for ImplicitAvl<P> {
    fn split_at(&mut self, index: usize) -> (right: Self) {
        let count = if index < self.len { index } else { self.len };
        let (left, right) = Self::split(self.root.take(), count);
        self.root = left;
        self.len = Node::size(&self.root) as usize;
        let len = Node::size(&right) as usize;
        Self { root: right, len }
    }

    fn merge(&mut self, right: Self) {
        self.root = Self::merge(self.root.take(), right.root);
        self.len = Node::size(&self.root) as usize;
    }
}

impl<P: LazyMapMonoid> SequenceAgg for ImplicitAvl<P> {
    type Agg = P::Agg;

    open spec fn spec_fold(s: Seq<P::Key>) -> P::Agg {
        fold::<P>(s)
    }

    fn fold(&mut self, range: Range<usize>) -> (r: P::Agg) {
        let (start, end) = match Self::normalize_range(range, self.len) {
            Some(bounds) => bounds,
            None => return P::agg_unit(),
        };
        if start == end {
            proof {
                assert(self.seq().subrange(start as int, end as int) =~= Seq::<P::Key>::empty());
            }
            return P::agg_unit();
        }
        let ghost before = self.seq();
        let (left, mid, right) = Self::split3(self.root.take(), start, end);
        let agg = Node::agg(&mid);
        self.root = Self::merge3(left, mid, right);
        proof {
            lemma_three_parts(before, start as int, end as int);
        }
        agg
    }
}

impl<P: LazyMapMonoid> SequenceLazy for ImplicitAvl<P> {
    type Act = P::Act;

    open spec fn spec_apply(key: P::Key, act: P::Act) -> P::Key {
        P::spec_act_apply_key(key, act)
    }

    fn update(&mut self, range: Range<usize>, act: P::Act) {
        let (start, end) = match Self::normalize_range(range, self.len) {
            Some(bounds) => bounds,
            None => return,
        };
        let ghost before = self.seq();
        if start == end {
            proof {
                lemma_three_parts(before, start as int, end as int);
                assert(before.subrange(start as int, end as int).map_values(|k: P::Key| P::spec_act_apply_key(k, act))
                    =~= Seq::<P::Key>::empty());
            }
            return;
        }
        let (left, mid, right) = Self::split3(self.root.take(), start, end);
        let mut mid = mid;
        match &mut mid {
            Some(node) => node.apply_action(&act),
            None => {},
        }
        self.root = Self::merge3(left, mid, right);
        proof {
            lemma_three_parts(before, start as int, end as int);
        }
    }
}

impl<P: LazyMapMonoid> SequenceReverse for ImplicitAvl<P> {
    fn reverse(&mut self, range: Range<usize>) {
        let (start, end) = match Self::normalize_range(range, self.len) {
            Some(bounds) => bounds,
            None => return,
        };
        let ghost before = self.seq();
        if start == end {
            proof {
                lemma_three_parts(before, start as int, end as int);
                assert(before.subrange(start as int, end as int).reverse() =~= Seq::<P::Key>::empty());
            }
            return;
        }
        let (left, mid, right) = Self::split3(self.root.take(), start, end);
        let mut mid = mid;
        match &mut mid {
            Some(node) => node.apply_reverse(),
            None => {},
        }
        self.root = Self::merge3(left, mid, right);
        proof {
            lemma_three_parts(before, start as int, end as int);
        }
    }
}

} // verus!
