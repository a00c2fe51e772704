use vstd::prelude::*;
use std::ops::Range;

use crate::bbst::policy::{LazyMapMonoid, fold, act_seq, lemma_fold_concat, lemma_fold_single, lemma_fold_act,
    lemma_act_seq_compose, lemma_act_seq_unit, lemma_act_reverse, lemma_reverse_concat, lemma_act_concat};
use crate::bbst::{len_limit, SequenceBase, SequenceSplitMerge, SequenceAgg, SequenceLazy, SequenceReverse, range_ok,
    lemma_three_parts};

verus! {

/// Implicit splay tree (top-down splaying).
pub struct ImplicitSplay<P: LazyMapMonoid> {
    root: Option<Box<Node<P>>>,
    len: usize,
}

struct Node<P: LazyMapMonoid> {
    key: P::Key,
    agg: P::Agg,
    agg_rev: P::Agg,
    lazy: P::Act,
    rev: bool,
    size: usize,
    left: Option<Box<Node<P>>>,
    right: Option<Box<Node<P>>>,
}

/// What a node's tags do to a child's keys: reverse them, then apply the action.
spec fn pend<P: LazyMapMonoid>(rev: bool, lazy: P::Act, s: Seq<P::Key>) -> Seq<P::Key> {
    act_seq::<P>(if rev { s.reverse() } else { s }, lazy)
}

/// Keys of a subtree in order, with every tag applied.
spec fn lview<P: LazyMapMonoid>(l: Option<Box<Node<P>>>) -> Seq<P::Key>
    decreases l,
{
    match l {
        None => Seq::empty(),
        Some(n) => pend::<P>(n.rev, n.lazy, lview::<P>(n.left)) + seq![n.key] + pend::<P>(n.rev, n.lazy, lview::<P>(n.right)),
    }
}

/// Sizes and aggregates of every node describe its subtree, whose length fits in `i64`.
spec fn lwf<P: LazyMapMonoid>(l: Option<Box<Node<P>>>) -> bool
    decreases l,
{
    match l {
        None => true,
        Some(n) => {
            &&& lwf::<P>(n.left)
            &&& lwf::<P>(n.right)
            &&& n.size == lview::<P>(l).len()
            &&& lview::<P>(l).len() <= len_limit()
            &&& n.agg == fold::<P>(lview::<P>(l))
            &&& n.agg_rev == fold::<P>(lview::<P>(l).reverse())
        }
    }
}

spec fn nview<P: LazyMapMonoid>(n: Node<P>) -> Seq<P::Key> {
    lview::<P>(Some(Box::new(n)))
}

spec fn nwf<P: LazyMapMonoid>(n: Node<P>) -> bool {
    lwf::<P>(Some(Box::new(n)))
}

spec fn llen<P: LazyMapMonoid>(l: Option<Box<Node<P>>>) -> nat {
    lview::<P>(l).len()
}

/// No tag waits to be handed down.
spec fn clean<P: LazyMapMonoid>(n: Node<P>) -> bool {
    !n.rev && n.lazy == P::spec_act_unit()
}

/// Keys left of the current root, held by the nodes of the left chain.
spec fn lseq<P: LazyMapMonoid>(c: Seq<Box<Node<P>>>) -> Seq<P::Key>
    decreases c.len(),
{
    if c.len() == 0 {
        Seq::empty()
    } else {
        lseq::<P>(c.drop_last()) + lview::<P>(c.last().left) + seq![c.last().key]
    }
}

/// Keys right of the current root, held by the nodes of the right chain.
spec fn rseq<P: LazyMapMonoid>(c: Seq<Box<Node<P>>>) -> Seq<P::Key>
    decreases c.len(),
{
    if c.len() == 0 {
        Seq::empty()
    } else {
        seq![c.last().key] + lview::<P>(c.last().right) + rseq::<P>(c.drop_last())
    }
}

proof fn lemma_pend_clean<P: LazyMapMonoid>(s: Seq<P::Key>)
    ensures
        pend::<P>(false, P::spec_act_unit(), s) == s,
{
    lemma_act_seq_unit::<P>(s);
}

proof fn lemma_pend_len<P: LazyMapMonoid>(rev: bool, lazy: P::Act, s: Seq<P::Key>)
    ensures
        pend::<P>(rev, lazy, s).len() == s.len(),
{
}

/// A clean node holds its left keys, its key and its right keys.
proof fn lemma_clean_view<P: LazyMapMonoid>(n: Node<P>)
    requires
        clean::<P>(n),
    ensures
        nview::<P>(n) == lview::<P>(n.left) + seq![n.key] + lview::<P>(n.right),
{
    lemma_pend_clean::<P>(lview::<P>(n.left));
    lemma_pend_clean::<P>(lview::<P>(n.right));
}

impl<P: LazyMapMonoid> Node<P> {
    fn new(key: P::Key) -> (n: Self)
        ensures
            nwf::<P>(n),
            nview::<P>(n) == seq![key],
    {
        let agg = P::agg_from_key(&key);
        let agg_rev = P::agg_copy(&agg);
        let n = Self { key, agg, agg_rev, lazy: P::act_unit(), rev: false, size: 1, left: None, right: None };
        proof {
            let e = Seq::<P::Key>::empty();
            assert(lview::<P>(n.left) == e);
            assert(lview::<P>(n.right) == e);
            assert(act_seq::<P>(e, n.lazy) =~= e);
            assert(nview::<P>(n) =~= seq![n.key]);
            assert(lwf::<P>(n.left));
            assert(lwf::<P>(n.right));
            lemma_fold_single::<P>(n.key);
            assert(seq![n.key].reverse() =~= seq![n.key]);
        }
        n
    }

    fn size(node: &Option<Box<Node<P>>>) -> (r: usize)
        requires
            lwf::<P>(*node),
        ensures
            r == llen::<P>(*node),
    {
        match node {
            Some(n) => n.size,
            None => 0,
        }
    }

    fn agg(node: &Option<Box<Node<P>>>) -> (r: P::Agg)
        requires
            lwf::<P>(*node),
        ensures
            r == fold::<P>(lview::<P>(*node)),
    {
        match node {
            Some(n) => P::agg_copy(&n.agg),
            None => P::agg_unit(),
        }
    }

    fn agg_rev(node: &Option<Box<Node<P>>>) -> (r: P::Agg)
        requires
            lwf::<P>(*node),
        ensures
            r == fold::<P>(lview::<P>(*node).reverse()),
    {
        match node {
            Some(n) => P::agg_copy(&n.agg_rev),
            None => {
                assert(lview::<P>(*node).reverse() =~= Seq::<P::Key>::empty());
                P::agg_unit()
            },
        }
    }

    /// Recompute size and aggregates of a clean node.
    fn recalc(&mut self)
        requires
            clean::<P>(*old(self)),
            lwf::<P>(old(self).left),
            lwf::<P>(old(self).right),
            1 + llen::<P>(old(self).left) + llen::<P>(old(self).right) <= len_limit(),
        ensures
            nwf::<P>(*final(self)),
            nview::<P>(*final(self)) == lview::<P>(old(self).left) + seq![old(self).key] + lview::<P>(old(self).right),
            final(self).left == old(self).left,
            final(self).right == old(self).right,
            final(self).key == old(self).key,
            clean::<P>(*final(self)),
    {
        let left_agg = Self::agg(&self.left);
        let right_agg = Self::agg(&self.right);
        let left_rev = Self::agg_rev(&self.left);
        let right_rev = Self::agg_rev(&self.right);
        let left_size = Self::size(&self.left);
        let right_size = Self::size(&self.right);

        self.size = 1 + left_size + right_size;
        self.agg = P::agg_merge(&left_agg, &self.key, &right_agg);
        self.agg_rev = P::agg_merge(&right_rev, &self.key, &left_rev);
        proof {
            let l = lview::<P>(self.left);
            let r = lview::<P>(self.right);
            lemma_clean_view::<P>(*self);
            lemma_fold_concat::<P>(l, self.key, r);
            lemma_reverse_concat(l, self.key, r);
            lemma_fold_concat::<P>(r.reverse(), self.key, l.reverse());
        }
    }

    /// Apply `act` to the whole subtree, lazily.
    fn apply_action(&mut self, act: &P::Act)
        requires
            nwf::<P>(*old(self)),
        ensures
            nwf::<P>(*final(self)),
            nview::<P>(*final(self)) == act_seq::<P>(nview::<P>(*old(self)), *act),
            final(self).size == old(self).size,
            final(self).rev == old(self).rev,
            final(self).left == old(self).left,
            final(self).right == old(self).right,
    {
        let ghost before = nview::<P>(*self);
        let ghost l = lview::<P>(self.left);
        let ghost r = lview::<P>(self.right);
        let ghost pl = pend::<P>(self.rev, self.lazy, l);
        let ghost pr = pend::<P>(self.rev, self.lazy, r);
        self.key = P::act_apply_key(&self.key, act);
        self.agg = P::act_apply_agg(&self.agg, act, self.size);
        self.agg_rev = P::act_apply_agg(&self.agg_rev, act, self.size);
        self.lazy = P::act_compose(act, &self.lazy);
        proof {
            let old_key = before[pl.len() as int];
            let t_l = if self.rev { l.reverse() } else { l };
            let t_r = if self.rev { r.reverse() } else { r };
            lemma_act_concat::<P>(pl, old_key, pr, *act);
            lemma_act_seq_compose::<P>(t_l, *act, old(self).lazy);
            lemma_act_seq_compose::<P>(t_r, *act, old(self).lazy);
            assert(before =~= pl + seq![old_key] + pr);
            assert(nview::<P>(*self) =~= act_seq::<P>(before, *act));
            lemma_fold_act::<P>(before, *act);
            lemma_fold_act::<P>(before.reverse(), *act);
            lemma_act_reverse::<P>(before, *act);
        }
    }

    /// Reverse the whole subtree, lazily.
    fn apply_reverse(&mut self)
        requires
            nwf::<P>(*old(self)),
        ensures
            nwf::<P>(*final(self)),
            nview::<P>(*final(self)) == nview::<P>(*old(self)).reverse(),
            final(self).size == old(self).size,
    {
        let ghost before = nview::<P>(*self);
        self.rev = !self.rev;
        std::mem::swap(&mut self.left, &mut self.right);
        std::mem::swap(&mut self.agg, &mut self.agg_rev);
        proof {
            let l = lview::<P>(old(self).left);
            let r = lview::<P>(old(self).right);
            let lz = old(self).lazy;
            let t_l = if old(self).rev { l.reverse() } else { l };
            let t_r = if old(self).rev { r.reverse() } else { r };
            assert(l.reverse().reverse() =~= l);
            assert(r.reverse().reverse() =~= r);
            lemma_act_reverse::<P>(t_l, lz);
            lemma_act_reverse::<P>(t_r, lz);
            assert(pend::<P>(self.rev, lz, r) == pend::<P>(old(self).rev, lz, r).reverse());
            assert(pend::<P>(self.rev, lz, l) == pend::<P>(old(self).rev, lz, l).reverse());
            lemma_reverse_concat(pend::<P>(old(self).rev, lz, l), self.key, pend::<P>(old(self).rev, lz, r));
            assert(before.reverse().reverse() =~= before);
        }
    }

    /// Hand the tags down to the children.
    fn push(&mut self)
        requires
            nwf::<P>(*old(self)),
        ensures
            nwf::<P>(*final(self)),
            nview::<P>(*final(self)) == nview::<P>(*old(self)),
            nview::<P>(*final(self)) == lview::<P>(final(self).left) + seq![final(self).key] + lview::<P>(final(self).right),
            clean::<P>(*final(self)),
            final(self).key == old(self).key,
            final(self).size == old(self).size,
            lwf::<P>(final(self).left),
            lwf::<P>(final(self).right),
            final(self).left is Some == old(self).left is Some,
            final(self).right is Some == old(self).right is Some,
            !old(self).rev ==> llen::<P>(final(self).left) == llen::<P>(old(self).left),
            !old(self).rev ==> llen::<P>(final(self).right) == llen::<P>(old(self).right),
            !old(self).rev ==> (final(self).left matches Some(c) ==> c.rev == old(self).left.unwrap().rev
                && c.left == old(self).left.unwrap().left && c.right == old(self).left.unwrap().right),
            !old(self).rev ==> (final(self).right matches Some(c) ==> c.rev == old(self).right.unwrap().rev
                && c.left == old(self).right.unwrap().left && c.right == old(self).right.unwrap().right),
    {
        let ghost before = nview::<P>(*self);
        let ghost l0 = lview::<P>(self.left);
        let ghost r0 = lview::<P>(self.right);
        let ghost rv = self.rev;
        if self.rev {
            match &mut self.left {
                Some(left) => left.apply_reverse(),
                None => {},
            }
            match &mut self.right {
                Some(right) => right.apply_reverse(),
                None => {},
            }
            self.rev = false;
        }
        let ghost l1 = lview::<P>(self.left);
        let ghost r1 = lview::<P>(self.right);
        proof {
            assert(l1 == if rv { l0.reverse() } else { l0 });
            assert(r1 == if rv { r0.reverse() } else { r0 });
        }
        let act = P::act_copy(&self.lazy);
        match &mut self.left {
            Some(left) => left.apply_action(&act),
            None => {},
        }
        match &mut self.right {
            Some(right) => right.apply_action(&act),
            None => {},
        }
        self.lazy = P::act_unit();
        proof {
            assert(lview::<P>(self.left) == act_seq::<P>(l1, act)) by {
                if self.left is None {
                    assert(act_seq::<P>(l1, act) =~= l1);
                }
            }
            assert(lview::<P>(self.right) == act_seq::<P>(r1, act)) by {
                if self.right is None {
                    assert(act_seq::<P>(r1, act) =~= r1);
                }
            }
            lemma_clean_view::<P>(*self);
            assert(nview::<P>(*self) =~= before);
        }
    }
}

impl<P: LazyMapMonoid> ImplicitSplay<P> {
    pub fn new() -> (t: Self)
        ensures
            t.wf(),
            t.seq() == Seq::<P::Key>::empty(),
    {
        Self::with_seed(0)
    }

    pub fn with_seed(_seed: u64) -> (t: Self)
        ensures
            t.wf(),
            t.seq() == Seq::<P::Key>::empty(),
    {
        Self { root: None, len: 0 }
    }

    /// The positions a range names, if it is valid.
    fn normalize_range(range: Range<usize>, len: usize) -> (r: Option<(usize, usize)>)
        ensures
            r == if range.start <= range.end <= len {
                Some((range.start, range.end))
            } else {
                None::<(usize, usize)>
            },
    {
        let start = range.start;
        let end = range.end;
        if start > end || end > len {
            return None;
        }
        Some((start, end))
    }

    fn rotate_right(root: Box<Node<P>>) -> (r: Box<Node<P>>)
        requires
            nwf::<P>(*root),
            !root.rev,
            root.left matches Some(l) ==> !l.rev,
        ensures
            nwf::<P>(*r),
            clean::<P>(*r),
            nview::<P>(*r) == nview::<P>(*root),
            root.left matches Some(l) ==> llen::<P>(r.left) == llen::<P>(l.left),
    {
        let ghost orig = nview::<P>(*root);
        let mut root = root;
        root.push();
        let mut left = match root.left.take() {
            Some(node) => node,
            None => return root,
        };
        left.push();
        root.left = left.right.take();
        root.recalc();
        let ghost rv = nview::<P>(*root);
        left.right = Some(root);
        assert(lview::<P>(left.right) == rv);
        left.recalc();
        assert(nview::<P>(*left) =~= orig);
        left
    }

    fn rotate_left(root: Box<Node<P>>) -> (r: Box<Node<P>>)
        requires
            nwf::<P>(*root),
            !root.rev,
            root.right matches Some(l) ==> !l.rev,
        ensures
            nwf::<P>(*r),
            clean::<P>(*r),
            nview::<P>(*r) == nview::<P>(*root),
            root.right matches Some(l) ==> llen::<P>(r.right) == llen::<P>(l.right),
    {
        let ghost orig = nview::<P>(*root);
        let mut root = root;
        root.push();
        let mut right = match root.right.take() {
            Some(node) => node,
            None => return root,
        };
        right.push();
        root.right = right.left.take();
        root.recalc();
        let ghost rv = nview::<P>(*root);
        right.left = Some(root);
        assert(lview::<P>(right.left) == rv);
        right.recalc();
        assert(nview::<P>(*right) =~= orig);
        right
    }

    /// Bring the key at `index` to the root (the last key, if `index` is past the end).
    #[verifier::rlimit(100)]
    fn splay(root: Option<Box<Node<P>>>, index: usize) -> (r: Option<Box<Node<P>>>)
        requires
            lwf::<P>(root),
        ensures
            lwf::<P>(r),
            lview::<P>(r) == lview::<P>(root),
            r is Some == root is Some,
            r matches Some(n) ==> clean::<P>(*n),
            index < llen::<P>(root) ==> (r matches Some(n) && llen::<P>(n.left) == index),
    {
        let mut root = match root {
            Some(node) => node,
            None => return None,
        };
        let ghost total = nview::<P>(*root);
        let ghost target = index;
        let mut index = index;
        let mut left_chain: Vec<Box<Node<P>>> = Vec::new();
        let mut right_chain: Vec<Box<Node<P>>> = Vec::new();
        let mut done = false;
        assert(lseq::<P>(left_chain@) =~= Seq::<P::Key>::empty());
        assert(rseq::<P>(right_chain@) =~= Seq::<P::Key>::empty());
        assert(total =~= lseq::<P>(left_chain@) + nview::<P>(*root) + rseq::<P>(right_chain@));
        while !done
            invariant
                nwf::<P>(*root),
                total.len() <= len_limit(),
                forall|i: int| 0 <= i < left_chain.len() ==> {
                    &&& clean::<P>(*#[trigger] left_chain@[i])
                    &&& left_chain@[i].right is None
                    &&& lwf::<P>(left_chain@[i].left)
                },
                forall|i: int| 0 <= i < right_chain.len() ==> {
                    &&& clean::<P>(*#[trigger] right_chain@[i])
                    &&& right_chain@[i].left is None
                    &&& lwf::<P>(right_chain@[i].right)
                },
                total == lseq::<P>(left_chain@) + nview::<P>(*root) + rseq::<P>(right_chain@),
                target < total.len() ==> target == lseq::<P>(left_chain@).len() + index
                    && index < nview::<P>(*root).len(),
                done ==> clean::<P>(*root),
                done && target < total.len() ==> llen::<P>(root.left) == index,
            decreases nview::<P>(*root).len(), if done { 0int } else { 1int },
        {
            let ghost ls = lseq::<P>(left_chain@);
            let ghost rs = rseq::<P>(right_chain@);
            root.push();
            let ghost v0 = nview::<P>(*root);
            let left_size = Node::size(&root.left);
            if index < left_size {
                if root.left.is_none() {
                    done = true;
                } else {
                    match &mut root.left {
                        Some(left) => left.push(),
                        None => {},
                    }
                    let left_left_size = match &root.left {
                        Some(left) => Node::size(&left.left),
                        None => 0,
                    };
                    let ghost before_rot = nview::<P>(*root);
                    assert(before_rot == v0);
                    if index < left_left_size {
                        root = Self::rotate_right(root);
                    }
                    assert(nview::<P>(*root) == before_rot);
                    if root.left.is_none() {
                        done = true;
                    } else {
                        proof {
                            lemma_clean_view::<P>(*root);
                        }
                        let ghost sub = lview::<P>(root.left);
                        let next = root.left.take().unwrap();
                        proof {
                            assert(lview::<P>(Some(next)) == sub);
                            assert(before_rot == lview::<P>(Some(next)) + seq![root.key] + lview::<P>(root.right));
                        }
                        let ghost c0 = right_chain@;
                        let ghost kk = root.key;
                        let ghost rr = lview::<P>(root.right);
                        right_chain.push(root);
                        root = next;
                        proof {
                            let c = right_chain@;
                            assert(c.drop_last() =~= c0);
                            assert(rseq::<P>(c) == seq![kk] + rr + rs);
                            assert(total =~= ls + nview::<P>(*root) + rseq::<P>(right_chain@));
                        }
                    }
                }
            } else if index > left_size {
                index -= left_size + 1;
                if root.right.is_none() {
                    done = true;
                } else {
                    match &mut root.right {
                        Some(right) => right.push(),
                        None => {},
                    }
                    let right_left_size = match &root.right {
                        Some(right) => Node::size(&right.left),
                        None => 0,
                    };
                    let ghost before_rot = nview::<P>(*root);
                    assert(before_rot == v0);
                    if index > right_left_size {
                        root = Self::rotate_left(root);
                        if !root.right.is_none() {
                            index = index - (right_left_size + 1);
                        }
                    }
                    assert(nview::<P>(*root) == before_rot);
                    if root.right.is_none() {
                        done = true;
                    } else {
                        proof {
                            lemma_clean_view::<P>(*root);
                        }
                        let ghost sub = lview::<P>(root.right);
                        let next = root.right.take().unwrap();
                        proof {
                            assert(lview::<P>(Some(next)) == sub);
                            assert(before_rot == lview::<P>(root.left) + seq![root.key] + lview::<P>(Some(next)));
                        }
                        let ghost c0 = left_chain@;
                        let ghost kk = root.key;
                        let ghost ll = lview::<P>(root.left);
                        left_chain.push(root);
                        root = next;
                        proof {
                            let c = left_chain@;
                            assert(c.drop_last() =~= c0);
                            assert(lseq::<P>(c) == ls + ll + seq![kk]);
                            assert(total =~= lseq::<P>(left_chain@) + nview::<P>(*root) + rs);
                        }
                    }
                }
            } else {
                done = true;
            }
        }
        let ghost ls = lseq::<P>(left_chain@);
        let ghost rs = rseq::<P>(right_chain@);
        proof {
            lemma_clean_view::<P>(*root);
        }
        let ghost mid = lview::<P>(root.left);
        let ghost rmid = lview::<P>(root.right);
        let ghost key = root.key;
        let mut left_acc = root.left.take();
        while left_chain.len() > 0
            invariant
                lwf::<P>(left_acc),
                total.len() <= len_limit(),
                forall|i: int| 0 <= i < left_chain.len() ==> {
                    &&& clean::<P>(*#[trigger] left_chain@[i])
                    &&& left_chain@[i].right is None
                    &&& lwf::<P>(left_chain@[i].left)
                },
                lseq::<P>(left_chain@) + lview::<P>(left_acc) == ls + mid,
                ls.len() + mid.len() + 1 + rmid.len() + rs.len() == total.len(),
            decreases left_chain.len(),
        {
            let ghost c = left_chain@;
            let mut node = left_chain.pop().unwrap();
            proof {
                assert(c.drop_last() =~= left_chain@);
                assert(lseq::<P>(c) == lseq::<P>(left_chain@) + lview::<P>(node.left) + seq![node.key]);
                assert((lseq::<P>(c) + lview::<P>(left_acc)).len() == (ls + mid).len());
            }
            node.right = left_acc;
            node.recalc();
            left_acc = Some(node);
            proof {
                assert(lseq::<P>(left_chain@) + lview::<P>(left_acc) =~= ls + mid);
            }
        }
        let mut right_acc = root.right.take();
        while right_chain.len() > 0
            invariant
                lwf::<P>(right_acc),
                total.len() <= len_limit(),
                forall|i: int| 0 <= i < right_chain.len() ==> {
                    &&& clean::<P>(*#[trigger] right_chain@[i])
                    &&& right_chain@[i].left is None
                    &&& lwf::<P>(right_chain@[i].right)
                },
                lview::<P>(right_acc) + rseq::<P>(right_chain@) == rmid + rs,
                ls.len() + mid.len() + 1 + rmid.len() + rs.len() == total.len(),
            decreases right_chain.len(),
        {
            let ghost c = right_chain@;
            let mut node = right_chain.pop().unwrap();
            proof {
                assert(c.drop_last() =~= right_chain@);
                assert(rseq::<P>(c) == seq![node.key] + lview::<P>(node.right) + rseq::<P>(right_chain@));
                assert((lview::<P>(right_acc) + rseq::<P>(c)).len() == (rmid + rs).len());
            }
            node.left = right_acc;
            node.recalc();
            right_acc = Some(node);
            proof {
                assert(lview::<P>(right_acc) + rseq::<P>(right_chain@) =~= rmid + rs);
            }
        }
        proof {
            assert(lseq::<P>(left_chain@) =~= Seq::<P::Key>::empty());
            assert(rseq::<P>(right_chain@) =~= Seq::<P::Key>::empty());
            assert(lview::<P>(left_acc) =~= ls + mid);
            assert(lview::<P>(right_acc) =~= rmid + rs);
        }
        root.left = left_acc;
        root.right = right_acc;
        root.recalc();
        proof {
            assert(nview::<P>(*root) =~= total);
        }
        Some(root)
    }

    fn split(root: Option<Box<Node<P>>>, left_count: usize) -> (r: (Option<Box<Node<P>>>, Option<Box<Node<P>>>))
        requires
            lwf::<P>(root),
        ensures
            lwf::<P>(r.0),
            lwf::<P>(r.1),
            lview::<P>(r.0) == lview::<P>(root).take(
                if left_count <= llen::<P>(root) { left_count as int } else { llen::<P>(root) as int },
            ),
            lview::<P>(r.1) == lview::<P>(root).skip(
                if left_count <= llen::<P>(root) { left_count as int } else { llen::<P>(root) as int },
            ),
    {
        let root = match root {
            Some(root) => root,
            None => {
                assert(Seq::<P::Key>::empty().take(0) =~= Seq::<P::Key>::empty());
                assert(Seq::<P::Key>::empty().skip(0) =~= Seq::<P::Key>::empty());
                return (None, None);
            },
        };
        let ghost before = nview::<P>(*root);
        let size = root.size;
        if left_count == 0 {
            assert(before.take(0) =~= Seq::<P::Key>::empty());
            assert(before.skip(0) =~= before);
            return (None, Some(root));
        }
        if left_count >= size {
            assert(before.take(before.len() as int) =~= before);
            assert(before.skip(before.len() as int) =~= Seq::<P::Key>::empty());
            return (Some(root), None);
        }
        let mut root = Self::splay(Some(root), left_count).unwrap();
        proof {
            lemma_clean_view::<P>(*root);
        }
        let ghost l = lview::<P>(root.left);
        let ghost r = lview::<P>(root.right);
        let left = root.left.take();
        root.recalc();
        proof {
            assert(l =~= before.take(left_count as int));
            assert(seq![root.key] + r =~= before.skip(left_count as int));
            assert(nview::<P>(*root) =~= seq![root.key] + r);
        }
        (left, Some(root))
    }

    fn merge(left: Option<Box<Node<P>>>, right: Option<Box<Node<P>>>) -> (r: Option<Box<Node<P>>>)
        requires
            lwf::<P>(left),
            lwf::<P>(right),
            llen::<P>(left) + llen::<P>(right) <= len_limit(),
        ensures
            lwf::<P>(r),
            lview::<P>(r) == lview::<P>(left) + lview::<P>(right),
    {
        match (left, right) {
            (None, right) => {
                assert(Seq::<P::Key>::empty() + lview::<P>(right) =~= lview::<P>(right));
                right
            },
            (left, None) => {
                assert(lview::<P>(left) + Seq::<P::Key>::empty() =~= lview::<P>(left));
                left
            },
            (Some(left), Some(right)) => {
                let ghost lv = nview::<P>(*left);
                let ghost rv = nview::<P>(*right);
                let size = left.size;
                let mut root = Self::splay(Some(left), size - 1).unwrap();
                proof {
                    lemma_clean_view::<P>(*root);
                    assert(lview::<P>(root.right).len() == 0);
                    assert(lview::<P>(root.right) =~= Seq::<P::Key>::empty());
                }
                let ghost l = lview::<P>(root.left);
                root.right = Some(right);
                assert(lview::<P>(root.right) == rv);
                root.recalc();
                proof {
                    assert(l + seq![root.key] =~= lv);
                    assert(nview::<P>(*root) =~= lv + rv);
                }
                Some(root)
            },
        }
    }

    /// Split into `[0, start)`, `[start, end)`, `[end, len)`.
    fn split3(root: Option<Box<Node<P>>>, start: usize, end: usize) -> (r: (Option<Box<Node<P>>>, Option<Box<Node<P>>>, Option<Box<Node<P>>>))
        requires
            lwf::<P>(root),
            start <= end <= llen::<P>(root),
        ensures
            lwf::<P>(r.0),
            lwf::<P>(r.1),
            lwf::<P>(r.2),
            lview::<P>(r.0) == lview::<P>(root).take(start as int),
            lview::<P>(r.1) == lview::<P>(root).subrange(start as int, end as int),
            lview::<P>(r.2) == lview::<P>(root).skip(end as int),
    {
        let (left, rest) = Self::split(root, start);
        let (mid, right) = Self::split(rest, end - start);
        proof {
            lemma_three_parts(lview::<P>(root), start as int, end as int);
        }
        (left, mid, right)
    }

    /// Merge three parts back.
    fn merge3(left: Option<Box<Node<P>>>, mid: Option<Box<Node<P>>>, right: Option<Box<Node<P>>>) -> (r: Option<Box<Node<P>>>)
        requires
            lwf::<P>(left),
            lwf::<P>(mid),
            lwf::<P>(right),
            llen::<P>(left) + llen::<P>(mid) + llen::<P>(right) <= len_limit(),
        ensures
            lwf::<P>(r),
            lview::<P>(r) == lview::<P>(left) + lview::<P>(mid) + lview::<P>(right),
    {
        let r = Self::merge(left, Self::merge(mid, right));
        assert(lview::<P>(left) + (lview::<P>(mid) + lview::<P>(right))
            =~= lview::<P>(left) + lview::<P>(mid) + lview::<P>(right));
        r
    }
}

impl<P: LazyMapMonoid> Default for ImplicitSplay<P> {
    fn default() -> (t: Self)
        ensures
            t.wf(),
            t.seq() == Seq::<P::Key>::empty(),
    {
        Self::new()
    }
}

impl<P: LazyMapMonoid> SequenceBase for ImplicitSplay<P> {
    type Key = P::Key;

    closed spec fn seq(&self) -> Seq<P::Key> {
        lview::<P>(self.root)
    }

    closed spec fn wf(&self) -> bool {
        &&& lwf::<P>(self.root)
        &&& self.len == llen::<P>(self.root)
    }

    open spec fn max_len() -> nat {
        len_limit()
    }

    fn len(&self) -> (r: usize) {
        self.len
    }

    fn get(&mut self, index: usize) -> (r: Option<&P::Key>) {
        if index >= self.len {
            return None;
        }
        self.root = Self::splay(self.root.take(), index);
        match &self.root {
            Some(node) => {
                proof {
                    lemma_clean_view::<P>(**node);
                }
                Some(&node.key)
            },
            None => None,
        }
    }

    fn insert(&mut self, index: usize, key: P::Key) {
        if index > self.len {
            return;
        }
        let ghost before = self.seq();
        let node = Some(Box::new(Node::new(key)));
        let (left, right) = Self::split(self.root.take(), index);
        self.root = Self::merge(Self::merge(left, node), right);
        self.len += 1;
        proof {
            assert(before.take(index as int) + seq![key] + before.skip(index as int) =~= before.insert(index as int, key));
        }
    }

    fn remove(&mut self, index: usize) -> (r: Option<P::Key>) {
        if index >= self.len {
            return None;
        }
        let ghost before = self.seq();
        let (left, rest) = Self::split(self.root.take(), index);
        let (target, right) = Self::split(rest, 1);
        self.root = Self::merge(left, right);
        self.len -= 1;
        proof {
            assert(before.take(index as int) + before.skip(index as int + 1) =~= before.remove(index as int));
            assert(before.skip(index as int).skip(1) =~= before.skip(index as int + 1));
        }
        match target {
            Some(node) => {
                proof {
                    assert(before.skip(index as int).take(1) =~= seq![before[index as int]]);
                    lemma_pend_len::<P>(node.rev, node.lazy, lview::<P>(node.left));
                    lemma_pend_len::<P>(node.rev, node.lazy, lview::<P>(node.right));
                    assert(nview::<P>(*node)[0] == node.key);
                }
                Some(node.key)
            },
            None => None,
        }
    }
}

impl<P: LazyMapMonoid> SequenceSplitMerge for ImplicitSplay<P> {
    fn split_at(&mut self, index: usize) -> (right: Self) {
        let count = if index < self.len { index } else { self.len };
        let (left, right) = Self::split(self.root.take(), count);
        self.root = left;
        self.len = Node::size(&self.root);
        let len = Node::size(&right);
        Self { root: right, len }
    }

    fn merge(&mut self, right: Self) {
        self.root = Self::merge(self.root.take(), right.root);
        self.len = Node::size(&self.root);
    }
}

impl<P: LazyMapMonoid> SequenceAgg for ImplicitSplay<P> {
    type Agg = P::Agg;

    open spec fn spec_fold(s: Seq<P::Key>) -> P::Agg {
        fold::<P>(s)
    }

    fn fold(&mut self, range: Range<usize>) -> (r: P::Agg) {
        let (start, end) = match Self::normalize_range(range, self.len) {
            Some(bounds) => bounds,
            None => return P::agg_unit(),
        };
        if start == end {
            assert(self.seq().subrange(start as int, end as int) =~= Seq::<P::Key>::empty());
            return P::agg_unit();
        }
        let ghost before = self.seq();
        let (left, mid, right) = Self::split3(self.root.take(), start, end);
        let agg = Node::agg(&mid);
        self.root = Self::merge3(left, mid, right);
        proof {
            lemma_three_parts(before, start as int, end as int);
        }
        agg
    }
}

impl<P: LazyMapMonoid> SequenceLazy for ImplicitSplay<P> {
    type Act = P::Act;

    open spec fn spec_apply(key: P::Key, act: P::Act) -> P::Key {
        P::spec_act_apply_key(key, act)
    }

    #[verifier::rlimit(30)]
    fn update(&mut self, range: Range<usize>, act: P::Act) {
        let (start, end) = match Self::normalize_range(range, self.len) {
            Some(bounds) => bounds,
            None => return,
        };
        let ghost before = self.seq();
        if start == end {
            proof {
                lemma_three_parts(before, start as int, end as int);
                assert(act_seq::<P>(before.subrange(start as int, end as int), act) =~= Seq::<P::Key>::empty());
            }
            return;
        }
        let (left, mid, right) = Self::split3(self.root.take(), start, end);
        let mut mid = mid;
        match &mut mid {
            Some(node) => node.apply_action(&act),
            None => {},
        }
        self.root = Self::merge3(left, mid, right);
        proof {
            lemma_three_parts(before, start as int, end as int);
        }
    }
}

impl<P: LazyMapMonoid> SequenceReverse for ImplicitSplay<P> {
    fn reverse(&mut self, range: Range<usize>) {
        let (start, end) = match Self::normalize_range(range, self.len) {
            Some(bounds) => bounds,
            None => return,
        };
        let ghost before = self.seq();
        if start == end {
            proof {
                lemma_three_parts(before, start as int, end as int);
                assert(before.subrange(start as int, end as int).reverse() =~= Seq::<P::Key>::empty());
            }
            return;
        }
        let (left, mid, right) = Self::split3(self.root.take(), start, end);
        let mut mid = mid;
        match &mut mid {
            Some(node) => node.apply_reverse(),
            None => {},
        }
        self.root = Self::merge3(left, mid, right);
        proof {
            lemma_three_parts(before, start as int, end as int);
        }
    }
}

} // verus!
