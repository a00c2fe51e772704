use vstd::prelude::*;

use crate::dynamic_tree::policy::{LazyMapMonoid, VertexSumAdd};
use crate::dynamic_tree::traits::{ComponentOps, DynamicForest, PathOps, SubtreeOps, VertexOps};

verus! {

/// Index of a cluster node in the arena; `u32::MAX` stands for no node.
#[derive(Clone, Copy, Debug, PartialEq, Eq, Structural)]
struct NodeId(u32);

impl NodeId {
    /// No node.
    fn nil() -> (r: Self)
        ensures
            r.0 == u32::MAX,
    {
        Self(u32::MAX)
    }

    fn is_nil(self) -> (r: bool)
        ensures
            r == (self.0 == u32::MAX),
    {
        self.0 == u32::MAX
    }

    fn idx(self) -> (r: usize)
        ensures
            r == self.0,
    {
        self.0 as usize
    }
}

/// Index of a vertex: real vertices first, then one dummy leaf per real vertex.
#[derive(Clone, Copy, Debug, PartialEq, Eq, Structural)]
struct VertexId(u32);

impl VertexId {
    fn idx(self) -> (r: usize)
        ensures
            r == self.0,
    {
        self.0 as usize
    }
}

fn v_id(v: usize) -> (r: VertexId)
    requires
        v < u32::MAX,
    ensures
        r.0 == v,
{
    VertexId(v as u32)
}

#[derive(Clone, Copy, Debug, PartialEq, Eq, Structural)]
enum NodeType {
    Compress,
    Rake,
    Edge,
}

/// What a cluster knows of its keys: the path between its two boundary vertices in both
/// directions, everything in it, and how many real vertices each part counts (boundary
/// vertices excluded).
struct Fold<P: LazyMapMonoid> {
    path_fwd: P::Agg,
    path_rev: P::Agg,
    all: P::Agg,
    path_v_cnt: u32,
    all_v_cnt: u32,
}

impl<P: LazyMapMonoid> Fold<P> {
    fn copy(&self) -> (r: Self)
        ensures
            r == *self,
    {
        Self {
            path_fwd: P::agg_copy(&self.path_fwd),
            path_rev: P::agg_copy(&self.path_rev),
            all: P::agg_copy(&self.all),
            path_v_cnt: self.path_v_cnt,
            all_v_cnt: self.all_v_cnt,
        }
    }

    fn identity() -> (r: Self)
        ensures
            r == Self::spec_identity(),
    {
        Self {
            path_fwd: P::agg_unit(),
            path_rev: P::agg_unit(),
            all: P::agg_unit(),
            path_v_cnt: 0,
            all_v_cnt: 0,
        }
    }

    fn from_edge_key(edge_key: &P::Key) -> (r: Self)
        ensures
            r == Self::spec_from_edge_key(*edge_key),
    {
        let a = P::agg_from_key(edge_key);
        Self {
            path_fwd: P::agg_copy(&a),
            path_rev: P::agg_copy(&a),
            all: a,
            path_v_cnt: 0,
            all_v_cnt: 0,
        }
    }

    /// The cluster of the path `left`, the vertex `cv`, then the path `right`.
    fn compress(left: &Self, right: &Self, cv_key: &P::Key, cv_cnt: u32) -> (r: Self)
        ensures
            r.path_fwd == P::spec_agg_merge(left.path_fwd, *cv_key, right.path_fwd),
            r.path_rev == (if P::spec_reversal_invariant() {
                r.path_fwd
            } else {
                P::spec_agg_merge(right.path_rev, *cv_key, left.path_rev)
            }),
            r.all == P::spec_agg_merge(left.all, *cv_key, right.all),
            r.path_v_cnt == left.path_v_cnt.wrapping_add(right.path_v_cnt).wrapping_add(cv_cnt),
            r.all_v_cnt == left.all_v_cnt.wrapping_add(right.all_v_cnt).wrapping_add(cv_cnt),
            r == Self::spec_compress(*left, *right, *cv_key, cv_cnt),
    {
        let path_fwd = P::agg_merge(&left.path_fwd, cv_key, &right.path_fwd);
        let path_rev = if P::reversal_invariant() {
            P::agg_copy(&path_fwd)
        } else {
            P::agg_merge(&right.path_rev, cv_key, &left.path_rev)
        };
        Self {
            path_fwd,
            path_rev,
            all: P::agg_merge(&left.all, cv_key, &right.all),
            path_v_cnt: left.path_v_cnt.wrapping_add(right.path_v_cnt).wrapping_add(cv_cnt),
            all_v_cnt: left.all_v_cnt.wrapping_add(right.all_v_cnt).wrapping_add(cv_cnt),
        }
    }

    /// The cluster `a` with `b` hung on it at the vertex `bv`.
    fn rake(a: &Self, b: &Self, bv_key: &P::Key, bv_cnt: u32) -> (r: Self)
        ensures
            r.path_fwd == a.path_fwd,
            r.path_rev == a.path_rev,
            r.all == P::spec_agg_merge(a.all, *bv_key, b.all),
            r.path_v_cnt == a.path_v_cnt,
            r.all_v_cnt == a.all_v_cnt.wrapping_add(b.all_v_cnt).wrapping_add(bv_cnt),
            r == Self::spec_rake(*a, *b, *bv_key, bv_cnt),
    {
        Self {
            path_fwd: P::agg_copy(&a.path_fwd),
            path_rev: P::agg_copy(&a.path_rev),
            all: P::agg_merge(&a.all, bv_key, &b.all),
            path_v_cnt: a.path_v_cnt,
            all_v_cnt: a.all_v_cnt.wrapping_add(b.all_v_cnt).wrapping_add(bv_cnt),
        }
    }

    /// The cluster of the path `left`, the vertex `cv` of key `cv_key` counted `cv_cnt`
    /// times, then the path `right`.
    spec fn spec_compress(left: Self, right: Self, cv_key: P::Key, cv_cnt: u32) -> Self {
        let fwd = P::spec_agg_merge(left.path_fwd, cv_key, right.path_fwd);
        Fold {
            path_fwd: fwd,
            path_rev: if P::spec_reversal_invariant() { fwd } else { P::spec_agg_merge(right.path_rev, cv_key, left.path_rev) },
            all: P::spec_agg_merge(left.all, cv_key, right.all),
            path_v_cnt: left.path_v_cnt.wrapping_add(right.path_v_cnt).wrapping_add(cv_cnt),
            all_v_cnt: left.all_v_cnt.wrapping_add(right.all_v_cnt).wrapping_add(cv_cnt),
        }
    }

    /// The cluster `a` with `b` hung on it at the vertex of key `bv_key` counted `bv_cnt`
    /// times.
    spec fn spec_rake(a: Self, b: Self, bv_key: P::Key, bv_cnt: u32) -> Self {
        Fold {
            all: P::spec_agg_merge(a.all, bv_key, b.all),
            all_v_cnt: a.all_v_cnt.wrapping_add(b.all_v_cnt).wrapping_add(bv_cnt),
            ..a
        }
    }

    /// The cluster of no key at all.
    spec fn spec_identity() -> Self {
        Fold { path_fwd: P::spec_agg_unit(), path_rev: P::spec_agg_unit(), all: P::spec_agg_unit(), path_v_cnt: 0, all_v_cnt: 0 }
    }

    /// The cluster of a single edge of key `k`.
    spec fn spec_from_edge_key(k: P::Key) -> Self {
        Fold {
            path_fwd: P::spec_agg_from_key(k),
            path_rev: P::spec_agg_from_key(k),
            all: P::spec_agg_from_key(k),
            path_v_cnt: 0,
            all_v_cnt: 0,
        }
    }

    /// The cluster seen from its other end.
    spec fn spec_reversed(self) -> Self {
        if P::spec_reversal_invariant() {
            self
        } else {
            Fold { path_fwd: self.path_rev, path_rev: self.path_fwd, ..self }
        }
    }

    /// The cluster with `act` applied to the vertices counted in `len`, on the path and
    /// possibly beyond it with `all_len`.
    spec fn spec_acted(self, act: P::Act, all_len: nat) -> Self {
        let fwd = P::spec_act_apply_agg(self.path_fwd, act, self.path_v_cnt as nat);
        Fold {
            path_fwd: fwd,
            path_rev: if P::spec_reversal_invariant() {
                fwd
            } else {
                P::spec_act_apply_agg(self.path_rev, act, self.path_v_cnt as nat)
            },
            all: P::spec_act_apply_agg(self.all, act, all_len),
            ..self
        }
    }

    /// The same cluster seen from its other end.
    fn reverse(&mut self)
        ensures
            *final(self) == old(self).spec_reversed(),
    {
        if !P::reversal_invariant() {
            std::mem::swap(&mut self.path_fwd, &mut self.path_rev);
        }
    }
}

/// The node `n` seen from its other end: an edge or a compress node swaps its ends and
/// reverses its cluster, and a compress node also flips its pending reversal.
spec fn reversed_node<P: LazyMapMonoid>(n: Node<P>) -> Node<P> {
    match n.ty {
        NodeType::Rake => n,
        NodeType::Edge => Node {
            endpoint: [n.endpoint[1], n.endpoint[0]],
            fold: n.fold.spec_reversed(),
            ..n
        },
        NodeType::Compress => Node {
            endpoint: [n.endpoint[1], n.endpoint[0]],
            fold: n.fold.spec_reversed(),
            rev: !n.rev,
            ..n
        },
    }
}

/// The search for the vertex at position `k` among the inner vertices of the path of
/// cluster `x`, at most `fuel` clusters deep: each cluster met is pushed, a rake cluster
/// leads to its first child, and a compress cluster to its left child, its middle vertex
/// or its right child by the count of path vertices on the left. Gives the nodes, the
/// vertices and the vertex found.
spec fn kth_walk<P: LazyMapMonoid>(
    ns: Seq<Node<P>>,
    vs: Seq<Vertex<P>>,
    real_n: nat,
    x: NodeId,
    k: u32,
    fuel: nat,
) -> (Seq<Node<P>>, Seq<Vertex<P>>, Option<VertexId>)
    decreases fuel,
{
    if fuel == 0 || x.0 == u32::MAX {
        (ns, vs, None)
    } else {
        let (a, ws) = pushed(ns, vs, real_n, x);
        match a[x.0 as int].ty {
            NodeType::Edge => (a, ws, None),
            NodeType::Rake => kth_walk(a, ws, real_n, a[x.0 as int].ch[0], k, (fuel - 1) as nat),
            NodeType::Compress => {
                let l = a[x.0 as int].ch[0];
                let r = a[x.0 as int].ch[1];
                let (b, us) = pushed(a, ws, real_n, l);
                if l.0 == u32::MAX {
                    (b, us, None)
                } else {
                    let lcnt = b[l.0 as int].fold.path_v_cnt;
                    if k < lcnt {
                        kth_walk(b, us, real_n, l, k, (fuel - 1) as nat)
                    } else if k == lcnt {
                        (b, us, Some(b[l.0 as int].endpoint[1]))
                    } else {
                        kth_walk(b, us, real_n, r, k.wrapping_sub(lcnt.wrapping_add(1)), (fuel - 1) as nat)
                    }
                }
            },
        }
    }
}

/// Where a walk up the parent links from `x` stops: at a node without parent, or after
/// `fuel` steps.
spec fn top_walk<P: LazyMapMonoid>(ns: Seq<Node<P>>, x: NodeId, fuel: nat) -> NodeId
    decreases fuel,
{
    if fuel == 0 || ns[x.0 as int].par.0 == u32::MAX {
        x
    } else {
        top_walk(ns, ns[x.0 as int].par, (fuel - 1) as nat)
    }
}

struct Vertex<P: LazyMapMonoid> {
    key: P::Key,
    handle: NodeId,
}

/// The arena `ns` with the cluster `x` seen from its other end (nothing for no node).
spec fn reversed_at<P: LazyMapMonoid>(ns: Seq<Node<P>>, x: NodeId) -> Seq<Node<P>> {
    if x.0 == u32::MAX { ns } else { ns.update(x.0 as int, reversed_node(ns[x.0 as int])) }
}

/// The arena `ns` with `act` applied to every vertex counted in the cluster `x`, lazily.
spec fn all_acted_at<P: LazyMapMonoid>(ns: Seq<Node<P>>, x: NodeId, act: P::Act) -> Seq<Node<P>> {
    if x.0 == u32::MAX {
        ns
    } else {
        let n = ns[x.0 as int];
        ns.update(x.0 as int, Node {
            fold: n.fold.spec_acted(act, n.fold.all_v_cnt as nat),
            lazy_all: if n.lazy_all_pending { P::spec_act_compose(act, n.lazy_all) } else { act },
            lazy_all_pending: true,
            ..n
        })
    }
}

/// The arena `ns` with `act` applied to the vertices on the path of the cluster `x`, lazily.
spec fn path_acted_at<P: LazyMapMonoid>(ns: Seq<Node<P>>, x: NodeId, act: P::Act) -> Seq<Node<P>> {
    if x.0 == u32::MAX {
        ns
    } else {
        let n = ns[x.0 as int];
        ns.update(x.0 as int, Node {
            fold: n.fold.spec_acted(act, n.fold.path_v_cnt as nat),
            lazy_path: if n.lazy_path_pending { P::spec_act_compose(act, n.lazy_path) } else { act },
            lazy_path_pending: true,
            ..n
        })
    }
}

/// The vertices `vs` with `act` applied to the key of `v` when `v` is one of the `real_n`
/// real vertices.
spec fn vertex_acted<P: LazyMapMonoid>(vs: Seq<Vertex<P>>, real_n: nat, v: VertexId, act: P::Act) -> Seq<Vertex<P>> {
    if v.0 < real_n {
        vs.update(v.0 as int, Vertex { key: P::spec_act_apply_key(vs[v.0 as int].key, act), ..vs[v.0 as int] })
    } else {
        vs
    }
}

/// The weight of vertex `v`: 1 for one of the `real_n` real vertices, else 0.
spec fn weight(real_n: nat, v: VertexId) -> u32 {
    if v.0 < real_n { 1 } else { 0 }
}

/// The vertices `vs` with the handle of `v` set to `h`.
spec fn with_handle<P: LazyMapMonoid>(vs: Seq<Vertex<P>>, v: VertexId, h: NodeId) -> Seq<Vertex<P>> {
    vs.update(v.0 as int, Vertex { handle: h, ..vs[v.0 as int] })
}

/// The arena `ns` with the ends and the middle vertex of `x` set.
spec fn with_ends<P: LazyMapMonoid>(ns: Seq<Node<P>>, x: NodeId, a: VertexId, b: VertexId, m: VertexId) -> Seq<Node<P>> {
    ns.update(x.0 as int, Node { endpoint: [a, b], mid: m, ..ns[x.0 as int] })
}

/// The arena `ns` with link `d` of `x` set to `c`.
spec fn with_ch<P: LazyMapMonoid>(ns: Seq<Node<P>>, x: NodeId, d: int, c: NodeId) -> Seq<Node<P>> {
    let n = ns[x.0 as int];
    ns.update(x.0 as int, Node { ch: if d == 0 { [c, n.ch[1]] } else { [n.ch[0], c] }, ..n })
}

/// The arena `ns` with the parent link of `x` set to `p`.
spec fn with_par<P: LazyMapMonoid>(ns: Seq<Node<P>>, x: NodeId, p: NodeId) -> Seq<Node<P>> {
    ns.update(x.0 as int, Node { par: p, ..ns[x.0 as int] })
}

/// The arena `ns` with the rake child of `x` set to `rk`.
spec fn with_rake<P: LazyMapMonoid>(ns: Seq<Node<P>>, x: NodeId, rk: NodeId) -> Seq<Node<P>> {
    ns.update(x.0 as int, Node { rake: rk, ..ns[x.0 as int] })
}

/// As `parent_side`, looking through a guard.
spec fn parent_side_guard<P: LazyMapMonoid>(ns: Seq<Node<P>>, c: NodeId) -> i32 {
    let p = ns[c.0 as int].par;
    if p.0 == u32::MAX {
        -1i32
    } else if ns[p.0 as int].ch[0] == c {
        0i32
    } else if ns[p.0 as int].ch[1] == c {
        1i32
    } else {
        -1i32
    }
}

/// The arena `ns` with the fold of `x` set to `f`.
spec fn with_fold<P: LazyMapMonoid>(ns: Seq<Node<P>>, x: NodeId, f: Fold<P>) -> Seq<Node<P>> {
    ns.update(x.0 as int, Node { fold: f, ..ns[x.0 as int] })
}

/// Which child of its parent `c` is in `ns`: `0` or `1`, or `-1` at the root of its splay
/// tree (a guarded parent counts as no parent).
spec fn parent_side<P: LazyMapMonoid>(ns: Seq<Node<P>>, c: NodeId) -> i32 {
    let p = ns[c.0 as int].par;
    if p.0 == u32::MAX || ns[p.0 as int].guard {
        -1i32
    } else if ns[p.0 as int].ch[0] == c {
        0i32
    } else if ns[p.0 as int].ch[1] == c {
        1i32
    } else {
        -1i32
    }
}

/// The vertices `vs` with the handles of the boundary vertices of `x` pointed at it where
/// `x` is their topmost cluster.
spec fn handles_updated<P: LazyMapMonoid>(ns: Seq<Node<P>>, vs: Seq<Vertex<P>>, x: NodeId) -> Seq<Vertex<P>> {
    let n = ns[x.0 as int];
    let p = n.par;
    if p.0 == u32::MAX {
        with_handle(with_handle(vs, n.endpoint[0], x), n.endpoint[1], x)
    } else if ns[p.0 as int].ty == NodeType::Compress {
        if parent_side(ns, x) == -1 { with_handle(vs, n.endpoint[0], x) } else { vs }
    } else if ns[p.0 as int].ty == NodeType::Rake {
        with_handle(vs, n.endpoint[0], x)
    } else {
        vs
    }
}

/// The nodes and vertices after `x` is fixed: an edge only updates handles; an inner node is
/// pushed and, with both children, gets its ends, its fold and, for a compress node, the
/// handle of its middle vertex and its own handles recomputed.
#[verifier::opaque]
spec fn fixed<P: LazyMapMonoid>(ns: Seq<Node<P>>, vs: Seq<Vertex<P>>, real_n: nat, x: NodeId) -> (Seq<Node<P>>, Seq<Vertex<P>>) {
    if x.0 == u32::MAX {
        (ns, vs)
    } else {
        match ns[x.0 as int].ty {
            NodeType::Edge => (ns, handles_updated(ns, vs, x)),
            NodeType::Compress => {
                let (a, ws) = pushed(ns, vs, real_n, x);
                let l = a[x.0 as int].ch[0];
                let r = a[x.0 as int].ch[1];
                if l.0 == u32::MAX || r.0 == u32::MAX {
                    (a, ws)
                } else {
                    let l1 = a[l.0 as int].endpoint[1];
                    let b = with_ends(a, x, a[l.0 as int].endpoint[0], a[r.0 as int].endpoint[1], l1);
                    let rk = b[x.0 as int].rake;
                    let left_fold = if rk.0 != u32::MAX {
                        let rv = b[rk.0 as int].endpoint[0];
                        Fold::<P>::spec_rake(b[l.0 as int].fold, b[rk.0 as int].fold, ws[rv.0 as int].key, weight(real_n, rv))
                    } else {
                        b[l.0 as int].fold
                    };
                    let c = with_fold(b, x, Fold::<P>::spec_compress(left_fold, b[r.0 as int].fold, ws[l1.0 as int].key, weight(real_n, l1)));
                    (c, handles_updated(c, with_handle(ws, l1, x), x))
                }
            },
            NodeType::Rake => {
                let (a, ws) = pushed(ns, vs, real_n, x);
                let p = a[x.0 as int].ch[0];
                let q = a[x.0 as int].ch[1];
                if p.0 == u32::MAX || q.0 == u32::MAX {
                    (a, ws)
                } else {
                    let b = with_ends(a, x, a[p.0 as int].endpoint[0], a[p.0 as int].endpoint[1], a[x.0 as int].mid);
                    let bv = b[q.0 as int].endpoint[0];
                    (with_fold(b, x, Fold::<P>::spec_rake(b[p.0 as int].fold, b[q.0 as int].fold, ws[bv.0 as int].key, weight(real_n, bv))), ws)
                }
            },
        }
    }
}

/// The nodes and vertices after `t` is rotated above its parent `x`, `x` moving to side
/// `dir` of `t`: the inner child of `t` pushed and handed to `x`, the links of `t`, `x` and
/// the grandparent `y` redone (`t` as rake child of a compress `y` it did not hang below by
/// a child link), then `x`, `t` and an unguarded `y` fixed.
#[verifier::opaque]
spec fn rotated<P: LazyMapMonoid>(ns: Seq<Node<P>>, vs: Seq<Vertex<P>>, real_n: nat, t: NodeId, x: NodeId, dir: int) -> (Seq<Node<P>>, Seq<Vertex<P>>) {
    let y = ns[x.0 as int].par;
    let side = parent_side_guard(ns, x);
    let td = ns[t.0 as int].ch[dir];
    let (a, ws) = pushed(ns, vs, real_n, td);
    let b = with_ch(a, x, 1 - dir, td);
    let c = if td.0 != u32::MAX { with_par(b, td, x) } else { b };
    let f = with_par(with_par(with_ch(c, t, dir, x), x, t), t, y);
    let g = if side != -1 {
        with_ch(f, y, side as int, t)
    } else if y.0 != u32::MAX && f[y.0 as int].ty == NodeType::Compress {
        with_rake(f, y, t)
    } else {
        f
    };
    let (h, us) = fixed(g, ws, real_n, x);
    let (i, zs) = fixed(h, us, real_n, t);
    if y.0 != u32::MAX && !i[y.0 as int].guard { fixed(i, zs, real_n, y) } else { (i, zs) }
}

/// The nodes and vertices after fixing `x` and every cluster above it, at most `fuel` of
/// them.
spec fn fix_walk<P: LazyMapMonoid>(ns: Seq<Node<P>>, vs: Seq<Vertex<P>>, real_n: nat, x: NodeId, fuel: nat) -> (Seq<Node<P>>, Seq<Vertex<P>>)
    decreases fuel,
{
    if fuel == 0 || x.0 == u32::MAX {
        (ns, vs)
    } else {
        let (a, ws) = fixed(ns, vs, real_n, x);
        fix_walk(a, ws, real_n, a[x.0 as int].par, (fuel - 1) as nat)
    }
}

/// One round of splaying `t` inside the splay tree of clusters of its own type: the
/// nodes, the vertices, and whether the splay stops here (at the top of that tree, or
/// below a cluster of another type). Below a same-type grandparent the three (and the
/// node above them) are pushed and two rotations made, zig-zig or zig-zag; else the parent
/// (and the node above it) and `t` are pushed and `t` rotated once.
spec fn splay_step<P: LazyMapMonoid>(ns: Seq<Node<P>>, vs: Seq<Vertex<P>>, real_n: nat, t: NodeId) -> (Seq<Node<P>>, Seq<Vertex<P>>, bool) {
    let q = ns[t.0 as int].par;
    if parent_side(ns, t) == -1 || ns[q.0 as int].ty != ns[t.0 as int].ty {
        (ns, vs, true)
    } else if parent_side(ns, q) != -1 && ns[ns[q.0 as int].par.0 as int].ty == ns[q.0 as int].ty {
        let r = ns[q.0 as int].par;
        let rp = ns[r.0 as int].par;
        let (a, ws) = if rp.0 != u32::MAX { pushed(ns, vs, real_n, rp) } else { (ns, vs) };
        let (b, us) = pushed(a, ws, real_n, r);
        let (c, zs) = pushed(b, us, real_n, q);
        let (d, ys) = pushed(c, zs, real_n, t);
        let qt = parent_side(d, t);
        let rq = parent_side(d, q);
        if qt == -1 || rq == -1 {
            (d, ys, true)
        } else if rq == qt {
            let (e, xs) = rotated(d, ys, real_n, q, r, 1 - rq);
            let (f, gs) = rotated(e, xs, real_n, t, q, 1 - qt);
            (f, gs, false)
        } else {
            let (e, xs) = rotated(d, ys, real_n, t, q, 1 - qt);
            let (f, gs) = rotated(e, xs, real_n, t, r, 1 - rq);
            (f, gs, false)
        }
    } else {
        let qp = ns[q.0 as int].par;
        let (a, ws) = if qp.0 != u32::MAX { pushed(ns, vs, real_n, qp) } else { (ns, vs) };
        let (b, us) = pushed(a, ws, real_n, q);
        let (c, zs) = pushed(b, us, real_n, t);
        let qt = parent_side(c, t);
        if qt == -1 {
            (c, zs, true)
        } else {
            let (d, ys) = rotated(c, zs, real_n, t, q, 1 - qt);
            (d, ys, false)
        }
    }
}

/// Rounds of splaying `t` until one stops, at most `fuel` of them.
spec fn splay_rounds<P: LazyMapMonoid>(ns: Seq<Node<P>>, vs: Seq<Vertex<P>>, real_n: nat, t: NodeId, fuel: nat) -> (Seq<Node<P>>, Seq<Vertex<P>>)
    decreases fuel,
{
    if fuel == 0 {
        (ns, vs)
    } else {
        let (a, ws, stop) = splay_step(ns, vs, real_n, t);
        if stop { (a, ws) } else { splay_rounds(a, ws, real_n, t, (fuel - 1) as nat) }
    }
}

/// The nodes and vertices after `t` is pushed and splayed, at most as many rounds as
/// there are nodes.
spec fn splay_all<P: LazyMapMonoid>(ns: Seq<Node<P>>, vs: Seq<Vertex<P>>, real_n: nat, t: NodeId) -> (Seq<Node<P>>, Seq<Vertex<P>>) {
    let (a, ws) = pushed(ns, vs, real_n, t);
    splay_rounds(a, ws, real_n, t, ns.len())
}

/// The second half of a round of exposing `t`, once its new parent cluster `nn` is known:
/// `nn` splayed and turned so that `t` comes on side `dir`, then `t` swapped in for the
/// child of `nn` on that side (which takes the place of `t` below its rake parent, or
/// becomes the rake child of `nn`), everything touched fixed. The nodes, the vertices,
/// the cluster to go on from, and whether to stop.
spec fn expose_swap<P: LazyMapMonoid>(ns: Seq<Node<P>>, vs: Seq<Vertex<P>>, real_n: nat, t: NodeId, nn: NodeId) -> (Seq<Node<P>>, Seq<Vertex<P>>, NodeId, bool) {
    let (c, cs) = splay_all(ns, vs, real_n, nn);
    let side = parent_side_guard(c, nn);
    let dir: int = if side == -1 {
        0
    } else if c[nn.0 as int].par.0 != u32::MAX && c[c[nn.0 as int].par.0 as int].ty == NodeType::Rake {
        0
    } else {
        side as int
    };
    let (e, es) = if dir == 1 {
        let child = c[nn.0 as int].ch[1];
        let (e2, es2) = pushed(reversed_at(c, child), cs, real_n, child);
        pushed(reversed_at(e2, t), es2, real_n, t)
    } else {
        (c, cs)
    };
    let nd = parent_side(e, t);
    let nch = e[nn.0 as int].ch[dir];
    let (f1, fs1) = pushed(e, es, real_n, nch);
    if nd != -1 {
        let rake = f1[t.0 as int].par;
        let (f2, fs2) = pushed(f1, fs1, real_n, rake);
        if rake.0 == u32::MAX {
            (f2, fs2, t, true)
        } else {
            let g1 = with_ch(f2, rake, nd as int, nch);
            let g2 = if nch.0 != u32::MAX { with_par(g1, nch, rake) } else { g1 };
            let g4 = with_par(with_ch(g2, nn, dir, t), t, nn);
            let (h1, hs1) = fixed(g4, fs2, real_n, nch);
            let (h2, hs2) = fixed(h1, hs1, real_n, rake);
            let (h3, hs3) = fixed(h2, hs2, real_n, t);
            let (h4, hs4) = fixed(h3, hs3, real_n, nn);
            let (h5, hs5) = splay_all(h4, hs4, real_n, rake);
            (h5, hs5, if h5[t.0 as int].ty == NodeType::Edge { nn } else { t }, false)
        }
    } else {
        let g1 = with_rake(f1, nn, nch);
        let g2 = if nch.0 != u32::MAX { with_par(g1, nch, nn) } else { g1 };
        let g4 = with_par(with_ch(g2, nn, dir, t), t, nn);
        let (h1, hs1) = fixed(g4, fs1, real_n, nch);
        let (h2, hs2) = fixed(h1, hs1, real_n, t);
        let (h3, hs3) = fixed(h2, hs2, real_n, nn);
        (h3, hs3, if h3[t.0 as int].ty == NodeType::Edge { nn } else { t }, false)
    }
}

/// One round of exposing `t`: a compress `t` splayed, then the parent cluster found (a
/// rake parent pushed, splayed and passed through; a compress parent pushed) and
/// `expose_swap` done. Stops at the top, at a guarded parent holding `t` by a child link,
/// below an edge, or with no cluster above.
spec fn expose_step<P: LazyMapMonoid>(ns: Seq<Node<P>>, vs: Seq<Vertex<P>>, real_n: nat, t: NodeId) -> (Seq<Node<P>>, Seq<Vertex<P>>, NodeId, bool) {
    let (a0, w0) = if ns[t.0 as int].ty == NodeType::Compress { splay_all(ns, vs, real_n, t) } else { (ns, vs) };
    let par = a0[t.0 as int].par;
    if par.0 == u32::MAX {
        (a0, w0, t, true)
    } else if a0[par.0 as int].ty == NodeType::Rake {
        let (a1, w1) = pushed(a0, w0, real_n, par);
        let (a2, w2) = splay_all(a1, w1, real_n, par);
        let nn = a2[par.0 as int].par;
        if nn.0 == u32::MAX { (a2, w2, t, true) } else { expose_swap(a2, w2, real_n, t, nn) }
    } else if a0[par.0 as int].ty == NodeType::Compress {
        let (a1, w1) = pushed(a0, w0, real_n, par);
        if a1[par.0 as int].guard && parent_side_guard(a1, t) != -1 {
            (a1, w1, t, true)
        } else {
            expose_swap(a1, w1, real_n, t, par)
        }
    } else {
        (a0, w0, t, true)
    }
}

/// Rounds of exposing until one stops, at most `fuel` of them: the nodes, the vertices and
/// the cluster reached.
spec fn expose_rounds<P: LazyMapMonoid>(ns: Seq<Node<P>>, vs: Seq<Vertex<P>>, real_n: nat, t: NodeId, fuel: nat) -> (Seq<Node<P>>, Seq<Vertex<P>>, NodeId)
    decreases fuel,
{
    if fuel == 0 {
        (ns, vs, t)
    } else {
        let (a, ws, u, stop) = expose_step(ns, vs, real_n, t);
        if stop { (a, ws, u) } else { expose_rounds(a, ws, real_n, u, (fuel - 1) as nat) }
    }
}

/// The nodes, the vertices and the root cluster after vertex `v` is exposed from its
/// handle (no node and nothing changed for a vertex without one).
spec fn vertex_exposed<P: LazyMapMonoid>(ns: Seq<Node<P>>, vs: Seq<Vertex<P>>, real_n: nat, v: VertexId) -> (Seq<Node<P>>, Seq<Vertex<P>>, NodeId) {
    let h = vs[v.0 as int].handle;
    if h.0 == u32::MAX { (ns, vs, h) } else { expose_rounds(ns, vs, real_n, h, (2 * ns.len() + 2) as nat) }
}

/// The arena `ns` with the guard flag of `x` set to `g`.
spec fn with_guard<P: LazyMapMonoid>(ns: Seq<Node<P>>, x: NodeId, g: bool) -> Seq<Node<P>> {
    ns.update(x.0 as int, Node { guard: g, ..ns[x.0 as int] })
}

/// The nodes and vertices after the path from `v` to `u` is exposed: `v` exposed; when both
/// share their handle the root is turned to run from `v` if needed; else the root is
/// guarded while `u` is exposed below it, then fixed, and turned when `u` came out on its
/// left.
spec fn soft_exposed<P: LazyMapMonoid>(ns: Seq<Node<P>>, vs: Seq<Vertex<P>>, real_n: nat, v: VertexId, u: VertexId) -> (Seq<Node<P>>, Seq<Vertex<P>>) {
    let (a, avs, root) = vertex_exposed(ns, vs, real_n, v);
    if root.0 == u32::MAX {
        (a, avs)
    } else if avs[v.0 as int].handle == avs[u.0 as int].handle {
        if a[root.0 as int].endpoint[1] == v || a[root.0 as int].endpoint[0] == u {
            pushed(reversed_at(a, root), avs, real_n, root)
        } else {
            (a, avs)
        }
    } else {
        let (c, cs, soot) = vertex_exposed(with_guard(a, root, true), avs, real_n, u);
        let (e, es) = fixed(with_guard(c, root, false), cs, real_n, root);
        if soot.0 != u32::MAX && parent_side(e, soot) == 0 {
            pushed(reversed_at(e, root), es, real_n, root)
        } else {
            (e, es)
        }
    }
}

/// The walk from the rake cluster `r` down its right links while they lead to rake
/// clusters, each one met pushed, at most `fuel` steps: the nodes, the vertices and the
/// last rake cluster.
spec fn rake_walk<P: LazyMapMonoid>(ns: Seq<Node<P>>, vs: Seq<Vertex<P>>, real_n: nat, r: NodeId, fuel: nat) -> (Seq<Node<P>>, Seq<Vertex<P>>, NodeId)
    decreases fuel,
{
    let next = ns[r.0 as int].ch[1];
    if fuel == 0 || next.0 == u32::MAX || ns[next.0 as int].ty != NodeType::Rake {
        (ns, vs, r)
    } else {
        let (a, ws) = pushed(ns, vs, real_n, next);
        rake_walk(a, ws, real_n, next, (fuel - 1) as nat)
    }
}

/// The nodes and vertices after the clusters hanging from `root` by its rake child are
/// brought back as its right child: with no rake child the left child is cut loose and
/// fixed; a single hanging cluster is turned and becomes the right child; from a tree of
/// rake clusters the last on the right spine is splayed up under the guarded `root`, its
/// right cluster turned and made the right child, its left one the new rake child.
spec fn brought<P: LazyMapMonoid>(ns: Seq<Node<P>>, vs: Seq<Vertex<P>>, real_n: nat, root: NodeId) -> (Seq<Node<P>>, Seq<Vertex<P>>) {
    if root.0 == u32::MAX {
        (ns, vs)
    } else {
        let rake = ns[root.0 as int].rake;
        if rake.0 == u32::MAX {
            let left = ns[root.0 as int].ch[0];
            if left.0 != u32::MAX { fixed(with_par(ns, left, NodeId(u32::MAX)), vs, real_n, left) } else { (ns, vs) }
        } else if ns[rake.0 as int].ty != NodeType::Rake {
            let (a, ws) = pushed(ns, vs, real_n, rake);
            let (b, us) = pushed(reversed_at(a, rake), ws, real_n, rake);
            let c = with_rake(with_par(with_ch(b, root, 1, rake), rake, root), root, NodeId(u32::MAX));
            let (d, ds) = fixed(c, us, real_n, rake);
            fixed(d, ds, real_n, root)
        } else {
            let (a, ws) = pushed(ns, vs, real_n, rake);
            let (b, us, r) = rake_walk(a, ws, real_n, rake, ns.len());
            let (c, cs) = splay_all(with_guard(b, root, true), us, real_n, r);
            let d = with_guard(c, root, false);
            let new_rake = d[r.0 as int].ch[0];
            let new_right = d[r.0 as int].ch[1];
            let (e, es) = pushed(reversed_at(d, new_right), cs, real_n, new_right);
            let f = with_ch(e, root, 1, new_right);
            let g = if new_right.0 != u32::MAX { with_par(f, new_right, root) } else { f };
            let h = with_rake(g, root, new_rake);
            let i = if new_rake.0 != u32::MAX { with_par(h, new_rake, root) } else { h };
            let (j, js) = fixed(i, es, real_n, new_rake);
            let (k, ks) = fixed(j, js, real_n, new_right);
            fixed(k, ks, real_n, root)
        }
    }
}

/// The nodes, the vertices and the root cluster once vertex `v` is exposed and its root
/// cluster pushed.
spec fn opened_at<P: LazyMapMonoid>(ns: Seq<Node<P>>, vs: Seq<Vertex<P>>, real_n: nat, v: VertexId) -> (Seq<Node<P>>, Seq<Vertex<P>>, NodeId) {
    let (a, avs, root) = vertex_exposed(ns, vs, real_n, v);
    let (b, bs) = pushed(a, avs, real_n, root);
    (b, bs, root)
}

/// The fold of the whole tree of `v` once it is exposed: the keys of the two ends of the
/// root cluster around everything in it.
spec fn component_value<P: LazyMapMonoid>(ns: Seq<Node<P>>, vs: Seq<Vertex<P>>, real_n: nat, v: VertexId) -> P::Agg {
    let (b, bs, root) = opened_at(ns, vs, real_n, v);
    let n = b[root.0 as int];
    P::spec_agg_merge(
        P::spec_agg_merge(P::spec_agg_unit(), bs[n.endpoint[0].0 as int].key, n.fold.all),
        bs[n.endpoint[1].0 as int].key,
        P::spec_agg_unit(),
    )
}

/// The nodes, the vertices and the cluster whose path is the path from `v` to `u`, once
/// that path is exposed: the root itself, one of its children, or the left child of its
/// right child (each pushed on the way); no node when `v` has no cluster.
spec fn path_queried<P: LazyMapMonoid>(ns: Seq<Node<P>>, vs: Seq<Vertex<P>>, real_n: nat, v: VertexId, u: VertexId) -> (Seq<Node<P>>, Seq<Vertex<P>>, NodeId) {
    let (a, avs) = soft_exposed(ns, vs, real_n, v, u);
    let root = avs[v.0 as int].handle;
    if root.0 == u32::MAX {
        (a, avs, root)
    } else {
        let (b, bs) = pushed(a, avs, real_n, root);
        let (e0, e1) = (b[root.0 as int].endpoint[0], b[root.0 as int].endpoint[1]);
        if e0 == v && e1 == u {
            (b, bs, root)
        } else if e0 == v {
            (b, bs, b[root.0 as int].ch[0])
        } else if e1 == u {
            (b, bs, b[root.0 as int].ch[1])
        } else {
            let right = b[root.0 as int].ch[1];
            let (c, cs) = pushed(b, bs, real_n, right);
            if right.0 == u32::MAX { (c, cs, right) } else { (c, cs, c[right.0 as int].ch[0]) }
        }
    }
}

/// `path_queried`, with the path cluster found then pushed.
spec fn path_opened<P: LazyMapMonoid>(ns: Seq<Node<P>>, vs: Seq<Vertex<P>>, real_n: nat, v: VertexId, u: VertexId) -> (Seq<Node<P>>, Seq<Vertex<P>>, NodeId) {
    let (b, bs, p) = path_queried(ns, vs, real_n, v, u);
    let (c, cs) = pushed(b, bs, real_n, p);
    (c, cs, p)
}

/// `b` has the nodes of `a`, each with the same edge key.
spec fn same_edge_keys<P: LazyMapMonoid>(a: Seq<Node<P>>, b: Seq<Node<P>>) -> bool {
    a.len() == b.len() && forall|i: int| 0 <= i < a.len() ==> #[trigger] b[i].edge_key == a[i].edge_key
}

/// The whole-cluster step of a push keeps every edge key.
proof fn lemma_all_pushed_keeps_edge_keys<P: LazyMapMonoid>(ns: Seq<Node<P>>, vs: Seq<Vertex<P>>, real_n: nat, x: NodeId)
    requires
        node_ok::<P>(ns[x.0 as int], ns.len(), vs.len()),
        x.0 < ns.len(),
    ensures
        same_edge_keys(ns, all_pushed(ns, vs, real_n, x).0),
{
}

/// The path step of a push keeps every edge key.
proof fn lemma_path_pushed_keeps_edge_keys<P: LazyMapMonoid>(ns: Seq<Node<P>>, vs: Seq<Vertex<P>>, real_n: nat, x: NodeId)
    requires
        node_ok::<P>(ns[x.0 as int], ns.len(), vs.len()),
        x.0 < ns.len(),
    ensures
        same_edge_keys(ns, path_pushed(ns, vs, real_n, x).0),
{
}

/// Index `i` holds the first record of the edge `(u, v)` at `u` in the records `es`.
spec fn first_record(es: Seq<Vec<(u32, NodeId)>>, u: int, v: int, i: int) -> bool {
    &&& 0 <= i < es[u].len()
    &&& es[u]@[i].0 == v as u32
    &&& forall|j: int| 0 <= j < i ==> #[trigger] es[u]@[j].0 != v as u32
}

/// The index of the first record of the edge `(u, v)` at `u` in the records `es`.
spec fn edge_slot(es: Seq<Vec<(u32, NodeId)>>, u: int, v: int) -> int {
    choose|i: int| first_record(es, u, v, i)
}

/// The nodes, the vertices and the cluster holding `e` after the new edge cluster `e`, which
/// ends at `u`, is joined to the tree of `u` whose base cluster is `h`: the tree exposed,
/// turned so that `u` starts its path, then either put below a new compress cluster after
/// `e`, or given `e` as left child, the old left child going into its rake tree (under a
/// new rake cluster when there was one); every cluster touched fixed.
spec fn hung_start<P: LazyMapMonoid>(ns: Seq<Node<P>>, vs: Seq<Vertex<P>>, real_n: nat, u: VertexId, h: NodeId, e: NodeId) -> (Seq<Node<P>>, Seq<Vertex<P>>, NodeId) {
    let (a, avs, uu) = expose_rounds(ns, vs, real_n, h, (2 * ns.len() + 2) as nat);
    let (b, bs) = pushed(a, avs, real_n, uu);
    let (c, cs) = if b[uu.0 as int].endpoint[1] == u { pushed(reversed_at(b, uu), bs, real_n, uu) } else { (b, bs) };
    if c[uu.0 as int].endpoint[0] == u {
        let nu = NodeId(c.len() as u32);
        let (d, ds) = fixed(c.push(Node::<P>::spec_new_inner(e, uu, NodeType::Compress)), cs, real_n, nu);
        let (d2, ds2) = fixed(with_par(d, e, nu), ds, real_n, e);
        let (d4, ds4) = fixed(with_par(d2, uu, nu), ds2, real_n, uu);
        let (d5, ds5) = fixed(d4, ds4, real_n, nu);
        (d5, ds5, nu)
    } else {
        let nu = uu;
        let left_ch = c[nu.0 as int].ch[0];
        let (d, ds) = pushed(c, cs, real_n, left_ch);
        let (d3, ds3) = fixed(with_par(with_ch(d, nu, 0, e), e, nu), ds, real_n, e);
        let beta = d3[nu.0 as int].rake;
        let (g, gs, rake) = if beta.0 != u32::MAX {
            let (f1, fs1) = pushed(d3, ds3, real_n, beta);
            let rr = NodeId(f1.len() as u32);
            let (f2, fs2) = fixed(f1.push(Node::<P>::spec_new_inner(beta, left_ch, NodeType::Rake)), fs1, real_n, rr);
            let f3 = with_par(f2, beta, rr);
            let f4 = if left_ch.0 != u32::MAX { with_par(f3, left_ch, rr) } else { f3 };
            let (f5, fs5) = fixed(f4, fs2, real_n, beta);
            let (f6, fs6) = fixed(f5, fs5, real_n, left_ch);
            (f6, fs6, rr)
        } else {
            (d3, ds3, left_ch)
        };
        let h1 = with_rake(g, nu, rake);
        let (h2, hs2) = if rake.0 != u32::MAX { fixed(with_par(h1, rake, nu), gs, real_n, rake) } else { (h1, gs) };
        let (h3, hs3) = fixed(h2, hs2, real_n, nu);
        (h3, hs3, nu)
    }
}

/// The nodes and vertices after the cluster `left`, which starts at `v`, is joined to the
/// tree of `v` whose base cluster is `h`: the tree exposed, turned so that `v` ends its
/// path, then either put with `left` below a new compress cluster, or given `left` as right
/// child, the old right child (turned) going into its rake tree (under a new rake cluster
/// when there was one); every cluster touched fixed.
spec fn hung_end<P: LazyMapMonoid>(ns: Seq<Node<P>>, vs: Seq<Vertex<P>>, real_n: nat, v: VertexId, h: NodeId, left: NodeId) -> (Seq<Node<P>>, Seq<Vertex<P>>) {
    let (a, avs, vv) = expose_rounds(ns, vs, real_n, h, (2 * ns.len() + 2) as nat);
    let (b, bs) = pushed(a, avs, real_n, vv);
    let (c, cs) = if b[vv.0 as int].endpoint[0] == v { pushed(reversed_at(b, vv), bs, real_n, vv) } else { (b, bs) };
    if c[vv.0 as int].endpoint[1] == v {
        let top = NodeId(c.len() as u32);
        let (d, ds) = fixed(c.push(Node::<P>::spec_new_inner(vv, left, NodeType::Compress)), cs, real_n, top);
        let d1 = with_par(d, vv, top);
        let d2 = if left.0 != u32::MAX { with_par(d1, left, top) } else { d1 };
        let (d3, ds3) = fixed(d2, ds, real_n, vv);
        let (d4, ds4) = fixed(d3, ds3, real_n, left);
        fixed(d4, ds4, real_n, top)
    } else {
        let nv = vv;
        let right_ch = c[nv.0 as int].ch[1];
        let (d, ds) = pushed(reversed_at(c, right_ch), cs, real_n, right_ch);
        let d1 = with_ch(d, nv, 1, left);
        let d2 = if left.0 != u32::MAX { with_par(d1, left, nv) } else { d1 };
        let (d3, ds3) = fixed(d2, ds, real_n, left);
        let alpha = d3[nv.0 as int].rake;
        let (g, gs, rake) = if alpha.0 != u32::MAX {
            let (f1, fs1) = pushed(d3, ds3, real_n, alpha);
            let rr = NodeId(f1.len() as u32);
            let (f2, fs2) = fixed(f1.push(Node::<P>::spec_new_inner(alpha, right_ch, NodeType::Rake)), fs1, real_n, rr);
            let (f3, fs3) = fixed(with_par(f2, alpha, rr), fs2, real_n, alpha);
            let f4 = if right_ch.0 != u32::MAX { with_par(f3, right_ch, rr) } else { f3 };
            let (f5, fs5) = fixed(f4, fs3, real_n, right_ch);
            (f5, fs5, rr)
        } else {
            (d3, ds3, right_ch)
        };
        let h1 = with_rake(g, nv, rake);
        let (h2, hs2) = if rake.0 != u32::MAX { fixed(with_par(h1, rake, nv), gs, real_n, rake) } else { (h1, gs) };
        fixed(h2, hs2, real_n, nv)
    }
}

/// The nodes and vertices after the edge from `v` to `u` of key `k` is linked: a new edge
/// cluster, joined to the tree of `u` at the start of its path when `u` has a cluster, and
/// the result joined to the tree of `v` at the end of its path when `v` has one.
spec fn joined_by_edge<P: LazyMapMonoid>(ns: Seq<Node<P>>, vs: Seq<Vertex<P>>, real_n: nat, v: VertexId, u: VertexId, k: P::Key) -> (Seq<Node<P>>, Seq<Vertex<P>>) {
    let nnu = vs[u.0 as int].handle;
    let nnv = vs[v.0 as int].handle;
    let e = NodeId(ns.len() as u32);
    let (a, avs) = fixed(ns.push(Node::<P>::spec_new_edge(v, u, k)), vs, real_n, e);
    if nnu.0 == u32::MAX && nnv.0 == u32::MAX {
        (a, avs)
    } else {
        let (b, bs, left) = if nnu.0 == u32::MAX { (a, avs, e) } else { hung_start(a, avs, real_n, u, nnu, e) };
        if nnv.0 != u32::MAX { hung_end(b, bs, real_n, v, nnv, left) } else { (b, bs) }
    }
}

/// `u` and `v` are the same vertex, or both have a cluster in `ns` and the walks up from
/// their clusters end at the same top cluster.
spec fn same_top_at<P: LazyMapMonoid>(ns: Seq<Node<P>>, vs: Seq<Vertex<P>>, u: int, v: int) -> bool {
    u == v || ({
        let hu = vs[u].handle;
        let hv = vs[v].handle;
        hu.0 != u32::MAX && hv.0 != u32::MAX && top_walk(ns, hu, ns.len()) == top_walk(ns, hv, ns.len())
    })
}

/// The nodes and vertices after `act` is applied to the whole tree of `v`: exposed, root
/// pushed, `act` applied to the root cluster and its two ends, root fixed.
spec fn component_acted_at<P: LazyMapMonoid>(ns: Seq<Node<P>>, vs: Seq<Vertex<P>>, real_n: nat, v: VertexId, act: P::Act) -> (Seq<Node<P>>, Seq<Vertex<P>>) {
    let (b, bs, root) = opened_at(ns, vs, real_n, v);
    let n = b[root.0 as int];
    let ws = vertex_acted(vertex_acted(bs, real_n, n.endpoint[0], act), real_n, n.endpoint[1], act);
    fixed(all_acted_at(b, root, act), ws, real_n, root)
}

/// The first step of a push at `x`: a compress node with a pending reversal swaps its
/// children, clears the flag and reverses both children.
spec fn rev_pushed<P: LazyMapMonoid>(ns: Seq<Node<P>>, x: NodeId) -> Seq<Node<P>> {
    let n = ns[x.0 as int];
    if n.ty == NodeType::Compress && n.rev {
        let (l, r) = (n.ch[0], n.ch[1]);
        reversed_at(reversed_at(ns.update(x.0 as int, Node { ch: [r, l], rev: false, ..n }), l), r)
    } else {
        ns
    }
}

/// The second step of a push at `x`: a pending whole-cluster action goes to both children,
/// the rake child and the vertex the node holds, and is cleared.
spec fn all_pushed<P: LazyMapMonoid>(ns: Seq<Node<P>>, vs: Seq<Vertex<P>>, real_n: nat, x: NodeId) -> (Seq<Node<P>>, Seq<Vertex<P>>) {
    let n = ns[x.0 as int];
    if n.lazy_all_pending {
        let act = n.lazy_all;
        let b = all_acted_at(all_acted_at(all_acted_at(ns, n.ch[0], act), n.ch[1], act), n.rake, act);
        let ws = match n.ty {
            NodeType::Compress => vertex_acted(vs, real_n, b[x.0 as int].mid, act),
            NodeType::Rake => {
                let c = b[x.0 as int].ch[1];
                if c.0 != u32::MAX { vertex_acted(vs, real_n, b[c.0 as int].endpoint[0], act) } else { vs }
            },
            NodeType::Edge => vs,
        };
        (b.update(x.0 as int, Node { lazy_all: P::spec_act_unit(), lazy_all_pending: false, ..b[x.0 as int] }), ws)
    } else {
        (ns, vs)
    }
}

/// The last step of a push at `x`: a pending path action goes to both children and the
/// middle vertex of a compress node, and is cleared.
spec fn path_pushed<P: LazyMapMonoid>(ns: Seq<Node<P>>, vs: Seq<Vertex<P>>, real_n: nat, x: NodeId) -> (Seq<Node<P>>, Seq<Vertex<P>>) {
    let n = ns[x.0 as int];
    if n.lazy_path_pending {
        let act = n.lazy_path;
        let b = path_acted_at(path_acted_at(ns, n.ch[0], act), n.ch[1], act);
        let ws = if n.ty == NodeType::Compress { vertex_acted(vs, real_n, b[x.0 as int].mid, act) } else { vs };
        (b.update(x.0 as int, Node { lazy_path: P::spec_act_unit(), lazy_path_pending: false, ..b[x.0 as int] }), ws)
    } else {
        (ns, vs)
    }
}

/// The nodes and vertices after the push at `x`: reversal, then whole-cluster action, then
/// path action handed down (nothing for no node).
#[verifier::opaque]
spec fn pushed<P: LazyMapMonoid>(ns: Seq<Node<P>>, vs: Seq<Vertex<P>>, real_n: nat, x: NodeId) -> (Seq<Node<P>>, Seq<Vertex<P>>) {
    if x.0 == u32::MAX {
        (ns, vs)
    } else {
        let a = rev_pushed(ns, x);
        let (b, ws) = all_pushed(a, vs, real_n, x);
        path_pushed(b, ws, real_n, x)
    }
}

struct Node<P: LazyMapMonoid> {
    ch: [NodeId; 2],
    par: NodeId,
    rake: NodeId,
    endpoint: [VertexId; 2],
    fold: Fold<P>,
    lazy_path: P::Act,
    lazy_path_pending: bool,
    lazy_all: P::Act,
    lazy_all_pending: bool,
    /// The key of the edge, for edge nodes.
    edge_key: P::Key,
    /// The vertex shared by the two children, for compress nodes.
    mid: VertexId,
    rev: bool,
    guard: bool,
    ty: NodeType,
}

impl<P: LazyMapMonoid> Node<P> {
    /// The base cluster of the edge from `v` to `u` of key `k`, on its own.
    spec fn spec_new_edge(v: VertexId, u: VertexId, k: P::Key) -> Self {
        Node {
            endpoint: [v, u],
            ch: [NodeId(u32::MAX), NodeId(u32::MAX)],
            par: NodeId(u32::MAX),
            rake: NodeId(u32::MAX),
            fold: Fold::<P>::spec_from_edge_key(k),
            lazy_path: P::spec_act_unit(),
            lazy_path_pending: false,
            lazy_all: P::spec_act_unit(),
            lazy_all_pending: false,
            edge_key: k,
            mid: VertexId(0),
            rev: false,
            guard: false,
            ty: NodeType::Edge,
        }
    }

    /// A fresh compress or rake cluster over `left` and `right`, to be fixed.
    spec fn spec_new_inner(left: NodeId, right: NodeId, ty: NodeType) -> Self {
        Node {
            ch: [left, right],
            par: NodeId(u32::MAX),
            rake: NodeId(u32::MAX),
            endpoint: [VertexId(0), VertexId(0)],
            fold: Fold::<P>::spec_identity(),
            lazy_path: P::spec_act_unit(),
            lazy_path_pending: false,
            lazy_all: P::spec_act_unit(),
            lazy_all_pending: false,
            edge_key: P::spec_key_unit(),
            mid: VertexId(0),
            rev: false,
            guard: false,
            ty,
        }
    }

    fn new_edge(v: VertexId, u: VertexId, edge_key: P::Key) -> (r: Self)
        ensures
            r == Self::spec_new_edge(v, u, edge_key),
            r.ch[0].0 == u32::MAX,
            r.ch[1].0 == u32::MAX,
            r.par.0 == u32::MAX,
            r.rake.0 == u32::MAX,
            r.endpoint[0] == v,
            r.endpoint[1] == u,
            r.mid.0 == 0,
            r.edge_key == edge_key,
            r.ty == NodeType::Edge,
    {
        Self {
            endpoint: [v, u],
            ch: [NodeId::nil(), NodeId::nil()],
            par: NodeId::nil(),
            rake: NodeId::nil(),
            fold: Fold::<P>::from_edge_key(&edge_key),
            lazy_path: P::act_unit(),
            lazy_path_pending: false,
            lazy_all: P::act_unit(),
            lazy_all_pending: false,
            edge_key,
            mid: VertexId(0),
            rev: false,
            guard: false,
            ty: NodeType::Edge,
        }
    }

    fn new_inner(left: NodeId, right: NodeId, ty: NodeType) -> (r: Self)
        ensures
            r.ch[0] == left,
            r.ch[1] == right,
            r.par.0 == u32::MAX,
            r.rake.0 == u32::MAX,
            r.endpoint[0].0 == 0,
            r.endpoint[1].0 == 0,
            r.mid.0 == 0,
            r.ty == ty,
            r == Self::spec_new_inner(left, right, ty),
    {
        Self {
            ch: [left, right],
            par: NodeId::nil(),
            rake: NodeId::nil(),
            endpoint: [VertexId(0), VertexId(0)],
            fold: Fold::<P>::identity(),
            lazy_path: P::act_unit(),
            lazy_path_pending: false,
            lazy_all: P::act_unit(),
            lazy_all_pending: false,
            edge_key: P::key_unit(),
            mid: VertexId(0),
            rev: false,
            guard: false,
            ty,
        }
    }
}

/// `x` is no node or a node of an arena of `n` nodes.
spec fn ok_id(x: NodeId, n: nat) -> bool {
    x.0 == u32::MAX || x.0 < n
}

/// `x` is a node of an arena of `n` nodes.
spec fn is_node(x: NodeId, n: nat) -> bool {
    x.0 != u32::MAX && x.0 < n
}

/// Every link of a node stays inside an arena of `n` nodes, and every vertex it names is
/// one of `nv` vertices.
spec fn node_ok<P: LazyMapMonoid>(node: Node<P>, n: nat, nv: nat) -> bool {
    &&& ok_id(node.ch[0], n)
    &&& ok_id(node.ch[1], n)
    &&& ok_id(node.par, n)
    &&& ok_id(node.rake, n)
    &&& node.endpoint[0].0 < nv
    &&& node.endpoint[1].0 < nv
    &&& node.mid.0 < nv
}

spec fn all_ok<P: LazyMapMonoid>(s: Seq<Node<P>>, n: nat, nv: nat) -> bool {
    forall|i: int| 0 <= i < s.len() ==> #[trigger] node_ok::<P>(s[i], n, nv)
}

/// The handle of every vertex is no node or a node of an arena of `n` nodes.
spec fn handles_ok<P: LazyMapMonoid>(vs: Seq<Vertex<P>>, n: nat) -> bool {
    forall|i: int| 0 <= i < vs.len() ==> ok_id(#[trigger] vs[i].handle, n)
}

/// Every recorded edge joins two distinct real vertices and names a node of the arena.
spec fn edges_ok(es: Seq<Vec<(u32, NodeId)>>, real_n: nat, n: nat) -> bool {
    forall|i: int, j: int| 0 <= i < es.len() && 0 <= j < es[i].len() ==> {
        &&& (#[trigger] es[i]@[j]).0 < real_n
        &&& es[i]@[j].0 != i
        &&& is_node(es[i]@[j].1, n)
    }
}

proof fn lemma_update_ok<P: LazyMapMonoid>(s: Seq<Node<P>>, n: nat, nv: nat, i: int, x: Node<P>)
    requires
        all_ok::<P>(s, n, nv),
        node_ok::<P>(x, n, nv),
        0 <= i < s.len(),
    ensures
        all_ok::<P>(s.update(i, x), n, nv),
{
    assert forall|j: int| 0 <= j < s.update(i, x).len() implies #[trigger] node_ok::<P>(
        s.update(i, x)[j],
        n,
        nv,
    ) by {
        if j != i {
            assert(node_ok::<P>(s[j], n, nv));
        }
    }
}

/// Appending a node to an arena keeps every link inside the grown arena.
proof fn lemma_push_ok<P: LazyMapMonoid>(s: Seq<Node<P>>, nv: nat, x: Node<P>)
    requires
        all_ok::<P>(s, s.len(), nv),
        node_ok::<P>(x, s.len() + 1, nv),
    ensures
        all_ok::<P>(s.push(x), s.len() + 1, nv),
{
    assert forall|j: int| 0 <= j < s.push(x).len() implies #[trigger] node_ok::<P>(
        s.push(x)[j],
        s.len() + 1,
        nv,
    ) by {
        if j < s.len() {
            assert(node_ok::<P>(s[j], s.len(), nv));
        }
    }
}

/// Self-adjusting top tree (rake and compress clusters kept in splay trees).
///
/// The public vertices are `0..len()`; a dummy leaf hangs on each of them, so that no vertex
/// is ever alone. Every walk up or down the clusters stops after a number of steps bounded
/// by the size of the arena, which a walk in a forest of clusters never reaches.
pub struct TopTree<P: LazyMapMonoid = VertexSumAdd> {
    real_n: usize,
    vertices: Vec<Vertex<P>>,
    nodes: Vec<Node<P>>,
    /// `edges[u]` holds `(v, edge node)` for every edge `(u, v)` between real vertices.
    edges: Vec<Vec<(u32, NodeId)>>,
}

impl<P: LazyMapMonoid> TopTree<P> {
    /// The clusters are consistent and every vertex has one.
    pub closed spec fn inv(&self) -> bool {
        self.arena_ok() && self.handled()
    }

    /// Every link, handle and edge record stays inside the arena, every vertex named is one of
    /// the real or dummy vertices, and all indices fit below `u32::MAX`.
    spec fn arena_ok(&self) -> bool {
        &&& self.real_n < u32::MAX / 4
        &&& self.vertices.len() == 2 * self.real_n
        &&& self.edges.len() == self.real_n
        &&& self.nodes.len() < u32::MAX
        &&& all_ok::<P>(self.nodes@, self.nodes.len() as nat, self.vertices.len() as nat)
        &&& handles_ok::<P>(self.vertices@, self.nodes.len() as nat)
        &&& edges_ok(self.edges@, self.real_n as nat, self.nodes.len() as nat)
    }

    /// The number of (real) vertices.
    pub closed spec fn vertex_count(&self) -> nat {
        self.real_n as nat
    }

    /// Room in the arena for the nodes of one more edge.
    pub closed spec fn room(&self) -> bool {
        self.nodes.len() + 3 < u32::MAX
    }

    /// Whether the arena has room for the clusters of one more edge.
    pub fn has_room(&self) -> (r: bool)
        ensures
            r == self.room(),
    {
        self.nodes.len() < u32::MAX as usize - 3
    }

    /// For each vertex, the other ends of the edges recorded at it.
    pub closed spec fn adjacency(&self) -> Seq<Seq<u32>> {
        Seq::new(self.edges.len() as nat, |i: int| self.edges@[i]@.map_values(|e: (u32, NodeId)| e.0))
    }

    /// `u` and `v` are the same vertex, or both have a cluster and the walks up from their
    /// clusters end at the same top cluster: they share a tree.
    pub closed spec fn same_top(&self, u: int, v: int) -> bool {
        same_top_at(self.nodes@, self.vertices@, u, v)
    }

    /// The edge `(u, v)` is recorded at both its ends.
    pub open spec fn has_edge(&self, u: int, v: int) -> bool {
        let adj = self.adjacency();
        &&& 0 <= u < adj.len()
        &&& 0 <= v < adj.len()
        &&& adj[u].contains(v as u32)
        &&& adj[v].contains(u as u32)
    }

    /// Same vertex count, same vertex and node arenas in size, same edge records, and every
    /// vertex that had a cluster still has one.
    spec fn same_frame(&self, other: &Self) -> bool {
        &&& self.real_n == other.real_n
        &&& self.vertices.len() == other.vertices.len()
        &&& self.nodes.len() == other.nodes.len()
        &&& self.edges == other.edges
        &&& self.keeps_handles(other)
    }

    /// Every vertex whose handle was a node in `other` has a node as handle here.
    spec fn keeps_handles(&self, other: &Self) -> bool {
        forall|i: int| 0 <= i < other.vertices.len() && is_node(other.vertices@[i].handle, other.nodes.len() as nat)
            ==> is_node(#[trigger] self.vertices@[i].handle, self.nodes.len() as nat)
    }

    /// Every vertex has a cluster.
    spec fn handled(&self) -> bool {
        forall|i: int| 0 <= i < self.vertices.len() ==> is_node(#[trigger] self.vertices@[i].handle, self.nodes.len() as nat)
    }

    fn node(&self, x: NodeId) -> (r: &Node<P>)
        requires
            is_node(x, self.nodes.len() as nat),
        ensures
            *r == self.nodes@[x.0 as int],
    {
        &self.nodes[x.idx()]
    }

    fn node_mut(&mut self, x: NodeId) -> (r: &mut Node<P>)
        requires
            is_node(x, old(self).nodes.len() as nat),
        ensures
            *r == old(self).nodes@[x.0 as int],
            final(self).nodes@ == old(self).nodes@.update(x.0 as int, *final(r)),
            final(self).vertices == old(self).vertices,
            final(self).edges == old(self).edges,
            final(self).real_n == old(self).real_n,
    {
        &mut self.nodes[x.idx()]
    }

    fn vertex_mut(&mut self, v: VertexId) -> (r: &mut Vertex<P>)
        requires
            v.0 < old(self).vertices.len(),
        ensures
            *r == old(self).vertices@[v.0 as int],
            final(self).vertices@ == old(self).vertices@.update(v.0 as int, *final(r)),
            final(self).nodes == old(self).nodes,
            final(self).edges == old(self).edges,
            final(self).real_n == old(self).real_n,
    {
        &mut self.vertices[v.idx()]
    }

    fn value(&self, v: VertexId) -> (r: P::Key)
        requires
            v.0 < self.vertices.len(),
        ensures
            r == self.vertices@[v.0 as int].key,
    {
        P::key_copy(&self.vertices[v.idx()].key)
    }

    fn set_value(&mut self, v: VertexId, key: P::Key)
        requires
            old(self).arena_ok(),
            v.0 < old(self).vertices.len(),
        ensures
            final(self).arena_ok(),
            final(self).same_frame(old(self)),
            final(self).nodes == old(self).nodes,
            final(self).vertices@ == old(self).vertices@.update(
                v.0 as int,
                Vertex { key, ..old(self).vertices@[v.0 as int] },
            ),
    {
        let ghost vs = self.vertices@;
        self.vertex_mut(v).key = key;
        proof {
            assert forall|i: int| 0 <= i < self.vertices.len() implies ok_id(
                #[trigger] self.vertices@[i].handle,
                self.nodes.len() as nat,
            ) by {
                assert(ok_id(vs[i].handle, self.nodes.len() as nat));
            }
        }
    }

    fn set_handle(&mut self, v: VertexId, h: NodeId)
        requires
            old(self).arena_ok(),
            v.0 < old(self).vertices.len(),
            is_node(h, old(self).nodes.len() as nat),
        ensures
            final(self).arena_ok(),
            final(self).same_frame(old(self)),
            final(self).nodes == old(self).nodes,
            final(self).vertices@[v.0 as int].handle == h,
            forall|i: int| 0 <= i < old(self).vertices.len() && i != v.0 ==> final(self).vertices@[i] == old(self).vertices@[i],
            final(self).vertices@ == with_handle(old(self).vertices@, v, h),
    {
        let ghost vs = self.vertices@;
        self.vertex_mut(v).handle = h;
        proof {
            assert forall|i: int| 0 <= i < self.vertices.len() implies ok_id(
                #[trigger] self.vertices@[i].handle,
                self.nodes.len() as nat,
            ) by {
                if i != v.0 {
                    assert(ok_id(vs[i].handle, self.nodes.len() as nat));
                }
            }
        }
    }

    fn is_real_vertex(&self, v: VertexId) -> (r: bool)
        ensures
            r == (v.0 < self.real_n),
    {
        v.idx() < self.real_n
    }

    fn v_weight(&self, v: VertexId) -> (r: u32)
        ensures
            r <= 1,
            r == weight(self.real_n as nat, v),
    {
        if self.is_real_vertex(v) {
            1
        } else {
            0
        }
    }

    /// The links and vertices of node `x`, each inside the arena.
    proof fn lemma_node_ok(&self, x: NodeId)
        requires
            self.arena_ok(),
            is_node(x, self.nodes.len() as nat),
        ensures
            node_ok::<P>(self.nodes@[x.0 as int], self.nodes.len() as nat, self.vertices.len() as nat),
    {
    }

    /// The handle of vertex `v` is inside the arena.
    proof fn lemma_handle_ok(&self, v: VertexId)
        requires
            self.arena_ok(),
            v.0 < self.vertices.len(),
        ensures
            ok_id(self.vertices@[v.0 as int].handle, self.nodes.len() as nat),
    {
    }

    /// Replace node `x` by `node`, whose links stay inside the arena.
    fn put(&mut self, x: NodeId, node: Node<P>)
        requires
            old(self).arena_ok(),
            is_node(x, old(self).nodes.len() as nat),
            node_ok::<P>(node, old(self).nodes.len() as nat, old(self).vertices.len() as nat),
        ensures
            final(self).arena_ok(),
            final(self).same_frame(old(self)),
            final(self).vertices == old(self).vertices,
            final(self).nodes@ == old(self).nodes@.update(x.0 as int, node),
    {
        let ghost n0 = self.nodes@;
        *self.node_mut(x) = node;
        proof {
            lemma_update_ok::<P>(n0, n0.len() as nat, self.vertices.len() as nat, x.0 as int, node);
        }
    }
}

impl<P: LazyMapMonoid> TopTree<P> {
    fn ch(&self, x: NodeId, d: usize) -> (r: NodeId)
        requires
            self.arena_ok(),
            is_node(x, self.nodes.len() as nat),
            d < 2,
        ensures
            r == self.nodes@[x.0 as int].ch[d as int],
            ok_id(r, self.nodes.len() as nat),
    {
        proof {
            self.lemma_node_ok(x);
        }
        self.node(x).ch[d]
    }

    fn par(&self, x: NodeId) -> (r: NodeId)
        requires
            self.arena_ok(),
            is_node(x, self.nodes.len() as nat),
        ensures
            r == self.nodes@[x.0 as int].par,
            ok_id(r, self.nodes.len() as nat),
    {
        proof {
            self.lemma_node_ok(x);
        }
        self.node(x).par
    }

    fn rake_of(&self, x: NodeId) -> (r: NodeId)
        requires
            self.arena_ok(),
            is_node(x, self.nodes.len() as nat),
        ensures
            r == self.nodes@[x.0 as int].rake,
            ok_id(r, self.nodes.len() as nat),
    {
        proof {
            self.lemma_node_ok(x);
        }
        self.node(x).rake
    }

    fn endpoint(&self, x: NodeId, i: usize) -> (r: VertexId)
        requires
            self.arena_ok(),
            is_node(x, self.nodes.len() as nat),
            i < 2,
        ensures
            r == self.nodes@[x.0 as int].endpoint[i as int],
            r.0 < self.vertices.len(),
    {
        proof {
            self.lemma_node_ok(x);
        }
        self.node(x).endpoint[i]
    }

    fn mid(&self, x: NodeId) -> (r: VertexId)
        requires
            self.arena_ok(),
            is_node(x, self.nodes.len() as nat),
        ensures
            r.0 < self.vertices.len(),
            r == self.nodes@[x.0 as int].mid,
    {
        proof {
            self.lemma_node_ok(x);
        }
        self.node(x).mid
    }

    fn ty(&self, x: NodeId) -> (r: NodeType)
        requires
            is_node(x, self.nodes.len() as nat),
        ensures
            r == self.nodes@[x.0 as int].ty,
    {
        self.node(x).ty
    }

    fn handle(&self, v: VertexId) -> (r: NodeId)
        requires
            self.arena_ok(),
            v.0 < self.vertices.len(),
        ensures
            r == self.vertices@[v.0 as int].handle,
            ok_id(r, self.nodes.len() as nat),
    {
        proof {
            self.lemma_handle_ok(v);
        }
        self.vertices[v.idx()].handle
    }

    fn set_ch(&mut self, x: NodeId, d: usize, c: NodeId)
        requires
            old(self).arena_ok(),
            is_node(x, old(self).nodes.len() as nat),
            d < 2,
            ok_id(c, old(self).nodes.len() as nat),
        ensures
            final(self).arena_ok(),
            final(self).same_frame(old(self)),
            final(self).vertices == old(self).vertices,
            final(self).nodes@[x.0 as int].ch[d as int] == c,
            final(self).nodes@ == with_ch(old(self).nodes@, x, d as int, c),
    {
        proof {
            self.lemma_node_ok(x);
        }
        let ghost n0 = self.nodes@;
        self.node_mut(x).ch[d] = c;
        proof {
            lemma_update_ok::<P>(n0, n0.len() as nat, self.vertices.len() as nat, x.0 as int, self.nodes@[x.0 as int]);
            assert(self.nodes@[x.0 as int].ch =~= with_ch(n0, x, d as int, c)[x.0 as int].ch);
            assert(self.nodes@ =~= with_ch(n0, x, d as int, c));
        }
    }

    fn set_par(&mut self, x: NodeId, p: NodeId)
        requires
            old(self).arena_ok(),
            is_node(x, old(self).nodes.len() as nat),
            ok_id(p, old(self).nodes.len() as nat),
        ensures
            final(self).arena_ok(),
            final(self).same_frame(old(self)),
            final(self).vertices == old(self).vertices,
            final(self).nodes@[x.0 as int].par == p,
            final(self).nodes@ == with_par(old(self).nodes@, x, p),
    {
        proof {
            self.lemma_node_ok(x);
        }
        let ghost n0 = self.nodes@;
        self.node_mut(x).par = p;
        proof {
            lemma_update_ok::<P>(n0, n0.len() as nat, self.vertices.len() as nat, x.0 as int, self.nodes@[x.0 as int]);
        }
    }

    fn set_rake(&mut self, x: NodeId, rk: NodeId)
        requires
            old(self).arena_ok(),
            is_node(x, old(self).nodes.len() as nat),
            ok_id(rk, old(self).nodes.len() as nat),
        ensures
            final(self).arena_ok(),
            final(self).same_frame(old(self)),
            final(self).vertices == old(self).vertices,
            final(self).nodes@[x.0 as int].rake == rk,
            final(self).nodes@ == with_rake(old(self).nodes@, x, rk),
    {
        proof {
            self.lemma_node_ok(x);
        }
        let ghost n0 = self.nodes@;
        self.node_mut(x).rake = rk;
        proof {
            lemma_update_ok::<P>(n0, n0.len() as nat, self.vertices.len() as nat, x.0 as int, self.nodes@[x.0 as int]);
        }
    }

    fn set_guard(&mut self, x: NodeId, g: bool)
        requires
            old(self).arena_ok(),
            is_node(x, old(self).nodes.len() as nat),
        ensures
            final(self).arena_ok(),
            final(self).same_frame(old(self)),
            final(self).vertices == old(self).vertices,
            final(self).nodes@ == old(self).nodes@.update(x.0 as int, Node { guard: g, ..old(self).nodes@[x.0 as int] }),
    {
        proof {
            self.lemma_node_ok(x);
        }
        let ghost n0 = self.nodes@;
        self.node_mut(x).guard = g;
        proof {
            lemma_update_ok::<P>(n0, n0.len() as nat, self.vertices.len() as nat, x.0 as int, self.nodes@[x.0 as int]);
        }
    }

    /// Set the boundary vertices and the middle vertex of node `x`.
    fn set_ends(&mut self, x: NodeId, a: VertexId, b: VertexId, m: VertexId)
        requires
            old(self).arena_ok(),
            is_node(x, old(self).nodes.len() as nat),
            a.0 < old(self).vertices.len(),
            b.0 < old(self).vertices.len(),
            m.0 < old(self).vertices.len(),
        ensures
            final(self).arena_ok(),
            final(self).same_frame(old(self)),
            final(self).vertices == old(self).vertices,
            final(self).nodes@[x.0 as int].endpoint[0] == a,
            final(self).nodes@[x.0 as int].endpoint[1] == b,
            final(self).nodes@ == with_ends(old(self).nodes@, x, a, b, m),
    {
        proof {
            self.lemma_node_ok(x);
        }
        let ghost n0 = self.nodes@;
        let nx = self.node_mut(x);
        nx.endpoint[0] = a;
        nx.endpoint[1] = b;
        nx.mid = m;
        proof {
            lemma_update_ok::<P>(n0, n0.len() as nat, self.vertices.len() as nat, x.0 as int, self.nodes@[x.0 as int]);
            assert(self.nodes@[x.0 as int].endpoint =~= [a, b]);
            assert(self.nodes@ =~= with_ends(n0, x, a, b, m));
        }
    }

    fn set_fold(&mut self, x: NodeId, f: Fold<P>)
        requires
            old(self).arena_ok(),
            is_node(x, old(self).nodes.len() as nat),
        ensures
            final(self).arena_ok(),
            final(self).same_frame(old(self)),
            final(self).vertices == old(self).vertices,
            final(self).nodes@ == old(self).nodes@.update(x.0 as int, Node { fold: f, ..old(self).nodes@[x.0 as int] }),
    {
        proof {
            self.lemma_node_ok(x);
        }
        let ghost n0 = self.nodes@;
        self.node_mut(x).fold = f;
        proof {
            lemma_update_ok::<P>(n0, n0.len() as nat, self.vertices.len() as nat, x.0 as int, self.nodes@[x.0 as int]);
        }
    }

    /// Give the edge node `x` a new key, and the fold of that key.
    fn set_edge_key(&mut self, x: NodeId, key: P::Key)
        requires
            old(self).arena_ok(),
            is_node(x, old(self).nodes.len() as nat),
        ensures
            final(self).arena_ok(),
            final(self).same_frame(old(self)),
            final(self).vertices == old(self).vertices,
            final(self).nodes@ == old(self).nodes@.update(
                x.0 as int,
                Node { edge_key: key, fold: Fold::<P>::spec_from_edge_key(key), ..old(self).nodes@[x.0 as int] },
            ),
    {
        proof {
            self.lemma_node_ok(x);
        }
        let ghost n0 = self.nodes@;
        let f = Fold::<P>::from_edge_key(&key);
        let nx = self.node_mut(x);
        nx.edge_key = key;
        nx.fold = f;
        proof {
            lemma_update_ok::<P>(n0, n0.len() as nat, self.vertices.len() as nat, x.0 as int, self.nodes@[x.0 as int]);
        }
    }

    /// See the cluster `x` from its other end, lazily for the clusters below it.
    fn reverse_node(&mut self, x: NodeId)
        requires
            old(self).arena_ok(),
            ok_id(x, old(self).nodes.len() as nat),
        ensures
            final(self).arena_ok(),
            final(self).same_frame(old(self)),
            final(self).vertices == old(self).vertices,
            x.0 == u32::MAX ==> final(self).nodes == old(self).nodes,
            x.0 != u32::MAX ==> final(self).nodes@ == old(self).nodes@.update(
                x.0 as int,
                reversed_node(old(self).nodes@[x.0 as int]),
            ),
    {
        if x.is_nil() {
            return;
        }
        proof {
            self.lemma_node_ok(x);
        }
        let ghost n0 = self.nodes@;
        let nx = self.node_mut(x);
        match nx.ty {
            NodeType::Edge => {
                let e0 = nx.endpoint[0];
                nx.endpoint[0] = nx.endpoint[1];
                nx.endpoint[1] = e0;
                nx.fold.reverse();
            },
            NodeType::Compress => {
                let e0 = nx.endpoint[0];
                nx.endpoint[0] = nx.endpoint[1];
                nx.endpoint[1] = e0;
                nx.fold.reverse();
                nx.rev = !nx.rev;
            },
            NodeType::Rake => {},
        }
        proof {
            lemma_update_ok::<P>(n0, n0.len() as nat, self.vertices.len() as nat, x.0 as int, self.nodes@[x.0 as int]);
            let a = self.nodes@[x.0 as int];
            let b = reversed_node(n0[x.0 as int]);
            assert(a.endpoint[0] == b.endpoint[0] && a.endpoint[1] == b.endpoint[1]);
            assert(a.endpoint =~= b.endpoint);
            assert(a == b);
        }
    }

    /// Apply `act` to every vertex counted in the cluster `x`, lazily below it.
    fn apply_all(&mut self, x: NodeId, act: P::Act)
        requires
            old(self).arena_ok(),
            ok_id(x, old(self).nodes.len() as nat),
        ensures
            final(self).arena_ok(),
            final(self).same_frame(old(self)),
            final(self).vertices == old(self).vertices,
            x.0 == u32::MAX ==> final(self).nodes == old(self).nodes,
            x.0 != u32::MAX ==> final(self).nodes@ == old(self).nodes@.update(x.0 as int, {
                let n = old(self).nodes@[x.0 as int];
                Node {
                    fold: n.fold.spec_acted(act, n.fold.all_v_cnt as nat),
                    lazy_all: if n.lazy_all_pending { P::spec_act_compose(act, n.lazy_all) } else { act },
                    lazy_all_pending: true,
                    ..n
                }
            }),
    {
        if x.is_nil() {
            return;
        }
        proof {
            self.lemma_node_ok(x);
        }
        let path_len = self.node(x).fold.path_v_cnt as usize;
        let all_len = self.node(x).fold.all_v_cnt as usize;
        let reversal_invariant = P::reversal_invariant();
        let ghost n0 = self.nodes@;
        let nx = self.node_mut(x);
        let new_fwd = P::act_apply_agg(&nx.fold.path_fwd, &act, path_len);
        if reversal_invariant {
            nx.fold.path_rev = P::agg_copy(&new_fwd);
        } else {
            nx.fold.path_rev = P::act_apply_agg(&nx.fold.path_rev, &act, path_len);
        }
        nx.fold.path_fwd = new_fwd;
        nx.fold.all = P::act_apply_agg(&nx.fold.all, &act, all_len);
        if nx.lazy_all_pending {
            nx.lazy_all = P::act_compose(&act, &nx.lazy_all);
        } else {
            nx.lazy_all = act;
            nx.lazy_all_pending = true;
        }
        proof {
            lemma_update_ok::<P>(n0, n0.len() as nat, self.vertices.len() as nat, x.0 as int, self.nodes@[x.0 as int]);
        }
    }

    /// Apply `act` to the vertices on the path of the cluster `x`, lazily below it.
    fn apply_path(&mut self, x: NodeId, act: P::Act)
        requires
            old(self).arena_ok(),
            ok_id(x, old(self).nodes.len() as nat),
        ensures
            final(self).arena_ok(),
            final(self).same_frame(old(self)),
            final(self).vertices == old(self).vertices,
            x.0 == u32::MAX ==> final(self).nodes == old(self).nodes,
            x.0 != u32::MAX ==> final(self).nodes@ == old(self).nodes@.update(x.0 as int, {
                let n = old(self).nodes@[x.0 as int];
                Node {
                    fold: n.fold.spec_acted(act, n.fold.path_v_cnt as nat),
                    lazy_path: if n.lazy_path_pending { P::spec_act_compose(act, n.lazy_path) } else { act },
                    lazy_path_pending: true,
                    ..n
                }
            }),
    {
        if x.is_nil() {
            return;
        }
        proof {
            self.lemma_node_ok(x);
        }
        let path_len = self.node(x).fold.path_v_cnt as usize;
        let reversal_invariant = P::reversal_invariant();
        let ghost n0 = self.nodes@;
        let nx = self.node_mut(x);
        let new_fwd = P::act_apply_agg(&nx.fold.path_fwd, &act, path_len);
        if reversal_invariant {
            nx.fold.path_rev = P::agg_copy(&new_fwd);
        } else {
            nx.fold.path_rev = P::act_apply_agg(&nx.fold.path_rev, &act, path_len);
        }
        nx.fold.path_fwd = new_fwd;
        nx.fold.all = P::act_apply_agg(&nx.fold.all, &act, path_len);
        if nx.lazy_path_pending {
            nx.lazy_path = P::act_compose(&act, &nx.lazy_path);
        } else {
            nx.lazy_path = act;
            nx.lazy_path_pending = true;
        }
        proof {
            lemma_update_ok::<P>(n0, n0.len() as nat, self.vertices.len() as nat, x.0 as int, self.nodes@[x.0 as int]);
        }
    }

    fn apply_act_to_vertex_if_real(&mut self, v: VertexId, act: &P::Act)
        requires
            old(self).arena_ok(),
            v.0 < old(self).vertices.len(),
        ensures
            final(self).arena_ok(),
            final(self).same_frame(old(self)),
            final(self).nodes == old(self).nodes,
            final(self).vertices@ == vertex_acted(old(self).vertices@, old(self).real_n as nat, v, *act),
    {
        if !self.is_real_vertex(v) {
            return;
        }
        let key = self.value(v);
        self.set_value(v, P::act_apply_key(&key, act));
    }

    /// Hand the reversal and the pending actions of `x` down to its children, its rake
    /// child and the vertices it holds.
    fn push(&mut self, x: NodeId)
        requires
            old(self).arena_ok(),
            ok_id(x, old(self).nodes.len() as nat),
        ensures
            final(self).arena_ok(),
            final(self).same_frame(old(self)),
            (final(self).nodes@, final(self).vertices@) == pushed(old(self).nodes@, old(self).vertices@, old(self).real_n as nat, x),
            same_edge_keys(old(self).nodes@, final(self).nodes@),
    {
        proof {
            reveal(pushed);
        }
        if x.is_nil() {
            return;
        }
        self.push_rev(x);
        proof {
            self.lemma_node_ok(x);
            lemma_all_pushed_keeps_edge_keys(self.nodes@, self.vertices@, self.real_n as nat, x);
        }
        self.push_all(x);
        proof {
            self.lemma_node_ok(x);
            lemma_path_pushed_keeps_edge_keys(self.nodes@, self.vertices@, self.real_n as nat, x);
        }
        self.push_path_act(x);
    }

    /// The reversal step of a push at `x`.
    fn push_rev(&mut self, x: NodeId)
        requires
            old(self).arena_ok(),
            is_node(x, old(self).nodes.len() as nat),
        ensures
            final(self).arena_ok(),
            final(self).same_frame(old(self)),
            final(self).vertices == old(self).vertices,
            final(self).nodes@ == rev_pushed(old(self).nodes@, x),
            same_edge_keys(old(self).nodes@, final(self).nodes@),
    {
        proof {
            self.lemma_node_ok(x);
        }
        let ty = self.ty(x);
        let rev = self.node(x).rev;
        if ty == NodeType::Compress && rev {
            let l = self.ch(x, 0);
            let r = self.ch(x, 1);
            let ghost n0 = self.nodes@;
            let nx = self.node_mut(x);
            nx.ch[0] = r;
            nx.ch[1] = l;
            nx.rev = false;
            proof {
                lemma_update_ok::<P>(n0, n0.len() as nat, self.vertices.len() as nat, x.0 as int, self.nodes@[x.0 as int]);
                let want = Node { ch: [r, l], rev: false, ..n0[x.0 as int] };
                assert(self.nodes@[x.0 as int].ch =~= want.ch);
                assert(self.nodes@ =~= n0.update(x.0 as int, want));
            }
            self.reverse_node(l);
            self.reverse_node(r);
        }
    }

    /// The whole-cluster action step of a push at `x`.
    #[verifier::rlimit(100)]
    #[verifier::spinoff_prover]
    fn push_all(&mut self, x: NodeId)
        requires
            old(self).arena_ok(),
            is_node(x, old(self).nodes.len() as nat),
        ensures
            final(self).arena_ok(),
            final(self).same_frame(old(self)),
            final(self).nodes@ == all_pushed(old(self).nodes@, old(self).vertices@, old(self).real_n as nat, x).0,
            final(self).vertices@ == all_pushed(old(self).nodes@, old(self).vertices@, old(self).real_n as nat, x).1,
    {
        let ghost goal = all_pushed(self.nodes@, self.vertices@, self.real_n as nat, x);
        if self.node(x).lazy_all_pending {
            let all_act = P::act_copy(&self.node(x).lazy_all);
            let l = self.ch(x, 0);
            let r = self.ch(x, 1);
            let rk = self.rake_of(x);
            let ghost ns0 = self.nodes@;
            let ghost vs0 = self.vertices@;
            self.apply_all(l, P::act_copy(&all_act));
            self.apply_all(r, P::act_copy(&all_act));
            self.apply_all(rk, P::act_copy(&all_act));
            let ghost b = all_acted_at(all_acted_at(all_acted_at(ns0, l, all_act), r, all_act), rk, all_act);
            proof {
                assert(self.nodes@ == b);
                assert(self.vertices@ == vs0);
            }
            match self.ty(x) {
                NodeType::Compress => {
                    let cv = self.mid(x);
                    self.apply_act_to_vertex_if_real(cv, &all_act);
                },
                NodeType::Rake => {
                    let b = self.ch(x, 1);
                    if !b.is_nil() {
                        let bv = self.endpoint(b, 0);
                        self.apply_act_to_vertex_if_real(bv, &all_act);
                    }
                },
                NodeType::Edge => {},
            }
            assert(self.vertices@ == goal.1);
            proof {
                self.lemma_node_ok(x);
            }
            let ghost n0 = self.nodes@;
            let nx = self.node_mut(x);
            nx.lazy_all = P::act_unit();
            nx.lazy_all_pending = false;
            proof {
                lemma_update_ok::<P>(n0, n0.len() as nat, self.vertices.len() as nat, x.0 as int, self.nodes@[x.0 as int]);
                assert(self.nodes@ == goal.0);
            }
        }
    }

    /// The path action step of a push at `x`.
    #[verifier::rlimit(50)]
    fn push_path_act(&mut self, x: NodeId)
        requires
            old(self).arena_ok(),
            is_node(x, old(self).nodes.len() as nat),
        ensures
            final(self).arena_ok(),
            final(self).same_frame(old(self)),
            final(self).nodes@ == path_pushed(old(self).nodes@, old(self).vertices@, old(self).real_n as nat, x).0,
            final(self).vertices@ == path_pushed(old(self).nodes@, old(self).vertices@, old(self).real_n as nat, x).1,
    {
        let ghost goal = path_pushed(self.nodes@, self.vertices@, self.real_n as nat, x);
        if self.node(x).lazy_path_pending {
            let path_act = P::act_copy(&self.node(x).lazy_path);
            let l = self.ch(x, 0);
            let r = self.ch(x, 1);
            let ghost ns0 = self.nodes@;
            let ghost vs0 = self.vertices@;
            self.apply_path(l, P::act_copy(&path_act));
            self.apply_path(r, P::act_copy(&path_act));
            let ghost b = path_acted_at(path_acted_at(ns0, l, path_act), r, path_act);
            assert(self.nodes@ == b);
            if self.ty(x) == NodeType::Compress {
                let cv = self.mid(x);
                self.apply_act_to_vertex_if_real(cv, &path_act);
            }
            assert(self.vertices@ == goal.1);
            proof {
                self.lemma_node_ok(x);
            }
            let ghost n0 = self.nodes@;
            let nx = self.node_mut(x);
            nx.lazy_path = P::act_unit();
            nx.lazy_path_pending = false;
            proof {
                lemma_update_ok::<P>(n0, n0.len() as nat, self.vertices.len() as nat, x.0 as int, self.nodes@[x.0 as int]);
                assert(self.nodes@ == goal.0);
            }
        }
    }

    /// Which child of its parent `child` is: `0` or `1`, or `-1` at the root of its splay
    /// tree (a guarded parent counts as no parent).
    fn parent_dir(&self, child: NodeId) -> (r: i32)
        requires
            self.arena_ok(),
            is_node(child, self.nodes.len() as nat),
        ensures
            r == -1 || r == 0 || r == 1,
            r != -1 ==> is_node(self.nodes@[child.0 as int].par, self.nodes.len() as nat),
            r == parent_side(self.nodes@, child),
    {
        let par = self.par(child);
        if par.is_nil() {
            return -1;
        }
        if self.node(par).guard {
            return -1;
        }
        if self.node(par).ch[0] == child {
            0
        } else if self.node(par).ch[1] == child {
            1
        } else {
            -1
        }
    }

    /// As `parent_dir`, looking through a guard.
    fn parent_dir_guard(&self, child: NodeId) -> (r: i32)
        requires
            self.arena_ok(),
            is_node(child, self.nodes.len() as nat),
        ensures
            r == -1 || r == 0 || r == 1,
            r != -1 ==> is_node(self.nodes@[child.0 as int].par, self.nodes.len() as nat),
            r == parent_side_guard(self.nodes@, child),
    {
        let par = self.par(child);
        if par.is_nil() {
            return -1;
        }
        if self.node(par).ch[0] == child {
            0
        } else if self.node(par).ch[1] == child {
            1
        } else {
            -1
        }
    }

    /// Point the handles of the boundary vertices of `x` at it where `x` is their topmost
    /// cluster.
    fn update_handles(&mut self, x: NodeId)
        requires
            old(self).arena_ok(),
            is_node(x, old(self).nodes.len() as nat),
        ensures
            final(self).arena_ok(),
            final(self).same_frame(old(self)),
            final(self).nodes == old(self).nodes,
            old(self).nodes@[x.0 as int].par.0 == u32::MAX ==> {
                &&& final(self).vertices@[old(self).nodes@[x.0 as int].endpoint[0].0 as int].handle == x
                &&& final(self).vertices@[old(self).nodes@[x.0 as int].endpoint[1].0 as int].handle == x
            },
            final(self).vertices@ == handles_updated(old(self).nodes@, old(self).vertices@, x),
    {
        let par = self.par(x);
        if par.is_nil() {
            let a = self.endpoint(x, 0);
            let b = self.endpoint(x, 1);
            self.set_handle(a, x);
            self.set_handle(b, x);
        } else if self.ty(par) == NodeType::Compress {
            if self.parent_dir(x) == -1 {
                let a = self.endpoint(x, 0);
                self.set_handle(a, x);
            }
        } else if self.ty(par) == NodeType::Rake {
            let a = self.endpoint(x, 0);
            self.set_handle(a, x);
        }
    }

    /// Recompute the boundary, the fold and the handles of `x` from its children.
    fn fix(&mut self, x: NodeId)
        requires
            old(self).arena_ok(),
            ok_id(x, old(self).nodes.len() as nat),
        ensures
            final(self).arena_ok(),
            final(self).same_frame(old(self)),
            is_node(x, old(self).nodes.len() as nat) && old(self).nodes@[x.0 as int].ty == NodeType::Edge
                && old(self).nodes@[x.0 as int].par.0 == u32::MAX ==> {
                &&& final(self).vertices@[old(self).nodes@[x.0 as int].endpoint[0].0 as int].handle == x
                &&& final(self).vertices@[old(self).nodes@[x.0 as int].endpoint[1].0 as int].handle == x
            },
            final(self).nodes@ == fixed(old(self).nodes@, old(self).vertices@, old(self).real_n as nat, x).0,
            final(self).vertices@ == fixed(old(self).nodes@, old(self).vertices@, old(self).real_n as nat, x).1,
            same_edge_keys(old(self).nodes@, final(self).nodes@),
    {
        proof {
            reveal(fixed);
        }
        if x.is_nil() {
            return;
        }
        match self.ty(x) {
            NodeType::Edge => {
                self.update_handles(x);
            },
            NodeType::Compress => {
                self.push(x);
                let l = self.ch(x, 0);
                let r = self.ch(x, 1);
                if l.is_nil() || r.is_nil() {
                    return;
                }
                let l0 = self.endpoint(l, 0);
                let l1 = self.endpoint(l, 1);
                let r1 = self.endpoint(r, 1);
                self.set_ends(x, l0, r1, l1);
                let rk = self.rake_of(x);
                let left_fold = if !rk.is_nil() {
                    let rv = self.endpoint(rk, 0);
                    Fold::<P>::rake(&self.node(l).fold, &self.node(rk).fold, &self.value(rv), self.v_weight(rv))
                } else {
                    self.node(l).fold.copy()
                };
                let cv_key = self.value(l1);
                let cv_cnt = self.v_weight(l1);
                let f = Fold::<P>::compress(&left_fold, &self.node(r).fold, &cv_key, cv_cnt);
                self.set_fold(x, f);
                // the middle vertex is a boundary of this cluster
                self.set_handle(l1, x);
                self.update_handles(x);
            },
            NodeType::Rake => {
                self.push(x);
                let a = self.ch(x, 0);
                let b = self.ch(x, 1);
                if a.is_nil() || b.is_nil() {
                    return;
                }
                let a0 = self.endpoint(a, 0);
                let a1 = self.endpoint(a, 1);
                let m = self.mid(x);
                self.set_ends(x, a0, a1, m);
                let bv = self.endpoint(b, 0);
                let f = Fold::<P>::rake(&self.node(a).fold, &self.node(b).fold, &self.value(bv), self.v_weight(bv));
                self.set_fold(x, f);
            },
        }
    }
}

impl<P: LazyMapMonoid> TopTree<P> {
    /// Rotate `t` above its parent `x`; `dir` is the side of `t` that `x` moves to.
    fn rotate(&mut self, t: NodeId, x: NodeId, dir: usize)
        requires
            old(self).arena_ok(),
            is_node(t, old(self).nodes.len() as nat),
            is_node(x, old(self).nodes.len() as nat),
            dir < 2,
        ensures
            final(self).arena_ok(),
            final(self).same_frame(old(self)),
            final(self).nodes@ == rotated(old(self).nodes@, old(self).vertices@, old(self).real_n as nat, t, x, dir as int).0,
            final(self).vertices@ == rotated(old(self).nodes@, old(self).vertices@, old(self).real_n as nat, t, x, dir as int).1,
    {
        proof {
            reveal(rotated);
        }
        let y = self.par(x);
        let par_dir = self.parent_dir_guard(x);
        let td = self.ch(t, dir);
        self.push(td);
        self.set_ch(x, 1 - dir, td);
        if !td.is_nil() {
            self.set_par(td, x);
        }
        self.set_ch(t, dir, x);
        self.set_par(x, t);
        self.set_par(t, y);
        if par_dir != -1 {
            self.set_ch(y, par_dir as usize, t);
        } else if !y.is_nil() && self.ty(y) == NodeType::Compress {
            self.set_rake(y, t);
        }
        self.fix(x);
        self.fix(t);
        if !y.is_nil() && !self.node(y).guard {
            self.fix(y);
        }
    }

    /// The nodes and vertices after `t` is pushed and splayed, at most as many rounds as
    /// there are nodes.
    spec fn splayed(&self, t: NodeId) -> (Seq<Node<P>>, Seq<Vertex<P>>) {
        splay_all(self.nodes@, self.vertices@, self.real_n as nat, t)
    }

    /// The nodes, the vertices and the root cluster after the clusters above `t` are made
    /// to expose it, at most `2n + 2` rounds for `n` nodes.
    spec fn exposed(&self, t: NodeId) -> (Seq<Node<P>>, Seq<Vertex<P>>, NodeId) {
        expose_rounds(self.nodes@, self.vertices@, self.real_n as nat, t, (2 * self.nodes.len() + 2) as nat)
    }

    /// Splay `t` to the top of the splay tree of clusters of its own type.
    fn splay(&mut self, t: NodeId)
        requires
            old(self).arena_ok(),
            is_node(t, old(self).nodes.len() as nat),
        ensures
            final(self).arena_ok(),
            final(self).same_frame(old(self)),
            final(self).nodes@ == old(self).splayed(t).0,
            final(self).vertices@ == old(self).splayed(t).1,
    {
        let ghost n = self.nodes.len() as nat;
        let ghost rn = self.real_n as nat;
        self.push(t);
        let ghost goal = splay_rounds(self.nodes@, self.vertices@, rn, t, n);
        let mut steps: usize = 0;
        loop
            invariant_except_break
                splay_rounds(self.nodes@, self.vertices@, rn, t, (n - steps) as nat) == goal,
            invariant
                self.arena_ok(),
                self.same_frame(old(self)),
                self.nodes.len() == n,
                self.real_n == rn,
                is_node(t, n),
                steps <= n,
            ensures
                self.nodes@ == goal.0,
                self.vertices@ == goal.1,
            decreases n - steps,
        {
            let ghost f = (n - steps) as nat;
            let ghost s_nodes = self.nodes@;
            let ghost s_vs = self.vertices@;
            if steps >= self.nodes.len() {
                break;
            }
            steps += 1;
            if self.parent_dir(t) == -1 {
                assert(splay_step(s_nodes, s_vs, rn, t) == (s_nodes, s_vs, true));
                break;
            }
            let q = self.par(t);
            if self.ty(q) != self.ty(t) {
                assert(splay_step(s_nodes, s_vs, rn, t) == (s_nodes, s_vs, true));
                break;
            }
            if self.parent_dir(q) != -1 {
                let r = self.par(q);
                if self.ty(r) == self.ty(q) {
                    let rp = self.par(r);
                    if !rp.is_nil() {
                        self.push(rp);
                    }
                    self.push(r);
                    self.push(q);
                    self.push(t);
                    let qt_dir = self.parent_dir(t);
                    let rq_dir = self.parent_dir(q);
                    if qt_dir == -1 || rq_dir == -1 {
                        assert(splay_step(s_nodes, s_vs, rn, t) == (self.nodes@, self.vertices@, true));
                        break;
                    }
                    if rq_dir == qt_dir {
                        self.rotate(q, r, 1 - rq_dir as usize);
                        self.rotate(t, q, 1 - qt_dir as usize);
                    } else {
                        self.rotate(t, q, 1 - qt_dir as usize);
                        self.rotate(t, r, 1 - rq_dir as usize);
                    }
                    assert(splay_step(s_nodes, s_vs, rn, t) == (self.nodes@, self.vertices@, false));
                    continue;
                }
            }
            let qp = self.par(q);
            if !qp.is_nil() {
                self.push(qp);
            }
            self.push(q);
            self.push(t);
            let qt_dir = self.parent_dir(t);
            if qt_dir == -1 {
                assert(splay_step(s_nodes, s_vs, rn, t) == (self.nodes@, self.vertices@, true));
                break;
            }
            self.rotate(t, q, 1 - qt_dir as usize);
            assert(splay_step(s_nodes, s_vs, rn, t) == (self.nodes@, self.vertices@, false));
        }
    }

    /// Make the clusters above the base cluster `t` expose it, and give the new root cluster.
    #[verifier::rlimit(100)]
    #[verifier::spinoff_prover]
    fn expose_raw(&mut self, t: NodeId) -> (r: NodeId)
        requires
            old(self).arena_ok(),
            is_node(t, old(self).nodes.len() as nat),
        ensures
            final(self).arena_ok(),
            final(self).same_frame(old(self)),
            is_node(r, final(self).nodes.len() as nat),
            final(self).nodes@ == old(self).exposed(t).0,
            final(self).vertices@ == old(self).exposed(t).1,
            r == old(self).exposed(t).2,
    {
        let ghost n = self.nodes.len() as nat;
        let ghost rn = self.real_n as nat;
        let ghost goal = self.exposed(t);
        let mut t = t;
        let limit: u64 = 2 * (self.nodes.len() as u64) + 2;
        let mut steps: u64 = 0;
        loop
            invariant_except_break
                expose_rounds(self.nodes@, self.vertices@, rn, t, (limit - steps) as nat) == goal,
            invariant
                self.arena_ok(),
                self.same_frame(old(self)),
                self.nodes.len() == n,
                self.real_n == rn,
                is_node(t, n),
                limit == 2 * n + 2,
                steps <= limit,
            ensures
                self.nodes@ == goal.0,
                self.vertices@ == goal.1,
                t == goal.2,
            decreases limit - steps,
        {
            let ghost s_nodes = self.nodes@;
            let ghost s_vs = self.vertices@;
            if steps >= limit {
                break;
            }
            steps += 1;
            if self.ty(t) == NodeType::Compress {
                self.splay(t);
            }
            let par = self.par(t);
            if par.is_nil() {
                assert(expose_step(s_nodes, s_vs, rn, t) == (self.nodes@, self.vertices@, t, true));
                break;
            }
            let nn = if self.ty(par) == NodeType::Rake {
                self.push(par);
                self.splay(par);
                self.par(par)
            } else if self.ty(par) == NodeType::Compress {
                self.push(par);
                if self.node(par).guard && self.parent_dir_guard(t) != -1 {
                    assert(expose_step(s_nodes, s_vs, rn, t) == (self.nodes@, self.vertices@, t, true));
                    break;
                }
                par
            } else {
                // an edge node has no children
                assert(expose_step(s_nodes, s_vs, rn, t) == (self.nodes@, self.vertices@, t, true));
                break;
            };
            if nn.is_nil() {
                assert(expose_step(s_nodes, s_vs, rn, t) == (self.nodes@, self.vertices@, t, true));
                break;
            }
            let ghost m_nodes = self.nodes@;
            let ghost m_vs = self.vertices@;
            proof {
                assert(expose_step(s_nodes, s_vs, rn, t) == expose_swap(m_nodes, m_vs, rn, t, nn));
            }
            self.splay(nn);
            let mut dir = self.parent_dir_guard(nn);
            if dir == -1 {
                dir = 0;
            } else {
                let np = self.par(nn);
                if !np.is_nil() && self.ty(np) == NodeType::Rake {
                    dir = 0;
                }
            }
            let dir = dir as usize;
            if dir == 1 {
                let child = self.ch(nn, dir);
                self.reverse_node(child);
                self.push(child);
                self.reverse_node(t);
                self.push(t);
            }
            let n_dir = self.parent_dir(t);
            if n_dir != -1 {
                let nch = self.ch(nn, dir);
                self.push(nch);
                let rake = self.par(t);
                self.push(rake);
                if rake.is_nil() {
                    assert(expose_swap(m_nodes, m_vs, rn, t, nn) == (self.nodes@, self.vertices@, t, true));
                    break;
                }
                self.set_ch(rake, n_dir as usize, nch);
                if !nch.is_nil() {
                    self.set_par(nch, rake);
                }
                self.set_ch(nn, dir, t);
                self.set_par(t, nn);
                self.fix(nch);
                self.fix(rake);
                self.fix(t);
                self.fix(nn);
                self.splay(rake);
            } else {
                let nch = self.ch(nn, dir);
                self.push(nch);
                self.set_rake(nn, nch);
                if !nch.is_nil() {
                    self.set_par(nch, nn);
                }
                self.set_ch(nn, dir, t);
                self.set_par(t, nn);
                self.fix(nch);
                self.fix(t);
                self.fix(nn);
            }
            let ghost t0 = t;
            if self.ty(t) == NodeType::Edge {
                t = nn;
            }
            assert(expose_swap(m_nodes, m_vs, rn, t0, nn) == (self.nodes@, self.vertices@, t, false));
        }
        t
    }

    /// Expose vertex `v`: the root cluster of its tree, or no node if it has no cluster.
    fn expose(&mut self, v: VertexId) -> (r: NodeId)
        requires
            old(self).arena_ok(),
            v.0 < old(self).vertices.len(),
        ensures
            final(self).arena_ok(),
            final(self).same_frame(old(self)),
            ok_id(r, final(self).nodes.len() as nat),
            is_node(old(self).vertices@[v.0 as int].handle, old(self).nodes.len() as nat) ==> is_node(
                r,
                final(self).nodes.len() as nat,
            ),
            (final(self).nodes@, final(self).vertices@, r) == vertex_exposed(old(self).nodes@, old(self).vertices@, old(self).real_n as nat, v),
    {
        let h = self.handle(v);
        if h.is_nil() {
            return h;
        }
        self.expose_raw(h)
    }

    /// Expose the path between `v` and `u`, oriented from `v` to `u`.
    fn soft_expose(&mut self, v: VertexId, u: VertexId)
        requires
            old(self).arena_ok(),
            v.0 < old(self).vertices.len(),
            u.0 < old(self).vertices.len(),
        ensures
            final(self).arena_ok(),
            final(self).same_frame(old(self)),
            final(self).nodes@ == soft_exposed(old(self).nodes@, old(self).vertices@, old(self).real_n as nat, v, u).0,
            final(self).vertices@ == soft_exposed(old(self).nodes@, old(self).vertices@, old(self).real_n as nat, v, u).1,
    {
        let root = self.expose(v);
        if root.is_nil() {
            return;
        }
        if self.handle(v) == self.handle(u) {
            if self.endpoint(root, 1) == v || self.endpoint(root, 0) == u {
                self.reverse_node(root);
                self.push(root);
            }
            return;
        }
        self.set_guard(root, true);
        let soot = self.expose(u);
        self.set_guard(root, false);
        self.fix(root);
        if !soot.is_nil() && self.parent_dir(soot) == 0 {
            self.reverse_node(root);
            self.push(root);
        }
    }
}

impl<P: LazyMapMonoid> TopTree<P> {
    /// Append `node` to the arena and fix it.
    fn new_node(&mut self, node: Node<P>) -> (r: NodeId)
        requires
            old(self).arena_ok(),
            old(self).nodes.len() + 1 < u32::MAX,
            node_ok::<P>(node, old(self).nodes.len() as nat + 1, old(self).vertices.len() as nat),
        ensures
            final(self).arena_ok(),
            final(self).real_n == old(self).real_n,
            final(self).vertices.len() == old(self).vertices.len(),
            final(self).edges == old(self).edges,
            final(self).nodes.len() == old(self).nodes.len() + 1,
            r.0 == old(self).nodes.len(),
            final(self).keeps_handles(old(self)),
            node.ty == NodeType::Edge && node.par.0 == u32::MAX ==> {
                &&& final(self).vertices@[node.endpoint[0].0 as int].handle == r
                &&& final(self).vertices@[node.endpoint[1].0 as int].handle == r
            },
            final(self).nodes@ == fixed(old(self).nodes@.push(node), old(self).vertices@, old(self).real_n as nat, r).0,
            final(self).vertices@ == fixed(old(self).nodes@.push(node), old(self).vertices@, old(self).real_n as nat, r).1,
    {
        let ghost n0 = self.nodes@;
        let ghost n = self.nodes.len() as nat;
        let id = NodeId(self.nodes.len() as u32);
        self.nodes.push(node);
        proof {
            lemma_push_ok::<P>(n0, self.vertices.len() as nat, node);
            assert forall|i: int| 0 <= i < self.vertices.len() implies ok_id(
                #[trigger] self.vertices@[i].handle,
                n + 1,
            ) by {
                assert(ok_id(self.vertices@[i].handle, n));
            }
            assert forall|i: int, j: int| 0 <= i < self.edges@.len() && 0 <= j < self.edges@[i].len() implies {
                &&& (#[trigger] self.edges@[i]@[j]).0 < self.real_n
                &&& self.edges@[i]@[j].0 != i
                &&& is_node(self.edges@[i]@[j].1, n + 1)
            } by {
                assert(is_node(self.edges@[i]@[j].1, n));
            }
        }
        self.fix(id);
        id
    }

    fn new_edge_node(&mut self, v: VertexId, u: VertexId, edge_key: P::Key) -> (r: NodeId)
        requires
            old(self).arena_ok(),
            old(self).nodes.len() + 1 < u32::MAX,
            v.0 < old(self).vertices.len(),
            u.0 < old(self).vertices.len(),
        ensures
            final(self).arena_ok(),
            final(self).real_n == old(self).real_n,
            final(self).vertices.len() == old(self).vertices.len(),
            final(self).edges == old(self).edges,
            final(self).nodes.len() == old(self).nodes.len() + 1,
            r.0 == old(self).nodes.len(),
            final(self).keeps_handles(old(self)),
            final(self).vertices@[v.0 as int].handle == r,
            final(self).vertices@[u.0 as int].handle == r,
            final(self).nodes@ == fixed(old(self).nodes@.push(Node::<P>::spec_new_edge(v, u, edge_key)), old(self).vertices@, old(self).real_n as nat, r).0,
            final(self).vertices@ == fixed(old(self).nodes@.push(Node::<P>::spec_new_edge(v, u, edge_key)), old(self).vertices@, old(self).real_n as nat, r).1,
    {
        self.new_node(Node::<P>::new_edge(v, u, edge_key))
    }

    /// A new compress or rake node over `left` and `right`.
    fn new_inner_node(&mut self, left: NodeId, right: NodeId, ty: NodeType) -> (r: NodeId)
        requires
            old(self).arena_ok(),
            old(self).nodes.len() + 1 < u32::MAX,
            old(self).vertices.len() > 0,
            ok_id(left, old(self).nodes.len() as nat),
            ok_id(right, old(self).nodes.len() as nat),
        ensures
            final(self).arena_ok(),
            final(self).real_n == old(self).real_n,
            final(self).vertices.len() == old(self).vertices.len(),
            final(self).edges == old(self).edges,
            final(self).nodes.len() == old(self).nodes.len() + 1,
            r.0 == old(self).nodes.len(),
            final(self).keeps_handles(old(self)),
            final(self).nodes@ == fixed(old(self).nodes@.push(Node::<P>::spec_new_inner(left, right, ty)), old(self).vertices@, old(self).real_n as nat, r).0,
            final(self).vertices@ == fixed(old(self).nodes@.push(Node::<P>::spec_new_inner(left, right, ty)), old(self).vertices@, old(self).real_n as nat, r).1,
    {
        self.new_node(Node::<P>::new_inner(left, right, ty))
    }

    /// Record at the real vertex `a` the edge to `b` held by node `e`.
    fn record_edge(&mut self, a: usize, b: u32, e: NodeId)
        requires
            old(self).arena_ok(),
            a < old(self).real_n,
            b < old(self).real_n,
            b != a,
            is_node(e, old(self).nodes.len() as nat),
        ensures
            final(self).arena_ok(),
            final(self).real_n == old(self).real_n,
            final(self).vertices == old(self).vertices,
            final(self).nodes == old(self).nodes,
            final(self).edges@ == old(self).edges@.update(a as int, final(self).edges@[a as int]),
            final(self).edges@[a as int]@ == old(self).edges@[a as int]@.push((b, e)),
            final(self).adjacency() == old(self).adjacency().update(a as int, old(self).adjacency()[a as int].push(b)),
    {
        let ghost e0 = self.edges@;
        self.edges[a].push((b, e));
        proof {
            assert forall|i: int, j: int| 0 <= i < self.edges@.len() && 0 <= j < self.edges@[i].len() implies {
                &&& (#[trigger] self.edges@[i]@[j]).0 < self.real_n
                &&& self.edges@[i]@[j].0 != i
                &&& is_node(self.edges@[i]@[j].1, self.nodes.len() as nat)
            } by {
                if i != a {
                    assert(self.edges@[i] == e0[i]);
                } else if j < e0[i].len() {
                    assert(self.edges@[i]@[j] == e0[i]@[j]);
                }
            }
            let f = |e: (u32, NodeId)| e.0;
            assert(self.edges@[a as int]@.map_values(f) =~= e0[a as int]@.map_values(f).push(b));
            assert(self.adjacency() =~= old(self).adjacency().update(a as int, old(self).adjacency()[a as int].push(b)));
        }
    }

    /// Join `v` and `u` by a new edge node with key `edge_key`, and give that node.
    fn link_internal(&mut self, v: VertexId, u: VertexId, edge_key: P::Key, record: bool) -> (r: NodeId)
        requires
            old(self).arena_ok(),
            old(self).room(),
            v.0 < old(self).vertices.len(),
            u.0 < old(self).vertices.len(),
            v != u,
        ensures
            final(self).arena_ok(),
            final(self).real_n == old(self).real_n,
            final(self).vertices.len() == old(self).vertices.len(),
            old(self).nodes.len() < final(self).nodes.len() <= old(self).nodes.len() + 3,
            is_node(r, final(self).nodes.len() as nat),
            final(self).keeps_handles(old(self)),
            is_node(final(self).vertices@[v.0 as int].handle, final(self).nodes.len() as nat),
            is_node(final(self).vertices@[u.0 as int].handle, final(self).nodes.len() as nat),
            if record && v.0 < old(self).real_n && u.0 < old(self).real_n {
                final(self).adjacency() == old(self).adjacency().update(
                    v.0 as int,
                    old(self).adjacency()[v.0 as int].push(u.0),
                ).update(u.0 as int, old(self).adjacency()[u.0 as int].push(v.0))
            } else {
                final(self).adjacency() == old(self).adjacency()
            },
            r.0 == old(self).nodes.len(),
            (final(self).nodes@, final(self).vertices@) == joined_by_edge(old(self).nodes@, old(self).vertices@, old(self).real_n as nat, v, u, edge_key),
    {
        let nnu = self.handle(u);
        let nnv = self.handle(v);
        let e = self.new_edge_node(v, u, edge_key);
        if record && self.is_real_vertex(v) && self.is_real_vertex(u) {
            self.record_edge(v.idx(), u.0, e);
            self.record_edge(u.idx(), v.0, e);
        }
        if nnu.is_nil() && nnv.is_nil() {
            return e;
        }
        let left = if nnu.is_nil() {
            e
        } else {
            self.hang_at_start(u, nnu, e)
        };
        if !nnv.is_nil() {
            self.hang_at_end(v, nnv, left);
        }
        e
    }

    /// Join the new edge cluster `e`, which ends at `u`, to the tree of `u`, whose base
    /// cluster is `h`, with `u` at the start of the exposed path; give the cluster that now
    /// holds `e`.
    fn hang_at_start(&mut self, u: VertexId, h: NodeId, e: NodeId) -> (r: NodeId)
        requires
            old(self).arena_ok(),
            old(self).nodes.len() + 1 < u32::MAX,
            u.0 < old(self).vertices.len(),
            is_node(h, old(self).nodes.len() as nat),
            is_node(e, old(self).nodes.len() as nat),
        ensures
            final(self).arena_ok(),
            final(self).real_n == old(self).real_n,
            final(self).vertices.len() == old(self).vertices.len(),
            final(self).edges == old(self).edges,
            old(self).nodes.len() <= final(self).nodes.len() <= old(self).nodes.len() + 1,
            ok_id(r, final(self).nodes.len() as nat),
            final(self).keeps_handles(old(self)),
            (final(self).nodes@, final(self).vertices@, r) == hung_start(old(self).nodes@, old(self).vertices@, old(self).real_n as nat, u, h, e),
    {
        let uu = self.expose_raw(h);
        self.push(uu);
        if self.endpoint(uu, 1) == u {
            self.reverse_node(uu);
            self.push(uu);
        }
        if self.endpoint(uu, 0) == u {
            let nu = self.new_inner_node(e, uu, NodeType::Compress);
            self.set_par(e, nu);
            self.fix(e);
            self.set_par(uu, nu);
            self.fix(uu);
            self.fix(nu);
            nu
        } else {
            let nu = uu;
            let left_ch = self.ch(nu, 0);
            self.push(left_ch);
            self.set_ch(nu, 0, e);
            self.set_par(e, nu);
            self.fix(e);
            let beta = self.rake_of(nu);
            let rake = if !beta.is_nil() {
                self.push(beta);
                let r = self.new_inner_node(beta, left_ch, NodeType::Rake);
                self.set_par(beta, r);
                if !left_ch.is_nil() {
                    self.set_par(left_ch, r);
                }
                self.fix(beta);
                self.fix(left_ch);
                r
            } else {
                left_ch
            };
            self.set_rake(nu, rake);
            if !rake.is_nil() {
                self.set_par(rake, nu);
                self.fix(rake);
            }
            self.fix(nu);
            nu
        }
    }

    /// Join the cluster `left`, which starts at `v`, to the tree of `v`, whose base cluster
    /// is `h`, with `v` at the end of the exposed path.
    fn hang_at_end(&mut self, v: VertexId, h: NodeId, left: NodeId)
        requires
            old(self).arena_ok(),
            old(self).nodes.len() + 1 < u32::MAX,
            v.0 < old(self).vertices.len(),
            is_node(h, old(self).nodes.len() as nat),
            ok_id(left, old(self).nodes.len() as nat),
        ensures
            final(self).arena_ok(),
            final(self).real_n == old(self).real_n,
            final(self).vertices.len() == old(self).vertices.len(),
            final(self).edges == old(self).edges,
            old(self).nodes.len() <= final(self).nodes.len() <= old(self).nodes.len() + 1,
            final(self).keeps_handles(old(self)),
            (final(self).nodes@, final(self).vertices@) == hung_end(old(self).nodes@, old(self).vertices@, old(self).real_n as nat, v, h, left),
    {
        let vv = self.expose_raw(h);
        self.push(vv);
        if self.endpoint(vv, 0) == v {
            self.reverse_node(vv);
            self.push(vv);
        }
        if self.endpoint(vv, 1) == v {
            let top = self.new_inner_node(vv, left, NodeType::Compress);
            self.set_par(vv, top);
            if !left.is_nil() {
                self.set_par(left, top);
            }
            self.fix(vv);
            self.fix(left);
            self.fix(top);
        } else {
            let nv = vv;
            let right_ch = self.ch(nv, 1);
            self.reverse_node(right_ch);
            self.push(right_ch);
            self.set_ch(nv, 1, left);
            if !left.is_nil() {
                self.set_par(left, nv);
            }
            self.fix(left);
            let alpha = self.rake_of(nv);
            let rake = if !alpha.is_nil() {
                self.push(alpha);
                let r = self.new_inner_node(alpha, right_ch, NodeType::Rake);
                self.set_par(alpha, r);
                self.fix(alpha);
                if !right_ch.is_nil() {
                    self.set_par(right_ch, r);
                }
                self.fix(right_ch);
                r
            } else {
                right_ch
            };
            self.set_rake(nv, rake);
            if !rake.is_nil() {
                self.set_par(rake, nv);
                self.fix(rake);
            }
            self.fix(nv);
        }
    }

    /// Rebuild the root cluster `root` after its right child left it: its rake tree, if any,
    /// gives the new right child.
    fn bring(&mut self, root: NodeId)
        requires
            old(self).arena_ok(),
            ok_id(root, old(self).nodes.len() as nat),
        ensures
            final(self).arena_ok(),
            final(self).same_frame(old(self)),
            final(self).nodes@ == brought(old(self).nodes@, old(self).vertices@, old(self).real_n as nat, root).0,
            final(self).vertices@ == brought(old(self).nodes@, old(self).vertices@, old(self).real_n as nat, root).1,
    {
        let ghost n = self.nodes.len() as nat;
        let ghost rn = self.real_n as nat;
        if root.is_nil() {
            return;
        }
        let rake = self.rake_of(root);
        if rake.is_nil() {
            let left = self.ch(root, 0);
            if !left.is_nil() {
                self.set_par(left, NodeId::nil());
                self.fix(left);
            }
            return;
        }
        match self.ty(rake) {
            NodeType::Compress | NodeType::Edge => {
                self.push(rake);
                let new_right = rake;
                self.reverse_node(new_right);
                self.push(new_right);
                self.set_ch(root, 1, new_right);
                self.set_par(new_right, root);
                self.set_rake(root, NodeId::nil());
                self.fix(new_right);
                self.fix(root);
            },
            NodeType::Rake => {
                let mut r = rake;
                self.push(r);
                let ghost walk = rake_walk(self.nodes@, self.vertices@, rn, rake, n);
                let mut steps: usize = 0;
                while steps < self.nodes.len()
                    invariant_except_break
                        rake_walk(self.nodes@, self.vertices@, rn, r, (n - steps) as nat) == walk,
                    invariant
                        self.arena_ok(),
                        self.same_frame(old(self)),
                        self.nodes.len() == n,
                        self.real_n == rn,
                        is_node(r, n),
                        is_node(root, n),
                        steps <= n,
                    ensures
                        (self.nodes@, self.vertices@, r) == walk,
                    decreases n - steps,
                {
                    let next = self.ch(r, 1);
                    if next.is_nil() || self.ty(next) != NodeType::Rake {
                        break;
                    }
                    self.push(next);
                    r = next;
                    steps += 1;
                }
                self.set_guard(root, true);
                self.splay(r);
                self.set_guard(root, false);
                let new_rake = self.ch(r, 0);
                let new_right = self.ch(r, 1);
                self.reverse_node(new_right);
                self.push(new_right);
                self.set_ch(root, 1, new_right);
                if !new_right.is_nil() {
                    self.set_par(new_right, root);
                }
                self.set_rake(root, new_rake);
                if !new_rake.is_nil() {
                    self.set_par(new_rake, root);
                }
                self.fix(new_rake);
                self.fix(new_right);
                self.fix(root);
            },
        }
    }

    /// The nodes and vertices after the split at the edge between `v` and `u`: the path
    /// exposed, the right child of the root of `v` cut loose and turned, then the hanging
    /// clusters brought back below it and below the root.
    spec fn split_at_edge(&self, v: VertexId, u: VertexId) -> (Seq<Node<P>>, Seq<Vertex<P>>) {
        let rn = self.real_n as nat;
        let (a, avs) = soft_exposed(self.nodes@, self.vertices@, rn, v, u);
        let root = avs[v.0 as int].handle;
        if root.0 == u32::MAX {
            (a, avs)
        } else {
            let (b, bs) = pushed(a, avs, rn, root);
            let right = b[root.0 as int].ch[1];
            let (c, cs) = if right.0 != u32::MAX {
                pushed(reversed_at(with_par(b, right, NodeId(u32::MAX)), right), bs, rn, right)
            } else {
                (b, bs)
            };
            let (d, ds) = brought(c, cs, rn, right);
            brought(d, ds, rn, root)
        }
    }

    /// Split the clusters at the edge between `v` and `u`.
    fn cut_internal(&mut self, v: VertexId, u: VertexId)
        requires
            old(self).arena_ok(),
            v.0 < old(self).vertices.len(),
            u.0 < old(self).vertices.len(),
        ensures
            final(self).arena_ok(),
            final(self).same_frame(old(self)),
            final(self).nodes@ == old(self).split_at_edge(v, u).0,
            final(self).vertices@ == old(self).split_at_edge(v, u).1,
    {
        self.soft_expose(v, u);
        let root = self.handle(v);
        if root.is_nil() {
            return;
        }
        self.push(root);
        let right = self.ch(root, 1);
        if !right.is_nil() {
            self.set_par(right, NodeId::nil());
            self.reverse_node(right);
            self.push(right);
        }
        self.bring(right);
        self.bring(root);
    }

    /// The cluster whose path is exactly the path between `v` and `u`.
    fn path_query_node(&mut self, v: VertexId, u: VertexId) -> (r: NodeId)
        requires
            old(self).arena_ok(),
            v.0 < old(self).vertices.len(),
            u.0 < old(self).vertices.len(),
        ensures
            final(self).arena_ok(),
            final(self).same_frame(old(self)),
            ok_id(r, final(self).nodes.len() as nat),
            (final(self).nodes@, final(self).vertices@, r) == path_queried(old(self).nodes@, old(self).vertices@, old(self).real_n as nat, v, u),
    {
        self.soft_expose(v, u);
        let root = self.handle(v);
        if root.is_nil() {
            return root;
        }
        self.push(root);
        if self.endpoint(root, 0) == v && self.endpoint(root, 1) == u {
            return root;
        }
        if self.endpoint(root, 0) == v {
            return self.ch(root, 0);
        }
        if self.endpoint(root, 1) == u {
            return self.ch(root, 1);
        }
        let right = self.ch(root, 1);
        self.push(right);
        if right.is_nil() {
            return right;
        }
        self.ch(right, 0)
    }

    /// The topmost cluster above `x`.
    fn top_of(&self, x: NodeId) -> (r: NodeId)
        requires
            self.arena_ok(),
            is_node(x, self.nodes.len() as nat),
        ensures
            is_node(r, self.nodes.len() as nat),
            r == top_walk(self.nodes@, x, self.nodes.len() as nat),
    {
        let ghost n = self.nodes.len() as nat;
        let mut r = x;
        let mut steps: usize = 0;
        while steps < self.nodes.len()
            invariant_except_break
                self.arena_ok(),
                self.nodes.len() == n,
                is_node(r, n),
                steps <= n,
                top_walk(self.nodes@, r, (n - steps) as nat) == top_walk(self.nodes@, x, n),
            ensures
                is_node(r, n),
                r == top_walk(self.nodes@, x, n),
            decreases n - steps,
        {
            let p = self.par(r);
            if p.is_nil() {
                break;
            }
            r = p;
            steps += 1;
        }
        r
    }

    fn connected_internal(&self, u: VertexId, v: VertexId) -> (r: bool)
        requires
            self.arena_ok(),
            u.0 < self.vertices.len(),
            v.0 < self.vertices.len(),
        ensures
            u == v ==> r,
            r == (u == v || ({
                let hu = self.vertices@[u.0 as int].handle;
                let hv = self.vertices@[v.0 as int].handle;
                hu.0 != u32::MAX && hv.0 != u32::MAX && top_walk(self.nodes@, hu, self.nodes.len() as nat)
                    == top_walk(self.nodes@, hv, self.nodes.len() as nat)
            })),
    {
        if u == v {
            return true;
        }
        let hu = self.handle(u);
        let hv = self.handle(v);
        if hu.is_nil() || hv.is_nil() {
            return false;
        }
        self.top_of(hu) == self.top_of(hv)
    }

    /// Walk up from `x` to the top, fixing every cluster on the way.
    fn fix_upwards(&mut self, x: NodeId)
        requires
            old(self).arena_ok(),
            ok_id(x, old(self).nodes.len() as nat),
        ensures
            final(self).arena_ok(),
            final(self).same_frame(old(self)),
            final(self).nodes@ == fix_walk(old(self).nodes@, old(self).vertices@, old(self).real_n as nat, x, old(self).nodes.len() as nat).0,
            final(self).vertices@ == fix_walk(old(self).nodes@, old(self).vertices@, old(self).real_n as nat, x, old(self).nodes.len() as nat).1,
            same_edge_keys(old(self).nodes@, final(self).nodes@),
    {
        let ghost n = self.nodes.len() as nat;
        let ghost rn = self.real_n as nat;
        let ghost goal = fix_walk(self.nodes@, self.vertices@, rn, x, n);
        let mut x = x;
        let mut steps: usize = 0;
        while !x.is_nil() && steps < self.nodes.len()
            invariant
                self.arena_ok(),
                self.same_frame(old(self)),
                self.nodes.len() == n,
                self.real_n == rn,
                ok_id(x, n),
                steps <= n,
                fix_walk(self.nodes@, self.vertices@, rn, x, (n - steps) as nat) == goal,
                same_edge_keys(old(self).nodes@, self.nodes@),
            decreases n - steps,
        {
            self.fix(x);
            x = self.par(x);
            steps += 1;
        }
    }

    /// The search of `kth_walk` from cluster `x` in this tree, as deep as there are nodes.
    spec fn kth_search(&self, x: NodeId, k: u32) -> (Seq<Node<P>>, Seq<Vertex<P>>, Option<VertexId>) {
        kth_walk(self.nodes@, self.vertices@, self.real_n as nat, x, k, self.nodes.len() as nat)
    }

    /// The vertex at position `k` among the inner vertices of the path of cluster `x`, in
    /// the stored direction; none if the clusters run out first.
    fn kth_on_path_internal(&mut self, x: NodeId, k: u32) -> (r: Option<VertexId>)
        requires
            old(self).arena_ok(),
            ok_id(x, old(self).nodes.len() as nat),
        ensures
            final(self).arena_ok(),
            final(self).same_frame(old(self)),
            r matches Some(w) ==> w.0 < final(self).vertices.len(),
            final(self).nodes@ == old(self).kth_search(x, k).0,
            final(self).vertices@ == old(self).kth_search(x, k).1,
            r == old(self).kth_search(x, k).2,
    {
        let ghost n = self.nodes.len() as nat;
        let ghost rn = self.real_n as nat;
        let ghost goal = kth_walk(self.nodes@, self.vertices@, rn, x, k, n);
        let mut cur = x;
        let mut rank = k;
        let mut steps: usize = 0;
        while steps < self.nodes.len()
            invariant
                self.arena_ok(),
                self.same_frame(old(self)),
                self.nodes.len() == n,
                self.real_n == rn,
                ok_id(cur, n),
                steps <= n,
                kth_walk(self.nodes@, self.vertices@, rn, cur, rank, (n - steps) as nat) == goal,
                goal == old(self).kth_search(x, k),
            decreases n - steps,
        {
            let ghost f = (n - steps) as nat;
            let ghost s_nodes = self.nodes@;
            let ghost s_vs = self.vertices@;
            steps += 1;
            if cur.is_nil() {
                assert(kth_walk(s_nodes, s_vs, rn, cur, rank, f) == (self.nodes@, self.vertices@, None::<VertexId>));
                return None;
            }
            self.push(cur);
            match self.ty(cur) {
                NodeType::Edge => {
                    // an edge has no inner vertex
                    assert(kth_walk(s_nodes, s_vs, rn, cur, rank, f) == (self.nodes@, self.vertices@, None::<VertexId>));
                    return None;
                },
                NodeType::Rake => {
                    cur = self.ch(cur, 0);
                },
                NodeType::Compress => {
                    let l = self.ch(cur, 0);
                    let r = self.ch(cur, 1);
                    self.push(l);
                    if l.is_nil() {
                        assert(kth_walk(s_nodes, s_vs, rn, cur, rank, f) == (self.nodes@, self.vertices@, None::<VertexId>));
                        return None;
                    }
                    let lcnt = self.node(l).fold.path_v_cnt;
                    if rank < lcnt {
                        cur = l;
                    } else if rank == lcnt {
                        let w = self.endpoint(l, 1);
                        assert(kth_walk(s_nodes, s_vs, rn, cur, rank, f) == (self.nodes@, self.vertices@, Some(w)));
                        return Some(w);
                    } else {
                        rank = rank.wrapping_sub(lcnt.wrapping_add(1));
                        cur = r;
                    }
                },
            }
        }
        assert(kth_walk(self.nodes@, self.vertices@, rn, cur, rank, 0) == (self.nodes@, self.vertices@, None::<VertexId>));
        None
    }
}

impl<P: LazyMapMonoid> TopTree<P> {
    /// The adjacency of `u` lists the other ends of the edge records of `u`, in order.
    proof fn lemma_adjacency_at(&self, u: int)
        requires
            0 <= u < self.edges.len(),
        ensures
            self.adjacency()[u].len() == self.edges@[u].len(),
            forall|j: int| 0 <= j < self.edges@[u].len() ==> #[trigger] self.adjacency()[u][j] == self.edges@[u]@[j].0,
    {
    }

    /// No vertex has an edge to itself.
    proof fn lemma_no_loop(&self, u: int)
        requires
            self.arena_ok(),
        ensures
            !self.has_edge(u, u),
    {
        if 0 <= u < self.edges.len() && self.adjacency()[u].contains(u as u32) {
            self.lemma_adjacency_at(u);
            let j = choose|j: int| 0 <= j < self.adjacency()[u].len() && self.adjacency()[u][j] == u as u32;
            assert(self.edges@[u]@[j].0 != u);
        }
    }

    /// Position of the first record of the edge `(u, v)` at `u`.
    fn find_edge_index(&self, u: usize, v: usize) -> (r: Option<usize>)
        requires
            self.arena_ok(),
            u < self.real_n,
            v < self.real_n,
        ensures
            (r is Some) == self.adjacency()[u as int].contains(v as u32),
            r matches Some(i) ==> i < self.edges@[u as int].len() && self.edges@[u as int]@[i as int].0 == v,
            r matches Some(i) ==> forall|j: int| 0 <= j < i ==> self.edges@[u as int]@[j].0 != v,
    {
        let vv = v as u32;
        let len = self.edges[u].len();
        let mut i: usize = 0;
        while i < len
            invariant
                u < self.edges.len(),
                len == self.edges@[u as int].len(),
                i <= len,
                vv == v,
                forall|j: int| 0 <= j < i ==> self.edges@[u as int]@[j].0 != vv,
            decreases len - i,
        {
            if self.edges[u][i].0 == vv {
                proof {
                    self.lemma_adjacency_at(u as int);
                    assert(self.adjacency()[u as int][i as int] == vv);
                }
                return Some(i);
            }
            i += 1;
        }
        proof {
            self.lemma_adjacency_at(u as int);
            if self.adjacency()[u as int].contains(vv) {
                let j = choose|j: int| 0 <= j < self.adjacency()[u as int].len() && self.adjacency()[u as int][j] == vv;
                assert(self.edges@[u as int]@[j].0 == vv);
            }
        }
        None
    }

    /// Remove the first record of the edge `(u, v)` at `u`, if there is one, and give its node.
    fn remove_edge_entry(&mut self, u: usize, v: usize) -> (r: Option<NodeId>)
        requires
            old(self).arena_ok(),
            u < old(self).real_n,
            v < old(self).real_n,
        ensures
            final(self).arena_ok(),
            final(self).real_n == old(self).real_n,
            final(self).vertices == old(self).vertices,
            final(self).nodes == old(self).nodes,
            final(self).edges.len() == old(self).edges.len(),
            forall|w: int| 0 <= w < old(self).edges.len() && w != u ==> final(self).edges@[w] == old(self).edges@[w],
            (r is Some) == old(self).adjacency()[u as int].contains(v as u32),
            r is None ==> final(self).edges == old(self).edges,
            r matches Some(x) ==> is_node(x, final(self).nodes.len() as nat),
            r matches Some(x) ==> x == old(self).edge_node(u as int, v as int),
    {
        let i = match self.find_edge_index(u, v) {
            Some(i) => i,
            None => return None,
        };
        proof {
            let es = self.edges@[u as int]@;
            assert(first_record(self.edges@, u as int, v as int, i as int));
            let c = edge_slot(self.edges@, u as int, v as int);
            assert(first_record(self.edges@, u as int, v as int, c));
            if c < i {
                assert(es[c].0 != v as u32);
            } else if c > i {
                assert(es[i as int].0 == v as u32);
            }
            assert(c == i);
        }
        let ghost e0 = self.edges@;
        let ghost n = self.nodes.len() as nat;
        let (_to, id) = self.edges[u].swap_remove(i);
        proof {
            assert(is_node(e0[u as int]@[i as int].1, n));
            assert forall|a: int, b: int| 0 <= a < self.edges@.len() && 0 <= b < self.edges@[a].len() implies {
                &&& (#[trigger] self.edges@[a]@[b]).0 < self.real_n
                &&& self.edges@[a]@[b].0 != a
                &&& is_node(self.edges@[a]@[b].1, n)
            } by {
                if a != u {
                    assert(self.edges@[a] == e0[a]);
                } else {
                    let old_list = e0[u as int]@;
                    if b == i as int {
                        assert(self.edges@[a]@[b] == old_list[old_list.len() - 1]);
                    } else {
                        assert(self.edges@[a]@[b] == old_list[b]);
                    }
                }
            }
        }
        Some(id)
    }

    /// Remove the records of the edge `(u, v)` at both ends, and give its node; none if a
    /// record is missing.
    fn remove_edge_both(&mut self, u: usize, v: usize) -> (r: Option<NodeId>)
        requires
            old(self).arena_ok(),
            u < old(self).real_n,
            v < old(self).real_n,
        ensures
            final(self).arena_ok(),
            final(self).real_n == old(self).real_n,
            final(self).vertices == old(self).vertices,
            final(self).nodes == old(self).nodes,
            final(self).edges.len() == old(self).edges.len(),
            (r is Some) == old(self).has_edge(u as int, v as int),
            r matches Some(x) ==> is_node(x, final(self).nodes.len() as nat),
            r matches Some(x) ==> x == old(self).edge_node(u as int, v as int),
    {
        proof {
            self.lemma_no_loop(u as int);
        }
        let ghost a0 = self.adjacency();
        let e1 = match self.remove_edge_entry(u, v) {
            Some(e) => e,
            None => return None,
        };
        proof {
            if u == v {
                assert(a0[u as int].contains(u as u32));
                assert(false);
            }
            assert(self.adjacency()[v as int] == a0[v as int]);
        }
        let e2 = match self.remove_edge_entry(v, u) {
            Some(e) => e,
            None => return None,
        };
        let _ = e2;
        Some(e1)
    }

    /// The node of the first record of the edge `(u, v)` at `u`.
    fn find_edge_node(&self, u: usize, v: usize) -> (r: Option<NodeId>)
        requires
            self.arena_ok(),
            u < self.real_n,
            v < self.real_n,
        ensures
            (r is Some) == self.adjacency()[u as int].contains(v as u32),
            r matches Some(x) ==> is_node(x, self.nodes.len() as nat),
            r matches Some(x) ==> x == self.edge_node(u as int, v as int),
    {
        match self.find_edge_index(u, v) {
            Some(i) => {
                proof {
                    let es = self.edges@[u as int]@;
                    assert(first_record(self.edges@, u as int, v as int, i as int));
                    let c = edge_slot(self.edges@, u as int, v as int);
                    assert(first_record(self.edges@, u as int, v as int, c));
                    if c < i {
                        assert(es[c].0 != v as u32);
                    } else if c > i {
                        assert(es[i as int].0 == v as u32);
                    }
                    assert(c == i);
                }
                Some(self.edges[u][i].1)
            },
            None => None,
        }
    }

    /// Cut the edge `(u, v)` and give its key; none, and nothing cut, if it is not recorded
    /// at both ends.
    fn cut_with_edge_key(&mut self, u: usize, v: usize) -> (r: Option<P::Key>)
        requires
            old(self).arena_ok(),
            u < old(self).real_n,
            v < old(self).real_n,
        ensures
            final(self).arena_ok(),
            final(self).real_n == old(self).real_n,
            final(self).vertices.len() == old(self).vertices.len(),
            final(self).nodes.len() == old(self).nodes.len(),
            final(self).keeps_handles(old(self)),
            (r is Some) == old(self).has_edge(u as int, v as int),
            r is Some ==> (final(self).nodes@, final(self).vertices@) == old(self).split_at_edge(VertexId(u as u32), VertexId(v as u32)),
            r is Some ==> r == Some(old(self).edge_key(u as int, v as int)),
    {
        let e = match self.remove_edge_both(u, v) {
            Some(e) => e,
            None => return None,
        };
        let w = P::key_copy(&self.node(e).edge_key);
        self.cut_internal(v_id(u), v_id(v));
        Some(w)
    }
}

impl<P: LazyMapMonoid> TopTree<P> {
    /// A forest of `values.len()` vertices with these keys and no edge.
    pub fn new(values: &[P::Key]) -> (r: Self)
        requires
            values@.len() < u32::MAX / 4,
        ensures
            r.inv(),
            r.room(),
            r.vertex_count() == values@.len(),
            forall|a: int, b: int| !r.has_edge(a, b),
    {
        let n = values.len();
        let mut vertices: Vec<Vertex<P>> = Vec::with_capacity(2 * n);
        let mut i: usize = 0;
        while i < n
            invariant
                n == values@.len() < u32::MAX / 4,
                i <= n,
                vertices.len() == i,
                forall|j: int| 0 <= j < vertices.len() ==> (#[trigger] vertices@[j]).handle.0 == u32::MAX,
            decreases n - i,
        {
            vertices.push(Vertex { key: P::key_copy(&values[i]), handle: NodeId::nil() });
            i += 1;
        }
        let mut i: usize = 0;
        while i < n
            invariant
                n < u32::MAX / 4,
                i <= n,
                vertices.len() == n + i,
                forall|j: int| 0 <= j < vertices.len() ==> (#[trigger] vertices@[j]).handle.0 == u32::MAX,
            decreases n - i,
        {
            vertices.push(Vertex { key: P::key_unit(), handle: NodeId::nil() });
            i += 1;
        }
        let mut edges: Vec<Vec<(u32, NodeId)>> = Vec::with_capacity(n);
        let mut i: usize = 0;
        while i < n
            invariant
                i <= n,
                edges.len() == i,
                forall|j: int| 0 <= j < edges.len() ==> (#[trigger] edges@[j])@.len() == 0,
            decreases n - i,
        {
            edges.push(Vec::new());
            i += 1;
        }
        let mut this = Self { real_n: n, vertices, nodes: Vec::new(), edges };
        let ghost adj0 = this.adjacency();
        proof {
            assert forall|a: int| 0 <= a < adj0.len() implies (#[trigger] adj0[a]).len() == 0 by {
                this.lemma_adjacency_at(a);
            }
        }
        // a dummy leaf on each vertex, so that no vertex is ever alone
        let mut i: usize = 0;
        while i < n
            invariant
                this.arena_ok(),
                this.real_n == n < u32::MAX / 4,
                i <= n,
                this.nodes.len() <= 3 * i,
                this.adjacency() == adj0,
                adj0.len() == n,
                forall|a: int| 0 <= a < adj0.len() ==> (#[trigger] adj0[a]).len() == 0,
                forall|j: int| 0 <= j < i ==> is_node(#[trigger] this.vertices@[j].handle, this.nodes.len() as nat),
                forall|j: int| n <= j < n + i ==> is_node(#[trigger] this.vertices@[j].handle, this.nodes.len() as nat),
            decreases n - i,
        {
            let d = n + i;
            let ghost before = this;
            this.link_internal(v_id(i), v_id(d), P::key_unit(), false);
            proof {
                assert forall|j: int| 0 <= j < i + 1 implies is_node(#[trigger] this.vertices@[j].handle, this.nodes.len() as nat) by {
                    if j < i {
                        assert(is_node(before.vertices@[j].handle, before.nodes.len() as nat));
                    }
                }
                assert forall|j: int| n <= j < n + i + 1 implies is_node(#[trigger] this.vertices@[j].handle, this.nodes.len() as nat) by {
                    if j < n + i {
                        assert(is_node(before.vertices@[j].handle, before.nodes.len() as nat));
                    }
                }
            }
            i += 1;
        }
        proof {
            assert forall|j: int| 0 <= j < this.vertices.len() implies is_node(#[trigger] this.vertices@[j].handle, this.nodes.len() as nat) by {
                if j < n {
                    assert(is_node(this.vertices@[j].handle, this.nodes.len() as nat));
                } else {
                    assert(n <= j < n + n);
                }
            }
            assert forall|a: int, b: int| !this.has_edge(a, b) by {
                if 0 <= a < adj0.len() {
                    assert(adj0[a].len() == 0);
                }
            }
        }
        this
    }

    /// Reserve room for `additional` more nodes in the arena.
    pub fn reserve_nodes(&mut self, additional: usize)
        requires
            old(self).inv(),
        ensures
            final(self).inv(),
            final(self).vertex_count() == old(self).vertex_count(),
            final(self).room() == old(self).room(),
            final(self).adjacency() == old(self).adjacency(),
    {
        self.nodes.reserve(additional);
    }

    pub fn len(&self) -> (r: usize)
        requires
            self.inv(),
        ensures
            r == self.vertex_count(),
    {
        self.real_n
    }

    pub fn is_empty(&self) -> (r: bool)
        requires
            self.inv(),
        ensures
            r == (self.vertex_count() == 0),
    {
        self.real_n == 0
    }
}

impl<P: LazyMapMonoid> TopTree<P> {
    /// The nodes, the vertices and the root cluster once vertex `v` is exposed and its root
    /// cluster pushed.
    closed spec fn opened(&self, v: int) -> (Seq<Node<P>>, Seq<Vertex<P>>, NodeId) {
        let rn = self.real_n as nat;
        let (a, avs, root) = vertex_exposed(self.nodes@, self.vertices@, rn, VertexId(v as u32));
        let (b, bs) = pushed(a, avs, rn, root);
        (b, bs, root)
    }

    /// `post` and `r` are this forest and the answer of `path_fold(u, v)`: none and nothing
    /// changed when the two do not share a tree; for `u == v` the fold of the key of `u` once
    /// exposed; else, with the path exposed and its cluster pushed, the key of `u`, the
    /// fold of the inner path read from the side of `u`, then the key of `v`.
    pub closed spec fn path_folded(&self, u: int, v: int, post: &Self, r: Option<P::Agg>) -> bool {
        let (x, y) = (VertexId(u as u32), VertexId(v as u32));
        if !self.same_top(u, v) {
            post.nodes@ == self.nodes@ && post.vertices@ == self.vertices@ && r is None
        } else if u == v {
            let (b, bs, root) = self.opened(u);
            post.nodes@ == b && post.vertices@ == bs && r == Some(P::spec_agg_from_key(bs[u].key))
        } else {
            let (c, cs, p) = path_opened(self.nodes@, self.vertices@, self.real_n as nat, x, y);
            post.nodes@ == c && post.vertices@ == cs && r == if p.0 == u32::MAX {
                None
            } else {
                let internal = if c[p.0 as int].endpoint[0] == x { c[p.0 as int].fold.path_fwd } else { c[p.0 as int].fold.path_rev };
                Some(P::spec_agg_merge(P::spec_agg_merge(P::spec_agg_unit(), cs[u].key, internal), cs[v].key, P::spec_agg_unit()))
            }
        }
    }

    /// `post` and `r` are this forest and the answer of `path_apply(u, v, act)`: refused and
    /// nothing changed when the two do not share a tree; for `u == v` as `vertex_apply`;
    /// else, with the path exposed and its cluster pushed, `act` applied to the inner path
    /// and to both ends, and every cluster from the path cluster up fixed.
    pub closed spec fn path_acted(&self, u: int, v: int, act: P::Act, post: &Self, r: bool) -> bool {
        let (x, y) = (VertexId(u as u32), VertexId(v as u32));
        let rn = self.real_n as nat;
        if !self.same_top(u, v) {
            post.nodes@ == self.nodes@ && post.vertices@ == self.vertices@ && !r
        } else if u == v {
            r && self.vertex_acted_on(u, act, post)
        } else {
            let (c, cs, p) = path_opened(self.nodes@, self.vertices@, rn, x, y);
            let ws = vertex_acted(vertex_acted(cs, rn, x, act), rn, y, act);
            let (e, es) = fix_walk(path_acted_at(c, p, act), ws, rn, p, self.nodes.len() as nat);
            r && post.nodes@ == e && post.vertices@ == es
        }
    }

    /// `post` and `r` are this forest and the answer of `path_len(u, v)`: none and nothing
    /// changed when the two do not share a tree; 1 for `u == v`; else, with the path exposed
    /// and its cluster pushed, its inner vertex count plus the two ends.
    pub closed spec fn path_counted(&self, u: int, v: int, post: &Self, r: Option<usize>) -> bool {
        if !self.same_top(u, v) {
            post.nodes@ == self.nodes@ && post.vertices@ == self.vertices@ && r is None
        } else if u == v {
            post.nodes@ == self.nodes@ && post.vertices@ == self.vertices@ && r == Some(1usize)
        } else {
            let (c, cs, p) = path_opened(self.nodes@, self.vertices@, self.real_n as nat, VertexId(u as u32), VertexId(v as u32));
            post.nodes@ == c && post.vertices@ == cs && r == if p.0 == u32::MAX {
                None
            } else {
                Some(c[p.0 as int].fold.path_v_cnt.wrapping_add(2) as usize)
            }
        }
    }

    /// `post` and `r` are this forest and the answer of `path_kth(u, v, k)`: none and
    /// nothing changed when the two do not share a tree; for `u == v` only position 0; else,
    /// with the path exposed and its cluster pushed, the ends for the first and last
    /// positions, and an inner position searched in the path cluster from the side of `u`,
    /// a real vertex found being the answer.
    pub closed spec fn kth_found(&self, u: int, v: int, k: int, post: &Self, r: Option<usize>) -> bool {
        let (x, y) = (VertexId(u as u32), VertexId(v as u32));
        if !self.same_top(u, v) {
            post.nodes@ == self.nodes@ && post.vertices@ == self.vertices@ && r is None
        } else if u == v {
            post.nodes@ == self.nodes@ && post.vertices@ == self.vertices@ && r == if k == 0 { Some(u as usize) } else { None }
        } else {
            let (c, cs, p) = path_opened(self.nodes@, self.vertices@, self.real_n as nat, x, y);
            let cnt = c[p.0 as int].fold.path_v_cnt;
            if p.0 == u32::MAX || k >= cnt + 2 {
                post.nodes@ == c && post.vertices@ == cs && r is None
            } else if k == 0 {
                post.nodes@ == c && post.vertices@ == cs && r == Some(u as usize)
            } else if k + 1 == cnt + 2 {
                post.nodes@ == c && post.vertices@ == cs && r == Some(v as usize)
            } else {
                let ik0 = (k - 1) as u32;
                let ik = if c[p.0 as int].endpoint[0] != x { (cnt - 1 - ik0) as u32 } else { ik0 };
                let (d, ds, found) = kth_walk(c, cs, self.real_n as nat, p, ik, c.len());
                post.nodes@ == d && post.vertices@ == ds && r == match found {
                    Some(w) => if w.0 < self.real_n { Some(w.0 as usize) } else { None },
                    None => None,
                }
            }
        }
    }

    /// The fold of the tree of `child` once the edge to `parent` is cut: the subtree on the
    /// child side.
    pub closed spec fn subtree_value(&self, child: int, parent: int) -> P::Agg {
        let (a, avs) = self.split_at_edge(VertexId(child as u32), VertexId(parent as u32));
        component_value(a, avs, self.real_n as nat, VertexId(child as u32))
    }

    /// `post` is this forest with `v` exposed and its root cluster pushed, and `k` the key
    /// of `v` then.
    pub closed spec fn vertex_read(&self, v: int, post: &Self, k: P::Key) -> bool {
        let (b, bs, root) = self.opened(v);
        post.nodes@ == b && post.vertices@ == bs && k == bs[v].key
    }

    /// `post` is this forest with `v` exposed, its root cluster pushed, the key of `v` set
    /// to `k` and the root cluster fixed.
    pub closed spec fn vertex_written(&self, v: int, k: P::Key, post: &Self) -> bool {
        let (b, bs, root) = self.opened(v);
        let (c, cs) = fixed(b, bs.update(v, Vertex { key: k, ..bs[v] }), self.real_n as nat, root);
        post.nodes@ == c && post.vertices@ == cs
    }

    /// `post` is this forest with `v` exposed, its root cluster pushed, `act` applied to the
    /// key of `v` if it is a real vertex, and the root cluster fixed.
    pub closed spec fn vertex_acted_on(&self, v: int, act: P::Act, post: &Self) -> bool {
        let (b, bs, root) = self.opened(v);
        let (c, cs) = fixed(b, vertex_acted(bs, self.real_n as nat, VertexId(v as u32), act), self.real_n as nat, root);
        post.nodes@ == c && post.vertices@ == cs
    }

    /// `post` is this forest with `v` exposed and its root cluster pushed, and `r` the
    /// fold of the whole tree: the keys of the two ends of the root cluster around
    /// everything in it.
    pub closed spec fn component_read(&self, v: int, post: &Self, r: P::Agg) -> bool {
        let (b, bs, root) = self.opened(v);
        let n = b[root.0 as int];
        post.nodes@ == b && post.vertices@ == bs && r == P::spec_agg_merge(
            P::spec_agg_merge(P::spec_agg_unit(), bs[n.endpoint[0].0 as int].key, n.fold.all),
            bs[n.endpoint[1].0 as int].key,
            P::spec_agg_unit(),
        )
    }

    /// `post` is this forest with `v` exposed, its root cluster pushed and turned to run
    /// from `v` when `v` was at its far end.
    pub closed spec fn rooted_at(&self, v: int, post: &Self) -> bool {
        let (b, bs, root) = self.opened(v);
        let (c, cs) = if b[root.0 as int].endpoint[1] == VertexId(v as u32) {
            pushed(reversed_at(b, root), bs, self.real_n as nat, root)
        } else {
            (b, bs)
        };
        post.nodes@ == c && post.vertices@ == cs
    }

    /// `post` is this forest with `v` exposed and its root cluster pushed, and `r` the first
    /// real vertex among the two ends of the root cluster, or `v` itself.
    pub closed spec fn root_read(&self, v: int, post: &Self, r: int) -> bool {
        let (b, bs, root) = self.opened(v);
        let (e0, e1) = (b[root.0 as int].endpoint[0].0, b[root.0 as int].endpoint[1].0);
        post.nodes@ == b && post.vertices@ == bs
            && r == if e0 < self.real_n { e0 as int } else if e1 < self.real_n { e1 as int } else { v }
    }

    /// `post` is this forest with `v` exposed, its root cluster pushed, `act` applied to
    /// everything in it and to its two ends, and the root cluster fixed.
    pub closed spec fn component_acted(&self, v: int, act: P::Act, post: &Self) -> bool {
        let (c, cs) = component_acted_at(self.nodes@, self.vertices@, self.real_n as nat, VertexId(v as u32), act);
        post.nodes@ == c && post.vertices@ == cs
    }

    /// `post` is this forest with the edge from `u` to `v` of key `w` linked: a new edge
    /// cluster joined to the trees of both.
    pub closed spec fn edge_linked(&self, u: int, v: int, w: P::Key, post: &Self) -> bool {
        let (a, avs) = joined_by_edge(self.nodes@, self.vertices@, self.real_n as nat, VertexId(u as u32), VertexId(v as u32), w);
        post.nodes@ == a && post.vertices@ == avs
    }

    /// `post` holds the same clusters and vertices as this forest.
    pub closed spec fn same_clusters(&self, post: &Self) -> bool {
        post.nodes@ == self.nodes@ && post.vertices@ == self.vertices@
    }

    /// `post` holds the clusters and vertices of this forest split at the edge between `u`
    /// and `v`.
    pub closed spec fn edge_split(&self, u: int, v: int, post: &Self) -> bool {
        let (a, avs) = self.split_at_edge(VertexId(u as u32), VertexId(v as u32));
        post.nodes@ == a && post.vertices@ == avs
    }

    /// `post` is this forest after `subtree_apply(child, parent, act)`: the edge cut, `act`
    /// applied to the tree of `child`, and the edge linked back with its key when the two
    /// sides are apart.
    pub closed spec fn subtree_acted(&self, child: int, parent: int, act: P::Act, post: &Self) -> bool {
        let rn = self.real_n as nat;
        let (a, avs) = self.split_at_edge(VertexId(child as u32), VertexId(parent as u32));
        let (b, bs) = component_acted_at(a, avs, rn, VertexId(child as u32), act);
        if same_top_at(b, bs, child, parent) {
            post.nodes@ == b && post.vertices@ == bs
        } else {
            let (c, cs) = joined_by_edge(b, bs, rn, VertexId(child as u32), VertexId(parent as u32), self.edge_key(child, parent));
            post.nodes@ == c && post.vertices@ == cs
        }
    }

    /// `post` is this forest with `v` exposed and its root cluster pushed, and `r` the
    /// number of real vertices of the tree: those counted inside the root cluster and its
    /// real ends.
    pub closed spec fn component_counted(&self, v: int, post: &Self, r: int) -> bool {
        let rn = self.real_n as nat;
        let (b, bs, root) = self.opened(v);
        let n = b[root.0 as int];
        post.nodes@ == b && post.vertices@ == bs
            && r == n.fold.all_v_cnt.wrapping_add(weight(rn, n.endpoint[0])).wrapping_add(weight(rn, n.endpoint[1]))
    }

    /// The cluster of the edge `(u, v)`, as its first record at `u` gives it.
    spec fn edge_node(&self, u: int, v: int) -> NodeId {
        self.edges@[u]@[edge_slot(self.edges@, u, v)].1
    }

    /// The key of the edge `(u, v)`, held by its cluster.
    pub closed spec fn edge_key(&self, u: int, v: int) -> P::Key {
        self.nodes@[self.edge_node(u, v).0 as int].edge_key
    }

    /// Same vertices, same edge records, same room in the arena.
    pub open spec fn same_records(&self, other: &Self) -> bool {
        &&& self.vertex_count() == other.vertex_count()
        &&& self.room() == other.room()
        &&& self.adjacency() == other.adjacency()
    }

    /// Keeping every cluster of the vertices keeps every vertex with a cluster.
    proof fn lemma_still_handled(&self, other: &Self)
        requires
            other.handled(),
            self.keeps_handles(other),
            self.vertices.len() == other.vertices.len(),
        ensures
            self.handled(),
    {
        assert forall|i: int| 0 <= i < self.vertices.len() implies is_node(#[trigger] self.vertices@[i].handle, self.nodes.len() as nat) by {
            assert(is_node(other.vertices@[i].handle, other.nodes.len() as nat));
        }
    }

    /// The root cluster of the tree of the real vertex `v`.
    fn expose_vertex(&mut self, v: usize) -> (r: NodeId)
        requires
            old(self).inv(),
            v < old(self).vertex_count(),
        ensures
            final(self).inv(),
            final(self).same_frame(old(self)),
            is_node(r, final(self).nodes.len() as nat),
            (final(self).nodes@, final(self).vertices@, r) == vertex_exposed(old(self).nodes@, old(self).vertices@, old(self).real_n as nat, VertexId(v as u32)),
    {
        let ghost before = *self;
        let r = self.expose(v_id(v));
        proof {
            assert(is_node(before.vertices@[v as int].handle, before.nodes.len() as nat));
            self.lemma_still_handled(&before);
        }
        r
    }

    pub fn connected(&mut self, u: usize, v: usize) -> (r: bool)
        requires
            old(self).inv(),
            u < old(self).vertex_count(),
            v < old(self).vertex_count(),
        ensures
            *final(self) == *old(self),
            u == v ==> r,
            r == old(self).same_top(u as int, v as int),
    {
        self.connected_internal(v_id(u), v_id(v))
    }

    /// Link `u` and `v` by an edge with the neutral key.
    pub fn link(&mut self, u: usize, v: usize) -> (r: bool)
        requires
            old(self).inv(),
            old(self).room(),
            u < old(self).vertex_count(),
            v < old(self).vertex_count(),
        ensures
            final(self).inv(),
            final(self).vertex_count() == old(self).vertex_count(),
            u == v ==> !r,
            !r ==> *final(self) == *old(self),
            r ==> final(self).has_edge(u as int, v as int),
            forall|a: int, b: int| old(self).has_edge(a, b) ==> final(self).has_edge(a, b),
            r == !old(self).same_top(u as int, v as int),
            r ==> old(self).edge_linked(u as int, v as int, P::spec_key_unit(), final(self)),
    {
        self.link_with_edge(u, v, P::key_unit())
    }

    /// Link `u` and `v` by an edge with key `w`, if they are in different trees.
    pub fn link_with_edge(&mut self, u: usize, v: usize, w: P::Key) -> (r: bool)
        requires
            old(self).inv(),
            old(self).room(),
            u < old(self).vertex_count(),
            v < old(self).vertex_count(),
        ensures
            final(self).inv(),
            final(self).vertex_count() == old(self).vertex_count(),
            u == v ==> !r,
            !r ==> *final(self) == *old(self),
            r ==> final(self).has_edge(u as int, v as int),
            forall|a: int, b: int| old(self).has_edge(a, b) ==> final(self).has_edge(a, b),
            r == !old(self).same_top(u as int, v as int),
            r ==> old(self).edge_linked(u as int, v as int, w, final(self)),
            r ==> final(self).adjacency()[u as int] == old(self).adjacency()[u as int].push(v as u32),
            r ==> final(self).adjacency()[v as int] == old(self).adjacency()[v as int].push(u as u32),
    {
        if u == v {
            return false;
        }
        let uid = v_id(u);
        let vid = v_id(v);
        if self.connected_internal(uid, vid) {
            return false;
        }
        let ghost before = *self;
        let ghost adj0 = self.adjacency();
        self.link_internal(uid, vid, w, true);
        proof {
            self.lemma_still_handled(&before);
            let adj = self.adjacency();
            assert(adj[u as int] == adj0[u as int].push(v as u32));
            assert(adj[v as int] == adj0[v as int].push(u as u32));
            assert(adj[u as int][adj0[u as int].len() as int] == v as u32);
            assert(adj[v as int][adj0[v as int].len() as int] == u as u32);
            assert forall|a: int, b: int| before.has_edge(a, b) implies self.has_edge(a, b) by {
                let ka = choose|k: int| 0 <= k < adj0[a].len() && adj0[a][k] == b as u32;
                let kb = choose|k: int| 0 <= k < adj0[b].len() && adj0[b][k] == a as u32;
                assert(adj[a][ka] == b as u32);
                assert(adj[b][kb] == a as u32);
            }
        }
        true
    }

    /// Cut the edge `(u, v)` if it is recorded at both ends; `false` otherwise.
    pub fn cut(&mut self, u: usize, v: usize) -> (r: bool)
        requires
            old(self).inv(),
            u < old(self).vertex_count(),
            v < old(self).vertex_count(),
        ensures
            final(self).inv(),
            final(self).vertex_count() == old(self).vertex_count(),
            final(self).room() == old(self).room(),
            u == v ==> !r,
            r == old(self).has_edge(u as int, v as int),
            r ==> old(self).edge_split(u as int, v as int, final(self)),
            !r ==> old(self).same_clusters(final(self)),
    {
        proof {
            self.lemma_no_loop(u as int);
        }
        if u == v {
            return false;
        }
        let ghost before = *self;
        if self.remove_edge_both(u, v).is_none() {
            proof {
                assert(self.keeps_handles(&before));
                self.lemma_still_handled(&before);
            }
            return false;
        }
        let ghost mid = *self;
        self.cut_internal(v_id(u), v_id(v));
        proof {
            assert(mid.keeps_handles(&before));
            self.lemma_still_handled(&before);
        }
        true
    }

    /// The key of the edge `(u, v)`, if it is recorded at `u`.
    pub fn edge_get(&mut self, u: usize, v: usize) -> (r: Option<P::Key>)
        requires
            old(self).inv(),
            u < old(self).vertex_count(),
            v < old(self).vertex_count(),
        ensures
            *final(self) == *old(self),
            (r is Some) == old(self).adjacency()[u as int].contains(v as u32),
            r is Some ==> r == Some(old(self).edge_key(u as int, v as int)),
    {
        match self.find_edge_node(u, v) {
            Some(e) => Some(P::key_copy(&self.node(e).edge_key)),
            None => None,
        }
    }

    /// Set the key of the edge `(u, v)`; `false` if it is not recorded at `u`.
    pub fn edge_set(&mut self, u: usize, v: usize, w: P::Key) -> (r: bool)
        requires
            old(self).inv(),
            u < old(self).vertex_count(),
            v < old(self).vertex_count(),
        ensures
            final(self).inv(),
            final(self).same_records(old(self)),
            r == old(self).adjacency()[u as int].contains(v as u32),
            r ==> final(self).edge_key(u as int, v as int) == w,
            !r ==> *final(self) == *old(self),
    {
        let e = match self.find_edge_node(u, v) {
            Some(e) => e,
            None => return false,
        };
        let ghost before = *self;
        self.set_edge_key(e, w);
        let ghost mid = self.nodes@;
        self.fix_upwards(e);
        proof {
            self.lemma_still_handled(&before);
            assert(self.edges == before.edges);
            assert(self.edge_node(u as int, v as int) == e);
            assert(mid[e.0 as int].edge_key == w);
            assert(self.nodes@[e.0 as int].edge_key == mid[e.0 as int].edge_key);
        }
        true
    }

    /// Apply `act` to the key of the edge `(u, v)`; `false` if it is not recorded at `u`.
    pub fn edge_apply(&mut self, u: usize, v: usize, act: P::Act) -> (r: bool)
        requires
            old(self).inv(),
            u < old(self).vertex_count(),
            v < old(self).vertex_count(),
        ensures
            final(self).inv(),
            final(self).same_records(old(self)),
            r == old(self).adjacency()[u as int].contains(v as u32),
            r ==> final(self).edge_key(u as int, v as int) == P::spec_act_apply_key(old(self).edge_key(u as int, v as int), act),
            !r ==> *final(self) == *old(self),
    {
        let e = match self.find_edge_node(u, v) {
            Some(e) => e,
            None => return false,
        };
        let ghost before = *self;
        let w = P::key_copy(&self.node(e).edge_key);
        let w2 = P::act_apply_key(&w, &act);
        self.set_edge_key(e, w2);
        let ghost mid = self.nodes@;
        self.fix_upwards(e);
        proof {
            self.lemma_still_handled(&before);
            assert(self.edges == before.edges);
            assert(self.edge_node(u as int, v as int) == e);
            assert(mid[e.0 as int].edge_key == w2);
            assert(self.nodes@[e.0 as int].edge_key == mid[e.0 as int].edge_key);
        }
        true
    }

    /// Make `v` an end of the exposed path of its tree.
    pub fn makeroot(&mut self, v: usize)
        requires
            old(self).inv(),
            v < old(self).vertex_count(),
        ensures
            final(self).inv(),
            final(self).same_records(old(self)),
            old(self).rooted_at(v as int, final(self)),
    {
        let ghost before = *self;
        let vid = v_id(v);
        let root = self.expose_vertex(v);
        self.push(root);
        if self.endpoint(root, 1) == vid {
            self.reverse_node(root);
            self.push(root);
        }
        proof {
            self.lemma_still_handled(&before);
        }
    }

    /// A real vertex at an end of the exposed path of the tree of `v`.
    pub fn find_root(&mut self, v: usize) -> (r: usize)
        requires
            old(self).inv(),
            v < old(self).vertex_count(),
        ensures
            final(self).inv(),
            final(self).same_records(old(self)),
            r < old(self).vertex_count(),
            old(self).root_read(v as int, final(self), r as int),
    {
        let ghost before = *self;
        let root = self.expose_vertex(v);
        self.push(root);
        let a = self.endpoint(root, 0);
        let b = self.endpoint(root, 1);
        proof {
            self.lemma_still_handled(&before);
        }
        if self.is_real_vertex(a) {
            a.idx()
        } else if self.is_real_vertex(b) {
            b.idx()
        } else {
            // one end of a tree with a real vertex is real
            v
        }
    }

    pub fn vertex_get(&mut self, v: usize) -> (r: P::Key)
        requires
            old(self).inv(),
            v < old(self).vertex_count(),
        ensures
            final(self).inv(),
            final(self).same_records(old(self)),
            old(self).vertex_read(v as int, final(self), r),
    {
        let ghost before = *self;
        let vid = v_id(v);
        let root = self.expose_vertex(v);
        self.push(root);
        proof {
            self.lemma_still_handled(&before);
        }
        self.value(vid)
    }

    pub fn vertex_set(&mut self, v: usize, key: P::Key)
        requires
            old(self).inv(),
            v < old(self).vertex_count(),
        ensures
            final(self).inv(),
            final(self).same_records(old(self)),
            old(self).vertex_written(v as int, key, final(self)),
    {
        let ghost before = *self;
        let vid = v_id(v);
        let root = self.expose_vertex(v);
        self.push(root);
        self.set_value(vid, key);
        self.fix(root);
        proof {
            self.lemma_still_handled(&before);
        }
    }

    pub fn vertex_apply(&mut self, v: usize, act: P::Act)
        requires
            old(self).inv(),
            v < old(self).vertex_count(),
        ensures
            final(self).inv(),
            final(self).same_records(old(self)),
            old(self).vertex_acted_on(v as int, act, final(self)),
    {
        let ghost before = *self;
        let vid = v_id(v);
        let root = self.expose_vertex(v);
        self.push(root);
        self.apply_act_to_vertex_if_real(vid, &act);
        self.fix(root);
        proof {
            self.lemma_still_handled(&before);
        }
    }

    /// Fold of the keys of the tree of `v`.
    pub fn component_fold(&mut self, v: usize) -> (r: P::Agg)
        requires
            old(self).inv(),
            v < old(self).vertex_count(),
        ensures
            final(self).inv(),
            final(self).same_records(old(self)),
            old(self).component_read(v as int, final(self), r),
    {
        let ghost before = *self;
        let root = self.expose_vertex(v);
        self.push(root);
        let a = self.endpoint(root, 0);
        let b = self.endpoint(root, 1);
        let agg = P::agg_merge(&P::agg_unit(), &self.value(a), &self.node(root).fold.all);
        let agg = P::agg_merge(&agg, &self.value(b), &P::agg_unit());
        proof {
            self.lemma_still_handled(&before);
        }
        agg
    }

    /// Apply `act` to every key of the tree of `v`.
    pub fn component_apply(&mut self, v: usize, act: P::Act)
        requires
            old(self).inv(),
            v < old(self).vertex_count(),
        ensures
            final(self).inv(),
            final(self).same_records(old(self)),
            old(self).component_acted(v as int, act, final(self)),
    {
        let ghost before = *self;
        let root = self.expose_vertex(v);
        self.push(root);
        let a = self.endpoint(root, 0);
        let b = self.endpoint(root, 1);
        self.apply_all(root, P::act_copy(&act));
        self.apply_act_to_vertex_if_real(a, &act);
        self.apply_act_to_vertex_if_real(b, &act);
        self.fix(root);
        proof {
            self.lemma_still_handled(&before);
        }
    }

    /// The number of vertices of the tree of `v`.
    pub fn component_size(&mut self, v: usize) -> (r: usize)
        requires
            old(self).inv(),
            v < old(self).vertex_count(),
        ensures
            final(self).inv(),
            final(self).same_records(old(self)),
            old(self).component_counted(v as int, final(self), r as int),
    {
        let ghost before = *self;
        let root = self.expose_vertex(v);
        self.push(root);
        let a = self.endpoint(root, 0);
        let b = self.endpoint(root, 1);
        let cnt = self.node(root).fold.all_v_cnt.wrapping_add(self.v_weight(a)).wrapping_add(self.v_weight(b));
        proof {
            self.lemma_still_handled(&before);
        }
        cnt as usize
    }

    /// Fold of the keys on the path from `u` to `v`; none if they are in different trees.
    pub fn path_fold(&mut self, u: usize, v: usize) -> (r: Option<P::Agg>)
        requires
            old(self).inv(),
            u < old(self).vertex_count(),
            v < old(self).vertex_count(),
        ensures
            final(self).inv(),
            final(self).same_records(old(self)),
            u == v ==> r is Some,
            old(self).path_folded(u as int, v as int, final(self), r),
    {
        let uid = v_id(u);
        let vid = v_id(v);
        if !self.connected_internal(uid, vid) {
            return None;
        }
        if u == v {
            let key = self.vertex_get(u);
            return Some(P::agg_from_key(&key));
        }
        let ghost before = *self;
        let p = self.path_query_node(uid, vid);
        self.push(p);
        proof {
            self.lemma_still_handled(&before);
        }
        if p.is_nil() {
            // two connected vertices always have a path cluster between them
            return None;
        }
        let internal = if self.endpoint(p, 0) == uid {
            P::agg_copy(&self.node(p).fold.path_fwd)
        } else {
            P::agg_copy(&self.node(p).fold.path_rev)
        };
        let agg = P::agg_merge(&P::agg_unit(), &self.value(uid), &internal);
        let agg = P::agg_merge(&agg, &self.value(vid), &P::agg_unit());
        Some(agg)
    }

    /// Apply `act` to the keys on the path from `u` to `v`; `false` if they are in different
    /// trees.
    pub fn path_apply(&mut self, u: usize, v: usize, act: P::Act) -> (r: bool)
        requires
            old(self).inv(),
            u < old(self).vertex_count(),
            v < old(self).vertex_count(),
        ensures
            final(self).inv(),
            final(self).same_records(old(self)),
            u == v ==> r,
            old(self).path_acted(u as int, v as int, act, final(self), r),
    {
        let uid = v_id(u);
        let vid = v_id(v);
        if !self.connected_internal(uid, vid) {
            return false;
        }
        if u == v {
            self.vertex_apply(u, act);
            return true;
        }
        let ghost before = *self;
        let p = self.path_query_node(uid, vid);
        self.push(p);
        self.apply_path(p, P::act_copy(&act));
        self.apply_act_to_vertex_if_real(uid, &act);
        self.apply_act_to_vertex_if_real(vid, &act);
        self.fix_upwards(p);
        proof {
            self.lemma_still_handled(&before);
        }
        true
    }

    /// The number of vertices on the path from `u` to `v`; none if they are in different
    /// trees.
    pub fn path_len(&mut self, u: usize, v: usize) -> (r: Option<usize>)
        requires
            old(self).inv(),
            u < old(self).vertex_count(),
            v < old(self).vertex_count(),
        ensures
            final(self).inv(),
            final(self).same_records(old(self)),
            u == v ==> r == Some(1usize),
            old(self).path_counted(u as int, v as int, final(self), r),
    {
        let uid = v_id(u);
        let vid = v_id(v);
        if !self.connected_internal(uid, vid) {
            return None;
        }
        if u == v {
            return Some(1);
        }
        let ghost before = *self;
        let p = self.path_query_node(uid, vid);
        self.push(p);
        proof {
            self.lemma_still_handled(&before);
        }
        if p.is_nil() {
            // two connected vertices always have a path cluster between them
            return None;
        }
        Some(self.node(p).fold.path_v_cnt.wrapping_add(2) as usize)
    }

    /// The vertex at position `k`, counting from 0, on the path from `u` to `v`.
    pub fn path_kth(&mut self, u: usize, v: usize, k: usize) -> (r: Option<usize>)
        requires
            old(self).inv(),
            u < old(self).vertex_count(),
            v < old(self).vertex_count(),
        ensures
            final(self).inv(),
            final(self).same_records(old(self)),
            u == v ==> r == if k == 0 { Some(u) } else { None },
            r matches Some(x) ==> x < old(self).vertex_count(),
            old(self).kth_found(u as int, v as int, k as int, final(self), r),
    {
        let uid = v_id(u);
        let vid = v_id(v);
        if !self.connected_internal(uid, vid) {
            return None;
        }
        if u == v {
            return if k == 0 { Some(u) } else { None };
        }
        let ghost before = *self;
        let p = self.path_query_node(uid, vid);
        self.push(p);
        proof {
            self.lemma_still_handled(&before);
        }
        if p.is_nil() {
            // two connected vertices always have a path cluster between them
            return None;
        }
        let internal_cnt = self.node(p).fold.path_v_cnt;
        let len: u64 = internal_cnt as u64 + 2;
        if k as u64 >= len {
            return None;
        }
        if k == 0 {
            return Some(u);
        }
        if k as u64 + 1 == len {
            return Some(v);
        }
        // position among the inner vertices of the path
        let mut ik = (k - 1) as u32;
        if self.endpoint(p, 0) != uid {
            // the path is stored from v to u
            ik = internal_cnt - 1 - ik;
        }
        let ghost mid = *self;
        let found = self.kth_on_path_internal(p, ik);
        proof {
            self.lemma_still_handled(&mid);
        }
        match found {
            Some(w) => {
                if self.is_real_vertex(w) {
                    Some(w.idx())
                } else {
                    // inner vertices of a path between real vertices are real
                    None
                }
            },
            None => None,
        }
    }

    /// Fold of the keys of the subtree on the `child` side of the edge `(child, parent)`.
    pub fn subtree_fold(&mut self, child: usize, parent: usize) -> (r: P::Agg)
        requires
            old(self).inv(),
            old(self).room(),
            old(self).has_edge(child as int, parent as int),
            child < old(self).vertex_count(),
            parent < old(self).vertex_count(),
        ensures
            final(self).inv(),
            final(self).vertex_count() == old(self).vertex_count(),
            r == old(self).subtree_value(child as int, parent as int),
    {
        let ghost before = *self;
        let w = self.cut_with_edge_key(child, parent).expect("subtree_fold requires an existing edge");
        proof {
            self.lemma_still_handled(&before);
        }
        let res = self.component_fold(child);
        let _ok = self.link_with_edge(child, parent, w);
        res
    }

    /// Apply `act` to the keys of the subtree on the `child` side of the edge
    /// `(child, parent)`.
    pub fn subtree_apply(&mut self, child: usize, parent: usize, act: P::Act)
        requires
            old(self).inv(),
            old(self).room(),
            old(self).has_edge(child as int, parent as int),
            child < old(self).vertex_count(),
            parent < old(self).vertex_count(),
        ensures
            final(self).inv(),
            final(self).vertex_count() == old(self).vertex_count(),
            old(self).subtree_acted(child as int, parent as int, act, final(self)),
    {
        let ghost before = *self;
        let w = self.cut_with_edge_key(child, parent).expect("subtree_apply requires an existing edge");
        proof {
            self.lemma_still_handled(&before);
        }
        self.component_apply(child, act);
        let _ok = self.link_with_edge(child, parent, w);
    }
}

impl TopTree<VertexSumAdd> {
    pub fn vertex_add(&mut self, v: usize, delta: i64)
        requires
            old(self).inv(),
            v < old(self).vertex_count(),
        ensures
            final(self).inv(),
            final(self).same_records(old(self)),
            old(self).vertex_acted_on(v as int, delta, final(self)),
    {
        self.vertex_apply(v, delta);
    }

    pub fn path_sum(&mut self, u: usize, v: usize) -> (r: Option<i64>)
        requires
            old(self).inv(),
            u < old(self).vertex_count(),
            v < old(self).vertex_count(),
        ensures
            final(self).inv(),
            final(self).same_records(old(self)),
            u == v ==> r is Some,
            old(self).path_folded(u as int, v as int, final(self), r),
    {
        self.path_fold(u, v)
    }

    pub fn component_sum(&mut self, v: usize) -> (r: i64)
        requires
            old(self).inv(),
            v < old(self).vertex_count(),
        ensures
            final(self).inv(),
            final(self).same_records(old(self)),
            old(self).component_read(v as int, final(self), r),
    {
        self.component_fold(v)
    }
}

impl<P: LazyMapMonoid> DynamicForest for TopTree<P> {
    type Key = P::Key;

    closed spec fn wf(&self) -> bool {
        self.inv()
    }

    closed spec fn spec_len(&self) -> nat {
        self.vertex_count()
    }

    closed spec fn has_room(&self) -> bool {
        self.room()
    }

    fn new(values: &[P::Key]) -> (r: Self) {
        Self::new(values)
    }

    fn len(&self) -> (r: usize) {
        self.len()
    }

    fn link(&mut self, u: usize, v: usize) -> (r: bool) {
        self.link(u, v)
    }

    fn cut(&mut self, u: usize, v: usize) -> (r: bool) {
        self.cut(u, v)
    }

    fn connected(&mut self, u: usize, v: usize) -> (r: bool) {
        self.connected(u, v)
    }
}

impl<P: LazyMapMonoid> VertexOps for TopTree<P> {
    type Act = P::Act;

    fn vertex_get(&mut self, v: usize) -> (r: P::Key) {
        self.vertex_get(v)
    }

    fn vertex_set(&mut self, v: usize, key: P::Key) {
        self.vertex_set(v, key)
    }

    fn vertex_apply(&mut self, v: usize, act: P::Act) {
        self.vertex_apply(v, act)
    }
}

impl<P: LazyMapMonoid> PathOps for TopTree<P> {
    type Agg = P::Agg;
    type Act = P::Act;

    fn makeroot(&mut self, v: usize) {
        self.makeroot(v)
    }

    fn find_root(&mut self, v: usize) -> (r: usize) {
        self.find_root(v)
    }

    fn path_fold(&mut self, u: usize, v: usize) -> (r: Option<P::Agg>) {
        self.path_fold(u, v)
    }

    fn path_apply(&mut self, u: usize, v: usize, act: P::Act) -> (r: bool) {
        self.path_apply(u, v, act)
    }

    fn path_len(&mut self, u: usize, v: usize) -> (r: Option<usize>) {
        self.path_len(u, v)
    }

    fn path_kth(&mut self, u: usize, v: usize, k: usize) -> (r: Option<usize>) {
        self.path_kth(u, v, k)
    }
}

impl<P: LazyMapMonoid> ComponentOps for TopTree<P> {
    type Agg = P::Agg;
    type Act = P::Act;

    fn component_fold(&mut self, v: usize) -> (r: P::Agg) {
        self.component_fold(v)
    }

    fn component_apply(&mut self, v: usize, act: P::Act) {
        self.component_apply(v, act)
    }

    fn component_size(&mut self, v: usize) -> (r: usize) {
        self.component_size(v)
    }
}

impl<P: LazyMapMonoid> SubtreeOps for TopTree<P> {
    type Agg = P::Agg;
    type Act = P::Act;

    closed spec fn accepts_edge(&self, u: int, v: int) -> bool {
        self.has_edge(u, v)
    }

    fn subtree_fold(&mut self, child: usize, parent: usize) -> (r: P::Agg) {
        self.subtree_fold(child, parent)
    }

    fn subtree_apply(&mut self, child: usize, parent: usize, act: P::Act) {
        self.subtree_apply(child, parent, act)
    }
}

} // verus!
