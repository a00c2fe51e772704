use vstd::prelude::*;

use crate::dynamic_tree::policy::{LazyMapMonoid, VertexSumAdd};
use crate::wrap::wrap64;
use crate::dynamic_tree::traits::{ComponentOps, DynamicForest, SubtreeOps, VertexOps};

verus! {

/// Index of a node in the arena.
type Id = u32;

/// No node.
const NIL: Id = Id::MAX;

fn idx(x: Id) -> (r: usize)
    ensures
        r == x,
{
    x as usize
}

struct Node<P: LazyMapMonoid> {
    ch: [Id; 2],
    p: Id,
    is_vertex: bool,
    v_cnt: u32,
    key: P::Key,
    agg: P::Agg,
    lazy: P::Act,
    lazy_pending: bool,
}

/// `x` is no node or a node of an arena of `n` nodes.
spec fn ok_id(x: Id, n: nat) -> bool {
    x == u32::MAX || x < n
}

/// `x` is a node of an arena of `n` nodes.
spec fn is_node(x: Id, n: nat) -> bool {
    x != u32::MAX && x < n
}

/// Every link of a node stays inside an arena of `n` nodes.
spec fn node_ok<P: LazyMapMonoid>(node: Node<P>, n: nat) -> bool {
    &&& ok_id(node.ch[0], n)
    &&& ok_id(node.ch[1], n)
    &&& ok_id(node.p, n)
}

/// Every node of `s` links inside an arena of `n` nodes.
spec fn all_ok<P: LazyMapMonoid>(s: Seq<Node<P>>, n: nat) -> bool {
    forall|i: int| 0 <= i < s.len() ==> #[trigger] node_ok::<P>(s[i], n)
}

/// Replacing one node by one that links inside the arena keeps every link inside.
proof fn lemma_update_ok<P: LazyMapMonoid>(s: Seq<Node<P>>, n: nat, i: int, x: Node<P>)
    requires
        all_ok::<P>(s, n),
        node_ok::<P>(x, n),
        0 <= i < s.len(),
    ensures
        all_ok::<P>(s.update(i, x), n),
{
    assert forall|j: int| 0 <= j < s.update(i, x).len() implies #[trigger] node_ok::<P>(s.update(i, x)[j], n) by {
        if j != i {
            assert(node_ok::<P>(s[j], n));
        }
    }
}

/// Links inside a smaller arena stay inside a larger one.
proof fn lemma_grow_ok<P: LazyMapMonoid>(s: Seq<Node<P>>, n: nat, m: nat)
    requires
        all_ok::<P>(s, n),
        n <= m,
    ensures
        all_ok::<P>(s, m),
{
    assert forall|j: int| 0 <= j < s.len() implies #[trigger] node_ok::<P>(s[j], m) by {
        assert(node_ok::<P>(s[j], n));
    }
}

impl<P: LazyMapMonoid> Node<P> {
    fn new_vertex(key: P::Key) -> (r: Self)
        ensures
            node_ok::<P>(r, 0),
            r.ch[0] == u32::MAX && r.ch[1] == u32::MAX && r.p == u32::MAX,
            r.key == key,
    {
        let agg = P::agg_from_key(&key);
        Self {
            ch: [NIL, NIL],
            p: NIL,
            is_vertex: true,
            v_cnt: 1,
            key,
            agg,
            lazy: P::act_unit(),
            lazy_pending: false,
        }
    }

    /// A fresh arc node: no links, no vertex, the neutral key.
    spec fn spec_new_arc() -> Self {
        Node {
            ch: [u32::MAX, u32::MAX],
            p: u32::MAX,
            is_vertex: false,
            v_cnt: 0,
            key: P::spec_key_unit(),
            agg: P::spec_agg_from_key(P::spec_key_unit()),
            lazy: P::spec_act_unit(),
            lazy_pending: false,
        }
    }

    fn new_arc() -> (r: Self)
        ensures
            node_ok::<P>(r, 0),
            r == Self::spec_new_arc(),
    {
        let key = P::key_unit();
        let agg = P::agg_from_key(&key);
        Self {
            ch: [NIL, NIL],
            p: NIL,
            is_vertex: false,
            v_cnt: 0,
            key,
            agg,
            lazy: P::act_unit(),
            lazy_pending: false,
        }
    }
}

/// Euler tour tree kept as a splay-tree sequence, generic over a `LazyMapMonoid` policy.
///
/// Every walk up or down the splay trees stops after as many steps as there are nodes,
/// which a walk in a forest never takes.
/// The vertex count stored at `x` in `ns`, 0 for no node.
spec fn v_cnt_at<P: LazyMapMonoid>(ns: Seq<Node<P>>, x: Id) -> u32 {
    if x == u32::MAX { 0 } else { ns[x as int].v_cnt }
}

/// The aggregate stored at `x` in `ns`, the unit for no node.
spec fn agg_at<P: LazyMapMonoid>(ns: Seq<Node<P>>, x: Id) -> P::Agg {
    if x == u32::MAX { P::spec_agg_unit() } else { ns[x as int].agg }
}

/// The node `n` with `act` applied (to its key only if it is a vertex), and composed into its
/// pending action.
spec fn acted<P: LazyMapMonoid>(n: Node<P>, act: P::Act) -> Node<P> {
    Node {
        key: if n.is_vertex { P::spec_act_apply_key(n.key, act) } else { n.key },
        agg: P::spec_act_apply_agg(n.agg, act, n.v_cnt as nat),
        lazy: if n.lazy_pending { P::spec_act_compose(act, n.lazy) } else { act },
        lazy_pending: true,
        ..n
    }
}

/// The arena `ns` with `act` applied to the splay tree under `x` (nothing for no node).
spec fn acted_at<P: LazyMapMonoid>(ns: Seq<Node<P>>, x: Id, act: P::Act) -> Seq<Node<P>> {
    if x == u32::MAX { ns } else { ns.update(x as int, acted(ns[x as int], act)) }
}

/// The arena `ns` after node `x` hands its pending action to its children.
spec fn pushed_at<P: LazyMapMonoid>(ns: Seq<Node<P>>, x: Id) -> Seq<Node<P>> {
    if x == u32::MAX || !ns[x as int].lazy_pending {
        ns
    } else {
        let n = ns[x as int];
        let b = acted_at(acted_at(ns, n.ch[0], n.lazy), n.ch[1], n.lazy);
        b.update(x as int, Node { lazy: P::spec_act_unit(), lazy_pending: false, ..b[x as int] })
    }
}

/// The arena `ns` with the vertex count and aggregate of `x` recomputed from its children.
spec fn pulled_at<P: LazyMapMonoid>(ns: Seq<Node<P>>, x: Id) -> Seq<Node<P>> {
    let n = ns[x as int];
    let (l, r) = (n.ch[0], n.ch[1]);
    ns.update(x as int, Node {
        v_cnt: v_cnt_at(ns, l).wrapping_add(v_cnt_at(ns, r)).wrapping_add(if n.is_vertex { 1u32 } else { 0u32 }),
        agg: P::spec_agg_merge(agg_at(ns, l), n.key, agg_at(ns, r)),
        ..n
    })
}

/// The node `k` parent links above `x` in `ns`.
spec fn up<P: LazyMapMonoid>(ns: Seq<Node<P>>, x: Id, k: nat) -> Id
    decreases k,
{
    if k == 0 { x } else { ns[up(ns, x, (k - 1) as nat) as int].p }
}

/// The arena `ns` with link `d` of node `x` set to `c`.
spec fn set_ch<P: LazyMapMonoid>(ns: Seq<Node<P>>, x: Id, d: int, c: Id) -> Seq<Node<P>> {
    let n = ns[x as int];
    ns.update(x as int, Node { ch: if d == 0 { [c, n.ch[1]] } else { [n.ch[0], c] }, ..n })
}

/// The arena `ns` with the parent link of node `x` set to `q`.
spec fn set_p<P: LazyMapMonoid>(ns: Seq<Node<P>>, x: Id, q: Id) -> Seq<Node<P>> {
    ns.update(x as int, Node { p: q, ..ns[x as int] })
}

/// The arena `ns` with node `x` rotated above its parent: both pushed, the links of the
/// grandparent, `x`, the parent and the inner child `b` redone, and the parent then `x`
/// recomputed.
spec fn rotated<P: LazyMapMonoid>(ns: Seq<Node<P>>, x: Id) -> Seq<Node<P>> {
    let p = ns[x as int].p;
    let g = ns[p as int].p;
    let a = pushed_at(pushed_at(ns, p), x);
    let dir: int = if a[p as int].ch[1] == x { 1 } else { 0 };
    let b = a[x as int].ch[1 - dir];
    let c = if g != u32::MAX {
        if a[g as int].ch[0] == p { set_ch(a, g, 0, x) } else { set_ch(a, g, 1, x) }
    } else {
        a
    };
    let d = set_p(c, x, g);
    let e = set_ch(d, x, 1 - dir, p);
    let f = set_p(e, p, x);
    let h = set_ch(f, p, dir, b);
    let i = if b != u32::MAX { set_p(h, b, p) } else { h };
    pulled_at(pulled_at(i, p), x)
}

/// The nodes met from `y` up to the root of its splay tree, at most `fuel` steps up.
spec fn climb<P: LazyMapMonoid>(ns: Seq<Node<P>>, y: Id, fuel: nat) -> Seq<Id>
    decreases fuel,
{
    if fuel == 0 || ns[y as int].p == u32::MAX {
        seq![y]
    } else {
        seq![y] + climb(ns, ns[y as int].p, (fuel - 1) as nat)
    }
}

/// The root of the splay tree holding `y`, or the node reached after `fuel` steps up.
spec fn top<P: LazyMapMonoid>(ns: Seq<Node<P>>, y: Id, fuel: nat) -> Id
    decreases fuel,
{
    if fuel == 0 || ns[y as int].p == u32::MAX { y } else { top(ns, ns[y as int].p, (fuel - 1) as nat) }
}

/// The arena `ns` with the nodes of `s` pushed, from the last to the first.
spec fn push_down<P: LazyMapMonoid>(ns: Seq<Node<P>>, s: Seq<Id>) -> Seq<Node<P>>
    decreases s.len(),
{
    if s.len() == 0 {
        ns
    } else {
        pushed_at(push_down(ns, s.drop_first()), s[0])
    }
}

/// One round of splaying `x`: below the root, one rotation; deeper, first the parent
/// (same side, zig-zig) or `x` (zig-zag), then `x` once more if it still has a parent.
spec fn splay_round<P: LazyMapMonoid>(ns: Seq<Node<P>>, x: Id) -> Seq<Node<P>> {
    let p = ns[x as int].p;
    let g = ns[p as int].p;
    if g == u32::MAX {
        rotated(ns, x)
    } else {
        let a = if (ns[g as int].ch[0] == p) == (ns[p as int].ch[0] == x) { rotated(ns, p) } else { rotated(ns, x) };
        if a[x as int].p != u32::MAX { rotated(a, x) } else { a }
    }
}

/// Rounds of splaying `x` until it is the root of its splay tree, at most `fuel` of them.
spec fn splay_rounds<P: LazyMapMonoid>(ns: Seq<Node<P>>, x: Id, fuel: nat) -> Seq<Node<P>>
    decreases fuel,
{
    if fuel == 0 || ns[x as int].p == u32::MAX {
        ns
    } else {
        splay_rounds(splay_round(ns, x), x, (fuel - 1) as nat)
    }
}

/// The arena `ns` after `x` is splayed: the actions above it pushed, then the rounds.
spec fn splayed<P: LazyMapMonoid>(ns: Seq<Node<P>>, x: Id) -> Seq<Node<P>> {
    splay_rounds(push_down(ns, climb(ns, x, (ns.len() - 1) as nat)), x, ns.len())
}

/// The arena `ns` with the key of node `x` replaced by `k`.
spec fn keyed<P: LazyMapMonoid>(ns: Seq<Node<P>>, x: Id, k: P::Key) -> Seq<Node<P>> {
    ns.update(x as int, Node { key: k, ..ns[x as int] })
}

/// The arena `ns` with the sequence of `x` split just before `x`, and the root of the part
/// before it: `x` splayed and its left subtree cut off.
spec fn split_at<P: LazyMapMonoid>(ns: Seq<Node<P>>, x: Id) -> (Seq<Node<P>>, Id) {
    let a = splayed(ns, x);
    let left = a[x as int].ch[0];
    let b = if left != u32::MAX { set_p(a, left, u32::MAX) } else { a };
    (pulled_at(set_ch(b, x, 0, u32::MAX), x), left)
}

/// The node reached from `x` down the right links, at most `fuel` steps.
spec fn rightmost<P: LazyMapMonoid>(ns: Seq<Node<P>>, x: Id, fuel: nat) -> Id
    decreases fuel,
{
    if fuel == 0 || ns[x as int].ch[1] == u32::MAX { x } else { rightmost(ns, ns[x as int].ch[1], (fuel - 1) as nat) }
}

/// The node reached from `x` down the left links, at most `fuel` steps.
spec fn leftmost<P: LazyMapMonoid>(ns: Seq<Node<P>>, x: Id, fuel: nat) -> Id
    decreases fuel,
{
    if fuel == 0 || ns[x as int].ch[0] == u32::MAX { x } else { leftmost(ns, ns[x as int].ch[0], (fuel - 1) as nat) }
}

/// The arena `ns` with the sequences rooted at `a` and `b` concatenated, and the new root:
/// the last node of `a` splayed and given `b` as right subtree.
spec fn merged<P: LazyMapMonoid>(ns: Seq<Node<P>>, a: Id, b: Id) -> (Seq<Node<P>>, Id) {
    if a == u32::MAX {
        (ns, b)
    } else if b == u32::MAX {
        (ns, a)
    } else {
        let x = rightmost(ns, a, ns.len());
        let c = splayed(ns, x);
        (pulled_at(set_p(set_ch(c, x, 1, b), b, x), x), x)
    }
}

/// The arena `ns` with the first node of the sequence rooted at `root` split off, that
/// node, and the root of the rest.
spec fn front_popped<P: LazyMapMonoid>(ns: Seq<Node<P>>, root: Id) -> (Seq<Node<P>>, Id, Id) {
    if root == u32::MAX {
        (ns, u32::MAX, u32::MAX)
    } else {
        let x = leftmost(ns, root, ns.len());
        let a = splayed(ns, x);
        let right = a[x as int].ch[1];
        let b = if right != u32::MAX { set_p(a, right, u32::MAX) } else { a };
        (set_p(pulled_at(set_ch(b, x, 1, u32::MAX), x), x, u32::MAX), x, right)
    }
}

/// The arena `ns` with the tour of `x` rotated to start at `x`, and its new root.
spec fn tour_rerooted<P: LazyMapMonoid>(ns: Seq<Node<P>>, x: Id) -> (Seq<Node<P>>, Id) {
    let (a, l) = split_at(ns, x);
    merged(a, x, l)
}

/// The arena `ns` after the arc nodes `a` (from `u` to `v`) and `b` (back) of an edge are
/// taken out: the tour turned to start at `a`, `a` popped, the rest split before `b`, and
/// `b` popped from the second part.
spec fn arcs_cut<P: LazyMapMonoid>(ns: Seq<Node<P>>, a: Id, b: Id) -> Seq<Node<P>> {
    let (c, t) = tour_rerooted(ns, a);
    let (d, _x, _rest) = front_popped(c, t);
    let (e, _left) = split_at(d, b);
    front_popped(e, b).0
}

/// The arena and free list after a fresh arc node is taken, and that node: the last free
/// node reused, or a new node at the end.
spec fn arc_alloc<P: LazyMapMonoid>(ns: Seq<Node<P>>, free: Seq<Id>) -> (Seq<Node<P>>, Seq<Id>, Id) {
    if free.len() > 0 {
        (ns.update(free.last() as int, Node::<P>::spec_new_arc()), free.drop_last(), free.last())
    } else {
        (ns.push(Node::<P>::spec_new_arc()), free, ns.len() as u32)
    }
}

/// The arena after the tours of the vertex nodes `xu` and `xv` are joined by a new pair of
/// arc nodes: both tours turned to start at their vertex, then the tour of `xu`, the arc
/// from it, the tour of `xv` and the arc back concatenated.
spec fn tours_linked<P: LazyMapMonoid>(ns: Seq<Node<P>>, free: Seq<Id>, xu: Id, xv: Id) -> (Seq<Node<P>>, Seq<Id>) {
    let (a, ru) = tour_rerooted(ns, xu);
    let (b, rv) = tour_rerooted(a, xv);
    let (c, f1, x) = arc_alloc(b, free);
    let (d, f2, y) = arc_alloc(c, f1);
    let (e, t1) = merged(d, ru, x);
    let (g, t2) = merged(e, t1, rv);
    (merged(g, t2, y).0, f2)
}

/// Index `i` holds the first arc to `v` in the arc list `list`.
spec fn first_arc(list: Seq<(u32, Id)>, v: u32, i: int) -> bool {
    &&& 0 <= i < list.len()
    &&& list[i].0 == v
    &&& forall|j: int| 0 <= j < i ==> #[trigger] list[j].0 != v
}

/// The node of the first arc to `v` in the arc list `list`.
spec fn arc_node(list: Seq<(u32, Id)>, v: u32) -> Id {
    list[choose|i: int| first_arc(list, v, i)].1
}

pub struct EulerTourTree<P: LazyMapMonoid = VertexSumAdd> {
    nodes: Vec<Node<P>>,
    vertex_node: Vec<Id>,
    /// `arcs[u]` holds `(v, node of the arc u -> v)`.
    arcs: Vec<Vec<(u32, Id)>>,
    free: Vec<Id>,
    stack: Vec<Id>,
}

impl<P: LazyMapMonoid> EulerTourTree<P> {
    /// Every link, vertex node, arc node and free node stays inside the arena, whose indices
    /// fit below `u32::MAX`.
    pub closed spec fn inv(&self) -> bool {
        let n = self.nodes.len() as nat;
        &&& self.nodes.len() < u32::MAX
        &&& all_ok::<P>(self.nodes@, n)
        &&& self.arcs.len() == self.vertex_node.len()
        &&& forall|i: int| 0 <= i < self.vertex_node.len() ==> is_node(#[trigger] self.vertex_node@[i], n)
        &&& forall|i: int, j: int| 0 <= i < self.arcs.len() && 0 <= j < self.arcs@[i].len()
            ==> is_node(#[trigger] self.arcs@[i]@[j].1, n)
        &&& forall|i: int| 0 <= i < self.free.len() ==> is_node(#[trigger] self.free@[i], n)
    }

    /// The number of vertices.
    pub closed spec fn vertex_count(&self) -> nat {
        self.vertex_node.len() as nat
    }

    /// The tours of `u` and `v` lie in one splay tree: the walks up from their vertex nodes
    /// end at the same root.
    pub closed spec fn same_tour(&self, u: int, v: int) -> bool {
        let n = self.nodes.len() as nat;
        top(self.nodes@, self.vertex_node@[u], n) == top(self.nodes@, self.vertex_node@[v], n)
    }

    /// The arc list of `u` holds an arc to `v`.
    pub closed spec fn has_arc(&self, u: int, v: int) -> bool {
        exists|j: int| 0 <= j < self.arcs@[u].len() && #[trigger] self.arcs@[u]@[j].0 == v as u32
    }

    /// `post` has the arc lists of this tree with one arc to `v` added at the end of the
    /// list of `u`, and one arc to `u` at the end of the list of `v`; the others unchanged.
    pub closed spec fn arcs_added(&self, u: int, v: int, post: &Self) -> bool {
        &&& post.arcs.len() == self.arcs.len()
        &&& forall|w: int| 0 <= w < self.arcs.len() && w != u && w != v ==> #[trigger] post.arcs@[w] == self.arcs@[w]
        &&& exists|a: Id| post.arcs@[u]@ == #[trigger] self.arcs@[u]@.push((v as u32, a))
        &&& exists|b: Id| post.arcs@[v]@ == #[trigger] self.arcs@[v]@.push((u as u32, b))
    }

    /// The arena after `cut(u, v)`: with both arcs of the edge recorded, their nodes taken
    /// out of the tour; otherwise unchanged.
    pub closed spec fn cut_arena(&self, u: int, v: int) -> Seq<Node<P>> {
        if u != v && self.has_arc(u, v) && self.has_arc(v, u) {
            arcs_cut(self.nodes@, arc_node(self.arcs@[u]@, v as u32), arc_node(self.arcs@[v]@, u as u32))
        } else {
            self.nodes@
        }
    }

    /// `post` holds the arena and free list of this tree with the tours of `u` and `v` joined
    /// by a new pair of arc nodes, and the same vertex nodes.
    pub closed spec fn tours_joined(&self, u: int, v: int, post: &Self) -> bool {
        let (ns, fr) = tours_linked(self.nodes@, self.free@, self.vertex_node@[u], self.vertex_node@[v]);
        post.nodes@ == ns && post.free@ == fr && post.vertex_node == self.vertex_node
    }

    /// `post` holds the arena of `cut_arena(u, v)` and the same vertex nodes.
    pub closed spec fn cut_result(&self, u: int, v: int, post: &Self) -> bool {
        &&& post.nodes@ == self.cut_arena(u, v)
        &&& post.vertex_node == self.vertex_node
        &&& post.free@ == if u != v && self.has_arc(u, v) && self.has_arc(v, u) {
            self.free@.push(arc_node(self.arcs@[u]@, v as u32)).push(arc_node(self.arcs@[v]@, u as u32))
        } else {
            self.free@
        }
    }

    /// `post` holds the arena of this tree after `subtree_apply(child, parent, act)`: the
    /// edge cut, `act` applied to the tour of `child`, and the two tours joined again when
    /// they are apart.
    pub closed spec fn subtree_acted(&self, child: int, parent: int, act: P::Act, post: &Self) -> bool {
        let c = self.cut_arena(child, parent);
        let fr = if child != parent && self.has_arc(child, parent) && self.has_arc(parent, child) {
            self.free@.push(arc_node(self.arcs@[child]@, parent as u32)).push(arc_node(self.arcs@[parent]@, child as u32))
        } else {
            self.free@
        };
        let (xc, xp) = (self.vertex_node@[child], self.vertex_node@[parent]);
        let d = acted_at(c, top(c, xc, c.len()), act);
        if child != parent && top(d, xc, d.len()) != top(d, xp, d.len()) {
            post.nodes@ == tours_linked(d, fr, xc, xp).0
        } else {
            post.nodes@ == d
        }
    }

    /// The aggregate of the tour of `child` once the edge to `parent` is cut: the subtree
    /// on the child side.
    pub closed spec fn subtree_agg(&self, child: int, parent: int) -> P::Agg {
        let ns = self.cut_arena(child, parent);
        ns[top(ns, self.vertex_node@[child], ns.len()) as int].agg
    }

    /// The key at the node of `v` once it is splayed.
    pub closed spec fn splayed_key(&self, v: int) -> P::Key {
        let x = self.vertex_node@[v];
        splayed(self.nodes@, x)[x as int].key
    }

    /// `post` is this tree with the node of `v` splayed, its key set to `k` and its count and
    /// aggregate recomputed.
    pub closed spec fn key_written(&self, v: int, k: P::Key, post: &Self) -> bool {
        let x = self.vertex_node@[v];
        post.nodes@ == pulled_at(keyed(splayed(self.nodes@, x), x, k), x)
    }

    /// `post` is this tree with the node of `v` splayed, and `k` the key found there.
    pub closed spec fn key_read(&self, v: int, post: &Self, k: P::Key) -> bool {
        let x = self.vertex_node@[v];
        post.nodes@ == splayed(self.nodes@, x) && k == splayed(self.nodes@, x)[x as int].key
    }

    /// The root of the splay tree holding the tour of `v`.
    closed spec fn tour_root(&self, v: int) -> Id {
        top(self.nodes@, self.vertex_node@[v], self.nodes.len() as nat)
    }

    /// The aggregate of the whole tour of `v`, kept at the root of its splay tree.
    pub closed spec fn tour_agg(&self, v: int) -> P::Agg {
        self.nodes@[self.tour_root(v) as int].agg
    }

    /// The number of vertices on the tour of `v`, kept at the root of its splay tree.
    pub closed spec fn tour_size(&self, v: int) -> u32 {
        self.nodes@[self.tour_root(v) as int].v_cnt
    }

    /// `post` is this tree with `act` applied, lazily, to the whole tour of `v`.
    pub closed spec fn tour_acted(&self, v: int, act: P::Act, post: &Self) -> bool {
        post.nodes@ == acted_at(self.nodes@, self.tour_root(v), act)
    }

    /// Whether the arena has room for the two arc nodes of one more edge.
    pub fn has_room(&self) -> (r: bool)
        ensures
            r == self.room(),
    {
        self.nodes.len() < u32::MAX as usize - 2
    }

    /// Room in the arena for the two arc nodes of one more edge.
    pub closed spec fn room(&self) -> bool {
        self.nodes.len() + 2 < u32::MAX
    }

    pub fn new(values: &[P::Key]) -> (r: Self)
        requires
            values@.len() < u32::MAX / 4,
        ensures
            r.inv(),
            r.room(),
            r.vertex_count() == values@.len(),
            r.isolated(),
            forall|i: int| 0 <= i < values@.len() ==> #[trigger] r.stored_key(i) == values@[i],
    {
        let n = values.len();
        let mut nodes: Vec<Node<P>> = Vec::with_capacity(n * 3);
        let mut vertex_node: Vec<Id> = Vec::with_capacity(n);
        let mut i: usize = 0;
        while i < n
            invariant
                n == values@.len() < u32::MAX / 4,
                i <= n,
                nodes.len() == i,
                vertex_node.len() == i,
                all_ok::<P>(nodes@, 0),
                forall|j: int| 0 <= j < vertex_node.len() ==> #[trigger] vertex_node@[j] == j,
                forall|j: int| 0 <= j < nodes.len() ==> {
                    let m = #[trigger] nodes@[j];
                    m.ch[0] == u32::MAX && m.ch[1] == u32::MAX && m.p == u32::MAX && m.key == values@[j]
                },
            decreases n - i,
        {
            let id = nodes.len() as Id;
            nodes.push(Node::<P>::new_vertex(P::key_copy(&values[i])));
            vertex_node.push(id);
            i += 1;
        }
        let mut arcs: Vec<Vec<(u32, Id)>> = Vec::with_capacity(n);
        let mut j: usize = 0;
        while j < n
            invariant
                j <= n,
                arcs.len() == j,
                forall|a: int| 0 <= a < arcs.len() ==> (#[trigger] arcs@[a]).len() == 0,
            decreases n - j,
        {
            arcs.push(Vec::new());
            j += 1;
        }
        proof {
            lemma_grow_ok::<P>(nodes@, 0, nodes.len() as nat);
        }
        Self { nodes, vertex_node, arcs, free: Vec::new(), stack: Vec::with_capacity(n) }
    }

    pub fn len(&self) -> (r: usize)
        ensures
            r == self.vertex_count(),
    {
        self.vertex_node.len()
    }

    pub fn is_empty(&self) -> (r: bool)
        ensures
            r == (self.vertex_count() == 0),
    {
        self.vertex_node.len() == 0
    }

    fn node(&self, x: Id) -> (r: &Node<P>)
        requires
            is_node(x, self.nodes.len() as nat),
        ensures
            *r == self.nodes@[x as int],
    {
        &self.nodes[idx(x)]
    }

    fn node_mut(&mut self, x: Id) -> (r: &mut Node<P>)
        requires
            is_node(x, old(self).nodes.len() as nat),
        ensures
            *r == old(self).nodes@[x as int],
            final(self).nodes@ == old(self).nodes@.update(x as int, *final(r)),
            final(self).vertex_node == old(self).vertex_node,
            final(self).arcs == old(self).arcs,
            final(self).free == old(self).free,
            final(self).stack == old(self).stack,
    {
        &mut self.nodes[idx(x)]
    }

    fn v_cnt(&self, x: Id) -> (r: u32)
        requires
            ok_id(x, self.nodes.len() as nat),
        ensures
            r == v_cnt_at(self.nodes@, x),
    {
        if x == NIL {
            0
        } else {
            self.node(x).v_cnt
        }
    }

    fn agg(&self, x: Id) -> (r: P::Agg)
        requires
            ok_id(x, self.nodes.len() as nat),
        ensures
            r == agg_at(self.nodes@, x),
    {
        if x == NIL {
            P::agg_unit()
        } else {
            P::agg_copy(&self.node(x).agg)
        }
    }

    /// The arena keeps its size; vertices, arcs and free list stay.
    pub closed spec fn same_shape(&self, other: &Self) -> bool {
        &&& self.nodes.len() == other.nodes.len()
        &&& self.vertex_node == other.vertex_node
        &&& self.arcs == other.arcs
        &&& self.free == other.free
    }

    /// Recompute the vertex count and aggregate of `x` from its children.
    fn pull(&mut self, x: Id)
        requires
            old(self).inv(),
            is_node(x, old(self).nodes.len() as nat),
        ensures
            final(self).inv(),
            final(self).same_shape(old(self)),
            final(self).stack == old(self).stack,
            forall|i: int| 0 <= i < final(self).nodes.len() ==> (#[trigger] final(self).nodes@[i]).p == old(self).nodes@[i].p,
            final(self).nodes@ == pulled_at(old(self).nodes@, x),
    {
        proof {
            assert(node_ok::<P>(self.nodes@[x as int], self.nodes.len() as nat));
        }
        let l = self.node(x).ch[0];
        let r = self.node(x).ch[1];
        let is_vertex = self.node(x).is_vertex;
        let key = P::key_copy(&self.node(x).key);
        let v_cnt = self.v_cnt(l).wrapping_add(self.v_cnt(r)).wrapping_add(if is_vertex { 1 } else { 0 });
        let agg = P::agg_merge(&self.agg(l), &key, &self.agg(r));
        let ghost n0 = self.nodes@;
        let nx = self.node_mut(x);
        nx.v_cnt = v_cnt;
        nx.agg = agg;
        proof {
            lemma_update_ok::<P>(n0, n0.len() as nat, x as int, self.nodes@[x as int]);
        }
    }

    /// Apply `act` to the splay tree under `x`, lazily.
    fn apply_act(&mut self, x: Id, act: P::Act)
        requires
            old(self).inv(),
            ok_id(x, old(self).nodes.len() as nat),
        ensures
            final(self).inv(),
            final(self).same_shape(old(self)),
            final(self).stack == old(self).stack,
            forall|i: int| 0 <= i < final(self).nodes.len() ==> (#[trigger] final(self).nodes@[i]).p == old(self).nodes@[i].p,
            final(self).nodes@ == acted_at(old(self).nodes@, x, act),
    {
        if x == NIL {
            return;
        }
        proof {
            assert(node_ok::<P>(self.nodes@[x as int], self.nodes.len() as nat));
        }
        let len = self.node(x).v_cnt as usize;
        let ghost n0 = self.nodes@;
        let nx = self.node_mut(x);
        if nx.is_vertex {
            nx.key = P::act_apply_key(&nx.key, &act);
        }
        nx.agg = P::act_apply_agg(&nx.agg, &act, len);
        if nx.lazy_pending {
            nx.lazy = P::act_compose(&act, &nx.lazy);
        } else {
            nx.lazy = act;
            nx.lazy_pending = true;
        }
        proof {
            lemma_update_ok::<P>(n0, n0.len() as nat, x as int, self.nodes@[x as int]);
        }
    }

    /// Hand the pending action of `x` down to its children.
    fn push(&mut self, x: Id)
        requires
            old(self).inv(),
            ok_id(x, old(self).nodes.len() as nat),
        ensures
            final(self).inv(),
            final(self).same_shape(old(self)),
            final(self).stack == old(self).stack,
            forall|i: int| 0 <= i < final(self).nodes.len() ==> (#[trigger] final(self).nodes@[i]).p == old(self).nodes@[i].p,
            final(self).nodes@ == pushed_at(old(self).nodes@, x),
    {
        if x == NIL {
            return;
        }
        proof {
            assert(node_ok::<P>(self.nodes@[x as int], self.nodes.len() as nat));
        }
        let pending = self.node(x).lazy_pending;
        let lazy = P::act_copy(&self.node(x).lazy);
        let l = self.node(x).ch[0];
        let r = self.node(x).ch[1];
        if !pending {
            return;
        }
        self.apply_act(l, P::act_copy(&lazy));
        self.apply_act(r, lazy);
        let ghost n0 = self.nodes@;
        proof {
            assert(node_ok::<P>(n0[x as int], n0.len() as nat));
        }
        let nx = self.node_mut(x);
        nx.lazy = P::act_unit();
        nx.lazy_pending = false;
        proof {
            lemma_update_ok::<P>(n0, n0.len() as nat, x as int, self.nodes@[x as int]);
        }
    }

    /// Set one link of node `x`.
    fn set_child(&mut self, x: Id, dir: usize, c: Id)
        requires
            old(self).inv(),
            is_node(x, old(self).nodes.len() as nat),
            dir < 2,
            ok_id(c, old(self).nodes.len() as nat),
        ensures
            final(self).inv(),
            final(self).same_shape(old(self)),
            final(self).stack == old(self).stack,
            final(self).nodes@ == old(self).nodes@.update(x as int, Node { ch: if dir == 0 { [c, old(self).nodes@[x as int].ch[1]] } else { [old(self).nodes@[x as int].ch[0], c] }, ..old(self).nodes@[x as int] }),
    {
        let ghost n0 = self.nodes@;
        proof {
            assert(node_ok::<P>(n0[x as int], n0.len() as nat));
        }
        self.node_mut(x).ch[dir] = c;
        proof {
            lemma_update_ok::<P>(n0, n0.len() as nat, x as int, self.nodes@[x as int]);
            let want = Node::<P> {
                ch: if dir == 0 { [c, n0[x as int].ch[1]] } else { [n0[x as int].ch[0], c] },
                ..n0[x as int]
            };
            assert(self.nodes@[x as int].ch =~= want.ch);
            assert(self.nodes@ =~= n0.update(x as int, want));
        }
    }

    /// Set the parent link of node `x`.
    fn set_parent(&mut self, x: Id, p: Id)
        requires
            old(self).inv(),
            is_node(x, old(self).nodes.len() as nat),
            ok_id(p, old(self).nodes.len() as nat),
        ensures
            final(self).inv(),
            final(self).same_shape(old(self)),
            final(self).stack == old(self).stack,
            final(self).nodes@ == old(self).nodes@.update(x as int, Node { p, ..old(self).nodes@[x as int] }),
    {
        let ghost n0 = self.nodes@;
        proof {
            assert(node_ok::<P>(n0[x as int], n0.len() as nat));
        }
        self.node_mut(x).p = p;
        proof {
            lemma_update_ok::<P>(n0, n0.len() as nat, x as int, self.nodes@[x as int]);
        }
    }

    /// Push the pending actions on the way from the root of the splay tree of `x` down to `x`.
    fn push_path(&mut self, x: Id)
        requires
            old(self).inv(),
            is_node(x, old(self).nodes.len() as nat),
        ensures
            final(self).inv(),
            final(self).same_shape(old(self)),
            final(self).nodes@ == push_down(old(self).nodes@, climb(old(self).nodes@, x, (old(self).nodes.len() - 1) as nat)),
    {
        let ghost n = self.nodes.len() as nat;
        let ghost s0 = *self;
        let ghost ns = self.nodes@;
        self.stack.clear();
        let mut y = x;
        self.stack.push(y);
        while self.node(y).p != NIL && self.stack.len() < self.nodes.len()
            invariant
                self.inv(),
                self.same_shape(&s0),
                self.nodes.len() == n,
                is_node(y, n),
                1 <= self.stack.len() <= n,
                forall|i: int| 0 <= i < self.stack.len() ==> is_node(#[trigger] self.stack@[i], n),
                self.nodes@ == ns,
                self.stack@.last() == y,
                self.stack@.drop_last() + climb(ns, y, (n - self.stack.len()) as nat) == climb(ns, x, (n - 1) as nat),
            decreases n - self.stack.len(),
        {
            proof {
                assert(node_ok::<P>(self.nodes@[y as int], n));
            }
            let ghost st0 = self.stack@;
            let ghost y0 = y;
            y = self.node(y).p;
            self.stack.push(y);
            proof {
                assert(climb(ns, y0, (n - st0.len()) as nat) == seq![y0] + climb(ns, y, (n - self.stack.len()) as nat));
                assert(self.stack@.drop_last() =~= st0.drop_last() + seq![y0]);
                assert(st0.drop_last() + (seq![y0] + climb(ns, y, (n - self.stack.len()) as nat)) =~= self.stack@.drop_last() + climb(ns, y, (n - self.stack.len()) as nat));
            }
        }
        proof {
            assert(climb(ns, y, (n - self.stack.len()) as nat) == seq![y]);
            assert(self.stack@ =~= self.stack@.drop_last() + seq![y]);
        }
        let ghost st = self.stack@;
        let mut i = self.stack.len();
        while i > 0
            invariant
                self.inv(),
                self.same_shape(&s0),
                self.nodes.len() == n,
                i <= self.stack.len(),
                forall|j: int| 0 <= j < self.stack.len() ==> is_node(#[trigger] self.stack@[j], n),
                self.stack@ == st,
                self.nodes@ == push_down(ns, st.subrange(i as int, st.len() as int)),
            decreases i,
        {
            i -= 1;
            let v = self.stack[i];
            proof {
                let t = st.subrange(i as int, st.len() as int);
                assert(t.drop_first() =~= st.subrange(i + 1, st.len() as int));
            }
            self.push(v);
        }
        proof {
            assert(st.subrange(0, st.len() as int) =~= st);
        }
    }

    /// Rotate `x` above its parent.
    #[verifier::rlimit(100)]
    #[verifier::spinoff_prover]
    fn rotate(&mut self, x: Id)
        requires
            old(self).inv(),
            is_node(x, old(self).nodes.len() as nat),
            is_node(old(self).nodes@[x as int].p, old(self).nodes.len() as nat),
        ensures
            final(self).inv(),
            final(self).same_shape(old(self)),
            final(self).stack == old(self).stack,
            final(self).nodes@ == rotated(old(self).nodes@, x),
    {
        let ghost n = self.nodes.len() as nat;
        let p = self.node(x).p;
        proof {
            assert(node_ok::<P>(self.nodes@[p as int], n));
        }
        let g = self.node(p).p;
        self.push(p);
        self.push(x);
        proof {
            assert(node_ok::<P>(self.nodes@[x as int], n));
        }
        let dir: usize = if self.node(p).ch[1] == x { 1 } else { 0 };
        let b = self.node(x).ch[1 - dir];
        if g != NIL {
            if self.node(g).ch[0] == p {
                self.set_child(g, 0, x);
            } else {
                self.set_child(g, 1, x);
            }
        }
        self.set_parent(x, g);
        self.set_child(x, 1 - dir, p);
        self.set_parent(p, x);
        self.set_child(p, dir, b);
        if b != NIL {
            self.set_parent(b, p);
        }
        self.pull(p);
        self.pull(x);
    }

    /// Bring `x` to the root of its splay tree.
    fn splay(&mut self, x: Id)
        requires
            old(self).inv(),
            is_node(x, old(self).nodes.len() as nat),
        ensures
            final(self).inv(),
            final(self).same_shape(old(self)),
            final(self).nodes@ == splayed(old(self).nodes@, x),
    {
        let ghost n = self.nodes.len() as nat;
        let ghost s0 = *self;
        let ghost goal = splayed(self.nodes@, x);
        self.push_path(x);
        let mut steps: usize = 0;
        while self.node(x).p != NIL && steps < self.nodes.len()
            invariant
                self.inv(),
                self.same_shape(&s0),
                self.nodes.len() == n,
                is_node(x, n),
                steps <= n,
                splay_rounds(self.nodes@, x, (n - steps) as nat) == goal,
            decreases n - steps,
        {
            let ghost before = self.nodes@;
            proof {
                assert(node_ok::<P>(self.nodes@[x as int], n));
            }
            let p = self.node(x).p;
            proof {
                assert(node_ok::<P>(self.nodes@[p as int], n));
            }
            let g = self.node(p).p;
            if g == NIL {
                self.rotate(x);
            } else {
                let zigzig = (self.node(g).ch[0] == p) == (self.node(p).ch[0] == x);
                if zigzig {
                    self.rotate(p);
                    proof {
                        assert(node_ok::<P>(self.nodes@[x as int], n));
                    }
                    if self.node(x).p != NIL {
                        self.rotate(x);
                    }
                } else {
                    self.rotate(x);
                    proof {
                        assert(node_ok::<P>(self.nodes@[x as int], n));
                    }
                    if self.node(x).p != NIL {
                        self.rotate(x);
                    }
                }
            }
            proof {
                assert(self.nodes@ == splay_round(before, x));
            }
            steps += 1;
        }
    }

    /// Split the sequence of `x` just before `x`: the part before it, and the part from it on.
    fn split_at_node(&mut self, x: Id) -> (r: (Id, Id))
        requires
            old(self).inv(),
            is_node(x, old(self).nodes.len() as nat),
        ensures
            final(self).inv(),
            final(self).same_shape(old(self)),
            ok_id(r.0, final(self).nodes.len() as nat),
            r.1 == x,
            (final(self).nodes@, r.0) == split_at(old(self).nodes@, x),
    {
        self.splay(x);
        proof {
            assert(node_ok::<P>(self.nodes@[x as int], self.nodes.len() as nat));
        }
        let left = self.node(x).ch[0];
        if left != NIL {
            self.set_parent(left, NIL);
        }
        self.set_child(x, 0, NIL);
        self.pull(x);
        (left, x)
    }

    /// Concatenate the sequences rooted at `a` and `b`.
    fn merge(&mut self, a: Id, b: Id) -> (r: Id)
        requires
            old(self).inv(),
            ok_id(a, old(self).nodes.len() as nat),
            ok_id(b, old(self).nodes.len() as nat),
        ensures
            final(self).inv(),
            final(self).same_shape(old(self)),
            ok_id(r, final(self).nodes.len() as nat),
            a == NIL ==> r == b,
            a != NIL && b == NIL ==> r == a,
            a != NIL && b != NIL ==> r != NIL && final(self).nodes@[r as int].ch[1] == b && final(self).nodes@[b as int].p == r,
            (final(self).nodes@, r) == merged(old(self).nodes@, a, b),
    {
        let ghost n = self.nodes.len() as nat;
        let ghost s0 = *self;
        if a == NIL {
            return b;
        }
        if b == NIL {
            return a;
        }
        let mut x = a;
        let mut steps: usize = 0;
        while self.node(x).ch[1] != NIL && steps < self.nodes.len()
            invariant
                self.inv(),
                self.same_shape(&s0),
                self.nodes.len() == n,
                is_node(x, n),
                self.nodes@ == s0.nodes@,
                steps <= n,
                rightmost(s0.nodes@, x, (n - steps) as nat) == rightmost(s0.nodes@, a, n),
            decreases n - steps,
        {
            proof {
                assert(node_ok::<P>(self.nodes@[x as int], n));
            }
            x = self.node(x).ch[1];
            steps += 1;
        }
        self.splay(x);
        self.set_child(x, 1, b);
        self.set_parent(b, x);
        self.pull(x);
        x
    }

    /// Split off the first node of the sequence rooted at `root`.
    fn pop_front(&mut self, root: Id) -> (r: (Id, Id))
        requires
            old(self).inv(),
            ok_id(root, old(self).nodes.len() as nat),
        ensures
            final(self).inv(),
            final(self).same_shape(old(self)),
            ok_id(r.0, final(self).nodes.len() as nat),
            ok_id(r.1, final(self).nodes.len() as nat),
            (final(self).nodes@, r.0, r.1) == front_popped(old(self).nodes@, root),
    {
        let ghost n = self.nodes.len() as nat;
        let ghost s0 = *self;
        if root == NIL {
            return (NIL, NIL);
        }
        let mut x = root;
        let mut steps: usize = 0;
        while self.node(x).ch[0] != NIL && steps < self.nodes.len()
            invariant
                self.inv(),
                self.same_shape(&s0),
                self.nodes.len() == n,
                is_node(x, n),
                self.nodes@ == s0.nodes@,
                steps <= n,
                leftmost(s0.nodes@, x, (n - steps) as nat) == leftmost(s0.nodes@, root, n),
            decreases n - steps,
        {
            proof {
                assert(node_ok::<P>(self.nodes@[x as int], n));
            }
            x = self.node(x).ch[0];
            steps += 1;
        }
        self.splay(x);
        proof {
            assert(node_ok::<P>(self.nodes@[x as int], n));
        }
        let right = self.node(x).ch[1];
        if right != NIL {
            self.set_parent(right, NIL);
        }
        self.set_child(x, 1, NIL);
        self.pull(x);
        self.set_parent(x, NIL);
        (x, right)
    }

    /// Rotate the tour so that it starts at `x`.
    fn reroot(&mut self, x: Id) -> (r: Id)
        requires
            old(self).inv(),
            is_node(x, old(self).nodes.len() as nat),
        ensures
            final(self).inv(),
            final(self).same_shape(old(self)),
            ok_id(r, final(self).nodes.len() as nat),
            (final(self).nodes@, r) == tour_rerooted(old(self).nodes@, x),
    {
        let (l, r) = self.split_at_node(x);
        self.merge(r, l)
    }

    /// The root of the splay tree holding `x`.
    fn root_of(&self, x: Id) -> (r: Id)
        requires
            self.inv(),
            is_node(x, self.nodes.len() as nat),
        ensures
            is_node(r, self.nodes.len() as nat),
            exists|k: nat| #[trigger] up(self.nodes@, x, k) == r && (self.nodes@[r as int].p == NIL || k >= self.nodes.len()),
            r == top(self.nodes@, x, self.nodes.len() as nat),
    {
        let ghost x0 = x;
        let mut x = x;
        let mut steps: usize = 0;
        while self.node(x).p != NIL && steps < self.nodes.len()
            invariant
                self.inv(),
                is_node(x, self.nodes.len() as nat),
                x == up(self.nodes@, x0, steps as nat),
                steps <= self.nodes.len(),
                top(self.nodes@, x, (self.nodes.len() - steps) as nat) == top(self.nodes@, x0, self.nodes.len() as nat),
            decreases self.nodes.len() - steps,
        {
            proof {
                assert(node_ok::<P>(self.nodes@[x as int], self.nodes.len() as nat));
            }
            x = self.node(x).p;
            steps += 1;
        }
        proof {
            assert(up(self.nodes@, x0, steps as nat) == x);
        }
        x
    }

    /// A fresh arc node, from the free list if it has one.
    fn new_arc_node(&mut self) -> (r: Id)
        requires
            old(self).inv(),
            old(self).nodes.len() + 1 < u32::MAX,
        ensures
            final(self).inv(),
            is_node(r, final(self).nodes.len() as nat),
            final(self).vertex_node == old(self).vertex_node,
            final(self).arcs == old(self).arcs,
            final(self).nodes.len() <= old(self).nodes.len() + 1,
            final(self).nodes.len() >= old(self).nodes.len(),
            final(self).free.len() + 1 >= old(self).free.len(),
            old(self).free.len() > 0 ==> final(self).nodes.len() == old(self).nodes.len()
                && final(self).free.len() + 1 == old(self).free.len(),
            (final(self).nodes@, final(self).free@, r) == arc_alloc(old(self).nodes@, old(self).free@),
    {
        let ghost n = self.nodes.len() as nat;
        match self.free.pop() {
            Some(id) => {
                let ghost n0 = self.nodes@;
                let fresh = Node::<P>::new_arc();
                *self.node_mut(id) = fresh;
                proof {
                    lemma_update_ok::<P>(n0, n, id as int, fresh);
                }
                return id;
            },
            None => {},
        }
        let id = self.nodes.len() as Id;
        self.nodes.push(Node::<P>::new_arc());
        proof {
            let m = self.nodes.len() as nat;
            lemma_grow_ok::<P>(self.nodes@.drop_last(), n, m);
            assert(self.nodes@.drop_last() == self.nodes@.subrange(0, n as int));
            assert forall|i: int| 0 <= i < self.nodes.len() implies #[trigger] node_ok::<P>(self.nodes@[i], m) by {
                if i < n {
                    assert(node_ok::<P>(self.nodes@.drop_last()[i], m));
                }
            }
        }
        id
    }

    /// Remove the arc `u -> v` from the arc list of `u`, if it is there, and give its node.
    fn remove_arc_opt(&mut self, u: usize, v: usize) -> (r: Option<Id>)
        requires
            old(self).inv(),
            u < old(self).vertex_count(),
        ensures
            final(self).inv(),
            final(self).nodes == old(self).nodes,
            final(self).vertex_node == old(self).vertex_node,
            final(self).free == old(self).free,
            r matches Some(x) ==> is_node(x, final(self).nodes.len() as nat),
            (r is Some) == (exists|i: int| 0 <= i < old(self).arcs@[u as int]@.len() && #[trigger] old(self).arcs@[u as int]@[i].0 == v as u32),
            r is None ==> final(self).arcs == old(self).arcs,
            r matches Some(x) ==> x == arc_node(old(self).arcs@[u as int]@, v as u32),
            r matches Some(x) ==> exists|i: int|
                #![trigger old(self).arcs@[u as int]@[i]]
                {
                    &&& 0 <= i < old(self).arcs@[u as int]@.len()
                    &&& old(self).arcs@[u as int]@[i] == (v as u32, x)
                    &&& forall|j: int| 0 <= j < i ==> old(self).arcs@[u as int]@[j].0 != v as u32
                    &&& final(self).arcs@ == old(self).arcs@.update(u as int, final(self).arcs@[u as int])
                    &&& final(self).arcs@[u as int]@ == old(self).arcs@[u as int]@.update(
                        i,
                        old(self).arcs@[u as int]@.last(),
                    ).drop_last()
                },
    {
        let ghost n = self.nodes.len() as nat;
        let v = v as u32;
        let mut i: usize = 0;
        let len = self.arcs[u].len();
        let mut found = false;
        while i < len && !found
            invariant
                u < self.arcs@.len(),
                len == self.arcs@[u as int].len(),
                i <= len,
                found ==> i < len,
                found ==> self.arcs@[u as int]@[i as int].0 == v,
                forall|j: int| 0 <= j < i ==> self.arcs@[u as int]@[j].0 != v,
            decreases len - i, if found { 0int } else { 1int },
        {
            if self.arcs[u][i].0 == v {
                found = true;
            } else {
                i += 1;
            }
        }
        if !found {
            return None;
        }
        let ghost a0 = self.arcs@;
        let ghost i0 = i as int;
        let (_to, node) = self.arcs[u].swap_remove(i);
        proof {
            assert(is_node(a0[u as int]@[i as int].1, n));
            assert forall|a: int, b: int| 0 <= a < self.arcs.len() && 0 <= b < self.arcs@[a].len()
                implies is_node(#[trigger] self.arcs@[a]@[b].1, n) by {
                if a != u {
                    assert(self.arcs@[a] == a0[a]);
                } else {
                    let old_list = a0[u as int]@;
                    let l = self.arcs@[a]@;
                    if b == i as int {
                        assert(l[b] == old_list[old_list.len() - 1]);
                    } else {
                        assert(l[b] == old_list[b]);
                    }
                }
            }
        }
        proof {
            assert(a0[u as int]@[i0] == (v, node));
            let l = a0[u as int]@;
            assert(first_arc(l, v, i0));
            let c = choose|i: int| first_arc(l, v, i);
            assert(first_arc(l, v, c));
            if c < i0 {
                assert(l[c].0 != v);
            } else if c > i0 {
                assert(l[i0].0 == v);
            }
            assert(c == i0);
        }
        Some(node)
    }

    pub fn connected(&mut self, u: usize, v: usize) -> (r: bool)
        requires
            old(self).inv(),
            u < old(self).vertex_count(),
            v < old(self).vertex_count(),
        ensures
            *final(self) == *old(self),
            u == v ==> r,
            u != v ==> r == old(self).same_tour(u as int, v as int),
    {
        if u == v {
            return true;
        }
        let ru = self.root_of(self.vertex_node[u]);
        let rv = self.root_of(self.vertex_node[v]);
        ru == rv
    }

    pub fn link(&mut self, u: usize, v: usize) -> (r: bool)
        requires
            old(self).inv(),
            old(self).room(),
            u < old(self).vertex_count(),
            v < old(self).vertex_count(),
        ensures
            final(self).inv(),
            final(self).vertex_count() == old(self).vertex_count(),
            u == v ==> !r,
            !r ==> *final(self) == *old(self),
            u != v ==> r == !old(self).same_tour(u as int, v as int),
            r ==> old(self).arcs_added(u as int, v as int, final(self)),
            r ==> old(self).tours_joined(u as int, v as int, final(self)),
    {
        if u == v {
            return false;
        }
        if self.connected(u, v) {
            return false;
        }
        let ru = self.reroot(self.vertex_node[u]);
        let rv = self.reroot(self.vertex_node[v]);
        let a = self.new_arc_node();
        let b = self.new_arc_node();
        let ghost n = self.nodes.len() as nat;
        let ghost a0 = self.arcs@;
        self.arcs[u].push((v as u32, a));
        self.arcs[v].push((u as u32, b));
        proof {
            assert forall|x: int, y: int| 0 <= x < self.arcs.len() && 0 <= y < self.arcs@[x].len()
                implies is_node(#[trigger] self.arcs@[x]@[y].1, n) by {
                if x != u && x != v {
                    assert(self.arcs@[x] == a0[x]);
                } else if y < a0[x].len() {
                    assert(self.arcs@[x]@[y] == a0[x]@[y]);
                } else if x == u {
                    assert(self.arcs@[x]@[y].1 == a);
                } else {
                    assert(self.arcs@[x]@[y].1 == b);
                }
            }
        }
        proof {
            assert(self.arcs@[u as int]@ =~= a0[u as int]@.push((v as u32, a)));
            assert(self.arcs@[v as int]@ =~= a0[v as int]@.push((u as u32, b)));
        }
        let ghost s1 = *self;
        let t = self.merge(ru, a);
        let t = self.merge(t, rv);
        let _t = self.merge(t, b);
        proof {
            assert(self.arcs == s1.arcs);
            assert(old(self).arcs_added(u as int, v as int, &s1));
        }
        true
    }

    pub fn cut(&mut self, u: usize, v: usize) -> (r: bool)
        requires
            old(self).inv(),
            u < old(self).vertex_count(),
            v < old(self).vertex_count(),
        ensures
            final(self).inv(),
            final(self).vertex_count() == old(self).vertex_count(),
            old(self).room() ==> final(self).room(),
            u == v ==> !r,
            r == (u != v && old(self).has_arc(u as int, v as int) && old(self).has_arc(v as int, u as int)),
            old(self).cut_result(u as int, v as int, final(self)),
    {
        if u == v {
            return false;
        }
        let arc_uv = match self.remove_arc_opt(u, v) {
            Some(node) => node,
            None => return false,
        };
        proof {
            assert(self.arcs@[v as int] == old(self).arcs@[v as int]);
        }
        let ghost mid = *self;
        let arc_vu = match self.remove_arc_opt(v, u) {
            Some(node) => node,
            None => {
                // the arcs of an edge come in pairs; put this one back
                proof {
                    assert(!mid.has_arc(v as int, u as int));
                    assert(!old(self).has_arc(v as int, u as int));
                }
                let ghost n = self.nodes.len() as nat;
                let ghost a0 = self.arcs@;
                self.arcs[u].push((v as u32, arc_uv));
                proof {
                    assert forall|x: int, y: int| 0 <= x < self.arcs.len() && 0 <= y < self.arcs@[x].len()
                        implies is_node(#[trigger] self.arcs@[x]@[y].1, n) by {
                        if x != u {
                            assert(self.arcs@[x] == a0[x]);
                        } else if y < a0[x].len() {
                            assert(self.arcs@[x]@[y] == a0[x]@[y]);
                        } else {
                            assert(self.arcs@[x]@[y].1 == arc_uv);
                        }
                    }
                }
                return false;
            },
        };
        let t = self.reroot(arc_uv);
        let (_removed, rest) = self.pop_front(t);
        let (x, y) = self.split_at_node(arc_vu);
        let (_removed2, y2) = self.pop_front(y);
        let _ = (x, y2, rest);
        self.free.push(arc_uv);
        self.free.push(arc_vu);
        true
    }

    /// Every vertex stands alone: each vertex node has no parent and no child, and no arc is
    /// recorded.
    pub closed spec fn isolated(&self) -> bool {
        &&& forall|i: int| 0 <= i < self.vertex_node.len() ==> {
            let m = #[trigger] self.nodes@[self.vertex_node@[i] as int];
            m.ch[0] == u32::MAX && m.ch[1] == u32::MAX && m.p == u32::MAX
        }
        &&& forall|i: int| 0 <= i < self.arcs.len() ==> (#[trigger] self.arcs@[i]).len() == 0
    }

    /// The key stored at the node of vertex `v`.
    pub closed spec fn stored_key(&self, v: int) -> P::Key {
        self.nodes@[self.vertex_node@[v] as int].key
    }

    pub fn vertex_get(&mut self, v: usize) -> (r: P::Key)
        requires
            old(self).inv(),
            v < old(self).vertex_count(),
        ensures
            final(self).inv(),
            final(self).same_shape(old(self)),
            old(self).key_read(v as int, final(self), r),
    {
        let x = self.vertex_node[v];
        self.splay(x);
        P::key_copy(&self.node(x).key)
    }

    pub fn vertex_set(&mut self, v: usize, key: P::Key)
        requires
            old(self).inv(),
            v < old(self).vertex_count(),
        ensures
            final(self).inv(),
            final(self).same_shape(old(self)),
            final(self).stored_key(v as int) == key,
            old(self).key_written(v as int, key, final(self)),
    {
        let x = self.vertex_node[v];
        self.splay(x);
        let ghost n0 = self.nodes@;
        proof {
            assert(node_ok::<P>(n0[x as int], n0.len() as nat));
        }
        self.node_mut(x).key = key;
        proof {
            lemma_update_ok::<P>(n0, n0.len() as nat, x as int, self.nodes@[x as int]);
        }
        self.pull(x);
    }

    pub fn vertex_apply(&mut self, v: usize, act: P::Act)
        requires
            old(self).inv(),
            v < old(self).vertex_count(),
        ensures
            final(self).inv(),
            final(self).same_shape(old(self)),
            old(self).key_written(v as int, P::spec_act_apply_key(old(self).splayed_key(v as int), act), final(self)),
    {
        let x = self.vertex_node[v];
        self.splay(x);
        let key = P::key_copy(&self.node(x).key);
        let ghost n0 = self.nodes@;
        proof {
            assert(node_ok::<P>(n0[x as int], n0.len() as nat));
        }
        self.node_mut(x).key = P::act_apply_key(&key, &act);
        proof {
            lemma_update_ok::<P>(n0, n0.len() as nat, x as int, self.nodes@[x as int]);
        }
        self.pull(x);
    }

    pub fn component_fold(&mut self, v: usize) -> (r: P::Agg)
        requires
            old(self).inv(),
            v < old(self).vertex_count(),
        ensures
            *final(self) == *old(self),
            r == old(self).tour_agg(v as int),
    {
        let r = self.root_of(self.vertex_node[v]);
        P::agg_copy(&self.node(r).agg)
    }

    pub fn component_apply(&mut self, v: usize, act: P::Act)
        requires
            old(self).inv(),
            v < old(self).vertex_count(),
        ensures
            final(self).inv(),
            final(self).same_shape(old(self)),
            old(self).tour_acted(v as int, act, final(self)),
    {
        let r = self.root_of(self.vertex_node[v]);
        self.apply_act(r, act);
    }

    pub fn component_size(&mut self, v: usize) -> (r: usize)
        requires
            old(self).inv(),
            v < old(self).vertex_count(),
        ensures
            *final(self) == *old(self),
            r == old(self).tour_size(v as int),
    {
        let r = self.root_of(self.vertex_node[v]);
        self.node(r).v_cnt as usize
    }

    /// Fold the subtree on the `child` side of the edge `(child, parent)`.
    pub fn subtree_fold(&mut self, child: usize, parent: usize) -> (r: P::Agg)
        requires
            old(self).inv(),
            old(self).room(),
            child < old(self).vertex_count(),
            parent < old(self).vertex_count(),
        ensures
            final(self).inv(),
            final(self).vertex_count() == old(self).vertex_count(),
            r == old(self).subtree_agg(child as int, parent as int),
    {
        let _ok = self.cut(child, parent);
        let res = self.component_fold(child);
        let _ok2 = self.link(child, parent);
        res
    }

    /// Apply to the subtree on the `child` side of the edge `(child, parent)`.
    pub fn subtree_apply(&mut self, child: usize, parent: usize, act: P::Act)
        requires
            old(self).inv(),
            old(self).room(),
            child < old(self).vertex_count(),
            parent < old(self).vertex_count(),
        ensures
            final(self).inv(),
            final(self).vertex_count() == old(self).vertex_count(),
            old(self).subtree_acted(child as int, parent as int, act, final(self)),
    {
        let _ok = self.cut(child, parent);
        self.component_apply(child, act);
        let _ok2 = self.link(child, parent);
    }
}

impl EulerTourTree<VertexSumAdd> {
    pub fn vertex_add(&mut self, v: usize, delta: i64)
        requires
            old(self).inv(),
            v < old(self).vertex_count(),
        ensures
            final(self).inv(),
            final(self).same_shape(old(self)),
            old(self).key_written(v as int, wrap64(old(self).splayed_key(v as int) + delta), final(self)),
    {
        self.vertex_apply(v, delta);
    }

    pub fn component_sum(&mut self, v: usize) -> (r: i64)
        requires
            old(self).inv(),
            v < old(self).vertex_count(),
        ensures
            *final(self) == *old(self),
            r == old(self).tour_agg(v as int),
    {
        self.component_fold(v)
    }
}

impl<P: LazyMapMonoid> DynamicForest for EulerTourTree<P> {
    type Key = P::Key;

    closed spec fn wf(&self) -> bool {
        self.inv()
    }

    closed spec fn spec_len(&self) -> nat {
        self.vertex_count()
    }

    closed spec fn has_room(&self) -> bool {
        self.room()
    }

    fn new(values: &[P::Key]) -> (r: Self) {
        Self::new(values)
    }

    fn len(&self) -> (r: usize) {
        self.len()
    }

    fn link(&mut self, u: usize, v: usize) -> (r: bool) {
        self.link(u, v)
    }

    fn cut(&mut self, u: usize, v: usize) -> (r: bool) {
        self.cut(u, v)
    }

    fn connected(&mut self, u: usize, v: usize) -> (r: bool) {
        self.connected(u, v)
    }
}

impl<P: LazyMapMonoid> VertexOps for EulerTourTree<P> {
    type Act = P::Act;

    fn vertex_get(&mut self, v: usize) -> (r: P::Key) {
        self.vertex_get(v)
    }

    fn vertex_set(&mut self, v: usize, key: P::Key) {
        self.vertex_set(v, key)
    }

    fn vertex_apply(&mut self, v: usize, act: P::Act) {
        self.vertex_apply(v, act)
    }
}

impl<P: LazyMapMonoid> ComponentOps for EulerTourTree<P> {
    type Agg = P::Agg;
    type Act = P::Act;

    fn component_fold(&mut self, v: usize) -> (r: P::Agg) {
        self.component_fold(v)
    }

    fn component_apply(&mut self, v: usize, act: P::Act) {
        self.component_apply(v, act)
    }

    fn component_size(&mut self, v: usize) -> (r: usize) {
        self.component_size(v)
    }
}

impl<P: LazyMapMonoid> SubtreeOps for EulerTourTree<P> {
    type Agg = P::Agg;
    type Act = P::Act;

    /// The arcs of the edge are recorded at both its ends.
    closed spec fn accepts_edge(&self, u: int, v: int) -> bool {
        &&& 0 <= u < self.arcs.len()
        &&& 0 <= v < self.arcs.len()
        &&& exists|j: int| 0 <= j < self.arcs@[u].len() && self.arcs@[u]@[j].0 == v
        &&& exists|j: int| 0 <= j < self.arcs@[v].len() && self.arcs@[v]@[j].0 == u
    }

    fn subtree_fold(&mut self, child: usize, parent: usize) -> (r: P::Agg) {
        self.subtree_fold(child, parent)
    }

    fn subtree_apply(&mut self, child: usize, parent: usize, act: P::Act) {
        self.subtree_apply(child, parent, act)
    }
}

} // verus!
