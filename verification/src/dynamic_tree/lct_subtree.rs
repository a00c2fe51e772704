use vstd::prelude::*;

use crate::dynamic_tree::policy::{LazyMapMonoid, VertexSumAdd};
use crate::dynamic_tree::traits::{ComponentOps, DynamicForest, PathOps, SubtreeOps, VertexOps};

verus! {

/// Index of a node in the arena; `u32::MAX` stands for no node.
#[derive(Clone, Copy, Debug, PartialEq, Eq, Structural)]
struct Id(u32);

impl Id {
    /// No node.
    fn nil() -> (r: Self)
        ensures
            r.0 == u32::MAX,
    {
        Self(u32::MAX)
    }

    fn is_nil(self) -> (r: bool)
        ensures
            r == (self.0 == u32::MAX),
    {
        self.0 == u32::MAX
    }

    fn idx(self) -> (r: usize)
        ensures
            r == self.0,
    {
        self.0 as usize
    }
}

fn id(v: usize) -> (r: Id)
    requires
        v < u32::MAX,
    ensures
        r.0 == v,
{
    Id(v as u32)
}

struct Node<P: LazyMapMonoid<Key = i64, Agg = i64, Act = i64>> {
    ch: [Id; 2],
    p: Id,
    sz: u32,
    vir_sz: u32,
    all_sz: u32,
    key: P::Key,
    /// Sum of the keys of the splay subtree.
    agg: P::Agg,
    /// Sum and size of the subtrees hanging from this node by light edges, with every pending
    /// `vir_lazy` already counted.
    vir_sum: P::Agg,
    /// Sum of the splay subtree and everything hanging from it.
    all_sum: P::Agg,
    /// Pending add to the keys of the splay subtree.
    lazy_path: P::Act,
    /// Pending add to everything the splay subtree represents.
    lazy_all: P::Act,
    /// Pending add owed to the light children, taken when one becomes a preferred child.
    vir_lazy: P::Act,
    /// The parent's `vir_lazy` when this node became its light child.
    vir_from_parent: P::Act,
    rev: bool,
    lazy_path_pending: bool,
    lazy_all_pending: bool,
}

/// `x` is no node or a node of an arena of `n` nodes.
spec fn ok_id(x: Id, n: nat) -> bool {
    x.0 == u32::MAX || x.0 < n
}

/// `x` is a node of an arena of `n` nodes.
spec fn is_node(x: Id, n: nat) -> bool {
    x.0 != u32::MAX && x.0 < n
}

/// Every link of a node stays inside an arena of `n` nodes.
spec fn node_ok<P: LazyMapMonoid<Key = i64, Agg = i64, Act = i64>>(node: Node<P>, n: nat) -> bool {
    &&& ok_id(node.ch[0], n)
    &&& ok_id(node.ch[1], n)
    &&& ok_id(node.p, n)
}

/// Every node of `s` links inside an arena of `n` nodes.
spec fn all_ok<P: LazyMapMonoid<Key = i64, Agg = i64, Act = i64>>(s: Seq<Node<P>>, n: nat) -> bool {
    forall|i: int| 0 <= i < s.len() ==> #[trigger] node_ok::<P>(s[i], n)
}

/// Replacing one node by one that links inside the arena keeps every link inside.
proof fn lemma_update_ok<P: LazyMapMonoid<Key = i64, Agg = i64, Act = i64>>(s: Seq<Node<P>>, n: nat, i: int, x: Node<P>)
    requires
        all_ok::<P>(s, n),
        node_ok::<P>(x, n),
        0 <= i < s.len(),
    ensures
        all_ok::<P>(s.update(i, x), n),
{
    assert forall|j: int| 0 <= j < s.update(i, x).len() implies #[trigger] node_ok::<P>(s.update(i, x)[j], n) by {
        if j != i {
            assert(node_ok::<P>(s[j], n));
        }
    }
}

impl<P: LazyMapMonoid<Key = i64, Agg = i64, Act = i64>> Node<P> {
    fn new(key: i64) -> (r: Self)
        ensures
            r.ch[0].0 == u32::MAX,
            r.ch[1].0 == u32::MAX,
            r.p.0 == u32::MAX,
            r.key == key,
            !r.rev,
    {
        let agg = P::agg_from_key(&key);
        Self {
            ch: [Id::nil(), Id::nil()],
            p: Id::nil(),
            rev: false,
            key,
            agg,
            sz: 1,
            vir_sum: P::agg_unit(),
            vir_sz: 0,
            all_sum: agg,
            all_sz: 1,
            lazy_path: P::act_unit(),
            lazy_path_pending: false,
            lazy_all: P::act_unit(),
            lazy_all_pending: false,
            vir_lazy: P::act_unit(),
            vir_from_parent: P::act_unit(),
        }
    }
}

/// The arena `ns` with `c` made a light child of `p`: its whole sum and size counted in the
/// light sums of `p`, and the pending add `p` owes its light children noted at `c`.
spec fn light_added<P: LazyMapMonoid<Key = i64, Agg = i64, Act = i64>>(ns: Seq<Node<P>>, p: Id, c: Id) -> Seq<Node<P>> {
    if c.0 == u32::MAX {
        ns
    } else {
        let m = ns[c.0 as int];
        let n = ns[p.0 as int];
        let a = ns.update(p.0 as int, Node {
            vir_sum: n.vir_sum.wrapping_add(m.all_sum),
            vir_sz: n.vir_sz.wrapping_add(m.all_sz),
            all_sum: n.all_sum.wrapping_add(0),
            all_sz: n.all_sz.wrapping_add(0),
            ..n
        });
        a.update(c.0 as int, Node { vir_from_parent: n.vir_lazy, ..a[c.0 as int] })
    }
}

/// The arena `ns` with the light child `c` taken from `p`, after catching `c` up with the
/// adds `p` owes its light children.
spec fn light_removed<P: LazyMapMonoid<Key = i64, Agg = i64, Act = i64>>(ns: Seq<Node<P>>, p: Id, c: Id) -> Seq<Node<P>> {
    if c.0 == u32::MAX {
        ns
    } else {
        let pv = ns[p.0 as int].vir_lazy;
        let diff = pv.wrapping_sub(ns[c.0 as int].vir_from_parent);
        let a = if diff != 0 { ns.update(c.0 as int, all_added(ns[c.0 as int], diff)) } else { ns };
        let b = a.update(c.0 as int, Node { vir_from_parent: pv, ..a[c.0 as int] });
        let m = b[c.0 as int];
        let n = b[p.0 as int];
        b.update(p.0 as int, Node {
            vir_sum: n.vir_sum.wrapping_sub(m.all_sum),
            vir_sz: n.vir_sz.wrapping_sub(m.all_sz),
            ..n
        })
    }
}

/// The node `n` with its splay tree reversed, lazily.
spec fn rev_node<P: LazyMapMonoid<Key = i64, Agg = i64, Act = i64>>(n: Node<P>) -> Node<P> {
    Node { ch: [n.ch[1], n.ch[0]], rev: !n.rev, ..n }
}

/// The node `n` with `delta` added to the keys of its splay tree, lazily.
spec fn path_added<P: LazyMapMonoid<Key = i64, Agg = i64, Act = i64>>(n: Node<P>, delta: i64) -> Node<P> {
    let inc = delta.wrapping_mul(n.sz as i64);
    Node {
        key: n.key.wrapping_add(delta),
        agg: n.agg.wrapping_add(inc),
        all_sum: n.all_sum.wrapping_add(inc),
        lazy_path: if n.lazy_path_pending { n.lazy_path.wrapping_add(delta) } else { delta },
        lazy_path_pending: true,
        ..n
    }
}

/// The node `n` with `delta` added to every key its splay tree represents, lazily.
spec fn all_added<P: LazyMapMonoid<Key = i64, Agg = i64, Act = i64>>(n: Node<P>, delta: i64) -> Node<P> {
    Node {
        key: n.key.wrapping_add(delta),
        agg: n.agg.wrapping_add(delta.wrapping_mul(n.sz as i64)),
        vir_sum: n.vir_sum.wrapping_add(delta.wrapping_mul(n.vir_sz as i64)),
        all_sum: n.all_sum.wrapping_add(delta.wrapping_mul(n.all_sz as i64)),
        vir_lazy: n.vir_lazy.wrapping_add(delta),
        lazy_all: if n.lazy_all_pending { n.lazy_all.wrapping_add(delta) } else { delta },
        lazy_all_pending: true,
        ..n
    }
}

/// `ns` with node `x` transformed by `f` (nothing for no node).
spec fn map_at<P: LazyMapMonoid<Key = i64, Agg = i64, Act = i64>>(ns: Seq<Node<P>>, x: Id, f: spec_fn(Node<P>) -> Node<P>) -> Seq<Node<P>> {
    if x.0 == u32::MAX { ns } else { ns.update(x.0 as int, f(ns[x.0 as int])) }
}

/// The arena `ns` after node `x` hands its reversal, then its pending adds, to its children.
spec fn pushed_at<P: LazyMapMonoid<Key = i64, Agg = i64, Act = i64>>(ns: Seq<Node<P>>, x: Id) -> Seq<Node<P>> {
    if x.0 == u32::MAX {
        ns
    } else {
        let n = ns[x.0 as int];
        let (l, r) = (n.ch[0], n.ch[1]);
        let a = if n.rev {
            let b = map_at(map_at(ns, l, |m: Node<P>| rev_node(m)), r, |m: Node<P>| rev_node(m));
            b.update(x.0 as int, Node { rev: false, ..b[x.0 as int] })
        } else {
            ns
        };
        let c = if n.lazy_all_pending {
            let b = map_at(map_at(a, l, |m: Node<P>| all_added(m, n.lazy_all)), r, |m: Node<P>| all_added(m, n.lazy_all));
            b.update(x.0 as int, Node { lazy_all: 0, lazy_all_pending: false, ..b[x.0 as int] })
        } else {
            a
        };
        if n.lazy_path_pending {
            let b = map_at(map_at(c, l, |m: Node<P>| path_added(m, n.lazy_path)), r, |m: Node<P>| path_added(m, n.lazy_path));
            b.update(x.0 as int, Node { lazy_path: 0, lazy_path_pending: false, ..b[x.0 as int] })
        } else {
            c
        }
    }
}

/// The arena `ns` with the sizes and sums of `x` recomputed from its children.
spec fn pulled_at<P: LazyMapMonoid<Key = i64, Agg = i64, Act = i64>>(ns: Seq<Node<P>>, x: Id) -> Seq<Node<P>> {
    if x.0 == u32::MAX {
        ns
    } else {
        let n = ns[x.0 as int];
        let (l, r) = (n.ch[0], n.ch[1]);
        let (l_sz, l_agg, l_all_sz, l_all_sum) = if l.0 == u32::MAX {
            (0u32, P::spec_agg_unit(), 0u32, P::spec_agg_unit())
        } else {
            (ns[l.0 as int].sz, ns[l.0 as int].agg, ns[l.0 as int].all_sz, ns[l.0 as int].all_sum)
        };
        let (r_sz, r_agg, r_all_sz, r_all_sum) = if r.0 == u32::MAX {
            (0u32, P::spec_agg_unit(), 0u32, P::spec_agg_unit())
        } else {
            (ns[r.0 as int].sz, ns[r.0 as int].agg, ns[r.0 as int].all_sz, ns[r.0 as int].all_sum)
        };
        ns.update(x.0 as int, Node {
            sz: 1u32.wrapping_add(l_sz).wrapping_add(r_sz),
            agg: l_agg.wrapping_add(n.key).wrapping_add(r_agg),
            all_sz: 1u32.wrapping_add(l_all_sz).wrapping_add(r_all_sz).wrapping_add(n.vir_sz),
            all_sum: l_all_sum.wrapping_add(n.key).wrapping_add(r_all_sum).wrapping_add(n.vir_sum),
            ..n
        })
    }
}

/// The arena `ns` with link `d` of node `x` set to `c`.
spec fn set_ch<P: LazyMapMonoid<Key = i64, Agg = i64, Act = i64>>(ns: Seq<Node<P>>, x: Id, d: int, c: Id) -> Seq<Node<P>> {
    let n = ns[x.0 as int];
    ns.update(x.0 as int, Node { ch: if d == 0 { [c, n.ch[1]] } else { [n.ch[0], c] }, ..n })
}

/// The arena `ns` with the parent link of node `x` set to `q`.
spec fn set_p<P: LazyMapMonoid<Key = i64, Agg = i64, Act = i64>>(ns: Seq<Node<P>>, x: Id, q: Id) -> Seq<Node<P>> {
    ns.update(x.0 as int, Node { p: q, ..ns[x.0 as int] })
}

/// In `ns`, `x` is the root of its splay tree.
spec fn aux_root_in<P: LazyMapMonoid<Key = i64, Agg = i64, Act = i64>>(ns: Seq<Node<P>>, x: Id) -> bool {
    let q = ns[x.0 as int].p;
    q.0 == u32::MAX || (ns[q.0 as int].ch[0] != x && ns[q.0 as int].ch[1] != x)
}

/// The arena `ns` with node `x` rotated above its parent: both pushed, the links of the
/// grandparent, `x`, the parent and the inner child `b` redone, the path-parent snapshot
/// moved to `x` at the top of a splay tree, and the parent then `x` recomputed.
spec fn rotated<P: LazyMapMonoid<Key = i64, Agg = i64, Act = i64>>(ns: Seq<Node<P>>, x: Id) -> Seq<Node<P>> {
    let p = ns[x.0 as int].p;
    let g = ns[p.0 as int].p;
    let top = aux_root_in(ns, p);
    let a = pushed_at(pushed_at(ns, p), x);
    let dir: int = if a[p.0 as int].ch[1] == x { 1 } else { 0 };
    let b = a[x.0 as int].ch[1 - dir];
    let c = if !aux_root_in(a, p) {
        if a[g.0 as int].ch[0] == p {
            set_ch(a, g, 0, x)
        } else if a[g.0 as int].ch[1] == p {
            set_ch(a, g, 1, x)
        } else {
            a
        }
    } else {
        a
    };
    let d = set_p(c, x, g);
    let d2 = if top { d.update(x.0 as int, Node { vir_from_parent: d[p.0 as int].vir_from_parent, ..d[x.0 as int] }) } else { d };
    let e = set_ch(d2, x, 1 - dir, p);
    let f = set_p(e, p, x);
    let h = set_ch(f, p, dir, b);
    let i = if b.0 != u32::MAX { set_p(h, b, p) } else { h };
    pulled_at(pulled_at(i, p), x)
}

/// The nodes met from `y` up to the root of its splay tree, at most `fuel` steps up.
spec fn climb<P: LazyMapMonoid<Key = i64, Agg = i64, Act = i64>>(ns: Seq<Node<P>>, y: Id, fuel: nat) -> Seq<Id>
    decreases fuel,
{
    if fuel == 0 || aux_root_in(ns, y) {
        seq![y]
    } else {
        seq![y] + climb(ns, ns[y.0 as int].p, (fuel - 1) as nat)
    }
}

/// The arena `ns` with the nodes of `s` pushed, from the last to the first.
spec fn push_down<P: LazyMapMonoid<Key = i64, Agg = i64, Act = i64>>(ns: Seq<Node<P>>, s: Seq<Id>) -> Seq<Node<P>>
    decreases s.len(),
{
    if s.len() == 0 {
        ns
    } else {
        pushed_at(push_down(ns, s.drop_first()), s[0])
    }
}

/// One round of splaying `x`: when its parent is not a root, first the parent (same side,
/// zig-zig) or `x` (zig-zag) is rotated, then `x` once more if it is still not a root.
spec fn splay_round<P: LazyMapMonoid<Key = i64, Agg = i64, Act = i64>>(ns: Seq<Node<P>>, x: Id) -> Seq<Node<P>> {
    let p = ns[x.0 as int].p;
    let a = if !aux_root_in(ns, p) {
        let g = ns[p.0 as int].p;
        if (ns[g.0 as int].ch[0] == p) == (ns[p.0 as int].ch[0] == x) {
            rotated(ns, p)
        } else {
            rotated(ns, x)
        }
    } else {
        ns
    };
    if !aux_root_in(a, x) { rotated(a, x) } else { a }
}

/// Rounds of splaying `x` until it is the root of its splay tree, at most `fuel` of them.
spec fn splay_rounds<P: LazyMapMonoid<Key = i64, Agg = i64, Act = i64>>(ns: Seq<Node<P>>, x: Id, fuel: nat) -> Seq<Node<P>>
    decreases fuel,
{
    if fuel == 0 || aux_root_in(ns, x) {
        ns
    } else {
        splay_rounds(splay_round(ns, x), x, (fuel - 1) as nat)
    }
}

/// The arena `ns` after `x` is splayed: the tags above it pushed, then the rounds.
spec fn splayed<P: LazyMapMonoid<Key = i64, Agg = i64, Act = i64>>(ns: Seq<Node<P>>, x: Id) -> Seq<Node<P>> {
    splay_rounds(push_down(ns, climb(ns, x, (ns.len() - 1) as nat)), x, ns.len())
}

/// The rounds of an access from `y` upwards, `last` being the splay tree met before: the
/// old right child of `y` turned light, `last` turned heavy.
spec fn access_rounds<P: LazyMapMonoid<Key = i64, Agg = i64, Act = i64>>(ns: Seq<Node<P>>, y: Id, last: Id, fuel: nat) -> Seq<Node<P>>
    decreases fuel,
{
    if fuel == 0 || y.0 == u32::MAX {
        ns
    } else {
        let a = splayed(ns, y);
        let old_right = a[y.0 as int].ch[1];
        let b = if old_right != last { light_removed(light_added(a, y, old_right), y, last) } else { a };
        let c = set_ch(b, y, 1, last);
        let d = if last.0 != u32::MAX { set_p(c, last, y) } else { c };
        let e = pulled_at(d, y);
        access_rounds(e, e[y.0 as int].p, y, (fuel - 1) as nat)
    }
}

/// The arena `ns` after the access of `x`: the path up to the root preferred, then `x`
/// splayed.
spec fn accessed<P: LazyMapMonoid<Key = i64, Agg = i64, Act = i64>>(ns: Seq<Node<P>>, x: Id) -> Seq<Node<P>> {
    splayed(access_rounds(ns, x, Id(u32::MAX), ns.len()), x)
}

/// The arena `ns` after `x` is made the root of its tree: accessed, then reversed.
spec fn rerooted<P: LazyMapMonoid<Key = i64, Agg = i64, Act = i64>>(ns: Seq<Node<P>>, x: Id) -> Seq<Node<P>> {
    map_at(accessed(ns, x), x, |m: Node<P>| rev_node(m))
}

/// The arena `ns` with the path from `u` to `v` exposed: `u` made the root, `v` accessed.
spec fn exposed<P: LazyMapMonoid<Key = i64, Agg = i64, Act = i64>>(ns: Seq<Node<P>>, u: Id, v: Id) -> Seq<Node<P>> {
    accessed(rerooted(ns, u), v)
}

/// The size stored at `x` in `ns`, 0 for no node.
spec fn sz_at<P: LazyMapMonoid<Key = i64, Agg = i64, Act = i64>>(ns: Seq<Node<P>>, x: Id) -> u32 {
    if x.0 == u32::MAX { 0 } else { ns[x.0 as int].sz }
}

/// The walk from `y` down the left links, each node met pushed, at most `fuel` steps: the
/// arena at the end and the node reached.
spec fn leftmost<P: LazyMapMonoid<Key = i64, Agg = i64, Act = i64>>(ns: Seq<Node<P>>, y: Id, fuel: nat) -> (Seq<Node<P>>, Id)
    decreases fuel,
{
    if fuel == 0 || ns[y.0 as int].ch[0].0 == u32::MAX {
        (ns, y)
    } else {
        let z = ns[y.0 as int].ch[0];
        leftmost(pushed_at(ns, z), z, (fuel - 1) as nat)
    }
}

/// The arena `ns` with the key of `x` set to `k`, its path and whole sums moved with it.
spec fn key_set<P: LazyMapMonoid<Key = i64, Agg = i64, Act = i64>>(ns: Seq<Node<P>>, x: Id, k: i64) -> Seq<Node<P>> {
    let n = ns[x.0 as int];
    let diff = k.wrapping_sub(n.key);
    ns.update(x.0 as int, Node { key: k, agg: n.agg.wrapping_add(diff), all_sum: n.all_sum.wrapping_add(diff), ..n })
}

/// The arena `ns` with `c` hung below `p` as a light child: its whole sum and size counted
/// at `p`, both light and whole.
spec fn hung<P: LazyMapMonoid<Key = i64, Agg = i64, Act = i64>>(ns: Seq<Node<P>>, p: Id, c: Id) -> Seq<Node<P>> {
    let a = light_added(set_p(ns, c, p), p, c);
    let m = set_p(ns, c, p)[c.0 as int];
    let n = a[p.0 as int];
    a.update(p.0 as int, Node {
        vir_sum: n.vir_sum.wrapping_add(0i64),
        vir_sz: n.vir_sz.wrapping_add(0u32),
        all_sum: n.all_sum.wrapping_add(m.all_sum),
        all_sz: n.all_sz.wrapping_add(m.all_sz),
        ..n
    })
}

/// The arena `ns` with the key of `x` moved by `delta`, and its path and whole sums with it.
spec fn key_moved<P: LazyMapMonoid<Key = i64, Agg = i64, Act = i64>>(ns: Seq<Node<P>>, x: Id, delta: i64) -> Seq<Node<P>> {
    let n = ns[x.0 as int];
    ns.update(x.0 as int, Node {
        key: n.key.wrapping_add(delta),
        agg: n.agg.wrapping_add(delta),
        all_sum: n.all_sum.wrapping_add(delta),
        ..n
    })
}

/// Link-cut tree that also keeps the sums and sizes of the subtrees hanging by light edges,
/// for component and subtree queries; keys, sums and actions are `i64` adds.
///
/// Every walk up or down the splay trees stops after as many steps as there are vertices,
/// which a walk in a forest never takes.
pub struct LinkCutTreeSubtree<P: LazyMapMonoid<Key = i64, Agg = i64, Act = i64> = VertexSumAdd> {
    nodes: Vec<Node<P>>,
    stack: Vec<Id>,
}

impl<P: LazyMapMonoid<Key = i64, Agg = i64, Act = i64>> LinkCutTreeSubtree<P> {
    /// Every link stays inside the arena, whose indices fit below `u32::MAX`.
    pub closed spec fn inv(&self) -> bool {
        &&& self.nodes.len() < u32::MAX
        &&& all_ok::<P>(self.nodes@, self.nodes.len() as nat)
    }

    /// The number of vertices.
    pub closed spec fn vertex_count(&self) -> nat {
        self.nodes.len() as nat
    }

    /// `post` is this forest with `v` accessed, and `r` the sum of the keys of its whole
    /// tree kept at `v`.
    pub closed spec fn component_read(&self, v: int, post: &Self, r: i64) -> bool {
        let a = accessed(self.nodes@, Id(v as u32));
        post.nodes@ == a && r == a[v].all_sum
    }

    /// `post` is this forest with `v` accessed, and `r` the number of vertices of its whole
    /// tree kept at `v`.
    pub closed spec fn component_counted(&self, v: int, post: &Self, r: int) -> bool {
        let a = accessed(self.nodes@, Id(v as u32));
        post.nodes@ == a && r == a[v].all_sz
    }

    /// `post` is this forest with `v` accessed and `delta` added, lazily, to every key of its
    /// tree.
    pub closed spec fn component_shifted(&self, v: int, delta: i64, post: &Self) -> bool {
        let x = Id(v as u32);
        post.nodes@ == map_at(accessed(self.nodes@, x), x, |m: Node<P>| all_added(m, delta))
    }

    /// `post` is this forest with `parent` made the root and `child` accessed, and `r` the
    /// key of `child` plus the sums hanging from it by light edges: the subtree on the child
    /// side.
    pub closed spec fn subtree_read(&self, child: int, parent: int, post: &Self, r: i64) -> bool {
        let a = exposed(self.nodes@, Id(parent as u32), Id(child as u32));
        post.nodes@ == a && r == a[child].key.wrapping_add(a[child].vir_sum)
    }

    /// `post` is this forest with `parent` made the root, `child` accessed, and `delta` added
    /// to `child` and everything hanging from it by light edges.
    pub closed spec fn subtree_shifted(&self, child: int, parent: int, delta: i64, post: &Self) -> bool {
        let a = exposed(self.nodes@, Id(parent as u32), Id(child as u32));
        if delta == 0 {
            post.nodes@ == a
        } else {
            post.nodes@ == a.update(child, {
                let n = a[child];
                let vir_inc = delta.wrapping_mul(n.vir_sz as i64);
                Node {
                    key: n.key.wrapping_add(delta),
                    agg: n.agg.wrapping_add(delta),
                    vir_sum: n.vir_sum.wrapping_add(vir_inc),
                    all_sum: n.all_sum.wrapping_add(delta.wrapping_add(vir_inc)),
                    vir_lazy: n.vir_lazy.wrapping_add(delta),
                    ..n
                }
            })
        }
    }

    /// `post` holds the same nodes as this forest.
    pub closed spec fn same_forest(&self, post: &Self) -> bool {
        post.nodes@ == self.nodes@
    }

    /// `post` is this forest with `v` made the root of its tree.
    pub closed spec fn made_root(&self, v: int, post: &Self) -> bool {
        post.nodes@ == rerooted(self.nodes@, Id(v as u32))
    }

    /// `post` is this forest with `v` accessed.
    pub closed spec fn opened(&self, v: int, post: &Self) -> bool {
        post.nodes@ == accessed(self.nodes@, Id(v as u32))
    }

    /// The key at `v` once `v` is accessed.
    pub closed spec fn opened_key(&self, v: int) -> i64 {
        accessed(self.nodes@, Id(v as u32))[v].key
    }

    /// `post` is this forest after the search for the root of the tree of `v`, and `r` the
    /// vertex found: `v` accessed and pushed, the left spine of its splay tree walked down
    /// to its end, and that vertex splayed.
    pub closed spec fn root_found(&self, v: int, post: &Self, r: int) -> bool {
        let x = Id(v as u32);
        let (b, y) = leftmost(pushed_at(accessed(self.nodes@, x), x), x, self.nodes.len() as nat);
        post.nodes@ == splayed(b, y) && r == y.0
    }

    /// Once `v` is accessed and pushed, nothing lies above `v` on its preferred path: `v` has
    /// no left child in its splay tree.
    pub closed spec fn tops_its_path(&self, v: int) -> bool {
        pushed_at(accessed(self.nodes@, Id(v as u32)), Id(v as u32))[v].ch[0].0 == u32::MAX
    }

    /// `post` is this forest with the path from `u` to `v` exposed.
    pub closed spec fn path_exposed(&self, u: int, v: int, post: &Self) -> bool {
        post.nodes@ == exposed(self.nodes@, Id(u as u32), Id(v as u32))
    }

    /// Whether `u` hangs above `v` once the path from `u` to `v` is exposed, that is
    /// whether they share a tree.
    pub closed spec fn joined(&self, u: int, v: int) -> bool {
        exposed(self.nodes@, Id(u as u32), Id(v as u32))[u].p.0 != u32::MAX
    }

    /// The sum of the keys on the path from `u` to `v` once it is exposed.
    pub closed spec fn exposed_agg(&self, u: int, v: int) -> i64 {
        exposed(self.nodes@, Id(u as u32), Id(v as u32))[v].agg
    }

    /// The number of vertices on the path from `u` to `v` once it is exposed.
    pub closed spec fn exposed_len(&self, u: int, v: int) -> u32 {
        exposed(self.nodes@, Id(u as u32), Id(v as u32))[v].sz
    }

    /// `post` is this forest with `u` made the root and hung below `v` as a light child.
    pub closed spec fn hung_below(&self, u: int, v: int, post: &Self) -> bool {
        post.nodes@ == hung(exposed(self.nodes@, Id(u as u32), Id(v as u32)), Id(v as u32), Id(u as u32))
    }

    /// `post` is this forest with the path from `u` to `v` exposed and the edge between
    /// them, found as `u` the left child of `v` with no right child, dropped.
    pub closed spec fn edge_dropped(&self, u: int, v: int, post: &Self) -> bool {
        let (x, y) = (Id(u as u32), Id(v as u32));
        let e = exposed(self.nodes@, x, y);
        post.nodes@ == pulled_at(set_p(set_ch(e, y, 0, Id(u32::MAX)), x, Id(u32::MAX)), y)
    }

    /// Whether, with the path from `u` to `v` exposed, `u` is the left child of `v` with no
    /// right child: the edge `(u, v)` is there.
    pub closed spec fn edge_found(&self, u: int, v: int) -> bool {
        let e = exposed(self.nodes@, Id(u as u32), Id(v as u32));
        e[v].ch[0] == Id(u as u32) && e[u].ch[1].0 == u32::MAX
    }

    /// `post` is this forest with `v` accessed and its key set to `k`.
    pub closed spec fn key_written(&self, v: int, k: i64, post: &Self) -> bool {
        let x = Id(v as u32);
        post.nodes@ == key_set(accessed(self.nodes@, x), x, k)
    }

    /// `post` is this forest with `v` accessed and `delta` added to its key.
    pub closed spec fn key_shifted(&self, v: int, delta: i64, post: &Self) -> bool {
        let x = Id(v as u32);
        post.nodes@ == key_moved(accessed(self.nodes@, x), x, delta)
    }

    /// `post` is this forest with the path from `u` to `v` exposed and `delta` added,
    /// lazily, to the keys of the splay tree under `v`.
    pub closed spec fn path_shifted(&self, u: int, v: int, delta: i64, post: &Self) -> bool {
        let y = Id(v as u32);
        post.nodes@ == map_at(exposed(self.nodes@, Id(u as u32), y), y, |m: Node<P>| path_added(m, delta))
    }

    pub fn new(values: &[i64]) -> (r: Self)
        requires
            values@.len() < u32::MAX,
        ensures
            r.inv(),
            r.vertex_count() == values@.len(),
            r.isolated(),
            forall|i: int| 0 <= i < values@.len() ==> #[trigger] r.stored_key(i) == values@[i],
    {
        let mut nodes: Vec<Node<P>> = Vec::with_capacity(values.len());
        let mut i: usize = 0;
        while i < values.len()
            invariant
                i <= values@.len() < u32::MAX,
                nodes.len() == i,
                forall|j: int| 0 <= j < nodes.len() ==> {
                    let m = #[trigger] nodes@[j];
                    m.ch[0].0 == u32::MAX && m.ch[1].0 == u32::MAX && m.p.0 == u32::MAX && !m.rev && m.key == values@[j]
                },
                forall|j: int| 0 <= j < nodes.len() ==> #[trigger] node_ok::<P>(nodes@[j], 0),
            decreases values@.len() - i,
        {
            nodes.push(Node::<P>::new(values[i]));
            i += 1;
        }
        let r = Self { nodes, stack: Vec::with_capacity(values.len()) };
        assert forall|j: int| 0 <= j < r.nodes.len() implies #[trigger] node_ok::<P>(r.nodes@[j], r.nodes.len() as nat) by {
            assert(node_ok::<P>(r.nodes@[j], 0));
        }
        r
    }

    pub fn len(&self) -> (r: usize)
        ensures
            r == self.vertex_count(),
    {
        self.nodes.len()
    }

    pub fn is_empty(&self) -> (r: bool)
        ensures
            r == (self.vertex_count() == 0),
    {
        self.nodes.len() == 0
    }

    fn node(&self, x: Id) -> (r: &Node<P>)
        requires
            is_node(x, self.nodes.len() as nat),
        ensures
            *r == self.nodes@[x.0 as int],
    {
        &self.nodes[x.idx()]
    }

    fn node_mut(&mut self, x: Id) -> (r: &mut Node<P>)
        requires
            is_node(x, old(self).nodes.len() as nat),
        ensures
            *r == old(self).nodes@[x.0 as int],
            final(self).nodes@ == old(self).nodes@.update(x.0 as int, *final(r)),
            final(self).stack == old(self).stack,
    {
        &mut self.nodes[x.idx()]
    }

    fn sz(&self, x: Id) -> (r: u32)
        requires
            ok_id(x, self.nodes.len() as nat),
        ensures
            r == sz_at(self.nodes@, x),
    {
        if x.is_nil() {
            0
        } else {
            self.node(x).sz
        }
    }

    /// Whether `x` is the root of its splay tree.
    fn is_aux_root(&self, x: Id) -> (r: bool)
        requires
            self.inv(),
            is_node(x, self.nodes.len() as nat),
        ensures
            !r ==> is_node(self.nodes@[x.0 as int].p, self.nodes.len() as nat),
            r == ({
                let p = self.nodes@[x.0 as int].p;
                p.0 == u32::MAX || (self.nodes@[p.0 as int].ch[0] != x && self.nodes@[p.0 as int].ch[1] != x)
            }),
    {
        proof {
            assert(node_ok::<P>(self.nodes@[x.0 as int], self.nodes.len() as nat));
        }
        let p = self.node(x).p;
        if p.is_nil() {
            return true;
        }
        self.node(p).ch[0] != x && self.node(p).ch[1] != x
    }

    /// Reverse the splay tree under `x`, lazily.
    fn apply_rev(&mut self, x: Id)
        requires
            old(self).inv(),
            ok_id(x, old(self).nodes.len() as nat),
        ensures
            final(self).inv(),
            final(self).nodes.len() == old(self).nodes.len(),
            final(self).stack == old(self).stack,
            forall|i: int| 0 <= i < final(self).nodes.len() ==> (#[trigger] final(self).nodes@[i]).p == old(self).nodes@[i].p,
            final(self).nodes@ == map_at(old(self).nodes@, x, |m: Node<P>| rev_node(m)),
    {
        if x.is_nil() {
            return;
        }
        proof {
            assert(node_ok::<P>(self.nodes@[x.0 as int], self.nodes.len() as nat));
        }
        let ghost n0 = self.nodes@;
        let nx = self.node_mut(x);
        let c0 = nx.ch[0];
        nx.ch[0] = nx.ch[1];
        nx.ch[1] = c0;
        nx.rev = !nx.rev;
        proof {
            lemma_update_ok::<P>(n0, n0.len() as nat, x.0 as int, self.nodes@[x.0 as int]);
            assert(self.nodes@[x.0 as int].ch =~= rev_node(n0[x.0 as int]).ch);
            assert(self.nodes@ =~= map_at(n0, x, |m: Node<P>| rev_node(m)));
        }
    }

    /// Add `delta` to the keys of the splay tree under `x`, lazily.
    fn apply_path_add(&mut self, x: Id, delta: i64)
        requires
            old(self).inv(),
            ok_id(x, old(self).nodes.len() as nat),
        ensures
            final(self).inv(),
            final(self).nodes.len() == old(self).nodes.len(),
            final(self).stack == old(self).stack,
            forall|i: int| 0 <= i < final(self).nodes.len() ==> (#[trigger] final(self).nodes@[i]).p == old(self).nodes@[i].p,
            final(self).nodes@ == map_at(old(self).nodes@, x, |m: Node<P>| path_added(m, delta)),
    {
        if x.is_nil() {
            return;
        }
        proof {
            assert(node_ok::<P>(self.nodes@[x.0 as int], self.nodes.len() as nat));
        }
        let sz = self.node(x).sz as i64;
        let ghost n0 = self.nodes@;
        let nx = self.node_mut(x);
        nx.key = nx.key.wrapping_add(delta);
        let inc = delta.wrapping_mul(sz);
        nx.agg = nx.agg.wrapping_add(inc);
        nx.all_sum = nx.all_sum.wrapping_add(inc);
        if nx.lazy_path_pending {
            nx.lazy_path = nx.lazy_path.wrapping_add(delta);
        } else {
            nx.lazy_path = delta;
            nx.lazy_path_pending = true;
        }
        proof {
            lemma_update_ok::<P>(n0, n0.len() as nat, x.0 as int, self.nodes@[x.0 as int]);
        }
    }

    /// Add `delta` to every key that the splay tree under `x` represents, lazily.
    fn apply_all_add(&mut self, x: Id, delta: i64)
        requires
            old(self).inv(),
            ok_id(x, old(self).nodes.len() as nat),
        ensures
            final(self).inv(),
            final(self).nodes.len() == old(self).nodes.len(),
            final(self).stack == old(self).stack,
            forall|i: int| 0 <= i < final(self).nodes.len() ==> (#[trigger] final(self).nodes@[i]).p == old(self).nodes@[i].p,
            final(self).nodes@ == map_at(old(self).nodes@, x, |m: Node<P>| all_added(m, delta)),
    {
        if x.is_nil() {
            return;
        }
        proof {
            assert(node_ok::<P>(self.nodes@[x.0 as int], self.nodes.len() as nat));
        }
        let sz = self.node(x).sz as i64;
        let all_sz = self.node(x).all_sz as i64;
        let vir_sz = self.node(x).vir_sz as i64;
        let ghost n0 = self.nodes@;
        let nx = self.node_mut(x);
        nx.key = nx.key.wrapping_add(delta);
        nx.agg = nx.agg.wrapping_add(delta.wrapping_mul(sz));
        nx.vir_sum = nx.vir_sum.wrapping_add(delta.wrapping_mul(vir_sz));
        nx.all_sum = nx.all_sum.wrapping_add(delta.wrapping_mul(all_sz));
        nx.vir_lazy = nx.vir_lazy.wrapping_add(delta);
        if nx.lazy_all_pending {
            nx.lazy_all = nx.lazy_all.wrapping_add(delta);
        } else {
            nx.lazy_all = delta;
            nx.lazy_all_pending = true;
        }
        proof {
            lemma_update_ok::<P>(n0, n0.len() as nat, x.0 as int, self.nodes@[x.0 as int]);
        }
    }

    /// Hand the tags of `x` down to its children.
    fn push(&mut self, x: Id)
        requires
            old(self).inv(),
            ok_id(x, old(self).nodes.len() as nat),
        ensures
            final(self).inv(),
            final(self).nodes.len() == old(self).nodes.len(),
            final(self).stack == old(self).stack,
            forall|i: int| 0 <= i < final(self).nodes.len() ==> (#[trigger] final(self).nodes@[i]).p == old(self).nodes@[i].p,
            final(self).nodes@ == pushed_at(old(self).nodes@, x),
    {
        if x.is_nil() {
            return;
        }
        proof {
            assert(node_ok::<P>(self.nodes@[x.0 as int], self.nodes.len() as nat));
        }
        let rev = self.node(x).rev;
        let lazy_all_pending = self.node(x).lazy_all_pending;
        let lazy_all = self.node(x).lazy_all;
        let lazy_path_pending = self.node(x).lazy_path_pending;
        let lazy_path = self.node(x).lazy_path;
        let l = self.node(x).ch[0];
        let r = self.node(x).ch[1];
        if rev {
            self.apply_rev(l);
            self.apply_rev(r);
            let ghost n0 = self.nodes@;
            proof {
                assert(node_ok::<P>(n0[x.0 as int], n0.len() as nat));
            }
            self.node_mut(x).rev = false;
            proof {
                lemma_update_ok::<P>(n0, n0.len() as nat, x.0 as int, self.nodes@[x.0 as int]);
            }
        }
        if lazy_all_pending {
            self.apply_all_add(l, lazy_all);
            self.apply_all_add(r, lazy_all);
            let ghost n0 = self.nodes@;
            proof {
                assert(node_ok::<P>(n0[x.0 as int], n0.len() as nat));
            }
            let nx = self.node_mut(x);
            nx.lazy_all = 0;
            nx.lazy_all_pending = false;
            proof {
                lemma_update_ok::<P>(n0, n0.len() as nat, x.0 as int, self.nodes@[x.0 as int]);
            }
        }
        if lazy_path_pending {
            self.apply_path_add(l, lazy_path);
            self.apply_path_add(r, lazy_path);
            let ghost n0 = self.nodes@;
            proof {
                assert(node_ok::<P>(n0[x.0 as int], n0.len() as nat));
            }
            let nx = self.node_mut(x);
            nx.lazy_path = 0;
            nx.lazy_path_pending = false;
            proof {
                lemma_update_ok::<P>(n0, n0.len() as nat, x.0 as int, self.nodes@[x.0 as int]);
            }
        }
    }

    /// Recompute the sizes and sums of `x` from its children.
    fn pull(&mut self, x: Id)
        requires
            old(self).inv(),
            ok_id(x, old(self).nodes.len() as nat),
        ensures
            final(self).inv(),
            final(self).nodes.len() == old(self).nodes.len(),
            final(self).stack == old(self).stack,
            final(self).nodes@ == pulled_at(old(self).nodes@, x),
    {
        if x.is_nil() {
            return;
        }
        proof {
            assert(node_ok::<P>(self.nodes@[x.0 as int], self.nodes.len() as nat));
        }
        let l = self.node(x).ch[0];
        let r = self.node(x).ch[1];
        let key = self.node(x).key;
        let vir_sum = self.node(x).vir_sum;
        let vir_sz = self.node(x).vir_sz;
        let (l_sz, l_agg, l_all_sz, l_all_sum) = if l.is_nil() {
            (0u32, P::agg_unit(), 0u32, P::agg_unit())
        } else {
            let nl = self.node(l);
            (nl.sz, nl.agg, nl.all_sz, nl.all_sum)
        };
        let (r_sz, r_agg, r_all_sz, r_all_sum) = if r.is_nil() {
            (0u32, P::agg_unit(), 0u32, P::agg_unit())
        } else {
            let nr = self.node(r);
            (nr.sz, nr.agg, nr.all_sz, nr.all_sum)
        };
        let sz = 1u32.wrapping_add(l_sz).wrapping_add(r_sz);
        let agg = l_agg.wrapping_add(key).wrapping_add(r_agg);
        let all_sz = 1u32.wrapping_add(l_all_sz).wrapping_add(r_all_sz).wrapping_add(vir_sz);
        let all_sum = l_all_sum.wrapping_add(key).wrapping_add(r_all_sum).wrapping_add(vir_sum);
        let ghost n0 = self.nodes@;
        let nx = self.node_mut(x);
        nx.sz = sz;
        nx.agg = agg;
        nx.all_sz = all_sz;
        nx.all_sum = all_sum;
        proof {
            lemma_update_ok::<P>(n0, n0.len() as nat, x.0 as int, self.nodes@[x.0 as int]);
        }
    }

    /// Set one link of node `x`.
    fn set_child(&mut self, x: Id, dir: usize, c: Id)
        requires
            old(self).inv(),
            is_node(x, old(self).nodes.len() as nat),
            dir < 2,
            ok_id(c, old(self).nodes.len() as nat),
        ensures
            final(self).inv(),
            final(self).nodes.len() == old(self).nodes.len(),
            final(self).stack == old(self).stack,
            final(self).nodes@[x.0 as int].ch[dir as int] == c,
            final(self).nodes@ == set_ch(old(self).nodes@, x, dir as int, c),
    {
        let ghost n0 = self.nodes@;
        proof {
            assert(node_ok::<P>(n0[x.0 as int], n0.len() as nat));
        }
        self.node_mut(x).ch[dir] = c;
        proof {
            lemma_update_ok::<P>(n0, n0.len() as nat, x.0 as int, self.nodes@[x.0 as int]);
            assert(self.nodes@[x.0 as int].ch =~= set_ch(n0, x, dir as int, c)[x.0 as int].ch);
            assert(self.nodes@ =~= set_ch(n0, x, dir as int, c));
        }
    }

    /// Set the parent link of node `x`.
    fn set_parent(&mut self, x: Id, p: Id)
        requires
            old(self).inv(),
            is_node(x, old(self).nodes.len() as nat),
            ok_id(p, old(self).nodes.len() as nat),
        ensures
            final(self).inv(),
            final(self).nodes.len() == old(self).nodes.len(),
            final(self).stack == old(self).stack,
            final(self).nodes@[x.0 as int].p == p,
            final(self).nodes@ == set_p(old(self).nodes@, x, p),
    {
        let ghost n0 = self.nodes@;
        proof {
            assert(node_ok::<P>(n0[x.0 as int], n0.len() as nat));
        }
        self.node_mut(x).p = p;
        proof {
            lemma_update_ok::<P>(n0, n0.len() as nat, x.0 as int, self.nodes@[x.0 as int]);
        }
    }

    /// Set the snapshot of the parent's pending add held by node `x`.
    fn set_vir_from_parent(&mut self, x: Id, snap: i64)
        requires
            old(self).inv(),
            is_node(x, old(self).nodes.len() as nat),
        ensures
            final(self).inv(),
            final(self).nodes.len() == old(self).nodes.len(),
            final(self).stack == old(self).stack,
            final(self).nodes@ == old(self).nodes@.update(x.0 as int, Node { vir_from_parent: snap, ..old(self).nodes@[x.0 as int] }),
    {
        let ghost n0 = self.nodes@;
        proof {
            assert(node_ok::<P>(n0[x.0 as int], n0.len() as nat));
        }
        self.node_mut(x).vir_from_parent = snap;
        proof {
            lemma_update_ok::<P>(n0, n0.len() as nat, x.0 as int, self.nodes@[x.0 as int]);
        }
    }

    /// Change the light-child sum and size of node `x`, and its whole sum and size by
    /// `all_sum` and `all_sz`.
    fn add_to_sums(&mut self, x: Id, vir_sum: i64, vir_sz: u32, all_sum: i64, all_sz: u32, subtract: bool)
        requires
            old(self).inv(),
            is_node(x, old(self).nodes.len() as nat),
        ensures
            final(self).inv(),
            final(self).nodes.len() == old(self).nodes.len(),
            final(self).stack == old(self).stack,
            final(self).nodes@ == old(self).nodes@.update(x.0 as int, {
                let n = old(self).nodes@[x.0 as int];
                if subtract {
                    Node { vir_sum: n.vir_sum.wrapping_sub(vir_sum), vir_sz: n.vir_sz.wrapping_sub(vir_sz), ..n }
                } else {
                    Node {
                        vir_sum: n.vir_sum.wrapping_add(vir_sum),
                        vir_sz: n.vir_sz.wrapping_add(vir_sz),
                        all_sum: n.all_sum.wrapping_add(all_sum),
                        all_sz: n.all_sz.wrapping_add(all_sz),
                        ..n
                    }
                }
            }),
    {
        let ghost n0 = self.nodes@;
        proof {
            assert(node_ok::<P>(n0[x.0 as int], n0.len() as nat));
        }
        let nx = self.node_mut(x);
        if subtract {
            nx.vir_sum = nx.vir_sum.wrapping_sub(vir_sum);
            nx.vir_sz = nx.vir_sz.wrapping_sub(vir_sz);
        } else {
            nx.vir_sum = nx.vir_sum.wrapping_add(vir_sum);
            nx.vir_sz = nx.vir_sz.wrapping_add(vir_sz);
            nx.all_sum = nx.all_sum.wrapping_add(all_sum);
            nx.all_sz = nx.all_sz.wrapping_add(all_sz);
        }
        proof {
            lemma_update_ok::<P>(n0, n0.len() as nat, x.0 as int, self.nodes@[x.0 as int]);
        }
    }

    /// Rotate `x` above its parent.
    #[verifier::rlimit(100)]
    #[verifier::spinoff_prover]
    fn rotate(&mut self, x: Id)
        requires
            old(self).inv(),
            is_node(x, old(self).nodes.len() as nat),
            is_node(old(self).nodes@[x.0 as int].p, old(self).nodes.len() as nat),
        ensures
            final(self).inv(),
            final(self).nodes.len() == old(self).nodes.len(),
            final(self).stack == old(self).stack,
            final(self).nodes@ == rotated(old(self).nodes@, x),
    {
        let ghost n = self.nodes.len() as nat;
        let p = self.node(x).p;
        proof {
            assert(node_ok::<P>(self.nodes@[p.0 as int], n));
        }
        let g = self.node(p).p;
        let p_is_aux_root = self.is_aux_root(p);
        self.push(p);
        self.push(x);
        proof {
            assert(node_ok::<P>(self.nodes@[x.0 as int], n));
        }
        let dir: usize = if self.node(p).ch[1] == x { 1 } else { 0 };
        let b = self.node(x).ch[1 - dir];
        if !self.is_aux_root(p) {
            if self.node(g).ch[0] == p {
                self.set_child(g, 0, x);
            } else if self.node(g).ch[1] == p {
                self.set_child(g, 1, x);
            }
        }
        self.set_parent(x, g);
        // at the top of a splay tree, the path-parent link moves from `p` to `x`, and with it
        // the snapshot of the parent's pending add
        if p_is_aux_root {
            let snap = self.node(p).vir_from_parent;
            self.set_vir_from_parent(x, snap);
        }
        self.set_child(x, 1 - dir, p);
        self.set_parent(p, x);
        self.set_child(p, dir, b);
        if !b.is_nil() {
            self.set_parent(b, p);
        }
        self.pull(p);
        self.pull(x);
    }

    /// Push the tags on the way from the root of the splay tree of `x` down to `x`.
    fn push_path(&mut self, x: Id)
        requires
            old(self).inv(),
            is_node(x, old(self).nodes.len() as nat),
        ensures
            final(self).inv(),
            final(self).nodes.len() == old(self).nodes.len(),
            final(self).nodes@ == push_down(old(self).nodes@, climb(old(self).nodes@, x, (old(self).nodes.len() - 1) as nat)),
    {
        let ghost n = self.nodes.len() as nat;
        let ghost ns = self.nodes@;
        self.stack.clear();
        let mut y = x;
        self.stack.push(y);
        while !self.is_aux_root(y) && self.stack.len() < self.nodes.len()
            invariant
                self.inv(),
                self.nodes.len() == n,
                is_node(y, n),
                1 <= self.stack.len() <= n,
                forall|i: int| 0 <= i < self.stack.len() ==> is_node(#[trigger] self.stack@[i], n),
                self.nodes@ == ns,
                self.stack@.last() == y,
                self.stack@.drop_last() + climb(ns, y, (n - self.stack.len()) as nat) == climb(ns, x, (n - 1) as nat),
            decreases n - self.stack.len(),
        {
            let ghost s0 = self.stack@;
            let ghost y0 = y;
            y = self.node(y).p;
            self.stack.push(y);
            proof {
                assert(climb(ns, y0, (n - s0.len()) as nat) == seq![y0] + climb(ns, y, (n - self.stack.len()) as nat));
                assert(self.stack@.drop_last() =~= s0.drop_last() + seq![y0]);
                assert(s0.drop_last() + (seq![y0] + climb(ns, y, (n - self.stack.len()) as nat)) =~= self.stack@.drop_last() + climb(ns, y, (n - self.stack.len()) as nat));
            }
        }
        proof {
            assert(climb(ns, y, (n - self.stack.len()) as nat) == seq![y]);
            assert(self.stack@ =~= self.stack@.drop_last() + seq![y]);
        }
        let ghost st = self.stack@;
        let mut i = self.stack.len();
        while i > 0
            invariant
                self.inv(),
                self.nodes.len() == n,
                i <= self.stack.len(),
                forall|j: int| 0 <= j < self.stack.len() ==> is_node(#[trigger] self.stack@[j], n),
                self.stack@ == st,
                self.nodes@ == push_down(ns, st.subrange(i as int, st.len() as int)),
            decreases i,
        {
            i -= 1;
            let v = self.stack[i];
            proof {
                let t = st.subrange(i as int, st.len() as int);
                assert(t.drop_first() =~= st.subrange(i + 1, st.len() as int));
            }
            self.push(v);
        }
        proof {
            assert(st.subrange(0, st.len() as int) =~= st);
        }
    }

    /// Bring `x` to the root of its splay tree.
    #[verifier::rlimit(50)]
    fn splay(&mut self, x: Id)
        requires
            old(self).inv(),
            is_node(x, old(self).nodes.len() as nat),
        ensures
            final(self).inv(),
            final(self).nodes.len() == old(self).nodes.len(),
            final(self).nodes@ == splayed(old(self).nodes@, x),
    {
        let ghost n = self.nodes.len() as nat;
        let ghost goal = splayed(self.nodes@, x);
        self.push_path(x);
        let mut steps: usize = 0;
        while !self.is_aux_root(x) && steps < self.nodes.len()
            invariant
                self.inv(),
                self.nodes.len() == n,
                is_node(x, n),
                steps <= n,
                splay_rounds(self.nodes@, x, (n - steps) as nat) == goal,
            decreases n - steps,
        {
            let ghost before = self.nodes@;
            let p = self.node(x).p;
            if !self.is_aux_root(p) {
                let g = self.node(p).p;
                let zigzig = (self.node(g).ch[0] == p) == (self.node(p).ch[0] == x);
                if zigzig {
                    self.rotate(p);
                } else {
                    self.rotate(x);
                }
            }
            if !self.is_aux_root(x) {
                self.rotate(x);
            }
            proof {
                assert(self.nodes@ == splay_round(before, x));
            }
            steps += 1;
        }
    }

    /// Make `child_root` a light child of `parent`: count its sum and size there, and note
    /// the parent's pending add; give that sum and size.
    fn virtual_add_with_meta(&mut self, parent: Id, child_root: Id) -> (r: (i64, u32))
        requires
            old(self).inv(),
            is_node(parent, old(self).nodes.len() as nat),
            ok_id(child_root, old(self).nodes.len() as nat),
        ensures
            final(self).inv(),
            final(self).nodes.len() == old(self).nodes.len(),
            final(self).nodes@ == light_added(old(self).nodes@, parent, child_root),
            r == (if child_root.0 == u32::MAX {
                (P::spec_agg_unit(), 0u32)
            } else {
                (old(self).nodes@[child_root.0 as int].all_sum, old(self).nodes@[child_root.0 as int].all_sz)
            }),
    {
        if child_root.is_nil() {
            return (P::agg_unit(), 0);
        }
        let sum = self.node(child_root).all_sum;
        let sz = self.node(child_root).all_sz;
        let parent_vir_lazy = self.node(parent).vir_lazy;
        self.add_to_sums(parent, sum, sz, 0, 0, false);
        self.set_vir_from_parent(child_root, parent_vir_lazy);
        (sum, sz)
    }

    /// Make `child_root` a light child of `parent`.
    fn virtual_add(&mut self, parent: Id, child_root: Id)
        requires
            old(self).inv(),
            is_node(parent, old(self).nodes.len() as nat),
            ok_id(child_root, old(self).nodes.len() as nat),
        ensures
            final(self).inv(),
            final(self).nodes.len() == old(self).nodes.len(),
            final(self).nodes@ == light_added(old(self).nodes@, parent, child_root),
    {
        if child_root.is_nil() {
            return;
        }
        let sum = self.node(child_root).all_sum;
        let sz = self.node(child_root).all_sz;
        let parent_vir_lazy = self.node(parent).vir_lazy;
        self.add_to_sums(parent, sum, sz, 0, 0, false);
        self.set_vir_from_parent(child_root, parent_vir_lazy);
    }

    /// Take the light child `child_root` away from `parent`, after catching it up with the
    /// adds that `parent` owes its light children.
    fn virtual_remove(&mut self, parent: Id, child_root: Id)
        requires
            old(self).inv(),
            is_node(parent, old(self).nodes.len() as nat),
            ok_id(child_root, old(self).nodes.len() as nat),
        ensures
            final(self).inv(),
            final(self).nodes.len() == old(self).nodes.len(),
            final(self).nodes@ == light_removed(old(self).nodes@, parent, child_root),
    {
        if child_root.is_nil() {
            return;
        }
        let parent_vir_lazy = self.node(parent).vir_lazy;
        let snap = self.node(child_root).vir_from_parent;
        let diff = parent_vir_lazy.wrapping_sub(snap);
        if diff != 0 {
            self.apply_all_add(child_root, diff);
        }
        self.set_vir_from_parent(child_root, parent_vir_lazy);
        let sum = self.node(child_root).all_sum;
        let sz = self.node(child_root).all_sz;
        self.add_to_sums(parent, sum, sz, 0, 0, true);
    }

    /// Make the path from the root of the tree of `x` to `x` preferred, with `x` at the root
    /// of its splay tree.
    #[verifier::rlimit(100)]
    #[verifier::spinoff_prover]
    fn access(&mut self, x: Id)
        requires
            old(self).inv(),
            is_node(x, old(self).nodes.len() as nat),
        ensures
            final(self).inv(),
            final(self).nodes.len() == old(self).nodes.len(),
            final(self).nodes@ == accessed(old(self).nodes@, x),
    {
        let ghost n = self.nodes.len() as nat;
        let ghost goal = access_rounds(self.nodes@, x, Id(u32::MAX), n);
        let mut last = Id::nil();
        let mut y = x;
        let mut steps: usize = 0;
        while !y.is_nil() && steps < self.nodes.len()
            invariant
                self.inv(),
                self.nodes.len() == n,
                ok_id(y, n),
                ok_id(last, n),
                steps <= n,
                access_rounds(self.nodes@, y, last, (n - steps) as nat) == goal,
            decreases n - steps,
        {
            self.splay(y);
            proof {
                assert(node_ok::<P>(self.nodes@[y.0 as int], n));
            }
            let old_right = self.node(y).ch[1];
            if old_right != last {
                self.virtual_add(y, old_right);
                self.virtual_remove(y, last);
            }
            self.set_child(y, 1, last);
            if !last.is_nil() {
                self.set_parent(last, y);
            }
            self.pull(y);
            last = y;
            proof {
                assert(node_ok::<P>(self.nodes@[y.0 as int], n));
            }
            y = self.node(y).p;
            steps += 1;
        }
        self.splay(x);
    }

    pub fn makeroot(&mut self, v: usize)
        requires
            old(self).inv(),
            v < old(self).vertex_count(),
        ensures
            final(self).inv(),
            final(self).vertex_count() == old(self).vertex_count(),
            old(self).made_root(v as int, final(self)),
    {
        let x = id(v);
        self.access(x);
        self.apply_rev(x);
    }

    pub fn find_root(&mut self, v: usize) -> (r: usize)
        requires
            old(self).inv(),
            v < old(self).vertex_count(),
        ensures
            final(self).inv(),
            final(self).vertex_count() == old(self).vertex_count(),
            r < old(self).vertex_count(),
            old(self).root_found(v as int, final(self), r as int),
            old(self).tops_its_path(v as int) ==> r == v,
    {
        let ghost n = self.nodes.len() as nat;
        let x = id(v);
        proof {
            let o = pushed_at(accessed(self.nodes@, x), x);
            if o[v as int].ch[0].0 == u32::MAX {
                assert(leftmost(o, x, n) == (o, x));
            }
        }
        self.access(x);
        let mut y = x;
        self.push(y);
        let ghost goal = leftmost(self.nodes@, x, n);
        let mut steps: usize = 0;
        while !self.node(y).ch[0].is_nil() && steps < self.nodes.len()
            invariant
                self.inv(),
                self.nodes.len() == n,
                is_node(y, n),
                steps <= n,
                leftmost(self.nodes@, y, (n - steps) as nat) == goal,
            decreases n - steps,
        {
            proof {
                assert(node_ok::<P>(self.nodes@[y.0 as int], n));
            }
            y = self.node(y).ch[0];
            self.push(y);
            steps += 1;
        }
        self.splay(y);
        y.idx()
    }

    pub fn connected(&mut self, u: usize, v: usize) -> (r: bool)
        requires
            old(self).inv(),
            u < old(self).vertex_count(),
            v < old(self).vertex_count(),
        ensures
            final(self).inv(),
            final(self).vertex_count() == old(self).vertex_count(),
            u == v ==> r,
            u == v ==> old(self).same_forest(final(self)),
            u != v ==> old(self).path_exposed(u as int, v as int, final(self)) && r == old(self).joined(u as int, v as int),
    {
        if u == v {
            return true;
        }
        let u = id(u);
        let v = id(v);
        self.makeroot(u.idx());
        self.access(v);
        !self.node(u).p.is_nil()
    }

    pub fn link(&mut self, u: usize, v: usize) -> (r: bool)
        requires
            old(self).inv(),
            u < old(self).vertex_count(),
            v < old(self).vertex_count(),
        ensures
            final(self).inv(),
            final(self).vertex_count() == old(self).vertex_count(),
            u == v ==> !r,
            u == v ==> old(self).same_forest(final(self)),
            u != v ==> r == !old(self).joined(u as int, v as int),
            u != v && r ==> old(self).hung_below(u as int, v as int, final(self)),
            u != v && !r ==> old(self).path_exposed(u as int, v as int, final(self)),
    {
        if u == v {
            return false;
        }
        let u = id(u);
        let v = id(v);
        self.makeroot(u.idx());
        self.access(v);
        if !self.node(u).p.is_nil() {
            return false;
        }
        // `u` becomes a light child of `v`
        self.set_parent(u, v);
        let (sum, sz) = self.virtual_add_with_meta(v, u);
        self.add_to_sums(v, 0, 0, sum, sz, false);
        true
    }

    pub fn cut(&mut self, u: usize, v: usize) -> (r: bool)
        requires
            old(self).inv(),
            u < old(self).vertex_count(),
            v < old(self).vertex_count(),
        ensures
            final(self).inv(),
            final(self).vertex_count() == old(self).vertex_count(),
            u == v ==> !r,
            u == v ==> old(self).same_forest(final(self)),
            u != v ==> r == old(self).edge_found(u as int, v as int),
            u != v && r ==> old(self).edge_dropped(u as int, v as int, final(self)),
            u != v && !r ==> old(self).path_exposed(u as int, v as int, final(self)),
    {
        if u == v {
            return false;
        }
        let u = id(u);
        let v = id(v);
        self.makeroot(u.idx());
        self.access(v);
        proof {
            assert(node_ok::<P>(self.nodes@[u.0 as int], self.nodes.len() as nat));
        }
        if self.node(v).ch[0] == u && self.node(u).ch[1].is_nil() {
            self.set_child(v, 0, Id::nil());
            self.set_parent(u, Id::nil());
            self.pull(v);
            return true;
        }
        false
    }

    /// Every vertex stands alone: no node has a parent or a child, and none has a pending
    /// reversal.
    pub closed spec fn isolated(&self) -> bool {
        forall|i: int| 0 <= i < self.nodes.len() ==> {
            let m = #[trigger] self.nodes@[i];
            m.ch[0].0 == u32::MAX && m.ch[1].0 == u32::MAX && m.p.0 == u32::MAX && !m.rev
        }
    }

    /// The key stored at the node of vertex `v`.
    pub closed spec fn stored_key(&self, v: int) -> i64 {
        self.nodes@[v].key
    }

    pub fn vertex_get(&mut self, v: usize) -> (r: i64)
        requires
            old(self).inv(),
            v < old(self).vertex_count(),
        ensures
            final(self).inv(),
            final(self).vertex_count() == old(self).vertex_count(),
            old(self).opened(v as int, final(self)),
            r == old(self).opened_key(v as int),
    {
        let x = id(v);
        self.access(x);
        self.node(x).key
    }

    pub fn vertex_set(&mut self, v: usize, key: i64)
        requires
            old(self).inv(),
            v < old(self).vertex_count(),
        ensures
            final(self).inv(),
            final(self).vertex_count() == old(self).vertex_count(),
            final(self).stored_key(v as int) == key,
            old(self).key_written(v as int, key, final(self)),
    {
        let x = id(v);
        self.access(x);
        let old_key = self.node(x).key;
        let diff = key.wrapping_sub(old_key);
        let ghost n0 = self.nodes@;
        proof {
            assert(node_ok::<P>(n0[x.0 as int], n0.len() as nat));
        }
        let nx = self.node_mut(x);
        nx.key = key;
        nx.agg = nx.agg.wrapping_add(diff);
        nx.all_sum = nx.all_sum.wrapping_add(diff);
        proof {
            lemma_update_ok::<P>(n0, n0.len() as nat, x.0 as int, self.nodes@[x.0 as int]);
        }
    }

    pub fn vertex_apply(&mut self, v: usize, delta: i64)
        requires
            old(self).inv(),
            v < old(self).vertex_count(),
        ensures
            final(self).inv(),
            final(self).vertex_count() == old(self).vertex_count(),
            delta == 0 ==> old(self).same_forest(final(self)),
            delta != 0 ==> old(self).key_shifted(v as int, delta, final(self)),
    {
        if delta == 0 {
            return;
        }
        let x = id(v);
        self.access(x);
        let ghost n0 = self.nodes@;
        proof {
            assert(node_ok::<P>(n0[x.0 as int], n0.len() as nat));
        }
        let nx = self.node_mut(x);
        nx.key = nx.key.wrapping_add(delta);
        nx.agg = nx.agg.wrapping_add(delta);
        nx.all_sum = nx.all_sum.wrapping_add(delta);
        proof {
            lemma_update_ok::<P>(n0, n0.len() as nat, x.0 as int, self.nodes@[x.0 as int]);
        }
    }

    pub fn path_fold(&mut self, u: usize, v: usize) -> (r: Option<i64>)
        requires
            old(self).inv(),
            u < old(self).vertex_count(),
            v < old(self).vertex_count(),
        ensures
            final(self).inv(),
            final(self).vertex_count() == old(self).vertex_count(),
            u == v ==> r is Some,
            u == v ==> r == Some(old(self).opened_key(u as int)) && old(self).opened(u as int, final(self)),
            u != v ==> old(self).path_exposed(u as int, v as int, final(self)),
            u != v ==> r == if old(self).joined(u as int, v as int) {
                Some(old(self).exposed_agg(u as int, v as int))
            } else {
                None
            },
    {
        if u == v {
            return Some(self.vertex_get(u));
        }
        let u_id = id(u);
        let v_id = id(v);
        self.makeroot(u);
        self.access(v_id);
        if self.node(u_id).p.is_nil() {
            return None;
        }
        Some(self.node(v_id).agg)
    }

    pub fn path_apply(&mut self, u: usize, v: usize, delta: i64) -> (r: bool)
        requires
            old(self).inv(),
            u < old(self).vertex_count(),
            v < old(self).vertex_count(),
        ensures
            final(self).inv(),
            final(self).vertex_count() == old(self).vertex_count(),
            u == v ==> r,
            u == v && delta == 0 ==> old(self).same_forest(final(self)),
            u == v && delta != 0 ==> old(self).key_shifted(u as int, delta, final(self)),
            u != v ==> r == old(self).joined(u as int, v as int),
            u != v && r ==> old(self).path_shifted(u as int, v as int, delta, final(self)),
            u != v && !r ==> old(self).path_exposed(u as int, v as int, final(self)),
    {
        if u == v {
            self.vertex_apply(u, delta);
            return true;
        }
        let u_id = id(u);
        let v_id = id(v);
        self.makeroot(u);
        self.access(v_id);
        if self.node(u_id).p.is_nil() {
            return false;
        }
        self.apply_path_add(v_id, delta);
        true
    }

    pub fn path_len(&mut self, u: usize, v: usize) -> (r: Option<usize>)
        requires
            old(self).inv(),
            u < old(self).vertex_count(),
            v < old(self).vertex_count(),
        ensures
            final(self).inv(),
            final(self).vertex_count() == old(self).vertex_count(),
            u == v ==> r == Some(1usize) && old(self).same_forest(final(self)),
            u != v ==> old(self).path_exposed(u as int, v as int, final(self)),
            u != v ==> r == if old(self).joined(u as int, v as int) {
                Some(old(self).exposed_len(u as int, v as int) as usize)
            } else {
                None
            },
    {
        if u == v {
            return Some(1);
        }
        let u_id = id(u);
        let v_id = id(v);
        self.makeroot(u);
        self.access(v_id);
        if self.node(u_id).p.is_nil() {
            return None;
        }
        Some(self.node(v_id).sz as usize)
    }

    /// The `k`-th vertex on the path from `u` to `v`, counting from 0.
    pub fn path_kth(&mut self, u: usize, v: usize, k: usize) -> (r: Option<usize>)
        requires
            old(self).inv(),
            u < old(self).vertex_count(),
            v < old(self).vertex_count(),
        ensures
            final(self).inv(),
            final(self).vertex_count() == old(self).vertex_count(),
            u == v ==> r == if k == 0 { Some(u) } else { None },
            r matches Some(x) ==> x < old(self).vertex_count(),
    {
        let ghost n = self.nodes.len() as nat;
        if u == v {
            return if k == 0 { Some(u) } else { None };
        }
        let u_id = id(u);
        let v_id = id(v);
        self.makeroot(u);
        self.access(v_id);
        if self.node(u_id).p.is_nil() {
            return None;
        }
        let mut k = k;
        let mut x = v_id;
        let total = self.node(x).sz as usize;
        if k >= total {
            return None;
        }
        let mut steps: usize = 0;
        while steps < self.nodes.len()
            invariant
                self.inv(),
                self.nodes.len() == n,
                n == old(self).nodes.len(),
                u != v,
                ok_id(x, n),
            decreases n - steps,
        {
            if x.is_nil() {
                return None;
            }
            self.push(x);
            proof {
                assert(node_ok::<P>(self.nodes@[x.0 as int], n));
            }
            let l = self.node(x).ch[0];
            let lsz = self.sz(l) as usize;
            if k < lsz {
                x = l;
            } else if k == lsz {
                self.splay(x);
                return Some(x.idx());
            } else {
                k -= lsz + 1;
                x = self.node(x).ch[1];
            }
            steps += 1;
        }
        None
    }

    /// Sum of the keys of the tree of `v`.
    pub fn component_fold(&mut self, v: usize) -> (r: i64)
        requires
            old(self).inv(),
            v < old(self).vertex_count(),
        ensures
            final(self).inv(),
            final(self).vertex_count() == old(self).vertex_count(),
            old(self).component_read(v as int, final(self), r),
    {
        let x = id(v);
        self.access(x);
        self.node(x).all_sum
    }

    /// Add `delta` to every key of the tree of `v`.
    pub fn component_apply(&mut self, v: usize, delta: i64)
        requires
            old(self).inv(),
            v < old(self).vertex_count(),
        ensures
            final(self).inv(),
            final(self).vertex_count() == old(self).vertex_count(),
            old(self).component_shifted(v as int, delta, final(self)),
    {
        let x = id(v);
        self.access(x);
        self.apply_all_add(x, delta);
    }

    /// The number of vertices of the tree of `v`.
    pub fn component_size(&mut self, v: usize) -> (r: usize)
        requires
            old(self).inv(),
            v < old(self).vertex_count(),
        ensures
            final(self).inv(),
            final(self).vertex_count() == old(self).vertex_count(),
            old(self).component_counted(v as int, final(self), r as int),
    {
        let x = id(v);
        self.access(x);
        self.node(x).all_sz as usize
    }

    /// Add `delta` to `x` and everything hanging from it by light edges; `x` has just been
    /// accessed, so nothing hangs below it on its path.
    fn apply_exposed_subtree_add(&mut self, x: Id, delta: i64)
        requires
            old(self).inv(),
            ok_id(x, old(self).nodes.len() as nat),
        ensures
            final(self).inv(),
            final(self).nodes.len() == old(self).nodes.len(),
            (x.0 == u32::MAX || delta == 0) ==> final(self).nodes@ == old(self).nodes@,
            !(x.0 == u32::MAX || delta == 0) ==> final(self).nodes@ == old(self).nodes@.update(x.0 as int, {
                let n = old(self).nodes@[x.0 as int];
                let vir_inc = delta.wrapping_mul(n.vir_sz as i64);
                Node {
                    key: n.key.wrapping_add(delta),
                    agg: n.agg.wrapping_add(delta),
                    vir_sum: n.vir_sum.wrapping_add(vir_inc),
                    all_sum: n.all_sum.wrapping_add(delta.wrapping_add(vir_inc)),
                    vir_lazy: n.vir_lazy.wrapping_add(delta),
                    ..n
                }
            }),
    {
        if x.is_nil() || delta == 0 {
            return;
        }
        proof {
            assert(node_ok::<P>(self.nodes@[x.0 as int], self.nodes.len() as nat));
        }
        let vir_sz = self.node(x).vir_sz as i64;
        let vir_inc = delta.wrapping_mul(vir_sz);
        let ghost n0 = self.nodes@;
        let nx = self.node_mut(x);
        nx.key = nx.key.wrapping_add(delta);
        nx.agg = nx.agg.wrapping_add(delta);
        nx.vir_sum = nx.vir_sum.wrapping_add(vir_inc);
        nx.all_sum = nx.all_sum.wrapping_add(delta.wrapping_add(vir_inc));
        nx.vir_lazy = nx.vir_lazy.wrapping_add(delta);
        proof {
            lemma_update_ok::<P>(n0, n0.len() as nat, x.0 as int, self.nodes@[x.0 as int]);
        }
    }

    /// Sum of the keys of the subtree on the `child` side of the edge `(child, parent)`.
    pub fn subtree_fold(&mut self, child: usize, parent: usize) -> (r: i64)
        requires
            old(self).inv(),
            child < old(self).vertex_count(),
            parent < old(self).vertex_count(),
        ensures
            final(self).inv(),
            final(self).vertex_count() == old(self).vertex_count(),
            old(self).subtree_read(child as int, parent as int, final(self), r),
    {
        let child_id = id(child);
        self.makeroot(parent);
        self.access(child_id);
        let nx = self.node(child_id);
        nx.key.wrapping_add(nx.vir_sum)
    }

    /// Add `delta` to the keys of the subtree on the `child` side of the edge
    /// `(child, parent)`.
    pub fn subtree_apply(&mut self, child: usize, parent: usize, delta: i64)
        requires
            old(self).inv(),
            child < old(self).vertex_count(),
            parent < old(self).vertex_count(),
        ensures
            final(self).inv(),
            final(self).vertex_count() == old(self).vertex_count(),
            old(self).subtree_shifted(child as int, parent as int, delta, final(self)),
    {
        let child_id = id(child);
        self.makeroot(parent);
        self.access(child_id);
        self.apply_exposed_subtree_add(child_id, delta);
    }
}

impl LinkCutTreeSubtree<VertexSumAdd> {
    pub fn vertex_add(&mut self, v: usize, delta: i64)
        requires
            old(self).inv(),
            v < old(self).vertex_count(),
        ensures
            final(self).inv(),
            final(self).vertex_count() == old(self).vertex_count(),
            delta == 0 ==> old(self).same_forest(final(self)),
            delta != 0 ==> old(self).key_shifted(v as int, delta, final(self)),
    {
        self.vertex_apply(v, delta);
    }

    pub fn path_sum(&mut self, u: usize, v: usize) -> (r: Option<i64>)
        requires
            old(self).inv(),
            u < old(self).vertex_count(),
            v < old(self).vertex_count(),
        ensures
            final(self).inv(),
            final(self).vertex_count() == old(self).vertex_count(),
            u == v ==> r is Some,
            u == v ==> r == Some(old(self).opened_key(u as int)) && old(self).opened(u as int, final(self)),
            u != v ==> old(self).path_exposed(u as int, v as int, final(self)),
            u != v ==> r == if old(self).joined(u as int, v as int) {
                Some(old(self).exposed_agg(u as int, v as int))
            } else {
                None
            },
    {
        self.path_fold(u, v)
    }

    pub fn component_sum(&mut self, v: usize) -> (r: i64)
        requires
            old(self).inv(),
            v < old(self).vertex_count(),
        ensures
            final(self).inv(),
            final(self).vertex_count() == old(self).vertex_count(),
            old(self).component_read(v as int, final(self), r),
    {
        self.component_fold(v)
    }
}

impl<P: LazyMapMonoid<Key = i64, Agg = i64, Act = i64>> DynamicForest for LinkCutTreeSubtree<P> {
    type Key = i64;

    closed spec fn wf(&self) -> bool {
        self.inv()
    }

    closed spec fn spec_len(&self) -> nat {
        self.vertex_count()
    }

    closed spec fn has_room(&self) -> bool {
        true
    }

    fn new(values: &[i64]) -> (r: Self) {
        Self::new(values)
    }

    fn len(&self) -> (r: usize) {
        self.len()
    }

    fn link(&mut self, u: usize, v: usize) -> (r: bool) {
        self.link(u, v)
    }

    fn cut(&mut self, u: usize, v: usize) -> (r: bool) {
        self.cut(u, v)
    }

    fn connected(&mut self, u: usize, v: usize) -> (r: bool) {
        self.connected(u, v)
    }
}

impl<P: LazyMapMonoid<Key = i64, Agg = i64, Act = i64>> VertexOps for LinkCutTreeSubtree<P> {
    type Act = i64;

    fn vertex_get(&mut self, v: usize) -> (r: i64) {
        self.vertex_get(v)
    }

    fn vertex_set(&mut self, v: usize, key: i64) {
        self.vertex_set(v, key)
    }

    fn vertex_apply(&mut self, v: usize, act: i64) {
        self.vertex_apply(v, act)
    }
}

impl<P: LazyMapMonoid<Key = i64, Agg = i64, Act = i64>> PathOps for LinkCutTreeSubtree<P> {
    type Agg = i64;
    type Act = i64;

    fn makeroot(&mut self, v: usize) {
        self.makeroot(v)
    }

    fn find_root(&mut self, v: usize) -> (r: usize) {
        self.find_root(v)
    }

    fn path_fold(&mut self, u: usize, v: usize) -> (r: Option<i64>) {
        self.path_fold(u, v)
    }

    fn path_apply(&mut self, u: usize, v: usize, act: i64) -> (r: bool) {
        self.path_apply(u, v, act)
    }

    fn path_len(&mut self, u: usize, v: usize) -> (r: Option<usize>) {
        self.path_len(u, v)
    }

    fn path_kth(&mut self, u: usize, v: usize, k: usize) -> (r: Option<usize>) {
        self.path_kth(u, v, k)
    }
}

impl<P: LazyMapMonoid<Key = i64, Agg = i64, Act = i64>> ComponentOps for LinkCutTreeSubtree<P> {
    type Agg = i64;
    type Act = i64;

    fn component_fold(&mut self, v: usize) -> (r: i64) {
        self.component_fold(v)
    }

    fn component_apply(&mut self, v: usize, act: i64) {
        self.component_apply(v, act)
    }

    fn component_size(&mut self, v: usize) -> (r: usize) {
        self.component_size(v)
    }
}

impl<P: LazyMapMonoid<Key = i64, Agg = i64, Act = i64>> SubtreeOps for LinkCutTreeSubtree<P> {
    type Agg = i64;
    type Act = i64;

    /// This forest does not record its edges, so its subtree operations accept any pair.
    closed spec fn accepts_edge(&self, u: int, v: int) -> bool {
        true
    }

    fn subtree_fold(&mut self, child: usize, parent: usize) -> (r: i64) {
        self.subtree_fold(child, parent)
    }

    fn subtree_apply(&mut self, child: usize, parent: usize, act: i64) {
        self.subtree_apply(child, parent, act)
    }
}

} // verus!
