use vstd::prelude::*;

use crate::dynamic_tree::policy::{LazyMapMonoid, VertexSumAdd};
use crate::wrap::wrap64;
use crate::dynamic_tree::traits::{DynamicForest, PathOps, VertexOps};

verus! {

/// Index of a node in the arena; `u32::MAX` stands for no node.
#[derive(Clone, Copy, Debug, PartialEq, Eq, Structural)]
struct Id(u32);

impl Id {
    /// No node.
    fn nil() -> (r: Self)
        ensures
            r.0 == u32::MAX,
    {
        Self(u32::MAX)
    }

    fn is_nil(self) -> (r: bool)
        ensures
            r == (self.0 == u32::MAX),
    {
        self.0 == u32::MAX
    }

    fn idx(self) -> (r: usize)
        ensures
            r == self.0,
    {
        self.0 as usize
    }
}

fn id(v: usize) -> (r: Id)
    requires
        v < u32::MAX,
    ensures
        r.0 == v,
{
    Id(v as u32)
}

struct Node<P: LazyMapMonoid> {
    ch: [Id; 2],
    p: Id,
    rev: bool,
    key: P::Key,
    agg: P::Agg,
    agg_rev: P::Agg,
    sz: u32,
    lazy: P::Act,
    lazy_pending: bool,
}

/// `x` is no node or a node of an arena of `n` nodes.
spec fn ok_id(x: Id, n: nat) -> bool {
    x.0 == u32::MAX || x.0 < n
}

/// `x` is a node of an arena of `n` nodes.
spec fn is_node(x: Id, n: nat) -> bool {
    x.0 != u32::MAX && x.0 < n
}

/// Every link of a node stays inside an arena of `n` nodes.
spec fn node_ok<P: LazyMapMonoid>(node: Node<P>, n: nat) -> bool {
    &&& ok_id(node.ch[0], n)
    &&& ok_id(node.ch[1], n)
    &&& ok_id(node.p, n)
}

/// Every node of `s` links inside an arena of `n` nodes.
spec fn all_ok<P: LazyMapMonoid>(s: Seq<Node<P>>, n: nat) -> bool {
    forall|i: int| 0 <= i < s.len() ==> #[trigger] node_ok::<P>(s[i], n)
}

/// Replacing one node by one that links inside the arena keeps every link inside.
proof fn lemma_update_ok<P: LazyMapMonoid>(s: Seq<Node<P>>, n: nat, i: int, x: Node<P>)
    requires
        all_ok::<P>(s, n),
        node_ok::<P>(x, n),
        0 <= i < s.len(),
    ensures
        all_ok::<P>(s.update(i, x), n),
{
    assert forall|j: int| 0 <= j < s.update(i, x).len() implies #[trigger] node_ok::<P>(s.update(i, x)[j], n) by {
        if j != i {
            assert(node_ok::<P>(s[j], n));
        }
    }
}

impl<P: LazyMapMonoid> Node<P> {
    fn new(key: P::Key) -> (r: Self)
        ensures
            r.ch[0].0 == u32::MAX,
            r.ch[1].0 == u32::MAX,
            r.p.0 == u32::MAX,
            r.key == key,
            !r.rev,
    {
        let agg = P::agg_from_key(&key);
        let agg_rev = P::agg_copy(&agg);
        Self {
            ch: [Id::nil(), Id::nil()],
            p: Id::nil(),
            rev: false,
            key,
            agg,
            agg_rev,
            sz: 1,
            lazy: P::act_unit(),
            lazy_pending: false,
        }
    }
}

/// The node `n` with its splay tree reversed, lazily: children swapped, aggregates swapped,
/// reversal flag flipped.
spec fn rev_node<P: LazyMapMonoid>(n: Node<P>) -> Node<P> {
    Node {
        ch: [n.ch[1], n.ch[0]],
        agg: if P::spec_reversal_invariant() { n.agg } else { n.agg_rev },
        agg_rev: if P::spec_reversal_invariant() { n.agg_rev } else { n.agg },
        rev: !n.rev,
        ..n
    }
}

/// The node `n` with `act` applied to its key and aggregates, and composed into its pending
/// action.
spec fn act_node<P: LazyMapMonoid>(n: Node<P>, act: P::Act) -> Node<P> {
    let agg = P::spec_act_apply_agg(n.agg, act, n.sz as nat);
    Node {
        key: P::spec_act_apply_key(n.key, act),
        agg,
        agg_rev: if P::spec_reversal_invariant() {
            agg
        } else {
            P::spec_act_apply_agg(n.agg_rev, act, n.sz as nat)
        },
        lazy: if n.lazy_pending { P::spec_act_compose(act, n.lazy) } else { act },
        lazy_pending: true,
        ..n
    }
}

/// The arena `ns` with the splay tree under `x` reversed (nothing for no node).
spec fn rev_at<P: LazyMapMonoid>(ns: Seq<Node<P>>, x: Id) -> Seq<Node<P>> {
    if x.0 == u32::MAX {
        ns
    } else {
        ns.update(x.0 as int, rev_node(ns[x.0 as int]))
    }
}

/// The arena `ns` with `act` applied to the splay tree under `x` (nothing for no node).
spec fn act_at<P: LazyMapMonoid>(ns: Seq<Node<P>>, x: Id, act: P::Act) -> Seq<Node<P>> {
    if x.0 == u32::MAX {
        ns
    } else {
        ns.update(x.0 as int, act_node(ns[x.0 as int], act))
    }
}

/// The arena `ns` after node `x` hands its reversal, then its pending action, to its
/// children.
spec fn pushed_at<P: LazyMapMonoid>(ns: Seq<Node<P>>, x: Id) -> Seq<Node<P>> {
    if x.0 == u32::MAX {
        ns
    } else {
        let n = ns[x.0 as int];
        let a = if n.rev {
            let b = rev_at(rev_at(ns, n.ch[0]), n.ch[1]);
            b.update(x.0 as int, Node { rev: false, ..b[x.0 as int] })
        } else {
            ns
        };
        if n.lazy_pending {
            let c = act_at(act_at(a, n.ch[0], n.lazy), n.ch[1], n.lazy);
            c.update(x.0 as int, Node { lazy: P::spec_act_unit(), lazy_pending: false, ..c[x.0 as int] })
        } else {
            a
        }
    }
}

/// The size stored at `x` in `ns`, 0 for no node.
spec fn sz_at<P: LazyMapMonoid>(ns: Seq<Node<P>>, x: Id) -> u32 {
    if x.0 == u32::MAX { 0 } else { ns[x.0 as int].sz }
}

/// The aggregate stored at `x` in `ns`, the unit for no node.
spec fn agg_at<P: LazyMapMonoid>(ns: Seq<Node<P>>, x: Id) -> P::Agg {
    if x.0 == u32::MAX { P::spec_agg_unit() } else { ns[x.0 as int].agg }
}

/// The reversed aggregate stored at `x` in `ns`, the unit for no node.
spec fn agg_rev_at<P: LazyMapMonoid>(ns: Seq<Node<P>>, x: Id) -> P::Agg {
    if x.0 == u32::MAX { P::spec_agg_unit() } else { ns[x.0 as int].agg_rev }
}

/// The arena `ns` with the size and aggregates of `x` recomputed from its children.
spec fn pulled_at<P: LazyMapMonoid>(ns: Seq<Node<P>>, x: Id) -> Seq<Node<P>> {
    if x.0 == u32::MAX {
        ns
    } else {
        let n = ns[x.0 as int];
        let (l, r) = (n.ch[0], n.ch[1]);
        let agg = P::spec_agg_merge(agg_at(ns, l), n.key, agg_at(ns, r));
        ns.update(x.0 as int, Node {
            sz: 1u32.wrapping_add(sz_at(ns, l)).wrapping_add(sz_at(ns, r)),
            agg,
            agg_rev: if P::spec_reversal_invariant() {
                agg
            } else {
                P::spec_agg_merge(agg_rev_at(ns, r), n.key, agg_rev_at(ns, l))
            },
            ..n
        })
    }
}

/// The arena `ns` with link `d` of node `x` set to `c`.
spec fn set_ch<P: LazyMapMonoid>(ns: Seq<Node<P>>, x: Id, d: int, c: Id) -> Seq<Node<P>> {
    let n = ns[x.0 as int];
    ns.update(x.0 as int, Node { ch: if d == 0 { [c, n.ch[1]] } else { [n.ch[0], c] }, ..n })
}

/// The arena `ns` with the parent link of node `x` set to `q`.
spec fn set_p<P: LazyMapMonoid>(ns: Seq<Node<P>>, x: Id, q: Id) -> Seq<Node<P>> {
    ns.update(x.0 as int, Node { p: q, ..ns[x.0 as int] })
}

/// In `ns`, `x` is the root of its splay tree.
spec fn aux_root_in<P: LazyMapMonoid>(ns: Seq<Node<P>>, x: Id) -> bool {
    let q = ns[x.0 as int].p;
    q.0 == u32::MAX || (ns[q.0 as int].ch[0] != x && ns[q.0 as int].ch[1] != x)
}

/// The arena `ns` with node `x` rotated above its parent: both pushed, the links of the
/// grandparent, `x`, the parent and the inner child `b` redone, and the parent then `x`
/// recomputed.
spec fn rotated<P: LazyMapMonoid>(ns: Seq<Node<P>>, x: Id) -> Seq<Node<P>> {
    let p = ns[x.0 as int].p;
    let g = ns[p.0 as int].p;
    let a = pushed_at(pushed_at(ns, p), x);
    let dir: int = if a[p.0 as int].ch[1] == x { 1 } else { 0 };
    let b = a[x.0 as int].ch[1 - dir];
    let c = if !aux_root_in(a, p) {
        if a[g.0 as int].ch[0] == p {
            set_ch(a, g, 0, x)
        } else if a[g.0 as int].ch[1] == p {
            set_ch(a, g, 1, x)
        } else {
            a
        }
    } else {
        a
    };
    let d = set_p(c, x, g);
    let e = set_ch(d, x, 1 - dir, p);
    let f = set_p(e, p, x);
    let h = set_ch(f, p, dir, b);
    let i = if b.0 != u32::MAX { set_p(h, b, p) } else { h };
    pulled_at(pulled_at(i, p), x)
}

/// The nodes met from `y` up to the root of its splay tree, at most `fuel` steps up.
spec fn climb<P: LazyMapMonoid>(ns: Seq<Node<P>>, y: Id, fuel: nat) -> Seq<Id>
    decreases fuel,
{
    if fuel == 0 || aux_root_in(ns, y) {
        seq![y]
    } else {
        seq![y] + climb(ns, ns[y.0 as int].p, (fuel - 1) as nat)
    }
}

/// The arena `ns` with the nodes of `s` pushed, from the last to the first.
spec fn push_down<P: LazyMapMonoid>(ns: Seq<Node<P>>, s: Seq<Id>) -> Seq<Node<P>>
    decreases s.len(),
{
    if s.len() == 0 {
        ns
    } else {
        pushed_at(push_down(ns, s.drop_first()), s[0])
    }
}

/// One round of splaying `x`: when its parent is not a root, first the parent (same side,
/// zig-zig) or `x` (zig-zag) is rotated, then `x` once more if it is still not a root.
spec fn splay_round<P: LazyMapMonoid>(ns: Seq<Node<P>>, x: Id) -> Seq<Node<P>> {
    let p = ns[x.0 as int].p;
    let a = if !aux_root_in(ns, p) {
        let g = ns[p.0 as int].p;
        if (ns[g.0 as int].ch[0] == p) == (ns[p.0 as int].ch[0] == x) {
            rotated(ns, p)
        } else {
            rotated(ns, x)
        }
    } else {
        ns
    };
    if !aux_root_in(a, x) { rotated(a, x) } else { a }
}

/// Rounds of splaying `x` until it is the root of its splay tree, at most `fuel` of them.
spec fn splay_rounds<P: LazyMapMonoid>(ns: Seq<Node<P>>, x: Id, fuel: nat) -> Seq<Node<P>>
    decreases fuel,
{
    if fuel == 0 || aux_root_in(ns, x) {
        ns
    } else {
        splay_rounds(splay_round(ns, x), x, (fuel - 1) as nat)
    }
}

/// The arena `ns` after `x` is splayed: the tags above it pushed, then the rounds.
spec fn splayed<P: LazyMapMonoid>(ns: Seq<Node<P>>, x: Id) -> Seq<Node<P>> {
    splay_rounds(push_down(ns, climb(ns, x, (ns.len() - 1) as nat)), x, ns.len())
}

/// The rounds of an access from `y` upwards, `last` being the splay tree met before.
spec fn access_rounds<P: LazyMapMonoid>(ns: Seq<Node<P>>, y: Id, last: Id, fuel: nat) -> Seq<Node<P>>
    decreases fuel,
{
    if fuel == 0 || y.0 == u32::MAX {
        ns
    } else {
        let a = set_ch(splayed(ns, y), y, 1, last);
        let b = if last.0 != u32::MAX { set_p(a, last, y) } else { a };
        let c = pulled_at(b, y);
        access_rounds(c, c[y.0 as int].p, y, (fuel - 1) as nat)
    }
}

/// The arena `ns` after the access of `x`: the path up to the root preferred, then `x`
/// splayed.
spec fn accessed<P: LazyMapMonoid>(ns: Seq<Node<P>>, x: Id) -> Seq<Node<P>> {
    splayed(access_rounds(ns, x, Id(u32::MAX), ns.len()), x)
}

/// The arena `ns` after `x` is made the root of its tree: accessed, then reversed.
spec fn rerooted<P: LazyMapMonoid>(ns: Seq<Node<P>>, x: Id) -> Seq<Node<P>> {
    rev_at(accessed(ns, x), x)
}

/// The arena `ns` with the path from `u` to `v` exposed: `u` made the root, `v` accessed.
spec fn exposed<P: LazyMapMonoid>(ns: Seq<Node<P>>, u: Id, v: Id) -> Seq<Node<P>> {
    accessed(rerooted(ns, u), v)
}

/// The arena `ns` with the key of node `x` replaced by `k`.
spec fn keyed<P: LazyMapMonoid>(ns: Seq<Node<P>>, x: Id, k: P::Key) -> Seq<Node<P>> {
    ns.update(x.0 as int, Node { key: k, ..ns[x.0 as int] })
}

/// The arena `ns` with `x` accessed and its tags pushed, ready for a read or write of its key.
spec fn opened<P: LazyMapMonoid>(ns: Seq<Node<P>>, x: Id) -> Seq<Node<P>> {
    pushed_at(accessed(ns, x), x)
}

/// The search for position `k` in the splay tree under `x`, at most `fuel` nodes deep: each
/// node met is pushed, and the search goes left, stops (splaying the node found), or goes
/// right past the left subtree and the node. The arena at the end and the node found.
spec fn kth_walk<P: LazyMapMonoid>(ns: Seq<Node<P>>, x: Id, k: int, fuel: nat) -> (Seq<Node<P>>, Option<Id>)
    decreases fuel,
{
    if fuel == 0 || x.0 == u32::MAX {
        (ns, None)
    } else {
        let a = pushed_at(ns, x);
        let l = a[x.0 as int].ch[0];
        let lsz = sz_at(a, l) as int;
        if k < lsz {
            kth_walk(a, l, k, (fuel - 1) as nat)
        } else if k == lsz {
            (splayed(a, x), Some(x))
        } else {
            kth_walk(a, a[x.0 as int].ch[1], k - lsz - 1, (fuel - 1) as nat)
        }
    }
}

/// The walk from `y` down the left links, each node met pushed, at most `fuel` steps: the
/// arena at the end and the node reached.
spec fn leftmost<P: LazyMapMonoid>(ns: Seq<Node<P>>, y: Id, fuel: nat) -> (Seq<Node<P>>, Id)
    decreases fuel,
{
    if fuel == 0 || ns[y.0 as int].ch[0].0 == u32::MAX {
        (ns, y)
    } else {
        let z = ns[y.0 as int].ch[0];
        leftmost(pushed_at(ns, z), z, (fuel - 1) as nat)
    }
}

/// Link-cut tree (splay-based), generic over a `LazyMapMonoid` policy.
///
/// Every walk up or down the splay trees stops after as many steps as there are vertices,
/// which a walk in a forest never takes.
pub struct LinkCutTree<P: LazyMapMonoid = VertexSumAdd> {
    nodes: Vec<Node<P>>,
    stack: Vec<Id>,
}

impl<P: LazyMapMonoid> LinkCutTree<P> {
    /// Every link stays inside the arena, whose indices fit below `u32::MAX`.
    pub closed spec fn inv(&self) -> bool {
        &&& self.nodes.len() < u32::MAX
        &&& all_ok::<P>(self.nodes@, self.nodes.len() as nat)
    }

    /// The number of vertices.
    pub closed spec fn vertex_count(&self) -> nat {
        self.nodes.len() as nat
    }

    /// `post` is this forest with `v` made the root of its tree.
    pub closed spec fn made_root(&self, v: int, post: &Self) -> bool {
        post.nodes@ == rerooted(self.nodes@, Id(v as u32))
    }

    /// `post` is this forest after the search for the root of the tree of `v`, and `r` the
    /// vertex found: `v` accessed, the left spine of its splay tree walked down to its
    /// end, and that vertex splayed.
    pub closed spec fn root_found(&self, v: int, post: &Self, r: int) -> bool {
        let x = Id(v as u32);
        let (b, y) = leftmost(opened(self.nodes@, x), x, self.nodes.len() as nat);
        post.nodes@ == splayed(b, y) && r == y.0
    }

    /// Once `v` is accessed and its tags pushed, nothing lies above `v` on its preferred path:
    /// `v` has no left child in its splay tree.
    pub closed spec fn tops_its_path(&self, v: int) -> bool {
        opened(self.nodes@, Id(v as u32))[v].ch[0].0 == u32::MAX
    }

    /// `post` is this forest after the path from `u` to `v` is exposed, and `r` whether `u`
    /// then hangs above `v`, that is whether they share a tree; for `u == v` nothing changes
    /// and `r` holds.
    pub closed spec fn connection(&self, u: int, v: int, post: &Self, r: bool) -> bool {
        if u == v {
            post.nodes@ == self.nodes@ && r
        } else {
            let e = exposed(self.nodes@, Id(u as u32), Id(v as u32));
            post.nodes@ == e && r == (e[u].p.0 != u32::MAX)
        }
    }

    /// `post` and `r` are this forest and the answer after `link(u, v)`: refused (`!r`)
    /// for `u == v`, leaving the forest as it was, or when the two are connected, leaving it
    /// as the connection test did; else `u` made the root and hung below `v`.
    pub closed spec fn linked(&self, u: int, v: int, post: &Self, r: bool) -> bool {
        if u == v {
            post.nodes@ == self.nodes@ && !r
        } else {
            let e = exposed(self.nodes@, Id(u as u32), Id(v as u32));
            if e[u].p.0 != u32::MAX {
                post.nodes@ == e && !r
            } else {
                post.nodes@ == set_p(rerooted(e, Id(u as u32)), Id(u as u32), Id(v as u32)) && r
            }
        }
    }

    /// `post` and `r` are this forest and the answer after `cut(u, v)`: with the path from
    /// `u` to `v` exposed, the edge is there when `u` is the left child of `v` with no right
    /// child; then both links are dropped and `v` recomputed.
    pub closed spec fn cut_done(&self, u: int, v: int, post: &Self, r: bool) -> bool {
        if u == v {
            post.nodes@ == self.nodes@ && !r
        } else {
            let (x, y) = (Id(u as u32), Id(v as u32));
            let e = exposed(self.nodes@, x, y);
            if e[v].ch[0] == x && e[u].ch[1].0 == u32::MAX {
                r && post.nodes@ == pulled_at(set_p(set_ch(e, y, 0, Id(u32::MAX)), x, Id(u32::MAX)), y)
            } else {
                !r && post.nodes@ == e
            }
        }
    }

    /// `post` is this forest with `v` accessed and its tags pushed, and `k` the key found
    /// at `v`.
    pub closed spec fn key_read(&self, v: int, post: &Self, k: P::Key) -> bool {
        let a = opened(self.nodes@, Id(v as u32));
        post.nodes@ == a && k == a[v].key
    }

    /// `post` is this forest with `v` accessed, its tags pushed, its key replaced by `k`
    /// and its aggregates recomputed.
    pub closed spec fn key_written(&self, v: int, k: P::Key, post: &Self) -> bool {
        let x = Id(v as u32);
        post.nodes@ == pulled_at(keyed(opened(self.nodes@, x), x, k), x)
    }

    /// The key at `v` once `v` is accessed and its tags pushed.
    pub closed spec fn opened_key(&self, v: int) -> P::Key {
        opened(self.nodes@, Id(v as u32))[v].key
    }

    /// `post` and `r` are this forest and the answer after the search for the `k`-th vertex
    /// on the path from `u` to `v`: for `u == v` only position 0 (vertex `u`) exists and
    /// nothing changes; otherwise the path is exposed, and when the two are joined and `k`
    /// is below the path length the splay tree under `v` is searched by subtree sizes.
    pub closed spec fn kth_found(&self, u: int, v: int, k: int, post: &Self, r: Option<usize>) -> bool {
        if u == v {
            post.nodes@ == self.nodes@ && r == if k == 0 { Some(u as usize) } else { None }
        } else {
            let y = Id(v as u32);
            let e = exposed(self.nodes@, Id(u as u32), y);
            if e[u].p.0 == u32::MAX || k >= e[v].sz {
                post.nodes@ == e && r is None
            } else {
                let (b, w) = kth_walk(e, y, k, self.nodes.len() as nat);
                post.nodes@ == b && r == match w {
                    Some(i) => Some(i.0 as usize),
                    None => None,
                }
            }
        }
    }

    /// `post` holds the same nodes as this forest.
    pub closed spec fn same_forest(&self, post: &Self) -> bool {
        post.nodes@ == self.nodes@
    }

    /// `post` is this forest with the path from `u` to `v` exposed.
    pub closed spec fn path_exposed(&self, u: int, v: int, post: &Self) -> bool {
        post.nodes@ == exposed(self.nodes@, Id(u as u32), Id(v as u32))
    }

    /// Whether `u` hangs above `v` once the path from `u` to `v` is exposed, that is
    /// whether they share a tree.
    pub closed spec fn joined(&self, u: int, v: int) -> bool {
        exposed(self.nodes@, Id(u as u32), Id(v as u32))[u].p.0 != u32::MAX
    }

    /// The aggregate of the path from `u` to `v` once it is exposed: that of the splay tree
    /// under `v`.
    pub closed spec fn exposed_agg(&self, u: int, v: int) -> P::Agg {
        exposed(self.nodes@, Id(u as u32), Id(v as u32))[v].agg
    }

    /// The number of vertices on the path from `u` to `v` once it is exposed.
    pub closed spec fn exposed_len(&self, u: int, v: int) -> u32 {
        exposed(self.nodes@, Id(u as u32), Id(v as u32))[v].sz
    }

    /// `post` is this forest with the path from `u` to `v` exposed and `act` applied, lazily,
    /// to the splay tree under `v`.
    pub closed spec fn path_acted(&self, u: int, v: int, act: P::Act, post: &Self) -> bool {
        let y = Id(v as u32);
        post.nodes@ == act_at(exposed(self.nodes@, Id(u as u32), y), y, act)
    }

    pub fn new(values: &[P::Key]) -> (r: Self)
        requires
            values@.len() < u32::MAX,
        ensures
            r.inv(),
            r.vertex_count() == values@.len(),
            r.isolated(),
            forall|i: int| 0 <= i < values@.len() ==> #[trigger] r.stored_key(i) == values@[i],
    {
        let mut nodes: Vec<Node<P>> = Vec::with_capacity(values.len());
        let mut i: usize = 0;
        while i < values.len()
            invariant
                i <= values@.len() < u32::MAX,
                nodes.len() == i,
                forall|j: int| 0 <= j < nodes.len() ==> {
                    let m = #[trigger] nodes@[j];
                    m.ch[0].0 == u32::MAX && m.ch[1].0 == u32::MAX && m.p.0 == u32::MAX && !m.rev && m.key == values@[j]
                },
                forall|j: int| 0 <= j < nodes.len() ==> #[trigger] node_ok::<P>(nodes@[j], 0),
            decreases values@.len() - i,
        {
            nodes.push(Node::<P>::new(P::key_copy(&values[i])));
            i += 1;
        }
        let r = Self { nodes, stack: Vec::with_capacity(values.len()) };
        assert forall|j: int| 0 <= j < r.nodes.len() implies #[trigger] node_ok::<P>(r.nodes@[j], r.nodes.len() as nat) by {
            assert(node_ok::<P>(r.nodes@[j], 0));
        }
        r
    }

    pub fn len(&self) -> (r: usize)
        ensures
            r == self.vertex_count(),
    {
        self.nodes.len()
    }

    pub fn is_empty(&self) -> (r: bool)
        ensures
            r == (self.vertex_count() == 0),
    {
        self.nodes.len() == 0
    }

    fn node(&self, x: Id) -> (r: &Node<P>)
        requires
            is_node(x, self.nodes.len() as nat),
        ensures
            *r == self.nodes@[x.0 as int],
    {
        &self.nodes[x.idx()]
    }

    fn node_mut(&mut self, x: Id) -> (r: &mut Node<P>)
        requires
            is_node(x, old(self).nodes.len() as nat),
        ensures
            *r == old(self).nodes@[x.0 as int],
            final(self).nodes@ == old(self).nodes@.update(x.0 as int, *final(r)),
            final(self).stack == old(self).stack,
    {
        &mut self.nodes[x.idx()]
    }

    fn sz(&self, x: Id) -> (r: u32)
        requires
            ok_id(x, self.nodes.len() as nat),
        ensures
            r == sz_at(self.nodes@, x),
    {
        if x.is_nil() {
            0
        } else {
            self.node(x).sz
        }
    }

    fn agg(&self, x: Id) -> (r: P::Agg)
        requires
            ok_id(x, self.nodes.len() as nat),
        ensures
            x.0 == u32::MAX ==> r == P::spec_agg_unit(),
            x.0 != u32::MAX ==> r == self.nodes@[x.0 as int].agg,
    {
        if x.is_nil() {
            P::agg_unit()
        } else {
            P::agg_copy(&self.node(x).agg)
        }
    }

    fn agg_rev(&self, x: Id) -> (r: P::Agg)
        requires
            ok_id(x, self.nodes.len() as nat),
        ensures
            x.0 == u32::MAX ==> r == P::spec_agg_unit(),
            x.0 != u32::MAX ==> r == self.nodes@[x.0 as int].agg_rev,
    {
        if x.is_nil() {
            P::agg_unit()
        } else {
            P::agg_copy(&self.node(x).agg_rev)
        }
    }

    /// Whether `x` is the root of its splay tree.
    fn is_aux_root(&self, x: Id) -> (r: bool)
        requires
            self.inv(),
            is_node(x, self.nodes.len() as nat),
        ensures
            !r ==> is_node(self.nodes@[x.0 as int].p, self.nodes.len() as nat),
            r == ({
                let p = self.nodes@[x.0 as int].p;
                p.0 == u32::MAX || (self.nodes@[p.0 as int].ch[0] != x && self.nodes@[p.0 as int].ch[1] != x)
            }),
    {
        proof {
            assert(node_ok::<P>(self.nodes@[x.0 as int], self.nodes.len() as nat));
        }
        let p = self.node(x).p;
        if p.is_nil() {
            return true;
        }
        self.node(p).ch[0] != x && self.node(p).ch[1] != x
    }

    /// Reverse the splay tree under `x`, lazily.
    fn apply_rev(&mut self, x: Id)
        requires
            old(self).inv(),
            ok_id(x, old(self).nodes.len() as nat),
        ensures
            final(self).inv(),
            final(self).nodes.len() == old(self).nodes.len(),
            final(self).stack == old(self).stack,
            forall|i: int| 0 <= i < final(self).nodes.len() ==> (#[trigger] final(self).nodes@[i]).p == old(self).nodes@[i].p,
            final(self).nodes@ == rev_at(old(self).nodes@, x),
    {
        if x.is_nil() {
            return;
        }
        let reversal_invariant = P::reversal_invariant();
        proof {
            assert(node_ok::<P>(self.nodes@[x.0 as int], self.nodes.len() as nat));
        }
        let ghost n0 = self.nodes@;
        let nx = self.node_mut(x);
        let c0 = nx.ch[0];
        nx.ch[0] = nx.ch[1];
        nx.ch[1] = c0;
        if !reversal_invariant {
            std::mem::swap(&mut nx.agg, &mut nx.agg_rev);
        }
        nx.rev = !nx.rev;
        proof {
            lemma_update_ok::<P>(n0, n0.len() as nat, x.0 as int, self.nodes@[x.0 as int]);
            assert(self.nodes@[x.0 as int].ch =~= rev_node(n0[x.0 as int]).ch);
            assert(self.nodes@ =~= rev_at(n0, x));
        }
    }

    /// Apply `act` to the splay tree under `x`, lazily.
    fn apply_act(&mut self, x: Id, act: P::Act)
        requires
            old(self).inv(),
            ok_id(x, old(self).nodes.len() as nat),
        ensures
            final(self).inv(),
            final(self).nodes.len() == old(self).nodes.len(),
            final(self).stack == old(self).stack,
            forall|i: int| 0 <= i < final(self).nodes.len() ==> (#[trigger] final(self).nodes@[i]).p == old(self).nodes@[i].p,
            final(self).nodes@ == act_at(old(self).nodes@, x, act),
    {
        if x.is_nil() {
            return;
        }
        let reversal_invariant = P::reversal_invariant();
        let sz = self.node(x).sz as usize;
        proof {
            assert(node_ok::<P>(self.nodes@[x.0 as int], self.nodes.len() as nat));
        }
        let ghost n0 = self.nodes@;
        let nx = self.node_mut(x);
        nx.key = P::act_apply_key(&nx.key, &act);
        let new_agg = P::act_apply_agg(&nx.agg, &act, sz);
        nx.agg = P::agg_copy(&new_agg);
        if reversal_invariant {
            nx.agg_rev = new_agg;
        } else {
            nx.agg_rev = P::act_apply_agg(&nx.agg_rev, &act, sz);
        }
        if nx.lazy_pending {
            nx.lazy = P::act_compose(&act, &nx.lazy);
        } else {
            nx.lazy = act;
            nx.lazy_pending = true;
        }
        proof {
            lemma_update_ok::<P>(n0, n0.len() as nat, x.0 as int, self.nodes@[x.0 as int]);
        }
    }

    /// Hand the tags of `x` down to its children.
    fn push(&mut self, x: Id)
        requires
            old(self).inv(),
            ok_id(x, old(self).nodes.len() as nat),
        ensures
            final(self).inv(),
            final(self).nodes.len() == old(self).nodes.len(),
            final(self).stack == old(self).stack,
            forall|i: int| 0 <= i < final(self).nodes.len() ==> (#[trigger] final(self).nodes@[i]).p == old(self).nodes@[i].p,
            final(self).nodes@ == pushed_at(old(self).nodes@, x),
    {
        if x.is_nil() {
            return;
        }
        proof {
            assert(node_ok::<P>(self.nodes@[x.0 as int], self.nodes.len() as nat));
        }
        let rev = self.node(x).rev;
        let lazy_pending = self.node(x).lazy_pending;
        let lazy = P::act_copy(&self.node(x).lazy);
        let l = self.node(x).ch[0];
        let r = self.node(x).ch[1];
        if rev {
            self.apply_rev(l);
            self.apply_rev(r);
            let ghost n0 = self.nodes@;
            proof {
                assert(node_ok::<P>(n0[x.0 as int], n0.len() as nat));
            }
            self.node_mut(x).rev = false;
            proof {
                lemma_update_ok::<P>(n0, n0.len() as nat, x.0 as int, self.nodes@[x.0 as int]);
            }
        }
        if lazy_pending {
            self.apply_act(l, P::act_copy(&lazy));
            self.apply_act(r, lazy);
            let ghost n0 = self.nodes@;
            proof {
                assert(node_ok::<P>(n0[x.0 as int], n0.len() as nat));
            }
            let nx = self.node_mut(x);
            nx.lazy = P::act_unit();
            nx.lazy_pending = false;
            proof {
                lemma_update_ok::<P>(n0, n0.len() as nat, x.0 as int, self.nodes@[x.0 as int]);
            }
        }
    }

    /// Recompute the size and aggregates of `x` from its children.
    fn pull(&mut self, x: Id)
        requires
            old(self).inv(),
            ok_id(x, old(self).nodes.len() as nat),
        ensures
            final(self).inv(),
            final(self).nodes.len() == old(self).nodes.len(),
            final(self).stack == old(self).stack,
            final(self).nodes@ == pulled_at(old(self).nodes@, x),
    {
        if x.is_nil() {
            return;
        }
        proof {
            assert(node_ok::<P>(self.nodes@[x.0 as int], self.nodes.len() as nat));
        }
        let l = self.node(x).ch[0];
        let r = self.node(x).ch[1];
        let key = P::key_copy(&self.node(x).key);
        let sz = 1u32.wrapping_add(self.sz(l)).wrapping_add(self.sz(r));
        let agg = P::agg_merge(&self.agg(l), &key, &self.agg(r));
        let agg_rev = if P::reversal_invariant() {
            P::agg_copy(&agg)
        } else {
            P::agg_merge(&self.agg_rev(r), &key, &self.agg_rev(l))
        };
        let ghost n0 = self.nodes@;
        let nx = self.node_mut(x);
        nx.sz = sz;
        nx.agg = agg;
        nx.agg_rev = agg_rev;
        proof {
            lemma_update_ok::<P>(n0, n0.len() as nat, x.0 as int, self.nodes@[x.0 as int]);
        }
    }

    /// Set one link of node `x`.
    fn set_child(&mut self, x: Id, dir: usize, c: Id)
        requires
            old(self).inv(),
            is_node(x, old(self).nodes.len() as nat),
            dir < 2,
            ok_id(c, old(self).nodes.len() as nat),
        ensures
            final(self).inv(),
            final(self).nodes.len() == old(self).nodes.len(),
            final(self).stack == old(self).stack,
            final(self).nodes@[x.0 as int].ch[dir as int] == c,
            final(self).nodes@ == set_ch(old(self).nodes@, x, dir as int, c),
    {
        let ghost n0 = self.nodes@;
        proof {
            assert(node_ok::<P>(n0[x.0 as int], n0.len() as nat));
        }
        self.node_mut(x).ch[dir] = c;
        proof {
            lemma_update_ok::<P>(n0, n0.len() as nat, x.0 as int, self.nodes@[x.0 as int]);
            assert(self.nodes@[x.0 as int].ch =~= set_ch(n0, x, dir as int, c)[x.0 as int].ch);
            assert(self.nodes@ =~= set_ch(n0, x, dir as int, c));
        }
    }

    /// Set the parent link of node `x`.
    fn set_parent(&mut self, x: Id, p: Id)
        requires
            old(self).inv(),
            is_node(x, old(self).nodes.len() as nat),
            ok_id(p, old(self).nodes.len() as nat),
        ensures
            final(self).inv(),
            final(self).nodes.len() == old(self).nodes.len(),
            final(self).stack == old(self).stack,
            final(self).nodes@[x.0 as int].p == p,
            final(self).nodes@ == set_p(old(self).nodes@, x, p),
    {
        let ghost n0 = self.nodes@;
        proof {
            assert(node_ok::<P>(n0[x.0 as int], n0.len() as nat));
        }
        self.node_mut(x).p = p;
        proof {
            lemma_update_ok::<P>(n0, n0.len() as nat, x.0 as int, self.nodes@[x.0 as int]);
        }
    }

    /// Rotate `x` above its parent.
    fn rotate(&mut self, x: Id)
        requires
            old(self).inv(),
            is_node(x, old(self).nodes.len() as nat),
            is_node(old(self).nodes@[x.0 as int].p, old(self).nodes.len() as nat),
        ensures
            final(self).inv(),
            final(self).nodes.len() == old(self).nodes.len(),
            final(self).stack == old(self).stack,
            final(self).nodes@ == rotated(old(self).nodes@, x),
    {
        let ghost n = self.nodes.len() as nat;
        let p = self.node(x).p;
        proof {
            assert(node_ok::<P>(self.nodes@[p.0 as int], n));
        }
        let g = self.node(p).p;
        self.push(p);
        self.push(x);
        proof {
            assert(node_ok::<P>(self.nodes@[x.0 as int], n));
        }
        let dir: usize = if self.node(p).ch[1] == x { 1 } else { 0 };
        let b = self.node(x).ch[1 - dir];
        if !self.is_aux_root(p) {
            if self.node(g).ch[0] == p {
                self.set_child(g, 0, x);
            } else if self.node(g).ch[1] == p {
                self.set_child(g, 1, x);
            }
        }
        self.set_parent(x, g);
        self.set_child(x, 1 - dir, p);
        self.set_parent(p, x);
        self.set_child(p, dir, b);
        if !b.is_nil() {
            self.set_parent(b, p);
        }
        self.pull(p);
        self.pull(x);
    }

    /// Push the tags on the way from the root of the splay tree of `x` down to `x`.
    fn push_path(&mut self, x: Id)
        requires
            old(self).inv(),
            is_node(x, old(self).nodes.len() as nat),
        ensures
            final(self).inv(),
            final(self).nodes.len() == old(self).nodes.len(),
            final(self).nodes@ == push_down(old(self).nodes@, climb(old(self).nodes@, x, (old(self).nodes.len() - 1) as nat)),
    {
        let ghost n = self.nodes.len() as nat;
        let ghost ns = self.nodes@;
        self.stack.clear();
        let mut y = x;
        self.stack.push(y);
        while !self.is_aux_root(y) && self.stack.len() < self.nodes.len()
            invariant
                self.inv(),
                self.nodes.len() == n,
                is_node(y, n),
                1 <= self.stack.len() <= n,
                forall|i: int| 0 <= i < self.stack.len() ==> is_node(#[trigger] self.stack@[i], n),
                self.nodes@ == ns,
                self.stack@.last() == y,
                self.stack@.drop_last() + climb(ns, y, (n - self.stack.len()) as nat) == climb(ns, x, (n - 1) as nat),
            decreases n - self.stack.len(),
        {
            let ghost s0 = self.stack@;
            let ghost y0 = y;
            y = self.node(y).p;
            self.stack.push(y);
            proof {
                assert(climb(ns, y0, (n - s0.len()) as nat) == seq![y0] + climb(ns, y, (n - self.stack.len()) as nat));
                assert(self.stack@.drop_last() =~= s0.drop_last() + seq![y0]);
                assert(s0.drop_last() + (seq![y0] + climb(ns, y, (n - self.stack.len()) as nat)) =~= self.stack@.drop_last() + climb(ns, y, (n - self.stack.len()) as nat));
            }
        }
        proof {
            assert(climb(ns, y, (n - self.stack.len()) as nat) == seq![y]);
            assert(self.stack@ =~= self.stack@.drop_last() + seq![y]);
        }
        let ghost st = self.stack@;
        let mut i = self.stack.len();
        while i > 0
            invariant
                self.inv(),
                self.nodes.len() == n,
                i <= self.stack.len(),
                forall|j: int| 0 <= j < self.stack.len() ==> is_node(#[trigger] self.stack@[j], n),
                self.stack@ == st,
                self.nodes@ == push_down(ns, st.subrange(i as int, st.len() as int)),
            decreases i,
        {
            i -= 1;
            let v = self.stack[i];
            proof {
                let t = st.subrange(i as int, st.len() as int);
                assert(t.drop_first() =~= st.subrange(i + 1, st.len() as int));
            }
            self.push(v);
        }
        proof {
            assert(st.subrange(0, st.len() as int) =~= st);
        }
    }

    /// Bring `x` to the root of its splay tree.
    fn splay(&mut self, x: Id)
        requires
            old(self).inv(),
            is_node(x, old(self).nodes.len() as nat),
        ensures
            final(self).inv(),
            final(self).nodes.len() == old(self).nodes.len(),
            final(self).nodes@ == splayed(old(self).nodes@, x),
    {
        let ghost n = self.nodes.len() as nat;
        let ghost goal = splayed(self.nodes@, x);
        self.push_path(x);
        let mut steps: usize = 0;
        while !self.is_aux_root(x) && steps < self.nodes.len()
            invariant
                self.inv(),
                self.nodes.len() == n,
                is_node(x, n),
                steps <= n,
                splay_rounds(self.nodes@, x, (n - steps) as nat) == goal,
            decreases n - steps,
        {
            let ghost before = self.nodes@;
            let p = self.node(x).p;
            if !self.is_aux_root(p) {
                let g = self.node(p).p;
                let zigzig = (self.node(g).ch[0] == p) == (self.node(p).ch[0] == x);
                if zigzig {
                    self.rotate(p);
                } else {
                    self.rotate(x);
                }
            }
            if !self.is_aux_root(x) {
                self.rotate(x);
            }
            proof {
                assert(self.nodes@ == splay_round(before, x));
            }
            steps += 1;
        }
    }

    /// Make the path from the root of the tree of `x` to `x` preferred, with `x` at the root
    /// of its splay tree.
    fn access(&mut self, x: Id)
        requires
            old(self).inv(),
            is_node(x, old(self).nodes.len() as nat),
        ensures
            final(self).inv(),
            final(self).nodes.len() == old(self).nodes.len(),
            final(self).nodes@ == accessed(old(self).nodes@, x),
    {
        let ghost n = self.nodes.len() as nat;
        let ghost goal = access_rounds(self.nodes@, x, Id(u32::MAX), n);
        let mut last = Id::nil();
        let mut y = x;
        let mut steps: usize = 0;
        while !y.is_nil() && steps < self.nodes.len()
            invariant
                self.inv(),
                self.nodes.len() == n,
                ok_id(y, n),
                ok_id(last, n),
                steps <= n,
                access_rounds(self.nodes@, y, last, (n - steps) as nat) == goal,
            decreases n - steps,
        {
            let ghost before = self.nodes@;
            self.splay(y);
            self.set_child(y, 1, last);
            if !last.is_nil() {
                self.set_parent(last, y);
            }
            self.pull(y);
            last = y;
            proof {
                assert(node_ok::<P>(self.nodes@[y.0 as int], n));
            }
            y = self.node(y).p;
            steps += 1;
        }
        self.splay(x);
    }

    pub fn makeroot(&mut self, v: usize)
        requires
            old(self).inv(),
            v < old(self).vertex_count(),
        ensures
            final(self).inv(),
            final(self).vertex_count() == old(self).vertex_count(),
            old(self).made_root(v as int, final(self)),
    {
        let x = id(v);
        self.access(x);
        self.apply_rev(x);
    }

    pub fn find_root(&mut self, v: usize) -> (r: usize)
        requires
            old(self).inv(),
            v < old(self).vertex_count(),
        ensures
            final(self).inv(),
            final(self).vertex_count() == old(self).vertex_count(),
            r < old(self).vertex_count(),
            old(self).root_found(v as int, final(self), r as int),
            old(self).tops_its_path(v as int) ==> r == v,
    {
        let ghost n = self.nodes.len() as nat;
        let x = id(v);
        proof {
            let o = opened(self.nodes@, x);
            if o[v as int].ch[0].0 == u32::MAX {
                assert(leftmost(o, x, n) == (o, x));
            }
        }
        self.access(x);
        let mut y = x;
        self.push(y);
        let ghost goal = leftmost(self.nodes@, x, n);
        let mut steps: usize = 0;
        while !self.node(y).ch[0].is_nil() && steps < self.nodes.len()
            invariant
                self.inv(),
                self.nodes.len() == n,
                is_node(y, n),
                steps <= n,
                leftmost(self.nodes@, y, (n - steps) as nat) == goal,
            decreases n - steps,
        {
            proof {
                assert(node_ok::<P>(self.nodes@[y.0 as int], n));
            }
            y = self.node(y).ch[0];
            self.push(y);
            steps += 1;
        }
        self.splay(y);
        y.idx()
    }

    pub fn connected(&mut self, u: usize, v: usize) -> (r: bool)
        requires
            old(self).inv(),
            u < old(self).vertex_count(),
            v < old(self).vertex_count(),
        ensures
            final(self).inv(),
            final(self).vertex_count() == old(self).vertex_count(),
            u == v ==> r,
            old(self).connection(u as int, v as int, final(self), r),
    {
        if u == v {
            return true;
        }
        let u = id(u);
        let v = id(v);
        self.makeroot(u.idx());
        self.access(v);
        !self.node(u).p.is_nil()
    }

    pub fn link(&mut self, u: usize, v: usize) -> (r: bool)
        requires
            old(self).inv(),
            u < old(self).vertex_count(),
            v < old(self).vertex_count(),
        ensures
            final(self).inv(),
            final(self).vertex_count() == old(self).vertex_count(),
            u == v ==> !r,
            old(self).linked(u as int, v as int, final(self), r),
    {
        if u == v {
            return false;
        }
        if self.connected(u, v) {
            return false;
        }
        let u = id(u);
        let v = id(v);
        self.makeroot(u.idx());
        self.set_parent(u, v);
        true
    }

    pub fn cut(&mut self, u: usize, v: usize) -> (r: bool)
        requires
            old(self).inv(),
            u < old(self).vertex_count(),
            v < old(self).vertex_count(),
        ensures
            final(self).inv(),
            final(self).vertex_count() == old(self).vertex_count(),
            u == v ==> !r,
            old(self).cut_done(u as int, v as int, final(self), r),
    {
        if u == v {
            return false;
        }
        let u = id(u);
        let v = id(v);
        self.makeroot(u.idx());
        self.access(v);
        proof {
            assert(node_ok::<P>(self.nodes@[u.0 as int], self.nodes.len() as nat));
        }
        if self.node(v).ch[0] == u && self.node(u).ch[1].is_nil() {
            self.set_child(v, 0, Id::nil());
            self.set_parent(u, Id::nil());
            self.pull(v);
            return true;
        }
        false
    }

    /// Every vertex stands alone: no node has a parent or a child, and none has a pending
    /// reversal.
    pub closed spec fn isolated(&self) -> bool {
        forall|i: int| 0 <= i < self.nodes.len() ==> {
            let m = #[trigger] self.nodes@[i];
            m.ch[0].0 == u32::MAX && m.ch[1].0 == u32::MAX && m.p.0 == u32::MAX && !m.rev
        }
    }

    /// The key stored at the node of vertex `v`.
    pub closed spec fn stored_key(&self, v: int) -> P::Key {
        self.nodes@[v].key
    }

    pub fn vertex_get(&mut self, v: usize) -> (r: P::Key)
        requires
            old(self).inv(),
            v < old(self).vertex_count(),
        ensures
            final(self).inv(),
            final(self).vertex_count() == old(self).vertex_count(),
            old(self).key_read(v as int, final(self), r),
    {
        let x = id(v);
        self.access(x);
        self.push(x);
        P::key_copy(&self.node(x).key)
    }

    pub fn vertex_set(&mut self, v: usize, key: P::Key)
        requires
            old(self).inv(),
            v < old(self).vertex_count(),
        ensures
            final(self).inv(),
            final(self).vertex_count() == old(self).vertex_count(),
            final(self).stored_key(v as int) == key,
            old(self).key_written(v as int, key, final(self)),
    {
        let x = id(v);
        self.access(x);
        self.push(x);
        let ghost n0 = self.nodes@;
        proof {
            assert(node_ok::<P>(n0[x.0 as int], n0.len() as nat));
        }
        self.node_mut(x).key = key;
        proof {
            lemma_update_ok::<P>(n0, n0.len() as nat, x.0 as int, self.nodes@[x.0 as int]);
        }
        self.pull(x);
    }

    pub fn vertex_apply(&mut self, v: usize, act: P::Act)
        requires
            old(self).inv(),
            v < old(self).vertex_count(),
        ensures
            final(self).inv(),
            final(self).vertex_count() == old(self).vertex_count(),
            old(self).key_written(v as int, P::spec_act_apply_key(old(self).opened_key(v as int), act), final(self)),
    {
        let x = id(v);
        self.access(x);
        self.push(x);
        let key = P::key_copy(&self.node(x).key);
        let ghost n0 = self.nodes@;
        proof {
            assert(node_ok::<P>(n0[x.0 as int], n0.len() as nat));
        }
        self.node_mut(x).key = P::act_apply_key(&key, &act);
        proof {
            lemma_update_ok::<P>(n0, n0.len() as nat, x.0 as int, self.nodes@[x.0 as int]);
        }
        self.pull(x);
    }

    pub fn path_fold(&mut self, u: usize, v: usize) -> (r: Option<P::Agg>)
        requires
            old(self).inv(),
            u < old(self).vertex_count(),
            v < old(self).vertex_count(),
        ensures
            final(self).inv(),
            final(self).vertex_count() == old(self).vertex_count(),
            u == v ==> r is Some,
            u == v ==> r == Some(P::spec_agg_from_key(old(self).opened_key(u as int))) && old(self).key_read(u as int, final(self), old(self).opened_key(u as int)),
            u != v ==> old(self).path_exposed(u as int, v as int, final(self)),
            u != v ==> r == if old(self).joined(u as int, v as int) {
                Some(old(self).exposed_agg(u as int, v as int))
            } else {
                None
            },
    {
        if u == v {
            let key = self.vertex_get(u);
            return Some(P::agg_from_key(&key));
        }
        let u_id = id(u);
        let v_id = id(v);
        self.makeroot(u);
        self.access(v_id);
        if self.node(u_id).p.is_nil() {
            return None;
        }
        Some(P::agg_copy(&self.node(v_id).agg))
    }

    pub fn path_apply(&mut self, u: usize, v: usize, act: P::Act) -> (r: bool)
        requires
            old(self).inv(),
            u < old(self).vertex_count(),
            v < old(self).vertex_count(),
        ensures
            final(self).inv(),
            final(self).vertex_count() == old(self).vertex_count(),
            u == v ==> r,
            u == v ==> old(self).key_written(u as int, P::spec_act_apply_key(old(self).opened_key(u as int), act), final(self)),
            u != v ==> r == old(self).joined(u as int, v as int),
            u != v && r ==> old(self).path_acted(u as int, v as int, act, final(self)),
            u != v && !r ==> old(self).path_exposed(u as int, v as int, final(self)),
    {
        if u == v {
            self.vertex_apply(u, act);
            return true;
        }
        let u_id = id(u);
        let v_id = id(v);
        self.makeroot(u);
        self.access(v_id);
        if self.node(u_id).p.is_nil() {
            return false;
        }
        self.apply_act(v_id, act);
        true
    }

    pub fn path_len(&mut self, u: usize, v: usize) -> (r: Option<usize>)
        requires
            old(self).inv(),
            u < old(self).vertex_count(),
            v < old(self).vertex_count(),
        ensures
            final(self).inv(),
            final(self).vertex_count() == old(self).vertex_count(),
            u == v ==> r == Some(1usize) && old(self).same_forest(final(self)),
            u != v ==> old(self).path_exposed(u as int, v as int, final(self)),
            u != v ==> r == if old(self).joined(u as int, v as int) {
                Some(old(self).exposed_len(u as int, v as int) as usize)
            } else {
                None
            },
    {
        if u == v {
            return Some(1);
        }
        let u_id = id(u);
        let v_id = id(v);
        self.makeroot(u);
        self.access(v_id);
        if self.node(u_id).p.is_nil() {
            return None;
        }
        Some(self.node(v_id).sz as usize)
    }

    /// The `k`-th vertex on the path from `u` to `v`, counting from 0.
    #[verifier::rlimit(80)]
    #[verifier::spinoff_prover]
    pub fn path_kth(&mut self, u: usize, v: usize, k: usize) -> (r: Option<usize>)
        requires
            old(self).inv(),
            u < old(self).vertex_count(),
            v < old(self).vertex_count(),
        ensures
            final(self).inv(),
            final(self).vertex_count() == old(self).vertex_count(),
            u == v ==> r == if k == 0 { Some(u) } else { None },
            r matches Some(x) ==> x < old(self).vertex_count(),
            old(self).kth_found(u as int, v as int, k as int, final(self), r),
    {
        let ghost n = self.nodes.len() as nat;
        if u == v {
            return if k == 0 { Some(u) } else { None };
        }
        let u_id = id(u);
        let v_id = id(v);
        self.makeroot(u);
        self.access(v_id);
        if self.node(u_id).p.is_nil() {
            return None;
        }
        let ghost e = self.nodes@;
        let ghost goal = kth_walk(e, v_id, k as int, n);
        let mut rank = k;
        let mut cur = v_id;
        let total = self.node(cur).sz as usize;
        if rank >= total {
            return None;
        }
        let mut steps: usize = 0;
        while steps < self.nodes.len()
            invariant
                self.inv(),
                self.nodes.len() == n,
                n == old(self).nodes.len(),
                u != v,
                ok_id(cur, n),
                steps <= n,
                e == exposed(old(self).nodes@, Id(u as u32), Id(v as u32)),
                e[u as int].p.0 != u32::MAX,
                (k as int) < e[v as int].sz,
                goal == kth_walk(e, Id(v as u32), k as int, n),
                kth_walk(self.nodes@, cur, rank as int, (n - steps) as nat) == goal,
            decreases n - steps,
        {
            let ghost before = self.nodes@;
            let ghost f = (n - steps) as nat;
            let ghost c0 = cur;
            let ghost k0 = rank as int;
            if cur.is_nil() {
                return None;
            }
            self.push(cur);
            proof {
                assert(node_ok::<P>(self.nodes@[cur.0 as int], n));
            }
            let ghost a = self.nodes@;
            let l = self.node(cur).ch[0];
            let lsz = self.sz(l) as usize;
            if rank < lsz {
                cur = l;
                assert(kth_walk(before, c0, k0, f) == kth_walk(a, cur, rank as int, (f - 1) as nat));
            } else if rank == lsz {
                self.splay(cur);
                assert(kth_walk(before, c0, k0, f) == (self.nodes@, Some(c0)));
                return Some(cur.idx());
            } else {
                rank -= lsz + 1;
                cur = self.node(cur).ch[1];
                assert(kth_walk(before, c0, k0, f) == kth_walk(a, cur, rank as int, (f - 1) as nat));
            }
            steps += 1;
        }
        None
    }
}

impl LinkCutTree<VertexSumAdd> {
    pub fn vertex_add(&mut self, v: usize, delta: i64)
        requires
            old(self).inv(),
            v < old(self).vertex_count(),
        ensures
            final(self).inv(),
            final(self).vertex_count() == old(self).vertex_count(),
            old(self).key_written(v as int, wrap64(old(self).opened_key(v as int) + delta), final(self)),
    {
        self.vertex_apply(v, delta);
    }

    pub fn path_sum(&mut self, u: usize, v: usize) -> (r: Option<i64>)
        requires
            old(self).inv(),
            u < old(self).vertex_count(),
            v < old(self).vertex_count(),
        ensures
            final(self).inv(),
            final(self).vertex_count() == old(self).vertex_count(),
            u == v ==> r is Some,
            u == v ==> r == Some(old(self).opened_key(u as int)) && old(self).key_read(u as int, final(self), old(self).opened_key(u as int)),
            u != v ==> old(self).path_exposed(u as int, v as int, final(self)),
            u != v ==> r == if old(self).joined(u as int, v as int) {
                Some(old(self).exposed_agg(u as int, v as int))
            } else {
                None
            },
    {
        self.path_fold(u, v)
    }
}

impl<P: LazyMapMonoid> DynamicForest for LinkCutTree<P> {
    type Key = P::Key;

    closed spec fn wf(&self) -> bool {
        self.inv()
    }

    closed spec fn spec_len(&self) -> nat {
        self.vertex_count()
    }

    closed spec fn has_room(&self) -> bool {
        true
    }

    fn new(values: &[P::Key]) -> (r: Self) {
        Self::new(values)
    }

    fn len(&self) -> (r: usize) {
        self.len()
    }

    fn link(&mut self, u: usize, v: usize) -> (r: bool) {
        self.link(u, v)
    }

    fn cut(&mut self, u: usize, v: usize) -> (r: bool) {
        self.cut(u, v)
    }

    fn connected(&mut self, u: usize, v: usize) -> (r: bool) {
        self.connected(u, v)
    }
}

impl<P: LazyMapMonoid> VertexOps for LinkCutTree<P> {
    type Act = P::Act;

    fn vertex_get(&mut self, v: usize) -> (r: P::Key) {
        self.vertex_get(v)
    }

    fn vertex_set(&mut self, v: usize, key: P::Key) {
        self.vertex_set(v, key)
    }

    fn vertex_apply(&mut self, v: usize, act: P::Act) {
        self.vertex_apply(v, act)
    }
}

impl<P: LazyMapMonoid> PathOps for LinkCutTree<P> {
    type Agg = P::Agg;
    type Act = P::Act;

    fn makeroot(&mut self, v: usize) {
        self.makeroot(v)
    }

    fn find_root(&mut self, v: usize) -> (r: usize) {
        self.find_root(v)
    }

    fn path_fold(&mut self, u: usize, v: usize) -> (r: Option<P::Agg>) {
        self.path_fold(u, v)
    }

    fn path_apply(&mut self, u: usize, v: usize, act: P::Act) -> (r: bool) {
        self.path_apply(u, v, act)
    }

    fn path_len(&mut self, u: usize, v: usize) -> (r: Option<usize>) {
        self.path_len(u, v)
    }

    fn path_kth(&mut self, u: usize, v: usize, k: usize) -> (r: Option<usize>) {
        self.path_kth(u, v, k)
    }
}

} // verus!
