//! A scapegoat tree with balance parameter `2 / 3`: a node inserted deeper than
//! `log_{3/2}(q)` makes the deepest unbalanced node above it rebuild its subtree perfectly
//! balanced, and removals rebuild the whole tree once it holds fewer than `2 / 3` of `q`
//! entries, `q` being the most entries held since the last such rebuild.

use vstd::prelude::*;
use crate::ordered_map::{
    OrderedMap, entries_map, has_key, insert_entry, keys_sorted, lemma_all_below, lemma_empty,
    lemma_entries_map, lemma_entries_map_empty, lemma_entries_map_insert,
    lemma_entries_map_lower_bound, lemma_entries_map_remove, lemma_insert_sorted, lemma_parts_here,
    lemma_parts_left, lemma_parts_right, lemma_parts_sorted, lemma_remove_sorted, lookup,
    lower_bound_entry, remove_entry,
};
use vstd::arithmetic::power::{pow, lemma_pow_adds, lemma_pow_increases, lemma_pow_positive};
use vstd::arithmetic::power2::{lemma2_to64, lemma2_to64_rest, lemma_pow2};

verus! {

/// Weights are compared against `ALPHA_NUM / ALPHA_DEN` of the subtree.
const ALPHA_NUM: usize = 2;

const ALPHA_DEN: usize = 3;

/// `(3/2)^d <= q`.
pub open spec fn within_depth(q: int, d: nat) -> bool {
    pow(3, d) <= q * pow(2, d)
}

/// `2^64`.
proof fn lemma_pow2_64()
    ensures
        pow(2, 64) == 0x1_0000_0000_0000_0000,
{
    lemma2_to64();
    lemma_pow2(64);
}

/// `3^(7k) > 2^(11k)`, from `3^7 = 2187 > 2048 = 2^11`.
proof fn lemma_pow7(k: nat)
    requires
        k >= 1,
    ensures
        pow(3, 7 * k) > pow(2, 11 * k),
    decreases k,
{
    if k == 1 {
        reveal_with_fuel(pow, 12);
        assert(pow(3, 7) == 2187);
        assert(pow(2, 11) == 2048);
    } else {
        lemma_pow7((k - 1) as nat);
        lemma_pow7(1);
        lemma_pow_adds(3, 7 * (k - 1) as nat, 7);
        lemma_pow_adds(2, 11 * (k - 1) as nat, 11);
        assert(7 * (k - 1) as nat + 7 == 7 * k);
        assert(11 * (k - 1) as nat + 11 == 11 * k);
        let a = pow(3, 7 * (k - 1) as nat);
        let b = pow(2, 11 * (k - 1) as nat);
        lemma_pow_positive(2, 11 * (k - 1) as nat);
        lemma_pow_positive(2, 11);
        assert(a * pow(3, 7) > b * pow(2, 11)) by (nonlinear_arith)
            requires
                a > b,
                b > 0,
                pow(3, 7) > pow(2, 11),
                pow(2, 11) > 0;
    }
}

/// Powers of `3/2` outgrow every `u64`.
proof fn lemma_pow_outgrows(d: nat)
    requires
        d >= 112,
    ensures
        pow(3, d) > pow(2, 64) * pow(2, d),
    decreases d,
{
    if d == 112 {
        lemma_pow7(16);
        assert(pow(3, 112) > pow(2, 176));
        lemma_pow_adds(2, 64, 112);
        assert(pow(2, 176) == pow(2, 64) * pow(2, 112));
    } else {
        lemma_pow_outgrows((d - 1) as nat);
        let a = pow(3, (d - 1) as nat);
        let b = pow(2, (d - 1) as nat);
        lemma_pow_positive(2, (d - 1) as nat);
        lemma_pow2_64();
        assert(3 * a > pow(2, 64) * (2 * b)) by (nonlinear_arith)
            requires
                a > pow(2, 64) * b,
                b > 0,
                pow(2, 64) > 0;
        reveal(pow);
        assert(pow(3, d) == 3 * a);
        assert(pow(2, d) == 2 * b);
    }
}

/// The largest `d` with `(3/2)^d <= q`, or `0` when `q <= 1`: the depth a node may have in a tree
/// that has held up to `q` entries.
fn allowed_depth(q: usize) -> (d: usize)
    ensures
        q <= 1 ==> d == 0,
        q >= 1 ==> within_depth(q as int, d as nat) && !within_depth(q as int, (d + 1) as nat),
{
    if q <= 1 {
        proof {
            reveal_with_fuel(pow, 2);
        }
        return 0;
    }
    let qq = q as u128;
    // (3/2)^d == whole + frac / 2^d, with frac < 2^d, and two == 2^d
    let mut d: usize = 0;
    let mut whole: u128 = 1;
    let mut frac: u128 = 0;
    let mut two: u128 = 1;
    proof {
        reveal_with_fuel(pow, 1);
        lemma_pow2_64();
    }
    loop
        invariant
            qq == q,
            2 <= q < pow(2, 64),
            d < 112,
            two == pow(2, d as nat),
            whole * two + frac == pow(3, d as nat),
            frac < two,
            whole <= q,
            within_depth(q as int, d as nat),
        decreases 112 - d,
    {
        // (3/2)^(d + 1) == next_int + next_frac / 2^(d + 1)
        proof {
            // 4 * 2^d <= 2^113, well within a u128
            lemma_pow_increases(2, (d + 2) as nat, 113);
            lemma_pow_adds(2, d as nat, 2);
            lemma_pow_adds(2, 64, 49);
            lemma2_to64();
            lemma2_to64_rest();
            lemma_pow2(49);
            lemma_pow2_64();
            reveal_with_fuel(pow, 3);
            assert(pow(2, 2) == 4);
            assert(4 * two <= 0x2_0000_0000_0000_0000_0000_0000_0000);
        }
        let half = whole / 2;
        let odd = whole % 2;
        proof {
            assert(odd * two <= two) by (nonlinear_arith)
                requires odd <= 1;
        }
        let raw = odd * two + 3 * frac;
        let two2 = 2 * two;
        let carry = raw / two2;
        let next_frac = raw % two2;
        proof {
            assert(whole == 2 * half + odd);
            assert(raw < 4 * two) by (nonlinear_arith)
                requires raw == odd * two + 3 * frac, odd <= 1, frac < two;
            assert(carry <= 1) by (nonlinear_arith)
                requires carry == raw / two2, raw < 4 * two, two2 == 2 * two, two > 0;
        }
        let next_int = 3 * half + odd + carry;
        proof {
            assert(raw == carry * two2 + next_frac) by (nonlinear_arith)
                requires carry == raw / two2, next_frac == raw % two2, two2 > 0;
            assert(pow(3, (d + 1) as nat) == 3 * pow(3, d as nat));
            assert(pow(2, (d + 1) as nat) == 2 * pow(2, d as nat));
            assert(next_int * (2 * two) + next_frac == 3 * (whole * two + frac)) by (nonlinear_arith)
                requires
                    whole == 2 * half + odd,
                    raw == odd * two + 3 * frac,
                    raw == carry * two2 + next_frac,
                    two2 == 2 * two,
                    next_int == 3 * half + odd + carry;
        }
        if next_int > qq || (next_int == qq && next_frac > 0) {
            proof {
                // (3/2)^(d + 1) > q
                assert(next_int * (2 * two) + next_frac > q * (2 * two)) by (nonlinear_arith)
                    requires
                        next_int > q || (next_int == q && next_frac > 0),
                        two > 0,
                        next_frac >= 0;
            }
            return d;
        }
        proof {
            assert(next_int * (2 * two) + next_frac <= q * (2 * two)) by (nonlinear_arith)
                requires
                    next_int < q || (next_int == q && next_frac == 0),
                    next_frac < 2 * two,
                    two > 0;
            if d + 1 >= 112 {
                lemma_pow_outgrows((d + 1) as nat);
                lemma_pow_positive(2, (d + 1) as nat);
                assert(q * pow(2, (d + 1) as nat) < pow(2, 64) * pow(2, (d + 1) as nat)) by (nonlinear_arith)
                    requires
                        q < pow(2, 64),
                        pow(2, (d + 1) as nat) > 0;
            }
        }
        d = d + 1;
        whole = next_int;
        frac = next_frac;
        two = two2;
    }
}


/// An ordered map kept in a scapegoat tree.
pub struct ScapegoatTreeMap<K, V> {
    root: Option<Box<Node<K, V>>>,
    /// The number of entries.
    n: usize,
    /// The most entries held since the whole tree was last rebuilt.
    q: usize,
}

struct Node<K, V> {
    key: K,
    value: V,
    /// The number of entries under the node.
    size: usize,
    left: Option<Box<Node<K, V>>>,
    right: Option<Box<Node<K, V>>>,
}

/// The entries under `link`, in order.
spec fn items<V>(link: Option<Box<Node<u64, V>>>) -> Seq<(u64, V)>
    decreases link,
{
    match link {
        None => Seq::empty(),
        Some(n) => items(n.left) + seq![(n.key, n.value)] + items(n.right),
    }
}

/// The entries of a node.
spec fn node_items<V>(n: Node<u64, V>) -> Seq<(u64, V)> {
    items(n.left) + seq![(n.key, n.value)] + items(n.right)
}

/// Every node under `link` knows how many entries lie under it.
spec fn sized<V>(link: Option<Box<Node<u64, V>>>) -> bool
    decreases link,
{
    match link {
        None => true,
        Some(n) => n.size == node_items(*n).len() && sized(n.left) && sized(n.right),
    }
}

proof fn lemma_node_items<V>(n: Box<Node<u64, V>>)
    ensures
        items(Some(n)) == node_items(*n),
        sized(Some(n)) == (n.size == node_items(*n).len() && sized(n.left) && sized(n.right)),
{
}

/// The size recorded at the top of `link`.
spec fn link_size<V>(link: Option<Box<Node<u64, V>>>) -> int {
    match link {
        Some(n) => n.size as int,
        None => 0,
    }
}

/// The entries of the nodes `s[lo..hi]`, each taken alone.
spec fn entries_of<V>(s: Seq<Option<Box<Node<u64, V>>>>) -> Seq<(u64, V)> {
    Seq::new(s.len(), |i: int| (s[i]->0.key, s[i]->0.value))
}

impl<V> Node<u64, V> {
    fn new(key: u64, value: V) -> (r: Self)
        ensures
            node_items(r) == seq![(key, value)],
            r.size == 1,
            r.left is None,
            r.right is None,
    {
        let r = Self { key, value, size: 1, left: None, right: None };
        assert(node_items(r) =~= seq![(key, value)]);
        r
    }

    fn size(node: &Option<Box<Node<u64, V>>>) -> (r: usize)
        ensures
            r == link_size(*node),
            sized(*node) ==> r == items(*node).len(),
    {
        match node {
            Some(n) => n.size,
            None => 0,
        }
    }

    /// Recount the size of the node from its children.
    fn recalc(&mut self)
        requires
            sized(old(self).left),
            sized(old(self).right),
            node_items(*old(self)).len() <= usize::MAX,
        ensures
            final(self).key == old(self).key,
            final(self).value == old(self).value,
            final(self).left == old(self).left,
            final(self).right == old(self).right,
            final(self).size == node_items(*final(self)).len(),
    {
        self.size = 1 + Self::size(&self.left) + Self::size(&self.right);
    }
}

impl<V> ScapegoatTreeMap<u64, V> {
    /// One side of the node holds more than `ALPHA_NUM / ALPHA_DEN` of its entries.
    fn is_unbalanced(node: &Node<u64, V>) -> (r: bool)
        ensures
            r == (link_size(node.left) * ALPHA_DEN > node.size as int * ALPHA_NUM || link_size(node.right) * ALPHA_DEN
                > node.size as int * ALPHA_NUM),
    {
        let left = Node::size(&node.left) as u128;
        let right = Node::size(&node.right) as u128;
        let size = node.size as u128;
        left * (ALPHA_DEN as u128) > size * (ALPHA_NUM as u128) || right * (ALPHA_DEN as u128) > size * (
        ALPHA_NUM as u128)
    }

    /// Put the nodes under `node`, in order and each alone, at the end of `out`.
    fn flatten_inorder(node: Option<Box<Node<u64, V>>>, out: &mut Vec<Option<Box<Node<u64, V>>>>)
        ensures
            final(out)@.subrange(0, old(out)@.len() as int) == old(out)@,
            final(out)@.len() == old(out)@.len() + items(node).len(),
            entries_of(final(out)@.subrange(old(out)@.len() as int, final(out)@.len() as int)) == items(node),
            forall|i: int| old(out)@.len() <= i < final(out)@.len() ==> (#[trigger] final(out)@[i]) is Some,
        decreases node,
    {
        let mut node = match node {
            Some(node) => node,
            None => {
                proof {
                    assert(entries_of(out@.subrange(out@.len() as int, out@.len() as int)) =~= Seq::<(u64, V)>::empty());
                }
                return;
            },
        };
        let ghost o = out@;
        let ghost n0 = *node;
        let right = node.right.take();
        let left = node.left.take();
        Self::flatten_inorder(left, out);
        let ghost o1 = out@;
        node.size = 1;
        out.push(Some(node));
        let ghost o2 = out@;
        Self::flatten_inorder(right, out);
        proof {
            let a = o.len() as int;
            let b = o1.len() as int;
            let e = out@.len() as int;
            assert(out@.subrange(0, a) =~= o) by {
                assert(out@.subrange(0, o2.len() as int) == o2);
                assert(o2.subrange(0, b) == o1);
                assert(o1.subrange(0, a) == o);
            }
            assert(out@.subrange(0, b) =~= o1) by {
                assert(out@.subrange(0, o2.len() as int) == o2);
            }
            assert(entries_of(out@.subrange(a, e)) =~= entries_of(o1.subrange(a, b)) + seq![(n0.key, n0.value)]
                + entries_of(out@.subrange(b + 1, e))) by {
                assert forall|i: int| 0 <= i < e - a implies #[trigger] entries_of(out@.subrange(a, e))[i] == (entries_of(
                    o1.subrange(a, b),
                ) + seq![(n0.key, n0.value)] + entries_of(out@.subrange(b + 1, e)))[i] by {
                    if i < b - a {
                        assert(out@[a + i] == o1[a + i]);
                    } else if i == b - a {
                        assert(out@[b] == o2[b]);
                    }
                }
            }
            assert forall|i: int| a <= i < e implies (#[trigger] out@[i]) is Some by {
                if i < b {
                    assert(out@[i] == o1[i]);
                } else if i == b {
                    assert(out@[b] == o2[b]);
                }
            }
        }
    }

    /// A perfectly balanced tree of the nodes `nodes[lo..hi]`, in order, taking them out.
    fn build_balanced(nodes: &mut Vec<Option<Box<Node<u64, V>>>>, lo: usize, hi: usize) -> (r: Option<
        Box<Node<u64, V>>,
    >)
        requires
            lo <= hi <= old(nodes)@.len(),
            forall|i: int| lo <= i < hi ==> (#[trigger] old(nodes)@[i]) is Some,
        ensures
            final(nodes)@.len() == old(nodes)@.len(),
            forall|i: int| 0 <= i < old(nodes)@.len() && !(lo <= i < hi) ==> #[trigger] final(nodes)@[i] == old(nodes)@[i],
            items(r) == entries_of(old(nodes)@.subrange(lo as int, hi as int)),
            sized(r),
        decreases hi - lo,
    {
        if lo >= hi {
            proof {
                assert(entries_of(nodes@.subrange(lo as int, hi as int)) =~= Seq::<(u64, V)>::empty());
            }
            return None;
        }
        let ghost o = nodes@;
        let mid = lo + (hi - lo) / 2;
        let mut slot: Option<Box<Node<u64, V>>> = None;
        std::mem::swap(&mut nodes[mid], &mut slot);
        let mut root = slot.expect("node exists");
        let left = Self::build_balanced(nodes, lo, mid);
        let right = Self::build_balanced(nodes, mid + 1, hi);
        root.left = left;
        root.right = right;
        proof {
            assert(entries_of(o.subrange(lo as int, hi as int)) =~= entries_of(o.subrange(lo as int, mid as int))
                + seq![(root.key, root.value)] + entries_of(o.subrange(mid + 1, hi as int)));
            assert(node_items(*root).len() == hi - lo);
        }
        root.recalc();
        proof {
            lemma_node_items(root);
        }
        Some(root)
    }

    /// Rebuild the tree under `link` perfectly balanced.
    fn rebuild(link: &mut Option<Box<Node<u64, V>>>)
        requires
            items(*old(link)).len() <= usize::MAX,
        ensures
            items(*final(link)) == items(*old(link)),
            sized(*final(link)),
    {
        let node = link.take();
        let mut nodes: Vec<Option<Box<Node<u64, V>>>> = Vec::new();
        Self::flatten_inorder(node, &mut nodes);
        let len = nodes.len();
        proof {
            assert(nodes@.subrange(0, len as int) =~= nodes@);
        }
        let new_root = Self::build_balanced(&mut nodes, 0, len);
        *link = new_root;
    }
}


impl<V> ScapegoatTreeMap<u64, V> {
    /// Take the entry with the smallest key out of the tree under `node`.
    fn pop_min(node: Box<Node<u64, V>>) -> (r: (Option<Box<Node<u64, V>>>, Box<Node<u64, V>>))
        requires
            sized(Some(node)),
        ensures
            node_items(*node).len() > 0,
            items(r.0) == node_items(*node).drop_first(),
            (r.1.key, r.1.value) == node_items(*node)[0],
            sized(r.0),
        decreases node,
    {
        let mut node = node;
        let ghost n0 = *node;
        proof {
            lemma_node_items(node);
        }
        if node.left.is_none() {
            let right = node.right.take();
            proof {
                assert(node_items(n0) =~= seq![(n0.key, n0.value)] + items(right));
                assert(node_items(n0).drop_first() =~= items(right));
            }
            return (right, node);
        }
        let left = node.left.take().unwrap();
        proof {
            lemma_node_items(left);
        }
        let (new_left, min_node) = Self::pop_min(left);
        node.left = new_left;
        proof {
            assert(node_items(*node) =~= node_items(n0).drop_first());
        }
        node.recalc();
        proof {
            lemma_node_items(node);
        }
        (Some(node), min_node)
    }

    /// Take `key` out from under `root`; give the new tree, the value of `key`, and whether it
    /// was there.
    fn remove_node(root: Option<Box<Node<u64, V>>>, key: u64) -> (r: (
        Option<Box<Node<u64, V>>>,
        Option<V>,
        bool,
    ))
        requires
            keys_sorted(items(root)),
            sized(root),
        ensures
            items(r.0) == remove_entry(items(root), key),
            r.1 == lookup(items(root), key),
            r.2 == has_key(items(root), key),
            sized(r.0),
        decreases root,
    {
        let mut node = match root {
            Some(node) => node,
            None => {
                proof {
                    lemma_empty::<V>(key, arbitrary());
                }
                return (None, None, false);
            },
        };
        let ghost n0 = *node;
        let ghost l = items(n0.left);
        let ghost x = (n0.key, n0.value);
        let ghost r = items(n0.right);
        proof {
            lemma_node_items(node);
            lemma_parts_sorted(l, x, r);
            lemma_remove_sorted(l + seq![x] + r, key);
        }
        if key < node.key {
            proof {
                lemma_parts_left(l, x, r, key, n0.value);
            }
            let (left, removed, did_remove) = Self::remove_node(node.left.take(), key);
            node.left = left;
            if did_remove {
                node.recalc();
            }
            proof {
                lemma_node_items(node);
            }
            (Some(node), removed, did_remove)
        } else if key > node.key {
            proof {
                lemma_parts_right(l, x, r, key, n0.value);
            }
            let (right, removed, did_remove) = Self::remove_node(node.right.take(), key);
            node.right = right;
            if did_remove {
                node.recalc();
            }
            proof {
                lemma_node_items(node);
            }
            (Some(node), removed, did_remove)
        } else {
            proof {
                lemma_parts_here(l, x, r, n0.value);
            }
            if node.left.is_none() {
                let right = node.right.take();
                proof {
                    assert(remove_entry(node_items(n0), key) =~= items(right));
                }
                let n = *node;
                return (right, Some(n.value), true);
            }
            if node.right.is_none() {
                let left = node.left.take();
                proof {
                    assert(remove_entry(node_items(n0), key) =~= items(left));
                }
                let n = *node;
                return (left, Some(n.value), true);
            }
            let right = node.right.take().unwrap();
            proof {
                lemma_node_items(right);
            }
            let (new_right, succ) = Self::pop_min(right);
            node.right = new_right;
            node.key = succ.key;
            let mut removed = succ.value;
            std::mem::swap(&mut node.value, &mut removed);
            proof {
                assert(r == seq![(succ.key, succ.value)] + r.drop_first());
                assert(node_items(*node) =~= l + r);
            }
            node.recalc();
            proof {
                lemma_node_items(node);
            }
            (Some(node), Some(removed), true)
        }
    }

    /// Rebuild the subtree of `node` if a node inserted below still looks for a scapegoat and
    /// `node` is unbalanced.
    fn settle(node: Box<Node<u64, V>>, looking: bool) -> (r: (Option<Box<Node<u64, V>>>, bool))
        requires
            sized(Some(node)),
        ensures
            items(r.0) == node_items(*node),
            sized(r.0),
            r.1 == (looking && !Self::unbalanced_spec(*node)),
    {
        proof {
            lemma_node_items(node);
        }
        if looking && Self::is_unbalanced(&node) {
            let mut link = Some(node);
            Self::rebuild(&mut link);
            (link, false)
        } else {
            (Some(node), looking)
        }
    }

    /// One side of the node holds more than `ALPHA_NUM / ALPHA_DEN` of its entries.
    spec fn unbalanced_spec(node: Node<u64, V>) -> bool {
        link_size(node.left) * ALPHA_DEN > node.size as int * ALPHA_NUM || link_size(node.right) * ALPHA_DEN
            > node.size as int * ALPHA_NUM
    }

    /// Put `(key, value)` under `root`, at depth `depth` and below; when the new node lies
    /// deeper than a tree of `q_new` entries allows, rebuild the subtree of the lowest unbalanced
    /// node above it. Give the new tree, the old value of `key`, whether the key is new, and
    /// whether a scapegoat is still to be found higher up.
    fn insert_node(root: Option<Box<Node<u64, V>>>, key: u64, value: V, depth: usize, q_new: usize) -> (r: (
        Option<Box<Node<u64, V>>>,
        Option<V>,
        bool,
        bool,
    ))
        requires
            keys_sorted(items(root)),
            sized(root),
            depth + items(root).len() < usize::MAX,
        ensures
            items(r.0) == insert_entry(items(root), key, value),
            r.1 == lookup(items(root), key),
            r.2 == !has_key(items(root), key),
            sized(r.0),
        decreases root,
    {
        let mut node = match root {
            Some(node) => node,
            None => {
                proof {
                    lemma_empty(key, value);
                }
                let too_deep = depth > allowed_depth(q_new);
                let n = Box::new(Node::<u64, V>::new(key, value));
                proof {
                    lemma_node_items(n);
                }
                return (Some(n), None, true, too_deep);
            },
        };
        let ghost n0 = *node;
        let ghost l = items(n0.left);
        let ghost x = (n0.key, n0.value);
        let ghost r = items(n0.right);
        proof {
            lemma_node_items(node);
            lemma_parts_sorted(l, x, r);
            lemma_insert_sorted(l + seq![x] + r, key, value);
        }
        if key < node.key {
            proof {
                lemma_parts_left(l, x, r, key, value);
            }
            let (left, old, inserted, looking) = Self::insert_node(node.left.take(), key, value, depth + 1, q_new);
            node.left = left;
            if inserted {
                node.recalc();
            }
            proof {
                lemma_node_items(node);
            }
            let (link, looking) = Self::settle(node, looking);
            (link, old, inserted, looking)
        } else if key > node.key {
            proof {
                lemma_parts_right(l, x, r, key, value);
            }
            let (right, old, inserted, looking) = Self::insert_node(node.right.take(), key, value, depth + 1, q_new);
            node.right = right;
            if inserted {
                node.recalc();
            }
            proof {
                lemma_node_items(node);
            }
            let (link, looking) = Self::settle(node, looking);
            (link, old, inserted, looking)
        } else {
            proof {
                lemma_parts_here(l, x, r, value);
            }
            let mut old = value;
            std::mem::swap(&mut node.value, &mut old);
            proof {
                lemma_node_items(node);
            }
            (Some(node), Some(old), false, false)
        }
    }

    /// The value of `key` under `link`.
    fn get_in(link: &Option<Box<Node<u64, V>>>, key: u64) -> (r: Option<&V>)
        requires
            keys_sorted(items(*link)),
        ensures
            (r is Some) == has_key(items(*link), key),
            r matches Some(v) ==> lookup(items(*link), key) == Some(*v),
        decreases *link,
    {
        match link {
            None => {
                proof {
                    lemma_empty::<V>(key, arbitrary());
                }
                None
            },
            Some(node) => {
                let ghost l = items(node.left);
                let ghost x = (node.key, node.value);
                let ghost r = items(node.right);
                proof {
                    lemma_node_items(*node);
                    lemma_parts_sorted(l, x, r);
                }
                if key < node.key {
                    proof {
                        lemma_parts_left(l, x, r, key, node.value);
                    }
                    Self::get_in(&node.left, key)
                } else if key > node.key {
                    proof {
                        lemma_parts_right(l, x, r, key, node.value);
                    }
                    Self::get_in(&node.right, key)
                } else {
                    proof {
                        lemma_parts_here(l, x, r, node.value);
                    }
                    Some(&node.value)
                }
            },
        }
    }

    /// The entry under `link` with the smallest key at least `key`.
    fn lower_bound_in(link: &Option<Box<Node<u64, V>>>, key: u64) -> (r: Option<(&u64, &V)>)
        requires
            keys_sorted(items(*link)),
        ensures
            (r is Some) == (lower_bound_entry(items(*link), key) is Some),
            r matches Some((k, v)) ==> lower_bound_entry(items(*link), key) == Some((*k, *v)),
        decreases *link,
    {
        match link {
            None => {
                proof {
                    lemma_empty::<V>(key, arbitrary());
                }
                None
            },
            Some(node) => {
                let ghost l = items(node.left);
                let ghost x = (node.key, node.value);
                let ghost r = items(node.right);
                proof {
                    lemma_node_items(*node);
                    lemma_parts_sorted(l, x, r);
                }
                if key <= node.key {
                    proof {
                        if key < node.key {
                            lemma_parts_left(l, x, r, key, node.value);
                        } else {
                            lemma_parts_here(l, x, r, node.value);
                            lemma_all_below(l, key);
                        }
                    }
                    match Self::lower_bound_in(&node.left, key) {
                        Some(found) => Some(found),
                        None => {
                            proof {
                                if key == node.key {
                                    lemma_parts_here(l, x, r, node.value);
                                }
                            }
                            Some((&node.key, &node.value))
                        },
                    }
                } else {
                    proof {
                        lemma_parts_right(l, x, r, key, node.value);
                    }
                    Self::lower_bound_in(&node.right, key)
                }
            },
        }
    }
}

impl<V> OrderedMap for ScapegoatTreeMap<u64, V> {
    type Value = V;

    closed spec fn wf(&self) -> bool {
        &&& keys_sorted(items(self.root))
        &&& sized(self.root)
        &&& self.n == items(self.root).len()
    }

    closed spec fn contents(&self) -> Map<u64, V> {
        entries_map(items(self.root))
    }

    fn new() -> (r: Self) {
        proof {
            lemma_entries_map_empty::<V>();
        }
        Self { root: None, n: 0, q: 0 }
    }

    fn len(&self) -> (r: usize) {
        proof {
            lemma_entries_map(items(self.root));
        }
        self.n
    }

    fn get(&mut self, key: &u64) -> (r: Option<&V>) {
        proof {
            lemma_entries_map(items(self.root));
        }
        Self::get_in(&self.root, *key)
    }

    fn insert(&mut self, key: u64, value: V) -> (r: Option<V>) {
        let ghost s = items(self.root);
        proof {
            lemma_entries_map(s);
            lemma_entries_map_insert(s, key, value);
            lemma_insert_sorted(s, key, value);
        }
        // the most entries held, once this one is in
        let q_new = if self.q > self.n + 1 {
            self.q
        } else {
            self.n + 1
        };
        let (root, old, inserted, _looking) = Self::insert_node(self.root.take(), key, value, 0, q_new);
        self.root = root;
        if inserted {
            self.n += 1;
            if self.n > self.q {
                self.q = self.n;
            }
        }
        old
    }

    fn remove(&mut self, key: &u64) -> (r: Option<V>) {
        let ghost s = items(self.root);
        proof {
            lemma_entries_map_remove(s, *key);
            lemma_remove_sorted(s, *key);
        }
        let (root, removed, did_remove) = Self::remove_node(self.root.take(), *key);
        self.root = root;
        if did_remove {
            self.n -= 1;
            if (self.n as u128) * (ALPHA_DEN as u128) < (self.q as u128) * (ALPHA_NUM as u128) {
                Self::rebuild(&mut self.root);
                self.q = self.n;
            }
        }
        removed
    }

    fn lower_bound(&mut self, key: &u64) -> (r: Option<(&u64, &V)>) {
        proof {
            lemma_entries_map_lower_bound(items(self.root), *key);
        }
        Self::lower_bound_in(&self.root, *key)
    }
}

} // verus!
