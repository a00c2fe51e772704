use vstd::prelude::*;

use crate::ordered_map::{
    OrderedMap, entries_map, has_key, insert_entry, keys_sorted, lemma_all_below, lemma_empty,
    lemma_entries_map, lemma_entries_map_empty, lemma_entries_map_insert,
    lemma_entries_map_lower_bound, lemma_entries_map_remove, lemma_insert_sorted, lemma_parts_here,
    lemma_parts_left, lemma_parts_right, lemma_parts_sorted, lemma_remove_sorted, lookup,
    lower_bound_entry, remove_entry,
};

verus! {

/// An ordered map kept in a left-leaning red-black tree.
pub struct LlrbTreeMap<K, V> {
    root: Option<Box<Node<K, V>>>,
    len: usize,
}

struct Node<K, V> {
    key: K,
    value: V,
    red: bool,
    left: Option<Box<Node<K, V>>>,
    right: Option<Box<Node<K, V>>>,
}

/// The entries under `link`, in order.
spec fn items<V>(link: Option<Box<Node<u64, V>>>) -> Seq<(u64, V)>
    decreases link,
{
    match link {
        None => Seq::empty(),
        Some(n) => items(n.left) + seq![(n.key, n.value)] + items(n.right),
    }
}

/// The entries of a node.
spec fn node_items<V>(n: Node<u64, V>) -> Seq<(u64, V)> {
    items(n.left) + seq![(n.key, n.value)] + items(n.right)
}

proof fn lemma_node_items<V>(n: Box<Node<u64, V>>)
    ensures
        items(Some(n)) == node_items(*n),
{
}

/// In a sorted node, the keys of the left entries are below the key of the node, and the keys
/// of the right entries above it.
proof fn lemma_node_sorted<V>(n: Node<u64, V>)
    requires
        keys_sorted(node_items(n)),
    ensures
        keys_sorted(items(n.left)),
        keys_sorted(items(n.right)),
        forall|i: int| 0 <= i < items(n.left).len() ==> items(n.left)[i].0 < n.key,
        forall|i: int| 0 <= i < items(n.right).len() ==> n.key < items(n.right)[i].0,
{
    lemma_parts_sorted(items(n.left), (n.key, n.value), items(n.right));
}

/// In a sorted node, the key of the left child is below the key of the node.
proof fn lemma_left_root_below<V>(n: Node<u64, V>)
    requires
        keys_sorted(node_items(n)),
        n.left is Some,
    ensures
        n.left->0.key < n.key,
{
    let left = n.left->0;
    lemma_node_items(left);
    lemma_node_sorted(n);
    let i = items(left.left).len() as int;
    assert(items(n.left)[i] == (left.key, left.value));
}

/// The entry of a node is among its entries.
proof fn lemma_node_entry_in<V>(n: Node<u64, V>)
    ensures
        node_items(n)[items(n.left).len() as int] == (n.key, n.value),
{
}

impl<V> Node<u64, V> {
    fn new(key: u64, value: V, red: bool) -> (r: Self)
        ensures
            node_items(r) == seq![(key, value)],
    {
        let r = Self { key, value, red, left: None, right: None };
        assert(node_items(r) =~= seq![(key, value)]);
        r
    }
}

/// The node under `link` is red.
spec fn red_at<V>(link: Option<Box<Node<u64, V>>>) -> bool {
    match link {
        Some(n) => n.red,
        None => false,
    }
}

/// The node under `link` has a red left child.
spec fn left_red_at<V>(link: Option<Box<Node<u64, V>>>) -> bool {
    match link {
        Some(n) => red_at(n.left),
        None => false,
    }
}

/// `h` rotated left: its right child on top, in `h`'s colour, `h` below it painted red.
spec fn rotl<V>(h: Node<u64, V>) -> Node<u64, V> {
    let x = *h.right->0;
    Node { left: Some(Box::new(Node { right: x.left, red: true, ..h })), red: h.red, ..x }
}

/// `h` rotated right: its left child on top, in `h`'s colour, `h` below it painted red.
spec fn rotr<V>(h: Node<u64, V>) -> Node<u64, V> {
    let x = *h.left->0;
    Node { right: Some(Box::new(Node { left: x.right, red: true, ..h })), red: h.red, ..x }
}

/// The node under `link` with its colour flipped.
spec fn flip_at<V>(link: Option<Box<Node<u64, V>>>) -> Option<Box<Node<u64, V>>> {
    match link {
        Some(n) => Some(Box::new(Node { red: !n.red, ..*n })),
        None => None,
    }
}

/// `h` and its children with their colours flipped.
spec fn flipped<V>(h: Node<u64, V>) -> Node<u64, V> {
    Node { red: !h.red, left: flip_at(h.left), right: flip_at(h.right), ..h }
}

/// `h` with a red right link rotated left, two red left links in a row rotated right, and
/// two red children flipped.
spec fn fixed_up<V>(h: Node<u64, V>) -> Node<u64, V> {
    let a = if red_at(h.right) { rotl(h) } else { h };
    let b = if red_at(a.left) && left_red_at(a.left) { rotr(a) } else { a };
    if red_at(b.left) && red_at(b.right) { flipped(b) } else { b }
}

/// `h` with a red link moved to its left side.
spec fn red_moved_left<V>(h: Node<u64, V>) -> Node<u64, V> {
    let a = flipped(h);
    if left_red_at(a.right) {
        flipped(rotl(Node { right: Some(Box::new(rotr(*a.right->0))), ..a }))
    } else {
        a
    }
}

/// `h` with a red link moved to its right side.
spec fn red_moved_right<V>(h: Node<u64, V>) -> Node<u64, V> {
    let a = flipped(h);
    if left_red_at(a.left) {
        flipped(rotr(a))
    } else {
        a
    }
}

impl<V> LlrbTreeMap<u64, V> {
    fn is_red(node: &Option<Box<Node<u64, V>>>) -> (r: bool)
        ensures
            r ==> node is Some,
            r == red_at(*node),
    {
        match node {
            Some(n) => n.red,
            None => false,
        }
    }

    /// The left child of `node` is red, and so is its own left child.
    fn left_left_red(node: &Option<Box<Node<u64, V>>>) -> (r: bool)
        ensures
            r ==> node is Some && node->0.left is Some,
            r == left_red_at(*node),
    {
        match node {
            Some(n) => Self::is_red(&n.left),
            None => false,
        }
    }

    fn rotate_left(h: Box<Node<u64, V>>) -> (r: Box<Node<u64, V>>)
        requires
            h.right is Some,
        ensures
            node_items(*r) == node_items(*h),
            r.key == h.right->0.key,
            r.left is Some,
            *r == rotl(*h),
    {
        let mut h = h;
        let ghost h0 = *h;
        let mut x = h.right.take().expect("rotate_left requires right");
        proof {
            lemma_node_items(x);
        }
        let ghost x0 = *x;
        h.right = x.left.take();
        let h_red = h.red;
        h.red = true;
        proof {
            lemma_node_items(h);
            assert(node_items(*h) == items(h0.left) + seq![(h0.key, h0.value)] + items(x0.left));
        }
        let ghost mid = *h;
        x.left = Some(h);
        x.red = h_red;
        proof {
            assert(items(x.left) == node_items(mid));
            assert(node_items(h0) == items(h0.left) + seq![(h0.key, h0.value)] + (items(x0.left)
                + seq![(x0.key, x0.value)] + items(x0.right)));
            assert(node_items(*x) =~= node_items(h0));
        }
        x
    }

    fn rotate_right(h: Box<Node<u64, V>>) -> (r: Box<Node<u64, V>>)
        requires
            h.left is Some,
        ensures
            node_items(*r) == node_items(*h),
            r.key == h.left->0.key,
            r.right is Some,
            *r == rotr(*h),
    {
        let mut h = h;
        let ghost h0 = *h;
        let mut x = h.left.take().expect("rotate_right requires left");
        proof {
            lemma_node_items(x);
        }
        let ghost x0 = *x;
        h.left = x.right.take();
        let h_red = h.red;
        h.red = true;
        proof {
            lemma_node_items(h);
            assert(node_items(*h) == items(x0.right) + seq![(h0.key, h0.value)] + items(h0.right));
        }
        let ghost mid = *h;
        x.right = Some(h);
        x.red = h_red;
        proof {
            assert(items(x.right) == node_items(mid));
            assert(node_items(h0) == (items(x0.left) + seq![(x0.key, x0.value)] + items(x0.right))
                + seq![(h0.key, h0.value)] + items(h0.right));
            assert(node_items(*x) =~= node_items(h0));
        }
        x
    }

    fn flip_colors(h: Box<Node<u64, V>>) -> (r: Box<Node<u64, V>>)
        ensures
            node_items(*r) == node_items(*h),
            r.key == h.key,
            h.left is Some ==> r.left is Some,
            h.right is Some ==> r.right is Some,
            *r == flipped(*h),
    {
        let mut h = h;
        h.red = !h.red;
        if let Some(mut left) = h.left.take() {
            proof {
                lemma_node_items(left);
            }
            left.red = !left.red;
            proof {
                lemma_node_items(left);
            }
            h.left = Some(left);
        }
        if let Some(mut right) = h.right.take() {
            proof {
                lemma_node_items(right);
            }
            right.red = !right.red;
            proof {
                lemma_node_items(right);
            }
            h.right = Some(right);
        }
        h
    }

    fn fix_up(h: Box<Node<u64, V>>) -> (r: Box<Node<u64, V>>)
        ensures
            node_items(*r) == node_items(*h),
            *r == fixed_up(*h),
    {
        let mut h = h;
        if Self::is_red(&h.right) {
            h = Self::rotate_left(h);
        }
        if Self::is_red(&h.left) && Self::left_left_red(&h.left) {
            h = Self::rotate_right(h);
        }
        if Self::is_red(&h.left) && Self::is_red(&h.right) {
            h = Self::flip_colors(h);
        }
        h
    }

    fn move_red_left(h: Box<Node<u64, V>>) -> (r: Box<Node<u64, V>>)
        ensures
            node_items(*r) == node_items(*h),
            h.left is Some ==> r.left is Some,
            keys_sorted(node_items(*h)) ==> r.key >= h.key,
            *r == red_moved_left(*h),
    {
        let mut h = Self::flip_colors(h);
        if Self::left_left_red(&h.right) {
            let ghost h1 = *h;
            let right = h.right.take().unwrap();
            proof {
                lemma_node_items(right);
            }
            let right = Self::rotate_right(right);
            proof {
                lemma_node_items(right);
                lemma_node_entry_in(*right);
                if keys_sorted(node_items(h1)) {
                    lemma_node_sorted(h1);
                    let i = items(right.left).len() as int;
                    assert(items(h1.right)[i] == (right.key, right.value));
                }
            }
            h.right = Some(right);
            h = Self::rotate_left(h);
            h = Self::flip_colors(h);
        }
        h
    }

    fn move_red_right(h: Box<Node<u64, V>>) -> (r: Box<Node<u64, V>>)
        ensures
            node_items(*r) == node_items(*h),
            h.right is Some ==> r.right is Some,
            keys_sorted(node_items(*h)) ==> r.key <= h.key,
            *r == red_moved_right(*h),
    {
        let mut h = Self::flip_colors(h);
        if Self::left_left_red(&h.left) {
            proof {
                if keys_sorted(node_items(*h)) {
                    lemma_left_root_below(*h);
                }
            }
            h = Self::rotate_right(h);
            h = Self::flip_colors(h);
        }
        h
    }

    /// Put `(key, value)` under `h`; give the new tree, the old value of `key`, and whether
    /// the key is new.
    fn insert_node(h: Option<Box<Node<u64, V>>>, key: u64, value: V) -> (r: (
        Option<Box<Node<u64, V>>>,
        Option<V>,
        bool,
    ))
        requires
            keys_sorted(items(h)),
        ensures
            items(r.0) == insert_entry(items(h), key, value),
            r.1 == lookup(items(h), key),
            r.2 == !has_key(items(h), key),
        decreases h,
    {
        let mut h = match h {
            Some(h) => h,
            None => {
                proof {
                    lemma_empty(key, value);
                }
                let n = Box::new(Node::<u64, V>::new(key, value, true));
                proof {
                    lemma_node_items(n);
                }
                return (Some(n), None, true);
            },
        };
        let ghost h0 = *h;
        let ghost l = items(h0.left);
        let ghost x = (h0.key, h0.value);
        let ghost rr = items(h0.right);
        proof {
            lemma_node_items(h);
            lemma_parts_sorted(l, x, rr);
        }
        let (old, inserted) = if key < h.key {
            proof {
                lemma_parts_left(l, x, rr, key, value);
            }
            let (left, old, inserted) = Self::insert_node(h.left.take(), key, value);
            h.left = left;
            (old, inserted)
        } else if key > h.key {
            proof {
                lemma_parts_right(l, x, rr, key, value);
            }
            let (right, old, inserted) = Self::insert_node(h.right.take(), key, value);
            h.right = right;
            (old, inserted)
        } else {
            proof {
                lemma_parts_here(l, x, rr, value);
            }
            let mut old = value;
            std::mem::swap(&mut h.value, &mut old);
            (Some(old), false)
        };
        if Self::is_red(&h.right) && !Self::is_red(&h.left) {
            h = Self::rotate_left(h);
        }
        if Self::is_red(&h.left) && Self::left_left_red(&h.left) {
            h = Self::rotate_right(h);
        }
        if Self::is_red(&h.left) && Self::is_red(&h.right) {
            h = Self::flip_colors(h);
        }
        proof {
            lemma_node_items(h);
        }
        (Some(h), old, inserted)
    }

    /// Take out the entry with the smallest key under `h`; give what is left and the node of
    /// that entry.
    fn delete_min_with_node(h: Box<Node<u64, V>>) -> (r: (Option<Box<Node<u64, V>>>, Box<Node<u64, V>>))
        ensures
            node_items(*h).len() > 0,
            items(r.0) == node_items(*h).drop_first(),
            (r.1.key, r.1.value) == node_items(*h)[0],
        decreases node_items(*h).len(),
    {
        let mut h = h;
        let ghost h0 = *h;
        if h.left.is_none() {
            let right = h.right.take();
            proof {
                assert(node_items(h0) =~= seq![(h0.key, h0.value)] + items(right));
                assert(node_items(h0).drop_first() =~= items(right));
            }
            return (right, h);
        }
        if !Self::is_red(&h.left) && !Self::left_left_red(&h.left) {
            h = Self::move_red_left(h);
        }
        let ghost h1 = *h;
        let left = h.left.take().unwrap();
        proof {
            lemma_node_items(left);
            assert(node_items(h1) == node_items(*left) + seq![(h1.key, h1.value)] + items(h1.right));
        }
        let (new_left, min_node) = Self::delete_min_with_node(left);
        h.left = new_left;
        proof {
            assert(node_items(*h) =~= node_items(h0).drop_first());
        }
        let h = Self::fix_up(h);
        proof {
            lemma_node_items(h);
        }
        (Some(h), min_node)
    }

    /// Take `key` out from under `h`; give the new tree and the value of `key`.
    fn remove_node(h: Option<Box<Node<u64, V>>>, key: u64) -> (r: (Option<Box<Node<u64, V>>>, Option<V>))
        requires
            keys_sorted(items(h)),
        ensures
            items(r.0) == remove_entry(items(h), key),
            r.1 == lookup(items(h), key),
        decreases items(h).len(),
    {
        let mut h = match h {
            Some(h) => h,
            None => {
                proof {
                    lemma_empty::<V>(key, arbitrary());
                }
                return (None, None);
            },
        };
        let ghost s = node_items(*h);
        proof {
            lemma_node_items(h);
        }
        let removed = if key < h.key {
            if h.left.is_none() {
                proof {
                    lemma_parts_sorted(Seq::<(u64, V)>::empty(), (h.key, h.value), items(h.right));
                    lemma_parts_left(Seq::<(u64, V)>::empty(), (h.key, h.value), items(h.right), key, h.value);
                    lemma_empty::<V>(key, h.value);
                    assert(s =~= Seq::<(u64, V)>::empty() + seq![(h.key, h.value)] + items(h.right));
                }
                return (Some(h), None);
            }
            if !Self::is_red(&h.left) && !Self::left_left_red(&h.left) {
                h = Self::move_red_left(h);
            }
            let ghost h1 = *h;
            proof {
                lemma_node_sorted(h1);
                lemma_parts_left(items(h1.left), (h1.key, h1.value), items(h1.right), key, h1.value);
            }
            let (new_left, removed) = Self::remove_node(h.left.take(), key);
            h.left = new_left;
            proof {
                assert(node_items(*h) =~= remove_entry(s, key));
            }
            removed
        } else {
            let ghost k0 = h.key;
            if Self::is_red(&h.left) {
                proof {
                    lemma_left_root_below(*h);
                }
                h = Self::rotate_right(h);
            }
            proof {
                lemma_node_sorted(*h);
            }
            if key == h.key && h.right.is_none() {
                let ghost h1 = *h;
                proof {
                    lemma_parts_here(items(h1.left), (h1.key, h1.value), items(h1.right), h1.value);
                }
                // a valid tree has nothing left of such a node; whatever is there stays
                let n = *h;
                proof {
                    assert(remove_entry(s, key) =~= items(n.left));
                }
                return (n.left, Some(n.value));
            }
            if h.right.is_some() && !Self::is_red(&h.right) && !Self::left_left_red(&h.right) {
                h = Self::move_red_right(h);
            }
            let ghost h1 = *h;
            proof {
                lemma_node_sorted(h1);
            }
            if key == h.key {
                proof {
                    lemma_parts_here(items(h1.left), (h1.key, h1.value), items(h1.right), h1.value);
                }
                let right = h.right.take().expect("right exists");
                proof {
                    lemma_node_items(right);
                }
                let (new_right, min_node) = Self::delete_min_with_node(right);
                h.right = new_right;
                h.key = min_node.key;
                let mut removed = min_node.value;
                std::mem::swap(&mut h.value, &mut removed);
                proof {
                    let rr = items(h1.right);
                    assert(rr == seq![(min_node.key, min_node.value)] + rr.drop_first());
                    assert(node_items(*h) =~= remove_entry(s, key));
                }
                Some(removed)
            } else {
                proof {
                    lemma_parts_right(items(h1.left), (h1.key, h1.value), items(h1.right), key, h1.value);
                }
                let (new_right, removed) = Self::remove_node(h.right.take(), key);
                h.right = new_right;
                proof {
                    assert(node_items(*h) =~= remove_entry(s, key));
                }
                removed
            }
        };
        let h = Self::fix_up(h);
        proof {
            lemma_node_items(h);
        }
        (Some(h), removed)
    }

    /// The value of `key` under `link`.
    fn get_in(link: &Option<Box<Node<u64, V>>>, key: u64) -> (r: Option<&V>)
        requires
            keys_sorted(items(*link)),
        ensures
            (r is Some) == has_key(items(*link), key),
            r matches Some(v) ==> lookup(items(*link), key) == Some(*v),
        decreases *link,
    {
        match link {
            None => {
                proof {
                    lemma_empty::<V>(key, arbitrary());
                }
                None
            },
            Some(node) => {
                let ghost l = items(node.left);
                let ghost x = (node.key, node.value);
                let ghost r = items(node.right);
                proof {
                    lemma_node_items(*node);
                    lemma_parts_sorted(l, x, r);
                }
                if key < node.key {
                    proof {
                        lemma_parts_left(l, x, r, key, node.value);
                    }
                    Self::get_in(&node.left, key)
                } else if key > node.key {
                    proof {
                        lemma_parts_right(l, x, r, key, node.value);
                    }
                    Self::get_in(&node.right, key)
                } else {
                    proof {
                        lemma_parts_here(l, x, r, node.value);
                    }
                    Some(&node.value)
                }
            },
        }
    }

    /// The entry with the smallest key at least `key` under `link`.
    fn lower_bound_in(link: &Option<Box<Node<u64, V>>>, key: u64) -> (r: Option<(&u64, &V)>)
        requires
            keys_sorted(items(*link)),
        ensures
            (r is Some) == (lower_bound_entry(items(*link), key) is Some),
            r matches Some((k, v)) ==> lower_bound_entry(items(*link), key) == Some((*k, *v)),
        decreases *link,
    {
        match link {
            None => {
                proof {
                    lemma_empty::<V>(key, arbitrary());
                }
                None
            },
            Some(node) => {
                let ghost l = items(node.left);
                let ghost x = (node.key, node.value);
                let ghost r = items(node.right);
                proof {
                    lemma_node_items(*node);
                    lemma_parts_sorted(l, x, r);
                }
                if key <= node.key {
                    proof {
                        if key < node.key {
                            lemma_parts_left(l, x, r, key, node.value);
                        } else {
                            lemma_parts_here(l, x, r, node.value);
                            lemma_all_below(l, key);
                        }
                    }
                    match Self::lower_bound_in(&node.left, key) {
                        Some(found) => Some(found),
                        None => Some((&node.key, &node.value)),
                    }
                } else {
                    proof {
                        lemma_parts_right(l, x, r, key, node.value);
                    }
                    Self::lower_bound_in(&node.right, key)
                }
            },
        }
    }

    /// Paint the root black.
    fn blacken_root(&mut self)
        ensures
            items(final(self).root) == items(old(self).root),
            final(self).len == old(self).len,
            final(self).root == (match old(self).root {
                Some(r) => Some(Box::new(Node { red: false, ..*r })),
                None => None,
            }),
    {
        if let Some(mut r) = self.root.take() {
            proof {
                lemma_node_items(r);
            }
            r.red = false;
            proof {
                lemma_node_items(r);
            }
            self.root = Some(r);
        }
    }
}

impl<V> OrderedMap for LlrbTreeMap<u64, V> {
    type Value = V;

    closed spec fn wf(&self) -> bool {
        &&& keys_sorted(items(self.root))
        &&& self.len == items(self.root).len()
    }

    closed spec fn contents(&self) -> Map<u64, V> {
        entries_map(items(self.root))
    }

    fn new() -> (r: Self) {
        proof {
            lemma_entries_map_empty::<V>();
        }
        Self { root: None, len: 0 }
    }

    fn len(&self) -> (r: usize) {
        proof {
            lemma_entries_map(items(self.root));
        }
        self.len
    }

    fn get(&mut self, key: &u64) -> (r: Option<&V>) {
        proof {
            lemma_entries_map(items(self.root));
        }
        Self::get_in(&self.root, *key)
    }

    fn insert(&mut self, key: u64, value: V) -> (r: Option<V>) {
        let ghost s = items(self.root);
        proof {
            lemma_entries_map(s);
            lemma_entries_map_insert(s, key, value);
            lemma_insert_sorted(s, key, value);
        }
        let (root, old, inserted) = Self::insert_node(self.root.take(), key, value);
        self.root = root;
        self.blacken_root();
        if inserted {
            self.len += 1;
        }
        old
    }

    fn remove(&mut self, key: &u64) -> (r: Option<V>) {
        let ghost s = items(self.root);
        proof {
            lemma_entries_map_remove(s, *key);
            lemma_remove_sorted(s, *key);
        }
        let mut root = match self.root.take() {
            Some(root) => root,
            None => {
                proof {
                    lemma_empty::<V>(*key, arbitrary());
                }
                return None;
            },
        };
        proof {
            lemma_node_items(root);
        }
        if !Self::is_red(&root.left) && !Self::is_red(&root.right) {
            root.red = true;
        }
        proof {
            lemma_node_items(root);
        }
        let (root, removed) = Self::remove_node(Some(root), *key);
        self.root = root;
        self.blacken_root();
        if removed.is_some() {
            self.len -= 1;
        }
        removed
    }

    fn lower_bound(&mut self, key: &u64) -> (r: Option<(&u64, &V)>) {
        proof {
            lemma_entries_map_lower_bound(items(self.root), *key);
        }
        Self::lower_bound_in(&self.root, *key)
    }
}

} // verus!
