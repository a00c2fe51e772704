use vstd::prelude::*;

use crate::ordered_map::{
    OrderedMap, entries_map, has_key, lemma_all_below, insert_entry, keys_sorted, lemma_empty, lemma_entries_map,
    lemma_entries_map_empty, lemma_entries_map_insert, lemma_entries_map_lower_bound,
    lemma_entries_map_remove, lemma_insert_sorted, lemma_parts_here, lemma_parts_left,
    lemma_parts_right, lemma_parts_sorted, lemma_remove_sorted, lookup, lower_bound_entry,
    remove_entry,
};

verus! {

/// An ordered map kept in an AA tree.
pub struct AaTreeMap<K, V> {
    root: Option<Box<Node<K, V>>>,
    len: usize,
}

struct Node<K, V> {
    key: K,
    value: V,
    level: u8,
    left: Option<Box<Node<K, V>>>,
    right: Option<Box<Node<K, V>>>,
}

/// The entries under `link`, in order.
spec fn items<V>(link: Option<Box<Node<u64, V>>>) -> Seq<(u64, V)>
    decreases link,
{
    match link {
        None => Seq::empty(),
        Some(n) => items(n.left) + seq![(n.key, n.value)] + items(n.right),
    }
}

/// The entries of a node.
spec fn node_items<V>(n: Node<u64, V>) -> Seq<(u64, V)> {
    items(n.left) + seq![(n.key, n.value)] + items(n.right)
}

proof fn lemma_node_items<V>(n: Box<Node<u64, V>>)
    ensures
        items(Some(n)) == node_items(*n),
{
}

impl<V> Node<u64, V> {
    fn new(key: u64, value: V) -> (r: Self)
        ensures
            node_items(r) == seq![(key, value)],
    {
        let r = Self { key, value, level: 1, left: None, right: None };
        assert(node_items(r) =~= seq![(key, value)]);
        r
    }

    fn level(node: &Option<Box<Node<u64, V>>>) -> (r: u8)
        ensures
            node is None ==> r == 0,
            r == lvl(*node),
    {
        match node {
            Some(n) => n.level,
            None => 0,
        }
    }
}

/// The level of the node under `link`, 0 for none.
spec fn lvl<V>(link: Option<Box<Node<u64, V>>>) -> u8 {
    match link {
        Some(n) => n.level,
        None => 0,
    }
}

/// `n` rotated right when its left child sits on its level.
spec fn skewed<V>(n: Node<u64, V>) -> Node<u64, V> {
    if lvl(n.left) != 0 && lvl(n.left) == n.level {
        let l = *n.left->0;
        Node { right: Some(Box::new(Node { left: l.right, ..n })), ..l }
    } else {
        n
    }
}

/// `n` rotated left, its right child raised a level, when its right child's right child sits
/// on its level.
spec fn split_node<V>(n: Node<u64, V>) -> Node<u64, V> {
    let rrl = match n.right {
        Some(r) => lvl(r.right),
        None => 0,
    };
    if rrl != 0 && rrl == n.level {
        let r = *n.right->0;
        Node {
            left: Some(Box::new(Node { right: r.left, ..n })),
            level: if r.level == u8::MAX { u8::MAX } else { (r.level + 1) as u8 },
            ..r
        }
    } else {
        n
    }
}

/// `n` with its level, and its right child's, lowered to one above its lower child.
spec fn decreased<V>(n: Node<u64, V>) -> Node<u64, V> {
    let l = lvl(n.left);
    let r = lvl(n.right);
    let m = if l < r { l } else { r };
    let should_be: u8 = if m == u8::MAX { u8::MAX } else { (m + 1) as u8 };
    if should_be < n.level {
        Node {
            level: should_be,
            right: match n.right {
                Some(rt) => Some(Box::new(if rt.level > should_be { Node { level: should_be, ..*rt } } else { *rt })),
                None => None,
            },
            ..n
        }
    } else {
        n
    }
}

/// `n` with `f` done to its right child, if it has one.
spec fn on_right<V>(n: Node<u64, V>, f: spec_fn(Node<u64, V>) -> Node<u64, V>) -> Node<u64, V> {
    match n.right {
        Some(r) => Node { right: Some(Box::new(f(*r))), ..n },
        None => n,
    }
}

/// The levels restored after a removal below `n`: lower, then skew along the right spine
/// three deep, then split along it two deep.
spec fn rebalanced<V>(n: Node<u64, V>) -> Node<u64, V> {
    let a = skewed(decreased(n));
    let b = on_right(a, |x: Node<u64, V>| skewed(x));
    let c = on_right(b, |x: Node<u64, V>| on_right(x, |y: Node<u64, V>| skewed(y)));
    let d = split_node(c);
    on_right(d, |x: Node<u64, V>| split_node(x))
}

impl<V> AaTreeMap<u64, V> {
    /// Rotate right when the left child sits on the same level.
    fn skew(node: Box<Node<u64, V>>) -> (r: Box<Node<u64, V>>)
        ensures
            node_items(*r) == node_items(*node),
            *r == skewed(*node),
    {
        let mut node = node;
        let left_level = Node::<u64, V>::level(&node.left);
        if left_level != 0 && left_level == node.level {
            let ghost n0 = *node;
            let mut left = node.left.take().unwrap();
            proof {
                lemma_node_items(left);
            }
            let ghost l0 = *left;
            node.left = left.right.take();
            proof {
                lemma_node_items(node);
                assert(node_items(*node) == items(l0.right) + seq![(n0.key, n0.value)] + items(n0.right));
            }
            let ghost mid = *node;
            left.right = Some(node);
            proof {
                assert(items(left.right) == node_items(mid));
                assert(node_items(n0) == (items(l0.left) + seq![(l0.key, l0.value)] + items(l0.right))
                    + seq![(n0.key, n0.value)] + items(n0.right));
                assert(node_items(*left) =~= node_items(n0));
            }
            return left;
        }
        node
    }

    /// Rotate left and raise when two right children in a row sit on the same level.
    fn split(node: Box<Node<u64, V>>) -> (r: Box<Node<u64, V>>)
        ensures
            node_items(*r) == node_items(*node),
            *r == split_node(*node),
    {
        let mut node = node;
        let right_right_level = match &node.right {
            Some(r) => Node::<u64, V>::level(&r.right),
            None => 0,
        };
        if right_right_level != 0 && right_right_level == node.level {
            let ghost n0 = *node;
            let mut right = node.right.take().unwrap();
            proof {
                lemma_node_items(right);
            }
            let ghost r0 = *right;
            node.right = right.left.take();
            proof {
                lemma_node_items(node);
                assert(node_items(*node) == items(n0.left) + seq![(n0.key, n0.value)] + items(r0.left));
            }
            let ghost mid = *node;
            right.left = Some(node);
            right.level = right.level.saturating_add(1);
            proof {
                assert(items(right.left) == node_items(mid));
                assert(node_items(n0) == items(n0.left) + seq![(n0.key, n0.value)] + (items(r0.left)
                    + seq![(r0.key, r0.value)] + items(r0.right)));
                assert(node_items(*right) =~= node_items(n0));
            }
            return right;
        }
        node
    }

    /// Lower the level of `node`, and of its right child, to one above its lower child.
    fn decrease_level(node: Box<Node<u64, V>>) -> (r: Box<Node<u64, V>>)
        ensures
            node_items(*r) == node_items(*node),
            *r == decreased(*node),
    {
        let mut node = node;
        let l = Node::<u64, V>::level(&node.left);
        let r = Node::<u64, V>::level(&node.right);
        let should_be = (if l < r { l } else { r }).saturating_add(1);
        if should_be < node.level {
            node.level = should_be;
            if let Some(mut right) = node.right.take() {
                if right.level > should_be {
                    right.level = should_be;
                }
                node.right = Some(right);
            }
        }
        node
    }

    /// Restore the levels after a removal below `node`.
    fn rebalance_after_delete(node: Box<Node<u64, V>>) -> (r: Box<Node<u64, V>>)
        ensures
            node_items(*r) == node_items(*node),
            *r == rebalanced(*node),
    {
        let ghost g = node_items(*node);
        let mut node = Self::decrease_level(node);
        node = Self::skew(node);
        if let Some(right) = node.right.take() {
            proof {
                lemma_node_items(right);
            }
            let right = Self::skew(right);
            proof {
                lemma_node_items(right);
            }
            node.right = Some(right);
        }
        assert(node_items(*node) == g);
        if let Some(mut right) = node.right.take() {
            proof {
                lemma_node_items(right);
            }
            let ghost rg = node_items(*right);
            if let Some(right_right) = right.right.take() {
                proof {
                    lemma_node_items(right_right);
                }
                let right_right = Self::skew(right_right);
                proof {
                    lemma_node_items(right_right);
                }
                right.right = Some(right_right);
            }
            assert(node_items(*right) == rg);
            proof {
                lemma_node_items(right);
            }
            node.right = Some(right);
        }
        assert(node_items(*node) == g);
        node = Self::split(node);
        if let Some(right) = node.right.take() {
            proof {
                lemma_node_items(right);
            }
            let right = Self::split(right);
            proof {
                lemma_node_items(right);
            }
            node.right = Some(right);
        }
        node
    }

    /// Take out the entry with the smallest key under `node`; give what is left and the node
    /// of that entry.
    fn remove_min(node: Box<Node<u64, V>>) -> (r: (Option<Box<Node<u64, V>>>, Box<Node<u64, V>>))
        ensures
            node_items(*node).len() > 0,
            items(r.0) == node_items(*node).drop_first(),
            (r.1.key, r.1.value) == node_items(*node)[0],
        decreases node,
    {
        let mut node = node;
        let ghost n0 = *node;
        if node.left.is_none() {
            let right = node.right.take();
            proof {
                assert(node_items(n0) =~= seq![(n0.key, n0.value)] + items(right));
                assert(node_items(n0).drop_first() =~= items(right));
            }
            return (right, node);
        }
        let left = node.left.take().unwrap();
        proof {
            lemma_node_items(left);
        }
        let (new_left, min_node) = Self::remove_min(left);
        node.left = new_left;
        proof {
            assert(node_items(*node) =~= node_items(n0).drop_first());
        }
        let node = Self::rebalance_after_delete(node);
        (Some(node), min_node)
    }

    /// Take out the entry with the largest key under `node`; give what is left and the node
    /// of that entry.
    fn remove_max(node: Box<Node<u64, V>>) -> (r: (Option<Box<Node<u64, V>>>, Box<Node<u64, V>>))
        ensures
            node_items(*node).len() > 0,
            items(r.0) == node_items(*node).drop_last(),
            (r.1.key, r.1.value) == node_items(*node).last(),
        decreases node,
    {
        let mut node = node;
        let ghost n0 = *node;
        if node.right.is_none() {
            let left = node.left.take();
            proof {
                assert(node_items(n0) =~= items(left) + seq![(n0.key, n0.value)]);
                assert(node_items(n0).drop_last() =~= items(left));
            }
            return (left, node);
        }
        let right = node.right.take().unwrap();
        proof {
            lemma_node_items(right);
        }
        let (new_right, max_node) = Self::remove_max(right);
        node.right = new_right;
        proof {
            assert(node_items(*node) =~= node_items(n0).drop_last());
        }
        let node = Self::rebalance_after_delete(node);
        (Some(node), max_node)
    }

    /// Put `(key, value)` under `root`; give the new tree, the old value of `key`, and whether
    /// the key is new.
    fn insert_node(root: Option<Box<Node<u64, V>>>, key: u64, value: V) -> (r: (
        Option<Box<Node<u64, V>>>,
        Option<V>,
        bool,
    ))
        requires
            keys_sorted(items(root)),
        ensures
            items(r.0) == insert_entry(items(root), key, value),
            r.1 == lookup(items(root), key),
            r.2 == !has_key(items(root), key),
        decreases root,
    {
        let mut node = match root {
            Some(node) => node,
            None => {
                proof {
                    lemma_empty(key, value);
                }
                let n = Box::new(Node::<u64, V>::new(key, value));
                proof {
                    lemma_node_items(n);
                }
                return (Some(n), None, true);
            },
        };
        let ghost n0 = *node;
        proof {
            lemma_node_items(node);
            lemma_parts_sorted(items(n0.left), (n0.key, n0.value), items(n0.right));
        }
        let (old, inserted) = if key < node.key {
            proof {
                lemma_parts_left(items(n0.left), (n0.key, n0.value), items(n0.right), key, value);
            }
            let (left, old, inserted) = Self::insert_node(node.left.take(), key, value);
            node.left = left;
            (old, inserted)
        } else if key > node.key {
            proof {
                lemma_parts_right(items(n0.left), (n0.key, n0.value), items(n0.right), key, value);
            }
            let (right, old, inserted) = Self::insert_node(node.right.take(), key, value);
            node.right = right;
            (old, inserted)
        } else {
            proof {
                lemma_parts_here(items(n0.left), (n0.key, n0.value), items(n0.right), value);
            }
            let mut old = value;
            std::mem::swap(&mut node.value, &mut old);
            (Some(old), false)
        };
        let node = Self::split(Self::skew(node));
        proof {
            lemma_node_items(node);
        }
        (Some(node), old, inserted)
    }

    /// Take `key` out from under `root`; give the new tree, the value of `key`, and whether it
    /// was there.
    fn remove_node(root: Option<Box<Node<u64, V>>>, key: u64) -> (r: (
        Option<Box<Node<u64, V>>>,
        Option<V>,
        bool,
    ))
        requires
            keys_sorted(items(root)),
        ensures
            items(r.0) == remove_entry(items(root), key),
            r.1 == lookup(items(root), key),
            r.2 == has_key(items(root), key),
        decreases root,
    {
        let mut node = match root {
            Some(node) => node,
            None => {
                proof {
                    lemma_empty::<V>(key, arbitrary());
                }
                return (None, None, false);
            },
        };
        let ghost n0 = *node;
        let ghost l = items(n0.left);
        let ghost x = (n0.key, n0.value);
        let ghost r = items(n0.right);
        proof {
            lemma_node_items(node);
            lemma_parts_sorted(l, x, r);
        }
        let (removed, did_remove) = if key < node.key {
            proof {
                lemma_parts_left(l, x, r, key, n0.value);
            }
            let (left, removed, did) = Self::remove_node(node.left.take(), key);
            node.left = left;
            (removed, did)
        } else if key > node.key {
            proof {
                lemma_parts_right(l, x, r, key, n0.value);
            }
            let (right, removed, did) = Self::remove_node(node.right.take(), key);
            node.right = right;
            (removed, did)
        } else {
            proof {
                lemma_parts_here(l, x, r, n0.value);
            }
            if node.left.is_none() && node.right.is_none() {
                proof {
                    assert(remove_entry(node_items(n0), key) =~= Seq::<(u64, V)>::empty());
                }
                let n = *node;
                return (None, Some(n.value), true);
            }
            if node.left.is_none() {
                let right = node.right.take().unwrap();
                proof {
                    lemma_node_items(right);
                }
                let (new_right, succ) = Self::remove_min(right);
                node.right = new_right;
                node.key = succ.key;
                let mut removed = succ.value;
                std::mem::swap(&mut node.value, &mut removed);
                proof {
                    assert(r == seq![(succ.key, succ.value)] + r.drop_first());
                    assert(node_items(*node) =~= l + r);
                }
                (Some(removed), true)
            } else {
                let left = node.left.take().unwrap();
                proof {
                    lemma_node_items(left);
                }
                let (new_left, pred) = Self::remove_max(left);
                node.left = new_left;
                node.key = pred.key;
                let mut removed = pred.value;
                std::mem::swap(&mut node.value, &mut removed);
                proof {
                    assert(l == l.drop_last() + seq![(pred.key, pred.value)]);
                    assert(node_items(*node) =~= l + r);
                }
                (Some(removed), true)
            }
        };
        let node = Self::rebalance_after_delete(node);
        proof {
            lemma_node_items(node);
        }
        (Some(node), removed, did_remove)
    }

    /// The value of `key` under `link`.
    fn get_in(link: &Option<Box<Node<u64, V>>>, key: u64) -> (r: Option<&V>)
        requires
            keys_sorted(items(*link)),
        ensures
            (r is Some) == has_key(items(*link), key),
            r matches Some(v) ==> lookup(items(*link), key) == Some(*v),
        decreases *link,
    {
        match link {
            None => {
                proof {
                    lemma_empty::<V>(key, arbitrary());
                }
                None
            },
            Some(node) => {
                let ghost l = items(node.left);
                let ghost x = (node.key, node.value);
                let ghost r = items(node.right);
                proof {
                    lemma_node_items(*node);
                    lemma_parts_sorted(l, x, r);
                }
                if key < node.key {
                    proof {
                        lemma_parts_left(l, x, r, key, node.value);
                    }
                    Self::get_in(&node.left, key)
                } else if key > node.key {
                    proof {
                        lemma_parts_right(l, x, r, key, node.value);
                    }
                    Self::get_in(&node.right, key)
                } else {
                    proof {
                        lemma_parts_here(l, x, r, node.value);
                    }
                    Some(&node.value)
                }
            },
        }
    }

    /// The entry with the smallest key at least `key` under `link`.
    fn lower_bound_in(link: &Option<Box<Node<u64, V>>>, key: u64) -> (r: Option<(&u64, &V)>)
        requires
            keys_sorted(items(*link)),
        ensures
            (r is Some) == (lower_bound_entry(items(*link), key) is Some),
            r matches Some((k, v)) ==> lower_bound_entry(items(*link), key) == Some((*k, *v)),
        decreases *link,
    {
        match link {
            None => {
                proof {
                    lemma_empty::<V>(key, arbitrary());
                }
                None
            },
            Some(node) => {
                let ghost l = items(node.left);
                let ghost x = (node.key, node.value);
                let ghost r = items(node.right);
                proof {
                    lemma_node_items(*node);
                    lemma_parts_sorted(l, x, r);
                }
                if key <= node.key {
                    proof {
                        if key < node.key {
                            lemma_parts_left(l, x, r, key, node.value);
                        } else {
                            lemma_parts_here(l, x, r, node.value);
                            lemma_all_below(l, key);
                        }
                    }
                    match Self::lower_bound_in(&node.left, key) {
                        Some(found) => Some(found),
                        None => {
                            proof {
                                if key == node.key {
                                    lemma_parts_here(l, x, r, node.value);
                                }
                            }
                            Some((&node.key, &node.value))
                        },
                    }
                } else {
                    proof {
                        lemma_parts_right(l, x, r, key, node.value);
                    }
                    Self::lower_bound_in(&node.right, key)
                }
            },
        }
    }
}

impl<V> OrderedMap for AaTreeMap<u64, V> {
    type Value = V;

    closed spec fn wf(&self) -> bool {
        &&& keys_sorted(items(self.root))
        &&& self.len == items(self.root).len()
    }

    closed spec fn contents(&self) -> Map<u64, V> {
        entries_map(items(self.root))
    }

    fn new() -> (r: Self) {
        proof {
            lemma_entries_map_empty::<V>();
        }
        Self { root: None, len: 0 }
    }

    fn len(&self) -> (r: usize) {
        proof {
            lemma_entries_map(items(self.root));
        }
        self.len
    }

    fn get(&mut self, key: &u64) -> (r: Option<&V>) {
        proof {
            lemma_entries_map(items(self.root));
        }
        Self::get_in(&self.root, *key)
    }

    fn insert(&mut self, key: u64, value: V) -> (r: Option<V>) {
        let ghost s = items(self.root);
        proof {
            lemma_entries_map(s);
            lemma_entries_map_insert(s, key, value);
            lemma_insert_sorted(s, key, value);
        }
        let (root, old, inserted) = Self::insert_node(self.root.take(), key, value);
        self.root = root;
        if inserted {
            self.len += 1;
        }
        old
    }

    fn remove(&mut self, key: &u64) -> (r: Option<V>) {
        let ghost s = items(self.root);
        proof {
            lemma_entries_map_remove(s, *key);
            lemma_remove_sorted(s, *key);
        }
        let (root, removed, did_remove) = Self::remove_node(self.root.take(), *key);
        self.root = root;
        if did_remove {
            self.len -= 1;
        }
        removed
    }

    fn lower_bound(&mut self, key: &u64) -> (r: Option<(&u64, &V)>) {
        proof {
            lemma_entries_map_lower_bound(items(self.root), *key);
        }
        Self::lower_bound_in(&self.root, *key)
    }
}

} // verus!
