use vstd::prelude::*;

use crate::ordered_map::{
    OrderedMap, entries_map, has_key, insert_entry, keys_sorted, lemma_all_below, lemma_empty,
    lemma_entries_map, lemma_entries_map_empty, lemma_entries_map_insert,
    lemma_entries_map_lower_bound, lemma_entries_map_remove, lemma_insert_sorted, lemma_parts_here,
    lemma_parts_left, lemma_parts_right, lemma_parts_sorted, lemma_remove_sorted, lookup,
    lower_bound_entry, remove_entry,
};

verus! {

/// How much heavier one side of a node may get than the other before a rotation.
const BALANCE_NUM: u64 = 16;

/// An ordered map kept in a weight-balanced tree.
pub struct WbtTreeMap<K, V> {
    root: Option<Box<Node<K, V>>>,
    len: usize,
}

struct Node<K, V> {
    key: K,
    value: V,
    size: u32,
    left: Option<Box<Node<K, V>>>,
    right: Option<Box<Node<K, V>>>,
}

/// The entries under `link`, in order.
spec fn items<V>(link: Option<Box<Node<u64, V>>>) -> Seq<(u64, V)>
    decreases link,
{
    match link {
        None => Seq::empty(),
        Some(n) => items(n.left) + seq![(n.key, n.value)] + items(n.right),
    }
}

/// The entries of a node.
spec fn node_items<V>(n: Node<u64, V>) -> Seq<(u64, V)> {
    items(n.left) + seq![(n.key, n.value)] + items(n.right)
}

proof fn lemma_node_items<V>(n: Box<Node<u64, V>>)
    ensures
        items(Some(n)) == node_items(*n),
{
}

/// The size stored at the node under `link`, 0 for none.
spec fn sz<V>(link: Option<Box<Node<u64, V>>>) -> u32 {
    match link {
        Some(n) => n.size,
        None => 0,
    }
}

/// `n` with its size recounted from its children.
spec fn recounted<V>(n: Node<u64, V>) -> Node<u64, V> {
    Node { size: 1u32.wrapping_add(sz(n.left)).wrapping_add(sz(n.right)), ..n }
}

/// `n` rotated right, sizes recounted; unchanged without a left child.
spec fn rot_right<V>(n: Node<u64, V>) -> Node<u64, V> {
    match n.left {
        None => n,
        Some(l) => recounted(Node { right: Some(Box::new(recounted(Node { left: l.right, ..n }))), ..*l }),
    }
}

/// `n` rotated left, sizes recounted; unchanged without a right child.
spec fn rot_left<V>(n: Node<u64, V>) -> Node<u64, V> {
    match n.right {
        None => n,
        Some(r) => recounted(Node { left: Some(Box::new(recounted(Node { right: r.left, ..n }))), ..*r }),
    }
}

/// `n` with its size recounted, then rotated (twice where its heavy child leans inward) when
/// one side outweighs the other by more than the balance factor.
spec fn rebalanced<V>(n: Node<u64, V>) -> Node<u64, V> {
    let a = recounted(n);
    let ls = sz(a.left) as int;
    let rs = sz(a.right) as int;
    if ls > rs * BALANCE_NUM + 1 {
        rot_right(match a.left {
            Some(l) => Node {
                left: Some(Box::new(if sz(l.right) > sz(l.left) { rot_left(*l) } else { *l })),
                ..a
            },
            None => a,
        })
    } else if rs > ls * BALANCE_NUM + 1 {
        rot_left(match a.right {
            Some(r) => Node {
                right: Some(Box::new(if sz(r.left) > sz(r.right) { rot_right(*r) } else { *r })),
                ..a
            },
            None => a,
        })
    } else {
        a
    }
}

impl<V> Node<u64, V> {
    fn new(key: u64, value: V) -> (r: Self)
        ensures
            node_items(r) == seq![(key, value)],
    {
        let r = Self { key, value, size: 1, left: None, right: None };
        assert(node_items(r) =~= seq![(key, value)]);
        r
    }

    fn size(node: &Option<Box<Node<u64, V>>>) -> (r: u32)
        ensures
            r == sz(*node),
    {
        match node {
            Some(n) => n.size,
            None => 0,
        }
    }

    /// Recount the size of the node from its children.
    fn recalc(&mut self)
        ensures
            final(self).key == old(self).key,
            final(self).value == old(self).value,
            final(self).left == old(self).left,
            final(self).right == old(self).right,
            *final(self) == recounted(*old(self)),
    {
        self.size = 1u32.wrapping_add(Self::size(&self.left)).wrapping_add(Self::size(&self.right));
    }
}

impl<V> WbtTreeMap<u64, V> {
    fn rotate_right(root: Box<Node<u64, V>>) -> (r: Box<Node<u64, V>>)
        ensures
            node_items(*r) == node_items(*root),
            *r == rot_right(*root),
    {
        let mut root = root;
        let ghost h0 = *root;
        let mut left = match root.left.take() {
            Some(node) => node,
            None => return root,
        };
        proof {
            lemma_node_items(left);
        }
        let ghost x0 = *left;
        root.left = left.right.take();
        root.recalc();
        proof {
            lemma_node_items(root);
        }
        let ghost mid = *root;
        left.right = Some(root);
        left.recalc();
        proof {
            assert(items(left.right) == node_items(mid));
            assert(node_items(h0) == (items(x0.left) + seq![(x0.key, x0.value)] + items(x0.right))
                + seq![(h0.key, h0.value)] + items(h0.right));
            assert(node_items(*left) =~= node_items(h0));
        }
        left
    }

    fn rotate_left(root: Box<Node<u64, V>>) -> (r: Box<Node<u64, V>>)
        ensures
            node_items(*r) == node_items(*root),
            *r == rot_left(*root),
    {
        let mut root = root;
        let ghost h0 = *root;
        let mut right = match root.right.take() {
            Some(node) => node,
            None => return root,
        };
        proof {
            lemma_node_items(right);
        }
        let ghost x0 = *right;
        root.right = right.left.take();
        root.recalc();
        proof {
            lemma_node_items(root);
        }
        let ghost mid = *root;
        right.left = Some(root);
        right.recalc();
        proof {
            assert(items(right.left) == node_items(mid));
            assert(node_items(h0) == items(h0.left) + seq![(h0.key, h0.value)] + (items(x0.left)
                + seq![(x0.key, x0.value)] + items(x0.right)));
            assert(node_items(*right) =~= node_items(h0));
        }
        right
    }

    /// Rotate when one side outweighs the other too much.
    fn rebalance(root: Box<Node<u64, V>>) -> (r: Box<Node<u64, V>>)
        ensures
            node_items(*r) == node_items(*root),
            *r == rebalanced(*root),
    {
        let mut root = root;
        root.recalc();
        let left_size = Node::<u64, V>::size(&root.left) as u64;
        let right_size = Node::<u64, V>::size(&root.right) as u64;
        if left_size > right_size * BALANCE_NUM + 1 {
            if let Some(left) = root.left.take() {
                proof {
                    lemma_node_items(left);
                }
                let mut left = left;
                let ll = Node::<u64, V>::size(&left.left);
                let lr = Node::<u64, V>::size(&left.right);
                if lr > ll {
                    left = Self::rotate_left(left);
                }
                proof {
                    lemma_node_items(left);
                }
                root.left = Some(left);
            }
            return Self::rotate_right(root);
        }
        if right_size > left_size * BALANCE_NUM + 1 {
            if let Some(right) = root.right.take() {
                proof {
                    lemma_node_items(right);
                }
                let mut right = right;
                let rl = Node::<u64, V>::size(&right.left);
                let rr = Node::<u64, V>::size(&right.right);
                if rl > rr {
                    right = Self::rotate_right(right);
                }
                proof {
                    lemma_node_items(right);
                }
                root.right = Some(right);
            }
            return Self::rotate_left(root);
        }
        root
    }

    /// Take out the entry with the smallest key under `node`; give what is left and the node
    /// of that entry.
    fn pop_min(node: Box<Node<u64, V>>) -> (r: (Option<Box<Node<u64, V>>>, Box<Node<u64, V>>))
        ensures
            node_items(*node).len() > 0,
            items(r.0) == node_items(*node).drop_first(),
            (r.1.key, r.1.value) == node_items(*node)[0],
        decreases node,
    {
        let mut node = node;
        let ghost n0 = *node;
        if node.left.is_none() {
            let right = node.right.take();
            proof {
                assert(node_items(n0) =~= seq![(n0.key, n0.value)] + items(right));
                assert(node_items(n0).drop_first() =~= items(right));
            }
            return (right, node);
        }
        let left = node.left.take().unwrap();
        proof {
            lemma_node_items(left);
        }
        let (new_left, min_node) = Self::pop_min(left);
        node.left = new_left;
        proof {
            assert(node_items(*node) =~= node_items(n0).drop_first());
        }
        let node = Self::rebalance(node);
        (Some(node), min_node)
    }

    /// Put `(key, value)` under `root`; give the new tree, the old value of `key`, and whether
    /// the key is new.
    fn insert_node(root: Option<Box<Node<u64, V>>>, key: u64, value: V) -> (r: (
        Option<Box<Node<u64, V>>>,
        Option<V>,
        bool,
    ))
        requires
            keys_sorted(items(root)),
        ensures
            items(r.0) == insert_entry(items(root), key, value),
            r.1 == lookup(items(root), key),
            r.2 == !has_key(items(root), key),
        decreases root,
    {
        let mut node = match root {
            Some(node) => node,
            None => {
                proof {
                    lemma_empty(key, value);
                }
                let n = Box::new(Node::<u64, V>::new(key, value));
                proof {
                    lemma_node_items(n);
                }
                return (Some(n), None, true);
            },
        };
        let ghost n0 = *node;
        proof {
            lemma_node_items(node);
            lemma_parts_sorted(items(n0.left), (n0.key, n0.value), items(n0.right));
        }
        if key < node.key {
            proof {
                lemma_parts_left(items(n0.left), (n0.key, n0.value), items(n0.right), key, value);
            }
            let (left, old, inserted) = Self::insert_node(node.left.take(), key, value);
            node.left = left;
            let node = Self::rebalance(node);
            proof {
                lemma_node_items(node);
            }
            (Some(node), old, inserted)
        } else if key > node.key {
            proof {
                lemma_parts_right(items(n0.left), (n0.key, n0.value), items(n0.right), key, value);
            }
            let (right, old, inserted) = Self::insert_node(node.right.take(), key, value);
            node.right = right;
            let node = Self::rebalance(node);
            proof {
                lemma_node_items(node);
            }
            (Some(node), old, inserted)
        } else {
            proof {
                lemma_parts_here(items(n0.left), (n0.key, n0.value), items(n0.right), value);
            }
            let mut old = value;
            std::mem::swap(&mut node.value, &mut old);
            proof {
                lemma_node_items(node);
            }
            (Some(node), Some(old), false)
        }
    }

    /// Take `key` out from under `root`; give the new tree, the value of `key`, and whether it
    /// was there.
    fn remove_node(root: Option<Box<Node<u64, V>>>, key: u64) -> (r: (
        Option<Box<Node<u64, V>>>,
        Option<V>,
        bool,
    ))
        requires
            keys_sorted(items(root)),
        ensures
            items(r.0) == remove_entry(items(root), key),
            r.1 == lookup(items(root), key),
            r.2 == has_key(items(root), key),
        decreases root,
    {
        let mut node = match root {
            Some(node) => node,
            None => {
                proof {
                    lemma_empty::<V>(key, arbitrary());
                }
                return (None, None, false);
            },
        };
        let ghost n0 = *node;
        let ghost l = items(n0.left);
        let ghost x = (n0.key, n0.value);
        let ghost r = items(n0.right);
        proof {
            lemma_node_items(node);
            lemma_parts_sorted(l, x, r);
        }
        if key < node.key {
            proof {
                lemma_parts_left(l, x, r, key, n0.value);
            }
            let (left, removed, did_remove) = Self::remove_node(node.left.take(), key);
            node.left = left;
            let node = Self::rebalance(node);
            proof {
                lemma_node_items(node);
            }
            (Some(node), removed, did_remove)
        } else if key > node.key {
            proof {
                lemma_parts_right(l, x, r, key, n0.value);
            }
            let (right, removed, did_remove) = Self::remove_node(node.right.take(), key);
            node.right = right;
            let node = Self::rebalance(node);
            proof {
                lemma_node_items(node);
            }
            (Some(node), removed, did_remove)
        } else {
            proof {
                lemma_parts_here(l, x, r, n0.value);
            }
            if node.left.is_none() {
                let right = node.right.take();
                proof {
                    assert(remove_entry(node_items(n0), key) =~= items(right));
                }
                let n = *node;
                return (right, Some(n.value), true);
            }
            if node.right.is_none() {
                let left = node.left.take();
                proof {
                    assert(remove_entry(node_items(n0), key) =~= items(left));
                }
                let n = *node;
                return (left, Some(n.value), true);
            }
            let right = node.right.take().unwrap();
            proof {
                lemma_node_items(right);
            }
            let (new_right, succ) = Self::pop_min(right);
            node.right = new_right;
            node.key = succ.key;
            let mut removed = succ.value;
            std::mem::swap(&mut node.value, &mut removed);
            proof {
                assert(r == seq![(succ.key, succ.value)] + r.drop_first());
                assert(node_items(*node) =~= l + r);
            }
            let node = Self::rebalance(node);
            proof {
                lemma_node_items(node);
            }
            (Some(node), Some(removed), true)
        }
    }

    /// The value of `key` under `link`.
    fn get_in(link: &Option<Box<Node<u64, V>>>, key: u64) -> (r: Option<&V>)
        requires
            keys_sorted(items(*link)),
        ensures
            (r is Some) == has_key(items(*link), key),
            r matches Some(v) ==> lookup(items(*link), key) == Some(*v),
        decreases *link,
    {
        match link {
            None => {
                proof {
                    lemma_empty::<V>(key, arbitrary());
                }
                None
            },
            Some(node) => {
                let ghost l = items(node.left);
                let ghost x = (node.key, node.value);
                let ghost r = items(node.right);
                proof {
                    lemma_node_items(*node);
                    lemma_parts_sorted(l, x, r);
                }
                if key < node.key {
                    proof {
                        lemma_parts_left(l, x, r, key, node.value);
                    }
                    Self::get_in(&node.left, key)
                } else if key > node.key {
                    proof {
                        lemma_parts_right(l, x, r, key, node.value);
                    }
                    Self::get_in(&node.right, key)
                } else {
                    proof {
                        lemma_parts_here(l, x, r, node.value);
                    }
                    Some(&node.value)
                }
            },
        }
    }

    /// The entry with the smallest key at least `key` under `link`.
    fn lower_bound_in(link: &Option<Box<Node<u64, V>>>, key: u64) -> (r: Option<(&u64, &V)>)
        requires
            keys_sorted(items(*link)),
        ensures
            (r is Some) == (lower_bound_entry(items(*link), key) is Some),
            r matches Some((k, v)) ==> lower_bound_entry(items(*link), key) == Some((*k, *v)),
        decreases *link,
    {
        match link {
            None => {
                proof {
                    lemma_empty::<V>(key, arbitrary());
                }
                None
            },
            Some(node) => {
                let ghost l = items(node.left);
                let ghost x = (node.key, node.value);
                let ghost r = items(node.right);
                proof {
                    lemma_node_items(*node);
                    lemma_parts_sorted(l, x, r);
                }
                if key <= node.key {
                    proof {
                        if key < node.key {
                            lemma_parts_left(l, x, r, key, node.value);
                        } else {
                            lemma_parts_here(l, x, r, node.value);
                            lemma_all_below(l, key);
                        }
                    }
                    match Self::lower_bound_in(&node.left, key) {
                        Some(found) => Some(found),
                        None => {
                            proof {
                                if key == node.key {
                                    lemma_parts_here(l, x, r, node.value);
                                }
                            }
                            Some((&node.key, &node.value))
                        },
                    }
                } else {
                    proof {
                        lemma_parts_right(l, x, r, key, node.value);
                    }
                    Self::lower_bound_in(&node.right, key)
                }
            },
        }
    }
}

impl<V> OrderedMap for WbtTreeMap<u64, V> {
    type Value = V;

    closed spec fn wf(&self) -> bool {
        &&& keys_sorted(items(self.root))
        &&& self.len == items(self.root).len()
    }

    closed spec fn contents(&self) -> Map<u64, V> {
        entries_map(items(self.root))
    }

    fn new() -> (r: Self) {
        proof {
            lemma_entries_map_empty::<V>();
        }
        Self { root: None, len: 0 }
    }

    fn len(&self) -> (r: usize) {
        proof {
            lemma_entries_map(items(self.root));
        }
        self.len
    }

    fn get(&mut self, key: &u64) -> (r: Option<&V>) {
        proof {
            lemma_entries_map(items(self.root));
        }
        Self::get_in(&self.root, *key)
    }

    fn insert(&mut self, key: u64, value: V) -> (r: Option<V>) {
        let ghost s = items(self.root);
        proof {
            lemma_entries_map(s);
            lemma_entries_map_insert(s, key, value);
            lemma_insert_sorted(s, key, value);
        }
        let (root, old, inserted) = Self::insert_node(self.root.take(), key, value);
        self.root = root;
        if inserted {
            self.len += 1;
        }
        old
    }

    fn remove(&mut self, key: &u64) -> (r: Option<V>) {
        let ghost s = items(self.root);
        proof {
            lemma_entries_map_remove(s, *key);
            lemma_remove_sorted(s, *key);
        }
        let (root, removed, did_remove) = Self::remove_node(self.root.take(), *key);
        self.root = root;
        if did_remove {
            self.len -= 1;
        }
        removed
    }

    fn lower_bound(&mut self, key: &u64) -> (r: Option<(&u64, &V)>) {
        proof {
            lemma_entries_map_lower_bound(items(self.root), *key);
        }
        Self::lower_bound_in(&self.root, *key)
    }
}

} // verus!
