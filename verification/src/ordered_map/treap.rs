use vstd::prelude::*;

use crate::ordered_map::{
    OrderedMap, entries_map, has_key, insert_entry, keys_sorted, lemma_all_below, lemma_empty,
    lemma_entries_map, lemma_entries_map_empty, lemma_entries_map_insert,
    lemma_entries_map_lower_bound, lemma_entries_map_remove, lemma_insert_sorted, lemma_parts_here,
    lemma_parts_left, lemma_parts_right, lemma_parts_sorted, lemma_rank_at, lemma_remove_sorted,
    lookup, lower_bound_entry, rank, remove_entry,
};

verus! {

/// Seed of the priorities of a treap made by `new`.
const DEFAULT_SEED: u64 = 0x5EED_0ADE_2026;

/// Xorshift generator of node priorities.
#[derive(Clone, Copy)]
struct XorShift64 {
    state: u64,
}

impl XorShift64 {
    fn new(seed: u64) -> (r: Self) {
        Self { state: seed }
    }

    fn next_u64(&mut self) -> u64 {
        let mut x = self.state;
        x ^= x << 13u64;
        x ^= x >> 7u64;
        x ^= x << 17u64;
        self.state = x;
        x
    }

    fn next_u32(&mut self) -> u32 {
        (self.next_u64() >> 32u64) as u32
    }
}

/// An ordered map kept in a treap: a search tree by key and a heap by random priority.
pub struct TreapMap<K, V> {
    root: Option<Box<Node<K, V>>>,
    len: usize,
    rng: XorShift64,
}

struct Node<K, V> {
    key: K,
    value: V,
    prio: u32,
    left: Option<Box<Node<K, V>>>,
    right: Option<Box<Node<K, V>>>,
}

/// The entries under `link`, in order.
spec fn items<V>(link: Option<Box<Node<u64, V>>>) -> Seq<(u64, V)>
    decreases link,
{
    match link {
        None => Seq::empty(),
        Some(n) => items(n.left) + seq![(n.key, n.value)] + items(n.right),
    }
}

/// The entries of a node.
spec fn node_items<V>(n: Node<u64, V>) -> Seq<(u64, V)> {
    items(n.left) + seq![(n.key, n.value)] + items(n.right)
}

proof fn lemma_node_items<V>(n: Box<Node<u64, V>>)
    ensures
        items(Some(n)) == node_items(*n),
{
}

/// Every key of `s` is below `k`.
spec fn all_lt<V>(s: Seq<(u64, V)>, k: u64) -> bool {
    forall|i: int| 0 <= i < s.len() ==> s[i].0 < k
}

/// Every key of `s` is at least `k`.
spec fn all_ge<V>(s: Seq<(u64, V)>, k: u64) -> bool {
    forall|i: int| 0 <= i < s.len() ==> s[i].0 >= k
}

impl<V> Node<u64, V> {
    fn new(key: u64, value: V, prio: u32) -> (r: Self)
        ensures
            node_items(r) == seq![(key, value)],
    {
        let r = Self { key, value, prio, left: None, right: None };
        assert(node_items(r) =~= seq![(key, value)]);
        r
    }
}

impl<V> TreapMap<u64, V> {
    /// An empty treap whose priorities come from `seed`.
    pub fn with_seed(seed: u64) -> (r: Self)
        ensures
            r.wf(),
            r.contents() == Map::<u64, V>::empty(),
    {
        proof {
            lemma_entries_map_empty::<V>();
        }
        Self { root: None, len: 0, rng: XorShift64::new(seed) }
    }

    /// Split the entries under `root` into those with keys below `key` and the others.
    fn split_lt(root: Option<Box<Node<u64, V>>>, key: u64) -> (r: (Option<Box<Node<u64, V>>>, Option<Box<Node<u64, V>>>))
        requires
            keys_sorted(items(root)),
        ensures
            items(r.0) + items(r.1) == items(root),
            all_lt(items(r.0), key),
            all_ge(items(r.1), key),
        decreases root,
    {
        let mut node = match root {
            Some(node) => node,
            None => return (None, None),
        };
        let ghost n0 = *node;
        proof {
            lemma_node_items(node);
            lemma_parts_sorted(items(n0.left), (n0.key, n0.value), items(n0.right));
        }
        if node.key < key {
            let (a, b) = Self::split_lt(node.right.take(), key);
            node.right = a;
            proof {
                lemma_node_items(node);
                assert(node_items(*node) + items(b) =~= node_items(n0));
                assert forall|i: int| 0 <= i < node_items(*node).len() implies node_items(*node)[i].0 < key by {
                    let l = items(n0.left);
                    if i < l.len() {
                        assert(node_items(*node)[i] == l[i]);
                    } else if i > l.len() {
                        assert(node_items(*node)[i] == items(a)[i - l.len() - 1]);
                    }
                }
            }
            (Some(node), b)
        } else {
            let (a, b) = Self::split_lt(node.left.take(), key);
            node.left = b;
            proof {
                lemma_node_items(node);
                assert(items(a) + node_items(*node) =~= node_items(n0));
                assert forall|i: int| 0 <= i < node_items(*node).len() implies node_items(*node)[i].0 >= key by {
                    let lb = items(b);
                    if i < lb.len() {
                        assert(node_items(*node)[i] == lb[i]);
                    } else if i > lb.len() {
                        assert(node_items(*node)[i] == items(n0.right)[i - lb.len() - 1]);
                    }
                }
            }
            (a, Some(node))
        }
    }

    /// Split the entries under `root` into those with keys at most `key` and the others.
    fn split_le(root: Option<Box<Node<u64, V>>>, key: u64) -> (r: (Option<Box<Node<u64, V>>>, Option<Box<Node<u64, V>>>))
        requires
            keys_sorted(items(root)),
        ensures
            items(r.0) + items(r.1) == items(root),
            forall|i: int| 0 <= i < items(r.0).len() ==> items(r.0)[i].0 <= key,
            forall|i: int| 0 <= i < items(r.1).len() ==> items(r.1)[i].0 > key,
        decreases root,
    {
        let mut node = match root {
            Some(node) => node,
            None => return (None, None),
        };
        let ghost n0 = *node;
        proof {
            lemma_node_items(node);
            lemma_parts_sorted(items(n0.left), (n0.key, n0.value), items(n0.right));
        }
        if node.key <= key {
            let (a, b) = Self::split_le(node.right.take(), key);
            node.right = a;
            proof {
                lemma_node_items(node);
                assert(node_items(*node) + items(b) =~= node_items(n0));
                assert forall|i: int| 0 <= i < node_items(*node).len() implies node_items(*node)[i].0 <= key by {
                    let l = items(n0.left);
                    if i < l.len() {
                        assert(node_items(*node)[i] == l[i]);
                    } else if i > l.len() {
                        assert(node_items(*node)[i] == items(a)[i - l.len() - 1]);
                    }
                }
            }
            (Some(node), b)
        } else {
            let (a, b) = Self::split_le(node.left.take(), key);
            node.left = b;
            proof {
                lemma_node_items(node);
                assert(items(a) + node_items(*node) =~= node_items(n0));
                assert forall|i: int| 0 <= i < node_items(*node).len() implies node_items(*node)[i].0 > key by {
                    let lb = items(b);
                    if i < lb.len() {
                        assert(node_items(*node)[i] == lb[i]);
                    } else if i > lb.len() {
                        assert(node_items(*node)[i] == items(n0.right)[i - lb.len() - 1]);
                    }
                }
            }
            (a, Some(node))
        }
    }

    /// Join two treaps, all keys of `a` before all keys of `b`.
    fn merge(a: Option<Box<Node<u64, V>>>, b: Option<Box<Node<u64, V>>>) -> (r: Option<Box<Node<u64, V>>>)
        ensures
            items(r) == items(a) + items(b),
        decreases items(a).len() + items(b).len(),
    {
        match (a, b) {
            (None, b) => {
                assert(items(b) =~= Seq::<(u64, V)>::empty() + items(b));
                b
            },
            (a, None) => {
                assert(items(a) =~= items(a) + Seq::<(u64, V)>::empty());
                a
            },
            (Some(a), Some(b)) => {
                let mut a = a;
                let mut b = b;
                let ghost a0 = *a;
                let ghost b0 = *b;
                proof {
                    lemma_node_items(a);
                    lemma_node_items(b);
                }
                if a.prio <= b.prio {
                    let right = a.right.take();
                    proof {
                        lemma_node_items(b);
                    }
                    a.right = Self::merge(right, Some(b));
                    proof {
                        lemma_node_items(a);
                        assert(node_items(*a) =~= node_items(a0) + node_items(b0));
                    }
                    Some(a)
                } else {
                    let left = b.left.take();
                    proof {
                        lemma_node_items(a);
                    }
                    b.left = Self::merge(Some(a), left);
                    proof {
                        lemma_node_items(b);
                        assert(node_items(*b) =~= node_items(a0) + node_items(b0));
                    }
                    Some(b)
                }
            },
        }
    }

    /// Take the entry of `key` out from under `root`; give the new tree and its value.
    fn remove_search(root: Option<Box<Node<u64, V>>>, key: u64) -> (r: (Option<Box<Node<u64, V>>>, Option<V>))
        requires
            keys_sorted(items(root)),
        ensures
            items(r.0) == remove_entry(items(root), key),
            r.1 == lookup(items(root), key),
        decreases root,
    {
        let mut node = match root {
            Some(node) => node,
            None => {
                proof {
                    lemma_empty::<V>(key, arbitrary());
                }
                return (None, None);
            },
        };
        let ghost n0 = *node;
        let ghost l = items(n0.left);
        let ghost x = (n0.key, n0.value);
        let ghost rr = items(n0.right);
        proof {
            lemma_node_items(node);
            lemma_parts_sorted(l, x, rr);
        }
        if key < node.key {
            proof {
                lemma_parts_left(l, x, rr, key, n0.value);
            }
            let (left, removed) = Self::remove_search(node.left.take(), key);
            node.left = left;
            proof {
                lemma_node_items(node);
            }
            (Some(node), removed)
        } else if key > node.key {
            proof {
                lemma_parts_right(l, x, rr, key, n0.value);
            }
            let (right, removed) = Self::remove_search(node.right.take(), key);
            node.right = right;
            proof {
                lemma_node_items(node);
            }
            (Some(node), removed)
        } else {
            proof {
                lemma_parts_here(l, x, rr, n0.value);
            }
            let n = *node;
            let root = Self::merge(n.left, n.right);
            (root, Some(n.value))
        }
    }

    /// The value of `key` under `link`.
    fn get_in(link: &Option<Box<Node<u64, V>>>, key: u64) -> (r: Option<&V>)
        requires
            keys_sorted(items(*link)),
        ensures
            (r is Some) == has_key(items(*link), key),
            r matches Some(v) ==> lookup(items(*link), key) == Some(*v),
        decreases *link,
    {
        match link {
            None => {
                proof {
                    lemma_empty::<V>(key, arbitrary());
                }
                None
            },
            Some(node) => {
                let ghost l = items(node.left);
                let ghost x = (node.key, node.value);
                let ghost r = items(node.right);
                proof {
                    lemma_node_items(*node);
                    lemma_parts_sorted(l, x, r);
                }
                if key < node.key {
                    proof {
                        lemma_parts_left(l, x, r, key, node.value);
                    }
                    Self::get_in(&node.left, key)
                } else if key > node.key {
                    proof {
                        lemma_parts_right(l, x, r, key, node.value);
                    }
                    Self::get_in(&node.right, key)
                } else {
                    proof {
                        lemma_parts_here(l, x, r, node.value);
                    }
                    Some(&node.value)
                }
            },
        }
    }

    /// The entry with the smallest key at least `key` under `link`.
    fn lower_bound_in(link: &Option<Box<Node<u64, V>>>, key: u64) -> (r: Option<(&u64, &V)>)
        requires
            keys_sorted(items(*link)),
        ensures
            (r is Some) == (lower_bound_entry(items(*link), key) is Some),
            r matches Some((k, v)) ==> lower_bound_entry(items(*link), key) == Some((*k, *v)),
        decreases *link,
    {
        match link {
            None => {
                proof {
                    lemma_empty::<V>(key, arbitrary());
                }
                None
            },
            Some(node) => {
                let ghost l = items(node.left);
                let ghost x = (node.key, node.value);
                let ghost r = items(node.right);
                proof {
                    lemma_node_items(*node);
                    lemma_parts_sorted(l, x, r);
                }
                if key <= node.key {
                    proof {
                        if key < node.key {
                            lemma_parts_left(l, x, r, key, node.value);
                        } else {
                            lemma_parts_here(l, x, r, node.value);
                            lemma_all_below(l, key);
                        }
                    }
                    match Self::lower_bound_in(&node.left, key) {
                        Some(found) => Some(found),
                        None => Some((&node.key, &node.value)),
                    }
                } else {
                    proof {
                        lemma_parts_right(l, x, r, key, node.value);
                    }
                    Self::lower_bound_in(&node.right, key)
                }
            },
        }
    }
}

impl<V> OrderedMap for TreapMap<u64, V> {
    type Value = V;

    closed spec fn wf(&self) -> bool {
        &&& keys_sorted(items(self.root))
        &&& self.len == items(self.root).len()
    }

    closed spec fn contents(&self) -> Map<u64, V> {
        entries_map(items(self.root))
    }

    fn new() -> (r: Self) {
        Self::with_seed(DEFAULT_SEED)
    }

    fn len(&self) -> (r: usize) {
        proof {
            lemma_entries_map(items(self.root));
        }
        self.len
    }

    fn get(&mut self, key: &u64) -> (r: Option<&V>) {
        proof {
            lemma_entries_map(items(self.root));
        }
        Self::get_in(&self.root, *key)
    }

    fn insert(&mut self, key: u64, value: V) -> (r: Option<V>) {
        let ghost s = items(self.root);
        proof {
            lemma_entries_map(s);
            lemma_entries_map_insert(s, key, value);
            lemma_insert_sorted(s, key, value);
        }
        let (lt, ge) = Self::split_lt(self.root.take(), key);
        proof {
            assert forall|i: int| 0 <= i < items(ge).len() implies items(ge)[i] == s[i + items(lt).len()] by {}
            assert(keys_sorted(items(ge))) by {
                assert forall|i: int, j: int| 0 <= i < j < items(ge).len() implies items(ge)[i].0 < items(ge)[j].0 by {
                    assert(s[i + items(lt).len()].0 < s[j + items(lt).len()].0);
                }
            }
            lemma_rank_at(s, key, items(lt).len() as int);
        }
        let (eq, gt) = Self::split_le(ge, key);
        let ghost p = items(lt).len() as int;
        proof {
            assert forall|i: int| 0 <= i < items(eq).len() implies items(eq)[i] == s[p + i] by {
                assert(items(ge)[i] == s[p + i]);
            }
            assert(items(eq).len() <= 1) by {
                if items(eq).len() > 1 {
                    assert(items(eq)[0].0 == key && items(eq)[1].0 == key);
                    assert(s[p].0 < s[p + 1].0);
                }
            }
            assert(has_key(s, key) == (items(eq).len() == 1)) by {
                if p < s.len() {
                    if items(eq).len() == 0 {
                        assert(s[p] == items(ge)[0] && items(ge)[0] == items(gt)[0]);
                    }
                }
            }
        }
        if let Some(eq_root) = eq {
            let mut eq_root = eq_root;
            proof {
                lemma_node_items(eq_root);
                assert(items(eq_root.left).len() == 0 && items(eq_root.right).len() == 0);
                assert(s == items(lt) + seq![(eq_root.key, eq_root.value)] + items(gt));
            }
            let mut old = value;
            std::mem::swap(&mut eq_root.value, &mut old);
            proof {
                lemma_node_items(eq_root);
                assert(items(Some(eq_root)) =~= seq![(key, value)]);
                assert(insert_entry(s, key, value) =~= items(lt) + seq![(key, value)] + items(gt));
            }
            self.root = Self::merge(Self::merge(lt, Some(eq_root)), gt);
            return Some(old);
        }
        let prio = self.rng.next_u32();
        let new_node = Box::new(Node::<u64, V>::new(key, value, prio));
        proof {
            lemma_node_items(new_node);
            assert(s =~= items(lt) + items(gt));
            assert(insert_entry(s, key, value) =~= items(lt) + seq![(key, value)] + items(gt));
        }
        self.root = Self::merge(Self::merge(lt, Some(new_node)), gt);
        self.len += 1;
        None
    }

    fn remove(&mut self, key: &u64) -> (r: Option<V>) {
        let ghost s = items(self.root);
        proof {
            lemma_entries_map_remove(s, *key);
            lemma_remove_sorted(s, *key);
        }
        let (root, removed) = Self::remove_search(self.root.take(), *key);
        self.root = root;
        if removed.is_some() {
            self.len -= 1;
        }
        removed
    }

    fn lower_bound(&mut self, key: &u64) -> (r: Option<(&u64, &V)>) {
        proof {
            lemma_entries_map_lower_bound(items(self.root), *key);
        }
        Self::lower_bound_in(&self.root, *key)
    }
}

} // verus!
