use vstd::prelude::*;

use crate::ordered_map::{
    OrderedMap, entries_map, has_key, insert_entry, keys_sorted, lemma_all_below, lemma_empty,
    lemma_entries_map, lemma_entries_map_empty, lemma_entries_map_insert,
    lemma_entries_map_lower_bound, lemma_entries_map_remove, lemma_insert_sorted, lemma_parts_here,
    lemma_parts_left, lemma_parts_right, lemma_parts_sorted, lemma_rank, lemma_rank_at,
    lemma_remove_sorted, lookup, lower_bound_entry, rank, remove_entry,
};

verus! {

/// An ordered map kept in a top-down splay tree.
pub struct SplayTreeMap<K, V> {
    root: Option<Box<Node<K, V>>>,
    len: usize,
}

struct Node<K, V> {
    key: K,
    value: V,
    left: Option<Box<Node<K, V>>>,
    right: Option<Box<Node<K, V>>>,
}

/// The entries under `link`, in order.
spec fn items<V>(link: Option<Box<Node<u64, V>>>) -> Seq<(u64, V)>
    decreases link,
{
    match link {
        None => Seq::empty(),
        Some(n) => items(n.left) + seq![(n.key, n.value)] + items(n.right),
    }
}

/// The entries of a node.
spec fn node_items<V>(n: Node<u64, V>) -> Seq<(u64, V)> {
    items(n.left) + seq![(n.key, n.value)] + items(n.right)
}

proof fn lemma_node_items<V>(n: Box<Node<u64, V>>)
    ensures
        items(Some(n)) == node_items(*n),
{
}

/// The entries of the nodes set aside on the left while splaying: each node with its left
/// subtree, in order.
spec fn left_part<V>(v: Seq<Box<Node<u64, V>>>) -> Seq<(u64, V)>
    decreases v.len(),
{
    if v.len() == 0 {
        Seq::empty()
    } else {
        left_part(v.drop_last()) + items(v.last().left) + seq![(v.last().key, v.last().value)]
    }
}

/// The entries of the nodes set aside on the right while splaying: each node with its right
/// subtree, the last one set aside first.
spec fn right_part<V>(v: Seq<Box<Node<u64, V>>>) -> Seq<(u64, V)>
    decreases v.len(),
{
    if v.len() == 0 {
        Seq::empty()
    } else {
        seq![(v.last().key, v.last().value)] + items(v.last().right) + right_part(v.drop_last())
    }
}

/// Every key of `s` is below `k`.
spec fn all_lt<V>(s: Seq<(u64, V)>, k: u64) -> bool {
    forall|i: int| 0 <= i < s.len() ==> s[i].0 < k
}

/// Every key of `s` is above `k`.
spec fn all_gt<V>(s: Seq<(u64, V)>, k: u64) -> bool {
    forall|i: int| 0 <= i < s.len() ==> s[i].0 > k
}

/// A piece of sorted entries is sorted.
proof fn lemma_sorted_mid<V>(a: Seq<(u64, V)>, b: Seq<(u64, V)>, c: Seq<(u64, V)>)
    requires
        keys_sorted(a + b + c),
    ensures
        keys_sorted(b),
{
    assert forall|i: int, j: int| 0 <= i < j < b.len() implies b[i].0 < b[j].0 by {
        assert((a + b + c)[a.len() + i] == b[i]);
        assert((a + b + c)[a.len() + j] == b[j]);
    }
}

/// No entry of `s` has key `k`.
proof fn lemma_no_key<V>(s: Seq<(u64, V)>, k: u64)
    requires
        forall|i: int| 0 <= i < s.len() ==> s[i].0 != k,
    ensures
        !has_key(s, k),
{
}

/// An entry of sorted entries with key `k` makes `k` a key of them.
proof fn lemma_key_at<V>(s: Seq<(u64, V)>, i: int)
    requires
        keys_sorted(s),
        0 <= i < s.len(),
    ensures
        has_key(s, s[i].0),
        lookup(s, s[i].0) == Some(s[i].1),
{
    let k = s[i].0;
    assert forall|j: int| 0 <= j < i implies s[j].0 < k by {}
    assert forall|j: int| i <= j < s.len() implies s[j].0 >= k by {
        if j > i {
            assert(s[i].0 < s[j].0);
        }
    }
    lemma_rank_at(s, k, i);
}

impl<V> Node<u64, V> {
    fn new(key: u64, value: V) -> (r: Self)
        ensures
            node_items(r) == seq![(key, value)],
            r.key == key,
            r.left is None,
            r.right is None,
    {
        let r = Self { key, value, left: None, right: None };
        assert(node_items(r) =~= seq![(key, value)]);
        r
    }
}

impl<V> SplayTreeMap<u64, V> {
    fn rotate_right(root: Box<Node<u64, V>>) -> (r: Box<Node<u64, V>>)
        ensures
            node_items(*r) == node_items(*root),
            root.left matches Some(l) ==> r.key == l.key,
    {
        let mut root = root;
        let ghost h0 = *root;
        let mut left = match root.left.take() {
            Some(node) => node,
            None => return root,
        };
        proof {
            lemma_node_items(left);
        }
        let ghost x0 = *left;
        root.left = left.right.take();
        proof {
            lemma_node_items(root);
        }
        let ghost mid = *root;
        left.right = Some(root);
        proof {
            assert(items(left.right) == node_items(mid));
            assert(node_items(h0) == (items(x0.left) + seq![(x0.key, x0.value)] + items(x0.right))
                + seq![(h0.key, h0.value)] + items(h0.right));
            assert(node_items(*left) =~= node_items(h0));
        }
        left
    }

    fn rotate_left(root: Box<Node<u64, V>>) -> (r: Box<Node<u64, V>>)
        ensures
            node_items(*r) == node_items(*root),
            root.right matches Some(x) ==> r.key == x.key,
    {
        let mut root = root;
        let ghost h0 = *root;
        let mut right = match root.right.take() {
            Some(node) => node,
            None => return root,
        };
        proof {
            lemma_node_items(right);
        }
        let ghost x0 = *right;
        root.right = right.left.take();
        proof {
            lemma_node_items(root);
        }
        let ghost mid = *root;
        right.left = Some(root);
        proof {
            assert(items(right.left) == node_items(mid));
            assert(node_items(h0) == items(h0.left) + seq![(h0.key, h0.value)] + (items(x0.left)
                + seq![(x0.key, x0.value)] + items(x0.right)));
            assert(node_items(*right) =~= node_items(h0));
        }
        right
    }

    /// Bring to the root the node of `key`, or else the last node met looking for it.
    fn splay(root: Option<Box<Node<u64, V>>>, key: u64) -> (r: Option<Box<Node<u64, V>>>)
        requires
            keys_sorted(items(root)),
        ensures
            items(r) == items(root),
            (r is Some) == (root is Some),
            r matches Some(n) ==> {
                &&& (n.key == key) == has_key(items(root), key)
                &&& key < n.key ==> all_lt(items(n.left), key)
                &&& key > n.key ==> all_gt(items(n.right), key)
            },
    {
        let ghost s = items(root);
        let mut root = match root {
            Some(root) => root,
            None => return None,
        };
        proof {
            lemma_node_items(root);
        }
        let mut lefts: Vec<Box<Node<u64, V>>> = Vec::new();
        let mut rights: Vec<Box<Node<u64, V>>> = Vec::new();
        loop
            invariant
                keys_sorted(s),
                s == left_part(lefts@) + node_items(*root) + right_part(rights@),
                all_lt(left_part(lefts@), key),
                all_gt(right_part(rights@), key),
            ensures
                s == left_part(lefts@) + node_items(*root) + right_part(rights@),
                all_lt(left_part(lefts@), key),
                all_gt(right_part(rights@), key),
                root.key == key || (key < root.key && root.left is None) || (key > root.key
                    && root.right is None),
            decreases node_items(*root).len(),
        {
            proof {
                lemma_sorted_mid(left_part(lefts@), node_items(*root), right_part(rights@));
            }
            if key < root.key {
                if root.left.is_none() {
                    break;
                }
                let rotate = match &root.left {
                    Some(l) => key < l.key,
                    None => false,
                };
                if rotate {
                    root = Self::rotate_right(root);
                    if root.left.is_none() {
                        break;
                    }
                }
                let ghost r0 = *root;
                proof {
                    lemma_parts_sorted(items(r0.left), (r0.key, r0.value), items(r0.right));
                }
                let next = root.left.take().unwrap();
                proof {
                    lemma_node_items(next);
                }
                let ghost before = rights@;
                rights.push(root);
                proof {
                    assert(rights@.drop_last() == before);
                    assert(right_part(rights@) == seq![(r0.key, r0.value)] + items(r0.right) + right_part(before));
                    assert(all_gt(right_part(rights@), key)) by {
                        let rp = right_part(rights@);
                        assert forall|i: int| 0 <= i < rp.len() implies rp[i].0 > key by {
                            let m = 1 + items(r0.right).len();
                            if i == 0 {
                            } else if i < m {
                                assert(rp[i] == items(r0.right)[i - 1]);
                            } else {
                                assert(rp[i] == right_part(before)[i - m]);
                            }
                        }
                    }
                }
                root = next;
                proof {
                    assert(s =~= left_part(lefts@) + node_items(*root) + right_part(rights@));
                }
            } else if key > root.key {
                if root.right.is_none() {
                    break;
                }
                let rotate = match &root.right {
                    Some(x) => key > x.key,
                    None => false,
                };
                if rotate {
                    root = Self::rotate_left(root);
                    if root.right.is_none() {
                        break;
                    }
                }
                let ghost r0 = *root;
                proof {
                    lemma_parts_sorted(items(r0.left), (r0.key, r0.value), items(r0.right));
                }
                let next = root.right.take().unwrap();
                proof {
                    lemma_node_items(next);
                }
                let ghost before = lefts@;
                lefts.push(root);
                proof {
                    assert(lefts@.drop_last() == before);
                    assert(left_part(lefts@) == left_part(before) + items(r0.left) + seq![(r0.key, r0.value)]);
                    assert(all_lt(left_part(lefts@), key)) by {
                        let lp = left_part(lefts@);
                        let m = left_part(before).len();
                        assert forall|i: int| 0 <= i < lp.len() implies lp[i].0 < key by {
                            if i < m {
                                assert(lp[i] == left_part(before)[i]);
                            } else if i < m + items(r0.left).len() {
                                assert(lp[i] == items(r0.left)[i - m]);
                            }
                        }
                    }
                }
                root = next;
                proof {
                    assert(s =~= left_part(lefts@) + node_items(*root) + right_part(rights@));
                }
            } else {
                break;
            }
        }
        // put the nodes set aside back together, around the subtrees of the root
        let ghost lp = left_part(lefts@);
        let ghost rp = right_part(rights@);
        let ghost root_left = items(root.left);
        let ghost root_right = items(root.right);
        let mut left_acc = root.left.take();
        while lefts.len() > 0
            invariant
                left_part(lefts@) + items(left_acc) == lp + root_left,
            decreases lefts.len(),
        {
            let ghost before = lefts@;
            let mut n = lefts.pop().unwrap();
            proof {
                assert(before.drop_last() == lefts@);
            }
            n.right = left_acc;
            proof {
                lemma_node_items(n);
            }
            left_acc = Some(n);
            proof {
                assert(left_part(lefts@) + items(left_acc) =~= left_part(before) + items(n.right));
            }
        }
        let mut right_acc = root.right.take();
        while rights.len() > 0
            invariant
                items(right_acc) + right_part(rights@) == root_right + rp,
            decreases rights.len(),
        {
            let ghost before = rights@;
            let mut n = rights.pop().unwrap();
            proof {
                assert(before.drop_last() == rights@);
            }
            n.left = right_acc;
            proof {
                lemma_node_items(n);
            }
            right_acc = Some(n);
            proof {
                assert(items(right_acc) + right_part(rights@) =~= items(n.left) + right_part(before));
            }
        }
        proof {
            assert(left_part(Seq::<Box<Node<u64, V>>>::empty()) == Seq::<(u64, V)>::empty());
            assert(right_part(Seq::<Box<Node<u64, V>>>::empty()) == Seq::<(u64, V)>::empty());
            assert(items(left_acc) =~= lp + root_left);
            assert(items(right_acc) =~= root_right + rp);
        }
        root.left = left_acc;
        root.right = right_acc;
        proof {
            lemma_node_items(root);
            assert(s =~= node_items(*root));
            let i = items(root.left).len() as int;
            assert(s[i] == (root.key, root.value));
            if root.key == key {
                lemma_key_at(s, i);
            } else {
                assert forall|j: int| 0 <= j < s.len() implies s[j].0 != key by {
                    if key < root.key {
                        if j < lp.len() {
                            assert(s[j] == lp[j]);
                        } else if j > lp.len() {
                            lemma_parts_sorted(items(root.left), (root.key, root.value), items(root.right));
                            assert(s[j].0 > root.key) by {
                                assert(s[lp.len() as int] == (root.key, root.value));
                            }
                        }
                    } else {
                        if j < s.len() - rp.len() - 1 {
                            lemma_parts_sorted(items(root.left), (root.key, root.value), items(root.right));
                            assert(s[j].0 < root.key) by {
                                assert(s[i] == (root.key, root.value));
                            }
                        } else if j > s.len() - rp.len() - 1 {
                            assert(s[j] == rp[j - (s.len() - rp.len())]);
                        }
                    }
                }
                lemma_no_key(s, key);
            }
        }
        Some(root)
    }

    /// The entry with the smallest key at least `key` under `link`.
    fn lower_bound_in(link: &Option<Box<Node<u64, V>>>, key: u64) -> (r: Option<(&u64, &V)>)
        requires
            keys_sorted(items(*link)),
        ensures
            (r is Some) == (lower_bound_entry(items(*link), key) is Some),
            r matches Some((k, v)) ==> lower_bound_entry(items(*link), key) == Some((*k, *v)),
        decreases *link,
    {
        match link {
            None => {
                proof {
                    lemma_empty::<V>(key, arbitrary());
                }
                None
            },
            Some(node) => {
                let ghost l = items(node.left);
                let ghost x = (node.key, node.value);
                let ghost r = items(node.right);
                proof {
                    lemma_node_items(*node);
                    lemma_parts_sorted(l, x, r);
                }
                if key <= node.key {
                    proof {
                        if key < node.key {
                            lemma_parts_left(l, x, r, key, node.value);
                        } else {
                            lemma_parts_here(l, x, r, node.value);
                            lemma_all_below(l, key);
                        }
                    }
                    match Self::lower_bound_in(&node.left, key) {
                        Some(found) => Some(found),
                        None => Some((&node.key, &node.value)),
                    }
                } else {
                    proof {
                        lemma_parts_right(l, x, r, key, node.value);
                    }
                    Self::lower_bound_in(&node.right, key)
                }
            },
        }
    }
}

impl<V> OrderedMap for SplayTreeMap<u64, V> {
    type Value = V;

    closed spec fn wf(&self) -> bool {
        &&& keys_sorted(items(self.root))
        &&& self.len == items(self.root).len()
    }

    closed spec fn contents(&self) -> Map<u64, V> {
        entries_map(items(self.root))
    }

    fn new() -> (r: Self) {
        proof {
            lemma_entries_map_empty::<V>();
        }
        Self { root: None, len: 0 }
    }

    fn len(&self) -> (r: usize) {
        proof {
            lemma_entries_map(items(self.root));
        }
        self.len
    }

    fn get(&mut self, key: &u64) -> (r: Option<&V>) {
        let ghost s = items(self.root);
        proof {
            lemma_entries_map(s);
        }
        let root = self.root.take();
        self.root = Self::splay(root, *key);
        match &self.root {
            Some(node) => {
                if *key == node.key {
                    proof {
                        lemma_node_items(*node);
                        lemma_parts_sorted(items(node.left), (node.key, node.value), items(node.right));
                        lemma_parts_here(items(node.left), (node.key, node.value), items(node.right), node.value);
                    }
                    Some(&node.value)
                } else {
                    None
                }
            },
            None => {
                proof {
                    lemma_empty::<V>(*key, arbitrary());
                }
                None
            },
        }
    }

    fn insert(&mut self, key: u64, value: V) -> (r: Option<V>) {
        let ghost s = items(self.root);
        proof {
            lemma_entries_map(s);
            lemma_entries_map_insert(s, key, value);
            lemma_insert_sorted(s, key, value);
        }
        let root = match self.root.take() {
            Some(root) => root,
            None => {
                proof {
                    lemma_empty(key, value);
                }
                let n = Box::new(Node::<u64, V>::new(key, value));
                proof {
                    lemma_node_items(n);
                }
                self.root = Some(n);
                self.len = 1;
                return None;
            },
        };
        let mut root = Self::splay(Some(root), key).unwrap();
        let ghost r0 = *root;
        let ghost l = items(r0.left);
        let ghost x = (r0.key, r0.value);
        let ghost rr = items(r0.right);
        proof {
            lemma_node_items(root);
            lemma_parts_sorted(l, x, rr);
        }
        if key == root.key {
            proof {
                lemma_parts_here(l, x, rr, value);
            }
            let mut old = value;
            std::mem::swap(&mut root.value, &mut old);
            proof {
                lemma_node_items(root);
            }
            self.root = Some(root);
            Some(old)
        } else if key < root.key {
            proof {
                lemma_rank(s, key);
                assert forall|j: int| 0 <= j < l.len() implies s[j].0 < key by {
                    assert(s[j] == l[j]);
                }
                assert forall|j: int| l.len() <= j < s.len() implies s[j].0 >= key by {
                    if j > l.len() {
                        assert(s[j] == rr[j - l.len() - 1]);
                    }
                }
                lemma_rank_at(s, key, l.len() as int);
            }
            let mut new_root = Box::new(Node::<u64, V>::new(key, value));
            new_root.left = root.left.take();
            proof {
                lemma_node_items(root);
            }
            new_root.right = Some(root);
            proof {
                lemma_node_items(new_root);
                assert(node_items(*new_root) =~= insert_entry(s, key, value));
            }
            self.root = Some(new_root);
            self.len += 1;
            None
        } else {
            proof {
                lemma_rank(s, key);
                assert forall|j: int| 0 <= j <= l.len() implies s[j].0 < key by {
                    if j < l.len() {
                        assert(s[j] == l[j]);
                    }
                }
                assert forall|j: int| l.len() + 1 <= j < s.len() implies s[j].0 >= key by {
                    assert(s[j] == rr[j - l.len() - 1]);
                }
                lemma_rank_at(s, key, l.len() + 1int);
            }
            let mut new_root = Box::new(Node::<u64, V>::new(key, value));
            new_root.right = root.right.take();
            proof {
                lemma_node_items(root);
            }
            new_root.left = Some(root);
            proof {
                lemma_node_items(new_root);
                assert(node_items(*new_root) =~= insert_entry(s, key, value));
            }
            self.root = Some(new_root);
            self.len += 1;
            None
        }
    }

    fn remove(&mut self, key: &u64) -> (r: Option<V>) {
        let ghost s = items(self.root);
        proof {
            lemma_entries_map_remove(s, *key);
            lemma_remove_sorted(s, *key);
        }
        let root = self.root.take();
        let mut root = match Self::splay(root, *key) {
            Some(root) => root,
            None => {
                proof {
                    lemma_empty::<V>(*key, arbitrary());
                }
                return None;
            },
        };
        let ghost r0 = *root;
        let ghost l = items(r0.left);
        let ghost x = (r0.key, r0.value);
        let ghost rr = items(r0.right);
        proof {
            lemma_node_items(root);
            lemma_parts_sorted(l, x, rr);
        }
        if *key != root.key {
            proof {
                lemma_node_items(root);
            }
            self.root = Some(root);
            return None;
        }
        proof {
            lemma_parts_here(l, x, rr, r0.value);
        }
        let left = root.left.take();
        let right = root.right.take();
        let n = *root;
        let removed_value = n.value;
        if left.is_none() {
            proof {
                assert(remove_entry(s, *key) =~= items(right));
            }
            self.root = right;
        } else {
            let mut new_root = Self::splay(left, *key).expect("left non-empty");
            proof {
                lemma_node_items(new_root);
                let i = items(new_root.left).len() as int;
                assert(node_items(*new_root)[i] == (new_root.key, new_root.value));
                assert(new_root.key < *key);
                let nr = items(new_root.right);
                if nr.len() > 0 {
                    assert(nr[0] == node_items(*new_root)[i + 1]);
                }
            }
            new_root.right = right;
            proof {
                lemma_node_items(new_root);
                assert(node_items(*new_root) =~= remove_entry(s, *key));
            }
            self.root = Some(new_root);
        }
        self.len -= 1;
        Some(removed_value)
    }

    fn lower_bound(&mut self, key: &u64) -> (r: Option<(&u64, &V)>) {
        proof {
            lemma_entries_map_lower_bound(items(self.root), *key);
        }
        Self::lower_bound_in(&self.root, *key)
    }
}

} // verus!
