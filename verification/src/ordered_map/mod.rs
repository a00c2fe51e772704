//! Ordered maps from `u64` keys, each seen as the sequence of its entries in increasing key
//! order.

use vstd::prelude::*;
use vstd::seq_lib::seq_to_set_is_finite;

pub mod aa;
pub mod btree;
pub mod fusion;
pub mod llrb;
pub mod rb;
pub mod scapegoat;
pub mod skip_list;
pub mod sorted_vec;
pub mod splay;
pub mod std_btree;
pub mod treap;
pub mod veb;
pub mod wbt;

pub use aa::AaTreeMap;
pub use btree::BTreeMapCustom;
pub use fusion::FusionTreeMap;
pub use llrb::LlrbTreeMap;
pub use rb::RbTreeMap;
pub use scapegoat::ScapegoatTreeMap;
pub use skip_list::SkipListMap;
pub use sorted_vec::SortedVecMap;
pub use splay::SplayTreeMap;
pub use std_btree::StdBTreeMap;
pub use treap::TreapMap;
pub use veb::VebMap;
pub use wbt::WbtTreeMap;

verus! {

/// Keys strictly increase along the entries, so that no key occurs twice.
pub open spec fn keys_sorted<V>(s: Seq<(u64, V)>) -> bool {
    forall|i: int, j: int| 0 <= i < j < s.len() ==> s[i].0 < s[j].0
}

/// The number of leading entries whose key is below `k`: where `k` stands, or would stand.
pub open spec fn rank<V>(s: Seq<(u64, V)>, k: u64) -> nat
    decreases s.len(),
{
    if s.len() == 0 {
        0
    } else if s[0].0 < k {
        1 + rank(s.drop_first(), k)
    } else {
        0
    }
}

/// Some entry has key `k`.
pub open spec fn has_key<V>(s: Seq<(u64, V)>, k: u64) -> bool {
    rank(s, k) < s.len() && s[rank(s, k) as int].0 == k
}

/// The value of key `k`.
pub open spec fn lookup<V>(s: Seq<(u64, V)>, k: u64) -> Option<V> {
    if has_key(s, k) {
        Some(s[rank(s, k) as int].1)
    } else {
        None
    }
}

/// The entries with `(k, v)` put in: in place of the entry of `k`, or where `k` belongs.
pub open spec fn insert_entry<V>(s: Seq<(u64, V)>, k: u64, v: V) -> Seq<(u64, V)> {
    if has_key(s, k) {
        s.update(rank(s, k) as int, (k, v))
    } else {
        s.insert(rank(s, k) as int, (k, v))
    }
}

/// The entries without the entry of `k`.
pub open spec fn remove_entry<V>(s: Seq<(u64, V)>, k: u64) -> Seq<(u64, V)> {
    if has_key(s, k) {
        s.remove(rank(s, k) as int)
    } else {
        s
    }
}

/// The entry with the smallest key at least `k`.
pub open spec fn lower_bound_entry<V>(s: Seq<(u64, V)>, k: u64) -> Option<(u64, V)> {
    if rank(s, k) < s.len() {
        Some(s[rank(s, k) as int])
    } else {
        None
    }
}

/// The value of `k` in `m`, if it has one.
pub open spec fn map_value<V>(m: Map<u64, V>, k: u64) -> Option<V> {
    if m.contains_key(k) {
        Some(m[k])
    } else {
        None
    }
}

/// `k` is the smallest key of `m` that is at least `key`.
pub open spec fn is_lower_bound<V>(m: Map<u64, V>, key: u64, k: u64) -> bool {
    &&& m.contains_key(k)
    &&& key <= k
    &&& forall|j: u64| m.contains_key(j) && key <= j ==> k <= j
}

/// An ordered map: keys are unique, `insert` overwrites the value of a key and gives the old
/// one, and `lower_bound` gives the entry with the smallest key at least the one asked.
pub trait OrderedMap: Sized {
    type Value;

    /// The internal structure is consistent.
    spec fn wf(&self) -> bool;

    /// The entries, as a map from keys to values.
    spec fn contents(&self) -> Map<u64, Self::Value>;

    fn new() -> (r: Self)
        ensures
            r.wf(),
            r.contents() == Map::<u64, Self::Value>::empty(),
    ;

    fn len(&self) -> (r: usize)
        requires
            self.wf(),
        ensures
            self.contents().dom().finite(),
            r == self.contents().len(),
    ;

    fn is_empty(&self) -> (r: bool)
        requires
            self.wf(),
        ensures
            r == (self.contents().len() == 0),
    {
        self.len() == 0
    }

    fn get(&mut self, key: &u64) -> (r: Option<&Self::Value>)
        requires
            old(self).wf(),
        ensures
            final(self).wf(),
            final(self).contents() == old(self).contents(),
            (r is Some) == old(self).contents().contains_key(*key),
            r matches Some(v) ==> *v == old(self).contents()[*key],
    ;

    /// Put `(key, value)` in, and give the value that `key` had.
    fn insert(&mut self, key: u64, value: Self::Value) -> (r: Option<Self::Value>)
        requires
            old(self).wf(),
            old(self).contents().len() < usize::MAX,
        ensures
            final(self).wf(),
            final(self).contents() == old(self).contents().insert(key, value),
            r == map_value(old(self).contents(), key),
    ;

    /// Take the entry of `key` out, and give its value.
    fn remove(&mut self, key: &u64) -> (r: Option<Self::Value>)
        requires
            old(self).wf(),
        ensures
            final(self).wf(),
            final(self).contents() == old(self).contents().remove(*key),
            r == map_value(old(self).contents(), *key),
    ;

    /// The entry with the smallest key at least `key`.
    fn lower_bound(&mut self, key: &u64) -> (r: Option<(&u64, &Self::Value)>)
        requires
            old(self).wf(),
        ensures
            final(self).wf(),
            final(self).contents() == old(self).contents(),
            r matches Some((k, v)) ==> is_lower_bound(old(self).contents(), *key, *k) && *v
                == old(self).contents()[*k],
            r is None <==> forall|j: u64| old(self).contents().contains_key(j) ==> j < *key,
    ;
}

/// The map of sorted entries.
pub open spec fn entries_map<V>(s: Seq<(u64, V)>) -> Map<u64, V> {
    Map::new(|k: u64| has_key(s, k), |k: u64| s[rank(s, k) as int].1)
}

/// The keys of the entries, in order.
pub open spec fn entry_keys<V>(s: Seq<(u64, V)>) -> Seq<u64> {
    s.map_values(|e: (u64, V)| e.0)
}

/// In sorted entries, the rank of `k` splits the keys below `k` from the others.
pub proof fn lemma_rank<V>(s: Seq<(u64, V)>, k: u64)
    requires
        keys_sorted(s),
    ensures
        rank(s, k) <= s.len(),
        forall|j: int| 0 <= j < rank(s, k) ==> s[j].0 < k,
        forall|j: int| rank(s, k) <= j < s.len() ==> s[j].0 >= k,
    decreases s.len(),
{
    if s.len() > 0 && s[0].0 < k {
        let t = s.drop_first();
        assert(keys_sorted(t)) by {
            assert forall|i: int, j: int| 0 <= i < j < t.len() implies t[i].0 < t[j].0 by {
                assert(t[i] == s[i + 1] && t[j] == s[j + 1]);
            }
        }
        lemma_rank(t, k);
        assert forall|j: int| 0 <= j < rank(s, k) implies s[j].0 < k by {
            if j > 0 {
                assert(s[j] == t[j - 1]);
            }
        }
        assert forall|j: int| rank(s, k) <= j < s.len() implies s[j].0 >= k by {
            assert(s[j] == t[j - 1]);
        }
    } else if s.len() > 0 {
        assert forall|j: int| 0 <= j < s.len() implies s[j].0 >= k by {
            if j > 0 {
                assert(s[0].0 < s[j].0);
            }
        }
    }
}

/// In sorted entries, the one position that splits the keys below `k` from the others is the
/// rank of `k`.
pub proof fn lemma_rank_at<V>(s: Seq<(u64, V)>, k: u64, i: int)
    requires
        keys_sorted(s),
        0 <= i <= s.len(),
        forall|j: int| 0 <= j < i ==> s[j].0 < k,
        forall|j: int| i <= j < s.len() ==> s[j].0 >= k,
    ensures
        rank(s, k) == i,
{
    lemma_rank(s, k);
    if rank(s, k) < i {
        assert(s[rank(s, k) as int].0 < k);
    } else if rank(s, k) > i {
        assert(s[i].0 < k);
    }
}

/// `l`, then `x`, then `r` are sorted: each part is sorted and `x` separates them.
pub open spec fn parts_sorted<V>(l: Seq<(u64, V)>, x: (u64, V), r: Seq<(u64, V)>) -> bool {
    &&& keys_sorted(l)
    &&& keys_sorted(r)
    &&& forall|i: int| 0 <= i < l.len() ==> l[i].0 < x.0
    &&& forall|i: int| 0 <= i < r.len() ==> x.0 < r[i].0
}

/// Entries are sorted exactly when their parts around any entry are.
pub proof fn lemma_parts_sorted<V>(l: Seq<(u64, V)>, x: (u64, V), r: Seq<(u64, V)>)
    ensures
        keys_sorted(l + seq![x] + r) <==> parts_sorted(l, x, r),
{
    let s = l + seq![x] + r;
    let n = l.len() as int;
    if keys_sorted(s) {
        assert forall|i: int, j: int| 0 <= i < j < l.len() implies l[i].0 < l[j].0 by {
            assert(s[i] == l[i] && s[j] == l[j]);
        }
        assert forall|i: int, j: int| 0 <= i < j < r.len() implies r[i].0 < r[j].0 by {
            assert(s[n + 1 + i] == r[i] && s[n + 1 + j] == r[j]);
        }
        assert forall|i: int| 0 <= i < l.len() implies l[i].0 < x.0 by {
            assert(s[i] == l[i] && s[n] == x);
        }
        assert forall|i: int| 0 <= i < r.len() implies x.0 < r[i].0 by {
            assert(s[n + 1 + i] == r[i] && s[n] == x);
        }
    }
    if parts_sorted(l, x, r) {
        assert forall|i: int, j: int| 0 <= i < j < s.len() implies s[i].0 < s[j].0 by {
            if j < n {
                assert(s[i] == l[i] && s[j] == l[j]);
            } else if j == n {
                assert(s[i] == l[i]);
            } else if i > n {
                assert(s[i] == r[i - n - 1] && s[j] == r[j - n - 1]);
            } else if i == n {
                assert(s[j] == r[j - n - 1]);
            } else {
                assert(s[i] == l[i] && s[j] == r[j - n - 1]);
            }
        }
    }
}

/// Around an entry with key above `k`, everything about `k` happens on the left.
pub proof fn lemma_parts_left<V>(l: Seq<(u64, V)>, x: (u64, V), r: Seq<(u64, V)>, k: u64, v: V)
    requires
        parts_sorted(l, x, r),
        k < x.0,
    ensures
        rank(l + seq![x] + r, k) == rank(l, k),
        has_key(l + seq![x] + r, k) == has_key(l, k),
        lookup(l + seq![x] + r, k) == lookup(l, k),
        insert_entry(l + seq![x] + r, k, v) == insert_entry(l, k, v) + seq![x] + r,
        remove_entry(l + seq![x] + r, k) == remove_entry(l, k) + seq![x] + r,
        lower_bound_entry(l + seq![x] + r, k) == (if lower_bound_entry(l, k) is Some {
            lower_bound_entry(l, k)
        } else {
            Some(x)
        }),
{
    let s = l + seq![x] + r;
    let n = l.len() as int;
    lemma_parts_sorted(l, x, r);
    lemma_rank(l, k);
    let i = rank(l, k) as int;
    assert forall|j: int| 0 <= j < i implies s[j].0 < k by {
        assert(s[j] == l[j]);
    }
    assert forall|j: int| i <= j < s.len() implies s[j].0 >= k by {
        if j < n {
            assert(s[j] == l[j]);
        } else if j == n {
            assert(s[j] == x);
        } else {
            assert(s[j] == r[j - n - 1]);
        }
    }
    lemma_rank_at(s, k, i);
    if i < n {
        assert(s[i] == l[i]);
    } else {
        assert(s[i] == x);
    }
    assert(insert_entry(s, k, v) =~= insert_entry(l, k, v) + seq![x] + r);
    assert(remove_entry(s, k) =~= remove_entry(l, k) + seq![x] + r);
}

/// Around an entry with key below `k`, everything about `k` happens on the right.
pub proof fn lemma_parts_right<V>(l: Seq<(u64, V)>, x: (u64, V), r: Seq<(u64, V)>, k: u64, v: V)
    requires
        parts_sorted(l, x, r),
        x.0 < k,
    ensures
        rank(l + seq![x] + r, k) == l.len() + 1 + rank(r, k),
        has_key(l + seq![x] + r, k) == has_key(r, k),
        lookup(l + seq![x] + r, k) == lookup(r, k),
        insert_entry(l + seq![x] + r, k, v) == l + seq![x] + insert_entry(r, k, v),
        remove_entry(l + seq![x] + r, k) == l + seq![x] + remove_entry(r, k),
        lower_bound_entry(l + seq![x] + r, k) == lower_bound_entry(r, k),
{
    let s = l + seq![x] + r;
    let n = l.len() as int;
    lemma_parts_sorted(l, x, r);
    lemma_rank(r, k);
    let i = n + 1 + rank(r, k);
    assert forall|j: int| 0 <= j < i implies s[j].0 < k by {
        if j < n {
            assert(s[j] == l[j]);
        } else if j == n {
            assert(s[j] == x);
        } else {
            assert(s[j] == r[j - n - 1]);
        }
    }
    assert forall|j: int| i <= j < s.len() implies s[j].0 >= k by {
        assert(s[j] == r[j - n - 1]);
    }
    lemma_rank_at(s, k, i);
    let p = rank(r, k) as int;
    if i < s.len() {
        assert(s[i] == r[p]);
    }
    assert(has_key(s, k) == has_key(r, k));
    if has_key(r, k) {
        assert(insert_entry(s, k, v) =~= l + seq![x] + insert_entry(r, k, v)) by {
            assert(insert_entry(s, k, v) == s.update(i, (k, v)));
            assert(insert_entry(r, k, v) == r.update(p, (k, v)));
        }
        assert(remove_entry(s, k) =~= l + seq![x] + remove_entry(r, k)) by {
            assert(remove_entry(s, k) == s.remove(i));
            assert(remove_entry(r, k) == r.remove(p));
        }
    } else {
        assert(insert_entry(s, k, v) =~= l + seq![x] + insert_entry(r, k, v)) by {
            assert(insert_entry(s, k, v) == s.insert(i, (k, v)));
            assert(insert_entry(r, k, v) == r.insert(p, (k, v)));
        }
        assert(remove_entry(s, k) =~= l + seq![x] + remove_entry(r, k));
    }
}

/// At an entry with key `k`, that entry is the one found, replaced or taken out.
pub proof fn lemma_parts_here<V>(l: Seq<(u64, V)>, x: (u64, V), r: Seq<(u64, V)>, v: V)
    requires
        parts_sorted(l, x, r),
    ensures
        rank(l + seq![x] + r, x.0) == l.len(),
        has_key(l + seq![x] + r, x.0),
        lookup(l + seq![x] + r, x.0) == Some(x.1),
        insert_entry(l + seq![x] + r, x.0, v) == l + seq![(x.0, v)] + r,
        remove_entry(l + seq![x] + r, x.0) == l + r,
        lower_bound_entry(l + seq![x] + r, x.0) == Some(x),
{
    let s = l + seq![x] + r;
    let n = l.len() as int;
    let k = x.0;
    lemma_parts_sorted(l, x, r);
    assert forall|j: int| 0 <= j < n implies s[j].0 < k by {
        assert(s[j] == l[j]);
    }
    assert forall|j: int| n <= j < s.len() implies s[j].0 >= k by {
        if j == n {
            assert(s[j] == x);
        } else {
            assert(s[j] == r[j - n - 1]);
        }
    }
    lemma_rank_at(s, k, n);
    assert(s[n] == x);
    assert(insert_entry(s, k, v) =~= l + seq![(k, v)] + r);
    assert(remove_entry(s, k) =~= l + r);
}

/// When every key is below `k`, `k` stands after all entries and nothing is at least `k`.
pub proof fn lemma_all_below<V>(s: Seq<(u64, V)>, k: u64)
    requires
        keys_sorted(s),
        forall|i: int| 0 <= i < s.len() ==> s[i].0 < k,
    ensures
        rank(s, k) == s.len(),
        !has_key(s, k),
        lower_bound_entry(s, k) is None,
{
    lemma_rank_at(s, k, s.len() as int);
}

/// Nothing is found in no entries.
pub proof fn lemma_empty<V>(k: u64, v: V)
    ensures
        rank(Seq::<(u64, V)>::empty(), k) == 0,
        !has_key(Seq::<(u64, V)>::empty(), k),
        lookup(Seq::<(u64, V)>::empty(), k) is None,
        insert_entry(Seq::<(u64, V)>::empty(), k, v) == seq![(k, v)],
        remove_entry(Seq::<(u64, V)>::empty(), k) == Seq::<(u64, V)>::empty(),
        lower_bound_entry(Seq::<(u64, V)>::empty(), k) is None,
{
    assert(insert_entry(Seq::<(u64, V)>::empty(), k, v) =~= seq![(k, v)]);
}

/// Putting an entry in keeps the entries sorted, and adds one entry when the key is new.
pub proof fn lemma_insert_sorted<V>(s: Seq<(u64, V)>, k: u64, v: V)
    requires
        keys_sorted(s),
    ensures
        keys_sorted(insert_entry(s, k, v)),
        insert_entry(s, k, v).len() == s.len() + if has_key(s, k) { 0int } else { 1int },
{
    lemma_rank(s, k);
    let i = rank(s, k) as int;
    let t = insert_entry(s, k, v);
    if has_key(s, k) {
        assert forall|a: int, b: int| 0 <= a < b < t.len() implies t[a].0 < t[b].0 by {
            if a == i {
                assert(s[a].0 == k);
            } else if b == i {
                assert(s[b].0 == k);
            }
        }
    } else {
        assert forall|a: int, b: int| 0 <= a < b < t.len() implies t[a].0 < t[b].0 by {
            if b < i {
                assert(t[a] == s[a] && t[b] == s[b]);
            } else if b == i {
                assert(t[a] == s[a]);
            } else if a < i {
                assert(t[a] == s[a] && t[b] == s[b - 1]);
            } else if a == i {
                assert(t[b] == s[b - 1]);
                if b - 1 == i {
                    assert(s[i].0 != k);
                }
            } else {
                assert(t[a] == s[a - 1] && t[b] == s[b - 1]);
            }
        }
    }
}

/// Taking an entry out keeps the entries sorted, and removes one entry when the key is there.
pub proof fn lemma_remove_sorted<V>(s: Seq<(u64, V)>, k: u64)
    requires
        keys_sorted(s),
    ensures
        keys_sorted(remove_entry(s, k)),
        remove_entry(s, k).len() == s.len() - if has_key(s, k) { 1int } else { 0int },
{
    let i = rank(s, k) as int;
    let t = remove_entry(s, k);
    if has_key(s, k) {
        assert forall|a: int, b: int| 0 <= a < b < t.len() implies t[a].0 < t[b].0 by {
            if b < i {
                assert(t[a] == s[a] && t[b] == s[b]);
            } else if a < i {
                assert(t[a] == s[a] && t[b] == s[b + 1]);
            } else {
                assert(t[a] == s[a + 1] && t[b] == s[b + 1]);
            }
        }
    }
}

/// Law: after putting `(k, v)` in, `k` has value `v`, and every other key keeps its value.
pub proof fn law_lookup_after_insert<V>(s: Seq<(u64, V)>, k: u64, v: V, j: u64)
    requires
        keys_sorted(s),
    ensures
        lookup(insert_entry(s, k, v), k) == Some(v),
        j != k ==> lookup(insert_entry(s, k, v), j) == lookup(s, j),
{
    lemma_rank(s, k);
    lemma_insert_sorted(s, k, v);
    let t = insert_entry(s, k, v);
    let i = rank(s, k) as int;
    // `k` stands at the rank of `k`
    assert forall|a: int| 0 <= a < i implies t[a].0 < k by {
        assert(t[a] == s[a]);
    }
    assert forall|a: int| i <= a < t.len() implies t[a].0 >= k by {
        if a > i {
            if has_key(s, k) {
                assert(t[a] == s[a]);
            } else {
                assert(t[a] == s[a - 1]);
            }
        }
    }
    lemma_rank_at(t, k, i);
    if j != k {
        lemma_rank(s, j);
        let p = rank(s, j) as int;
        if j < k {
            // `j` stands below `k`, where it stood
            assert(p <= i) by {
                if p > i {
                    assert(s[i].0 < j);
                }
            }
            assert forall|a: int| 0 <= a < p implies t[a].0 < j by {
                assert(t[a] == s[a]);
            }
            assert forall|a: int| p <= a < t.len() implies t[a].0 >= j by {
                if a < i {
                    assert(t[a] == s[a]);
                } else if a > i {
                    if has_key(s, k) {
                        assert(t[a] == s[a]);
                    } else {
                        assert(t[a] == s[a - 1]);
                    }
                }
            }
            lemma_rank_at(t, j, p);
            if p < i {
                assert(t[p] == s[p]);
            } else if p < s.len() {
                assert(s[p].0 >= k);
            }
        } else {
            // `j` stands above `k`, one place further if `k` is new
            assert(p >= i) by {
                if p < i {
                    assert(s[p].0 >= j);
                }
            }
            let q = if has_key(s, k) { p } else { p + 1 };
            if has_key(s, k) && p == i {
                assert(s[i].0 == k);
                assert(false);
            }
            assert forall|a: int| 0 <= a < q implies t[a].0 < j by {
                if a < i {
                    assert(t[a] == s[a]);
                } else if a > i {
                    if has_key(s, k) {
                        assert(t[a] == s[a]);
                    } else {
                        assert(t[a] == s[a - 1]);
                    }
                }
            }
            assert forall|a: int| q <= a < t.len() implies t[a].0 >= j by {
                if has_key(s, k) {
                    assert(t[a] == s[a]);
                } else {
                    assert(t[a] == s[a - 1]);
                }
            }
            lemma_rank_at(t, j, q);
            if q < t.len() {
                if has_key(s, k) {
                    assert(t[q] == s[p]);
                } else {
                    assert(t[q] == s[p]);
                }
            }
        }
    }
}

/// Law: after taking `k` out, `k` has no value, and every other key keeps its value.
pub proof fn law_lookup_after_remove<V>(s: Seq<(u64, V)>, k: u64, j: u64)
    requires
        keys_sorted(s),
    ensures
        lookup(remove_entry(s, k), k) is None,
        j != k ==> lookup(remove_entry(s, k), j) == lookup(s, j),
{
    lemma_rank(s, k);
    lemma_remove_sorted(s, k);
    let t = remove_entry(s, k);
    let i = rank(s, k) as int;
    if has_key(s, k) {
        assert forall|a: int| 0 <= a < i implies t[a].0 < k by {
            assert(t[a] == s[a]);
        }
        assert forall|a: int| i <= a < t.len() implies t[a].0 >= k by {
            assert(t[a] == s[a + 1]);
        }
        lemma_rank_at(t, k, i);
        if i < t.len() {
            assert(t[i] == s[i + 1]);
        }
        if j != k {
            lemma_rank(s, j);
            let p = rank(s, j) as int;
            if j < k {
                assert(p <= i) by {
                    if p > i {
                        assert(s[i].0 < j);
                    }
                }
                assert forall|a: int| 0 <= a < p implies t[a].0 < j by {
                    assert(t[a] == s[a]);
                }
                assert forall|a: int| p <= a < t.len() implies t[a].0 >= j by {
                    if a < i {
                        assert(t[a] == s[a]);
                    } else {
                        assert(t[a] == s[a + 1]);
                    }
                }
                lemma_rank_at(t, j, p);
                if p < i {
                    assert(t[p] == s[p]);
                } else if p < t.len() {
                    assert(t[p] == s[p + 1]);
                }
            } else {
                assert(p > i) by {
                    if p <= i {
                        assert(s[p].0 >= j);
                        if p < i {
                            assert(s[p].0 < s[i].0);
                        }
                    }
                }
                assert forall|a: int| 0 <= a < p - 1 implies t[a].0 < j by {
                    if a < i {
                        assert(t[a] == s[a]);
                    } else {
                        assert(t[a] == s[a + 1]);
                    }
                }
                assert forall|a: int| p - 1 <= a < t.len() implies t[a].0 >= j by {
                    assert(t[a] == s[a + 1]);
                }
                lemma_rank_at(t, j, p - 1);
                if p - 1 < t.len() {
                    assert(t[p - 1] == s[p]);
                }
            }
        }
    }
}

/// Law: the lower bound of `k` is an entry, its key is at least `k`, and no entry has a key
/// at least `k` and below it; there is none exactly when every key is below `k`.
pub proof fn law_lower_bound<V>(s: Seq<(u64, V)>, k: u64)
    requires
        keys_sorted(s),
    ensures
        lower_bound_entry(s, k) matches Some(e) ==> {
            &&& s.contains(e)
            &&& e.0 >= k
            &&& forall|i: int| 0 <= i < s.len() && s[i].0 >= k ==> s[i].0 >= e.0
            &&& lookup(s, e.0) == Some(e.1)
        },
        lower_bound_entry(s, k) is None <==> forall|i: int| 0 <= i < s.len() ==> s[i].0 < k,
{
    lemma_rank(s, k);
    let i = rank(s, k) as int;
    if i < s.len() {
        let e = s[i];
        assert(s.contains(e));
        assert forall|j: int| 0 <= j < s.len() && s[j].0 >= k implies s[j].0 >= e.0 by {
            if j < i {
                assert(s[j].0 < k);
            } else if j > i {
                assert(s[i].0 < s[j].0);
            }
        }
        assert forall|j: int| 0 <= j < i implies s[j].0 < e.0 by {}
        assert forall|j: int| i <= j < s.len() implies s[j].0 >= e.0 by {
            if j > i {
                assert(s[i].0 < s[j].0);
            }
        }
        lemma_rank_at(s, e.0, i);
    }
}

/// The map of sorted entries holds one key per entry, with that entry's value.
pub proof fn lemma_entries_map<V>(s: Seq<(u64, V)>)
    requires
        keys_sorted(s),
    ensures
        entries_map(s).dom().finite(),
        entries_map(s).len() == s.len(),
        forall|i: int| 0 <= i < s.len() ==> #[trigger] entries_map(s).contains_key(s[i].0) && entries_map(
            s,
        )[s[i].0] == s[i].1,
        forall|k: u64| #[trigger] map_value(entries_map(s), k) == lookup(s, k),
{
    broadcast use seq_to_set_is_finite;

    let ks = entry_keys(s);
    assert forall|i: int| 0 <= i < s.len() implies #[trigger] entries_map(s).contains_key(s[i].0)
        && entries_map(s)[s[i].0] == s[i].1 by {
        assert forall|j: int| 0 <= j < i implies s[j].0 < s[i].0 by {}
        assert forall|j: int| i <= j < s.len() implies s[j].0 >= s[i].0 by {
            if j > i {
                assert(s[i].0 < s[j].0);
            }
        }
        lemma_rank_at(s, s[i].0, i);
    }
    assert(ks.no_duplicates()) by {
        assert forall|i: int, j: int| 0 <= i < ks.len() && 0 <= j < ks.len() && i != j implies ks[i]
            != ks[j] by {
            if i < j {
                assert(s[i].0 < s[j].0);
            } else {
                assert(s[j].0 < s[i].0);
            }
        }
    }
    ks.unique_seq_to_set();
    assert(entries_map(s).dom() =~= ks.to_set()) by {
        assert forall|k: u64| entries_map(s).dom().contains(k) implies ks.to_set().contains(k) by {
            let i = rank(s, k) as int;
            assert(ks[i] == k);
        }
        assert forall|k: u64| ks.to_set().contains(k) implies entries_map(s).dom().contains(k) by {
            let i = choose|i: int| 0 <= i < ks.len() && ks[i] == k;
            assert(entries_map(s).contains_key(s[i].0));
        }
    }
}

/// Putting an entry in the sorted entries puts it in their map.
pub proof fn lemma_entries_map_insert<V>(s: Seq<(u64, V)>, k: u64, v: V)
    requires
        keys_sorted(s),
    ensures
        keys_sorted(insert_entry(s, k, v)),
        entries_map(insert_entry(s, k, v)) == entries_map(s).insert(k, v),
        map_value(entries_map(s), k) == lookup(s, k),
{
    let t = insert_entry(s, k, v);
    lemma_insert_sorted(s, k, v);
    lemma_entries_map(s);
    lemma_entries_map(t);
    assert forall|j: u64| #[trigger] entries_map(t).contains_key(j) == entries_map(s).insert(k, v).contains_key(j)
        && (entries_map(t).contains_key(j) ==> entries_map(t)[j] == entries_map(s).insert(k, v)[j]) by {
        law_lookup_after_insert(s, k, v, j);
        assert(map_value(entries_map(t), j) == lookup(t, j));
        assert(map_value(entries_map(s), j) == lookup(s, j));
    }
    assert(entries_map(t) =~= entries_map(s).insert(k, v));
}

/// Taking an entry out of the sorted entries takes it out of their map.
pub proof fn lemma_entries_map_remove<V>(s: Seq<(u64, V)>, k: u64)
    requires
        keys_sorted(s),
    ensures
        keys_sorted(remove_entry(s, k)),
        entries_map(remove_entry(s, k)) == entries_map(s).remove(k),
        map_value(entries_map(s), k) == lookup(s, k),
{
    let t = remove_entry(s, k);
    lemma_remove_sorted(s, k);
    lemma_entries_map(s);
    lemma_entries_map(t);
    assert forall|j: u64| #[trigger] entries_map(t).contains_key(j) == entries_map(s).remove(k).contains_key(j)
        && (entries_map(t).contains_key(j) ==> entries_map(t)[j] == entries_map(s).remove(k)[j]) by {
        law_lookup_after_remove(s, k, j);
        assert(map_value(entries_map(t), j) == lookup(t, j));
        assert(map_value(entries_map(s), j) == lookup(s, j));
    }
    assert(entries_map(t) =~= entries_map(s).remove(k));
}

/// The lower bound among the sorted entries is the lower bound of their map.
pub proof fn lemma_entries_map_lower_bound<V>(s: Seq<(u64, V)>, k: u64)
    requires
        keys_sorted(s),
    ensures
        lower_bound_entry(s, k) matches Some(e) ==> is_lower_bound(entries_map(s), k, e.0)
            && e.1 == entries_map(s)[e.0],
        lower_bound_entry(s, k) is None <==> forall|j: u64| entries_map(s).contains_key(j) ==> j < k,
{
    lemma_entries_map(s);
    law_lower_bound(s, k);
    if let Some(e) = lower_bound_entry(s, k) {
        let i = rank(s, k) as int;
        assert(s[i] == e);
        assert(entries_map(s).contains_key(s[i].0));
        assert forall|j: u64| entries_map(s).contains_key(j) && k <= j implies e.0 <= j by {
            let p = rank(s, j) as int;
            assert(s[p].0 == j);
        }
    } else {
        assert forall|j: u64| entries_map(s).contains_key(j) implies j < k by {
            let p = rank(s, j) as int;
            assert(s[p].0 == j);
        }
    }
}

/// No entries make the empty map.
pub proof fn lemma_entries_map_empty<V>()
    ensures
        entries_map(Seq::<(u64, V)>::empty()) == Map::<u64, V>::empty(),
{
    assert(entries_map(Seq::<(u64, V)>::empty()) =~= Map::<u64, V>::empty());
}

} // verus!
