use std::collections::BTreeMap;

use vstd::prelude::*;
use vstd::std_specs::btree::{
    axiom_btree_map_view_finite_dom, axiom_contains_deref_key, axiom_deref_key_removed,
    axiom_key_obeys_cmp_spec_meaning, axiom_maps_deref_key_to_value, axiom_spec_btree_map_len,
};

use crate::ordered_map::{OrderedMap, is_lower_bound};

verus! {

broadcast use {
    vstd::laws_cmp::group_laws_cmp,
    axiom_btree_map_view_finite_dom,
    axiom_contains_deref_key,
    axiom_deref_key_removed,
    axiom_key_obeys_cmp_spec_meaning,
    axiom_maps_deref_key_to_value,
    axiom_spec_btree_map_len,
};

/// An ordered map kept in the standard library's B-tree map.
pub struct StdBTreeMap<K, V> {
    inner: BTreeMap<K, V>,
}

impl<K, V> StdBTreeMap<K, V> {
    /// The entries of the standard map inside.
    pub closed spec fn inner_map(&self) -> Map<K, V> {
        self.inner@
    }

    /// The standard map inside.
    pub fn into_inner(self) -> (r: BTreeMap<K, V>)
        ensures
            r@ == self.inner_map(),
    {
        self.inner
    }
}

/// `BTreeMap::range` from `key` on, first item. The standard library documents that the range
/// yields the entries whose keys lie in the range, in ascending key order: its first item is
/// the entry with the smallest key at least `key`, and there is none when every key is below
/// `key`.
#[verifier::external_body]
fn first_from<'a, V>(m: &'a BTreeMap<u64, V>, key: &u64) -> (r: Option<(&'a u64, &'a V)>)
    ensures
        r matches Some((k, v)) ==> is_lower_bound(m@, *key, *k) && *v == m@[*k],
        r is None <==> forall|j: u64| m@.contains_key(j) ==> j < *key,
{
    m.range(key..).next()
}

impl<V> OrderedMap for StdBTreeMap<u64, V> {
    type Value = V;

    closed spec fn wf(&self) -> bool {
        true
    }

    closed spec fn contents(&self) -> Map<u64, V> {
        self.inner_map()
    }

    fn new() -> (r: Self) {
        Self { inner: BTreeMap::new() }
    }

    fn len(&self) -> (r: usize) {
        self.inner.len()
    }

    fn get(&mut self, key: &u64) -> (r: Option<&V>) {
        self.inner.get(key)
    }

    fn insert(&mut self, key: u64, value: V) -> (r: Option<V>) {
        self.inner.insert(key, value)
    }

    fn remove(&mut self, key: &u64) -> (r: Option<V>) {
        self.inner.remove(key)
    }

    fn lower_bound(&mut self, key: &u64) -> (r: Option<(&u64, &V)>) {
        first_from(&self.inner, key)
    }
}

} // verus!
