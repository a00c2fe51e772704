use vstd::prelude::*;

use crate::ordered_map::{OrderedMap, LlrbTreeMap};

verus! {

/// Red-black tree map, by way of a left-leaning red-black tree.
pub struct RbTreeMap<K, V> {
    inner: LlrbTreeMap<K, V>,
}

impl<V> OrderedMap for RbTreeMap<u64, V> {
    type Value = V;

    closed spec fn wf(&self) -> bool {
        self.inner.wf()
    }

    closed spec fn contents(&self) -> Map<u64, V> {
        self.inner.contents()
    }

    fn new() -> (r: Self) {
        Self { inner: LlrbTreeMap::new() }
    }

    fn len(&self) -> (r: usize) {
        self.inner.len()
    }

    fn get(&mut self, key: &u64) -> (r: Option<&V>) {
        self.inner.get(key)
    }

    fn insert(&mut self, key: u64, value: V) -> (r: Option<V>) {
        self.inner.insert(key, value)
    }

    fn remove(&mut self, key: &u64) -> (r: Option<V>) {
        self.inner.remove(key)
    }

    fn lower_bound(&mut self, key: &u64) -> (r: Option<(&u64, &V)>) {
        self.inner.lower_bound(key)
    }
}

} // verus!
