//! A fusion tree map, kept for now as a B-tree of high degree whose nodes could later branch
//! through word-level sketches of their keys.

use vstd::prelude::*;

use crate::ordered_map::btree::BTreeMapBase;
use crate::ordered_map::{
    OrderedMap, entries_map, lemma_entries_map, lemma_entries_map_empty, lemma_entries_map_insert,
    lemma_entries_map_lower_bound, lemma_entries_map_remove,
};

verus! {

/// Minimum degree of the B-tree behind the map.
const MIN_DEGREE_FUSION: usize = 32;

/// Fusion tree map, on a high-degree B-tree backbone.
pub struct FusionTreeMap<V> {
    inner: BTreeMapBase<u64, V, MIN_DEGREE_FUSION>,
}

impl<V> OrderedMap for FusionTreeMap<V> {
    type Value = V;

    closed spec fn wf(&self) -> bool {
        self.inner.wf()
    }

    closed spec fn contents(&self) -> Map<u64, V> {
        entries_map(self.inner.ents())
    }

    fn new() -> (r: Self) {
        let r = Self { inner: BTreeMapBase::new() };
        proof {
            lemma_entries_map_empty::<V>();
        }
        r
    }

    fn len(&self) -> (r: usize) {
        let r = self.inner.len();
        proof {
            self.inner.lemma_sorted();
            lemma_entries_map(self.inner.ents());
        }
        r
    }

    fn get(&mut self, key: &u64) -> (r: Option<&V>) {
        proof {
            self.inner.lemma_sorted();
            lemma_entries_map(self.inner.ents());
        }
        self.inner.get(key)
    }

    fn insert(&mut self, key: u64, value: V) -> (r: Option<V>) {
        proof {
            self.inner.lemma_sorted();
            lemma_entries_map(self.inner.ents());
            lemma_entries_map_insert(self.inner.ents(), key, value);
        }
        self.inner.insert(key, value)
    }

    fn remove(&mut self, key: &u64) -> (r: Option<V>) {
        proof {
            self.inner.lemma_sorted();
            lemma_entries_map(self.inner.ents());
            lemma_entries_map_remove(self.inner.ents(), *key);
        }
        self.inner.remove(key)
    }

    fn lower_bound(&mut self, key: &u64) -> (r: Option<(&u64, &V)>) {
        proof {
            self.inner.lemma_sorted();
            lemma_entries_map_lower_bound(self.inner.ents(), *key);
        }
        self.inner.lower_bound(key)
    }
}

} // verus!
