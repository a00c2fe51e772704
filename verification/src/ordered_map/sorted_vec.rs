use vstd::prelude::*;

use crate::ordered_map::{
    OrderedMap, entries_map, has_key, insert_entry, keys_sorted, lemma_entries_map, lemma_entries_map_empty,
    lemma_entries_map_insert, lemma_entries_map_lower_bound, lemma_entries_map_remove, lemma_rank,
    lemma_rank_at, lower_bound_entry, rank,
};

verus! {

/// An ordered map kept as a vector of entries sorted by key.
pub struct SortedVecMap<K, V> {
    data: Vec<(K, V)>,
}

impl<V> SortedVecMap<u64, V> {
    /// Where `key` stands, or would stand, and whether it is there.
    fn search(&self, key: u64) -> (r: (usize, bool))
        requires
            keys_sorted(self.data@),
        ensures
            r.0 == rank(self.data@, key),
            r.1 == has_key(self.data@, key),
    {
        let mut lo: usize = 0;
        let mut hi: usize = self.data.len();
        while lo < hi
            invariant
                lo <= hi <= self.data.len(),
                forall|j: int| 0 <= j < lo ==> self.data@[j].0 < key,
                forall|j: int| hi <= j < self.data.len() ==> self.data@[j].0 >= key,
                keys_sorted(self.data@),
            decreases hi - lo,
        {
            let mid = lo + (hi - lo) / 2;
            if self.data[mid].0 < key {
                proof {
                    assert forall|j: int| 0 <= j <= mid implies self.data@[j].0 < key by {
                        if j < mid {
                            assert(self.data@[j].0 < self.data@[mid as int].0);
                        }
                    }
                }
                lo = mid + 1;
            } else {
                proof {
                    assert forall|j: int| mid <= j < self.data.len() implies self.data@[j].0 >= key by {
                        if j > mid {
                            assert(self.data@[mid as int].0 < self.data@[j].0);
                        }
                    }
                }
                hi = mid;
            }
        }
        proof {
            lemma_rank_at(self.data@, key, lo as int);
        }
        (lo, lo < self.data.len() && self.data[lo].0 == key)
    }
}

impl<V> OrderedMap for SortedVecMap<u64, V> {
    type Value = V;

    closed spec fn wf(&self) -> bool {
        keys_sorted(self.data@)
    }

    closed spec fn contents(&self) -> Map<u64, V> {
        entries_map(self.data@)
    }

    fn new() -> (r: Self) {
        proof {
            lemma_entries_map_empty::<V>();
        }
        Self { data: Vec::new() }
    }

    fn len(&self) -> (r: usize) {
        proof {
            lemma_entries_map(self.data@);
        }
        self.data.len()
    }

    fn get(&mut self, key: &u64) -> (r: Option<&V>) {
        proof {
            lemma_entries_map(self.data@);
        }
        let (idx, found) = self.search(*key);
        if !found {
            return None;
        }
        Some(&self.data[idx].1)
    }

    fn insert(&mut self, key: u64, value: V) -> (r: Option<V>) {
        let ghost s = self.data@;
        proof {
            lemma_entries_map_insert(s, key, value);
        }
        let (idx, found) = self.search(key);
        if found {
            let mut old = value;
            std::mem::swap(&mut self.data[idx].1, &mut old);
            proof {
                assert(self.data@ =~= insert_entry(s, key, value));
            }
            Some(old)
        } else {
            proof {
                lemma_rank(s, key);
            }
            self.data.insert(idx, (key, value));
            None
        }
    }

    fn remove(&mut self, key: &u64) -> (r: Option<V>) {
        let ghost s = self.data@;
        proof {
            lemma_entries_map_remove(s, *key);
        }
        let (idx, found) = self.search(*key);
        if !found {
            return None;
        }
        Some(self.data.remove(idx).1)
    }

    fn lower_bound(&mut self, key: &u64) -> (r: Option<(&u64, &V)>) {
        proof {
            lemma_entries_map_lower_bound(self.data@, *key);
        }
        let (idx, _found) = self.search(*key);
        if idx < self.data.len() {
            let e = &self.data[idx];
            Some((&e.0, &e.1))
        } else {
            None
        }
    }
}

} // verus!
