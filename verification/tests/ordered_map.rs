use alg_playground::ordered_map::{
    AaTreeMap, BTreeMapCustom, FusionTreeMap, LlrbTreeMap, OrderedMap, RbTreeMap, ScapegoatTreeMap,
    SkipListMap, SortedVecMap, SplayTreeMap, StdBTreeMap, TreapMap, VebMap, WbtTreeMap,
};
use std::collections::BTreeMap;

#[derive(Clone)]
struct XorShift64 {
    state: u64,
}

impl XorShift64 {
    fn new(seed: u64) -> Self {
        Self { state: seed }
    }

    fn next_u64(&mut self) -> u64 {
        let mut x = self.state;
        x ^= x << 7;
        x ^= x >> 9;
        x ^= x << 8;
        self.state = x;
        x
    }

    fn gen_usize(&mut self, range: std::ops::Range<usize>) -> usize {
        let span = (range.end - range.start) as u64;
        let x = self.next_u64() % span;
        range.start + (x as usize)
    }

    fn gen_u64(&mut self) -> u64 {
        self.next_u64()
    }
}

fn oracle_lower_bound(map: &BTreeMap<u64, u64>, key: u64) -> Option<(u64, u64)> {
    map.range(key..).next().map(|(&k, &v)| (k, v))
}

fn check_basic<M: OrderedMap<Value = u64>>() {
    let mut map = M::new();
    assert_eq!(map.len(), 0);
    assert!(map.is_empty());
    assert_eq!(map.get(&0), None);
    assert_eq!(map.lower_bound(&0), None);
    assert_eq!(map.remove(&0), None);

    assert_eq!(map.insert(1, 10), None);
    assert_eq!(map.len(), 1);
    assert_eq!(map.get(&1).copied(), Some(10));
    assert_eq!(map.lower_bound(&0).map(|(k, v)| (*k, *v)), Some((1, 10)));
    assert_eq!(map.lower_bound(&1).map(|(k, v)| (*k, *v)), Some((1, 10)));
    assert_eq!(map.lower_bound(&2), None);

    assert_eq!(map.insert(1, 99), Some(10));
    assert_eq!(map.len(), 1);
    assert_eq!(map.get(&1).copied(), Some(99));

    assert_eq!(map.remove(&1), Some(99));
    assert_eq!(map.len(), 0);
    assert_eq!(map.get(&1), None);
    assert_eq!(map.lower_bound(&0), None);
}

fn check_bounds_edges<M: OrderedMap<Value = u64>>() {
    let mut map = M::new();
    let keys = [0, 1, u64::MAX - 1, u64::MAX];
    for (i, &k) in keys.iter().enumerate() {
        assert_eq!(map.insert(k, i as u64), None);
    }

    for &query in [0, 1, 2, u64::MAX - 1, u64::MAX].iter() {
        let got = map.lower_bound(&query).map(|(k, v)| (*k, *v));
        let mut oracle = BTreeMap::new();
        for (i, &k) in keys.iter().enumerate() {
            oracle.insert(k, i as u64);
        }
        let expect = oracle_lower_bound(&oracle, query);
        assert_eq!(got, expect, "query={query}");
    }
}

fn check_random<M: OrderedMap<Value = u64>>() {
    let mut rng = XorShift64::new(0xDEAD_BEEF_CAFE_BABE);
    let mut map = M::new();
    let mut oracle = BTreeMap::new();

    const OPS: usize = 20_000;
    for _ in 0..OPS {
        let roll = rng.next_u64() % 100;
        let key = rng.gen_u64();
        if roll < 35 {
            let value = rng.gen_u64();
            let got = map.insert(key, value);
            let expect = oracle.insert(key, value);
            assert_eq!(got, expect);
        } else if roll < 55 {
            let got = map.remove(&key);
            let expect = oracle.remove(&key);
            assert_eq!(got, expect);
        } else if roll < 80 {
            let got = map.get(&key).copied();
            let expect = oracle.get(&key).copied();
            assert_eq!(got, expect);
        } else {
            let got = map.lower_bound(&key).map(|(k, v)| (*k, *v));
            let expect = oracle_lower_bound(&oracle, key);
            assert_eq!(got, expect);
        }

        assert_eq!(map.len(), oracle.len());
        if !oracle.is_empty() {
            let any = rng.gen_usize(0..oracle.len());
            let (&ok, &ov) = oracle.iter().nth(any).unwrap();
            assert_eq!(map.get(&ok).copied(), Some(ov));
        }
    }
}

/// Small keys, so that removals and overwrites hit present keys often.
fn check_dense<M: OrderedMap<Value = u64>>() {
    let mut rng = XorShift64::new(0x1234_5678_9ABC_DEF1);
    let mut map = M::new();
    let mut oracle = BTreeMap::new();
    for _ in 0..5_000 {
        let roll = rng.next_u64() % 4;
        let key = rng.next_u64() % 64;
        match roll {
            0 => assert_eq!(map.insert(key, key * 3), oracle.insert(key, key * 3)),
            1 => assert_eq!(map.remove(&key), oracle.remove(&key)),
            2 => assert_eq!(map.get(&key).copied(), oracle.get(&key).copied()),
            _ => assert_eq!(
                map.lower_bound(&key).map(|(k, v)| (*k, *v)),
                oracle_lower_bound(&oracle, key)
            ),
        }
        assert_eq!(map.len(), oracle.len());
        assert_eq!(map.is_empty(), oracle.is_empty());
    }
}

#[test]
fn basic_all_impls() {
    check_basic::<StdBTreeMap<u64, u64>>();
    check_basic::<SortedVecMap<u64, u64>>();
    check_basic::<WbtTreeMap<u64, u64>>();
    check_basic::<AaTreeMap<u64, u64>>();
    check_basic::<LlrbTreeMap<u64, u64>>();
    check_basic::<RbTreeMap<u64, u64>>();
    check_basic::<TreapMap<u64, u64>>();
    check_basic::<SplayTreeMap<u64, u64>>();
    check_basic::<SkipListMap<u64, u64>>();
    check_basic::<BTreeMapCustom<u64, u64>>();
    check_basic::<FusionTreeMap<u64>>();
    check_basic::<ScapegoatTreeMap<u64, u64>>();
    check_basic::<VebMap<u64>>();
}

#[test]
fn bounds_edges_all_impls() {
    check_bounds_edges::<StdBTreeMap<u64, u64>>();
    check_bounds_edges::<SortedVecMap<u64, u64>>();
    check_bounds_edges::<WbtTreeMap<u64, u64>>();
    check_bounds_edges::<AaTreeMap<u64, u64>>();
    check_bounds_edges::<LlrbTreeMap<u64, u64>>();
    check_bounds_edges::<RbTreeMap<u64, u64>>();
    check_bounds_edges::<TreapMap<u64, u64>>();
    check_bounds_edges::<SplayTreeMap<u64, u64>>();
    check_bounds_edges::<SkipListMap<u64, u64>>();
    check_bounds_edges::<BTreeMapCustom<u64, u64>>();
    check_bounds_edges::<FusionTreeMap<u64>>();
    check_bounds_edges::<ScapegoatTreeMap<u64, u64>>();
    check_bounds_edges::<VebMap<u64>>();
}

#[test]
fn random_all_impls() {
    check_random::<StdBTreeMap<u64, u64>>();
    check_random::<SortedVecMap<u64, u64>>();
    check_random::<WbtTreeMap<u64, u64>>();
    check_random::<AaTreeMap<u64, u64>>();
    check_random::<LlrbTreeMap<u64, u64>>();
    check_random::<RbTreeMap<u64, u64>>();
    check_random::<TreapMap<u64, u64>>();
    check_random::<SplayTreeMap<u64, u64>>();
    check_random::<SkipListMap<u64, u64>>();
    check_random::<BTreeMapCustom<u64, u64>>();
    check_random::<FusionTreeMap<u64>>();
    check_random::<ScapegoatTreeMap<u64, u64>>();
    check_random::<VebMap<u64>>();
}

#[test]
fn dense_keys_all_impls() {
    check_dense::<StdBTreeMap<u64, u64>>();
    check_dense::<SortedVecMap<u64, u64>>();
    check_dense::<WbtTreeMap<u64, u64>>();
    check_dense::<AaTreeMap<u64, u64>>();
    check_dense::<LlrbTreeMap<u64, u64>>();
    check_dense::<RbTreeMap<u64, u64>>();
    check_dense::<TreapMap<u64, u64>>();
    check_dense::<SplayTreeMap<u64, u64>>();
    check_dense::<SkipListMap<u64, u64>>();
    check_dense::<BTreeMapCustom<u64, u64>>();
    check_dense::<FusionTreeMap<u64>>();
    check_dense::<ScapegoatTreeMap<u64, u64>>();
    check_dense::<VebMap<u64>>();
}

#[test]
fn treap_with_seed_behaves_as_a_map() {
    let mut a = TreapMap::<u64, u64>::with_seed(7);
    let mut b = TreapMap::<u64, u64>::with_seed(12345);
    for k in [5_u64, 3, 9, 1, 7] {
        assert_eq!(a.insert(k, k * 10), None);
        assert_eq!(b.insert(k, k * 10), None);
    }
    for k in 0..11_u64 {
        assert_eq!(a.get(&k).copied(), b.get(&k).copied());
        assert_eq!(
            a.lower_bound(&k).map(|(k, v)| (*k, *v)),
            b.lower_bound(&k).map(|(k, v)| (*k, *v))
        );
    }
    assert_eq!(a.lower_bound(&6).map(|(k, v)| (*k, *v)), Some((7, 70)));
}

#[test]
fn std_btree_into_inner_keeps_entries() {
    let mut m = StdBTreeMap::<u64, u64>::new();
    m.insert(2, 20);
    m.insert(1, 10);
    let inner = m.into_inner();
    assert_eq!(inner.into_iter().collect::<Vec<_>>(), vec![(1, 10), (2, 20)]);
}

#[test]
fn skip_list_with_seed_behaves_as_a_map() {
    let mut a = SkipListMap::<u64, u64>::with_seed(1);
    let mut b = SkipListMap::<u64, u64>::with_seed(0xDEAD_BEEF);
    for k in 0..200_u64 {
        let key = (k * 37) % 211;
        assert_eq!(a.insert(key, k), None);
        assert_eq!(b.insert(key, k), None);
    }
    assert_eq!(a.len(), 200);
    for k in (0..211_u64).step_by(3) {
        assert_eq!(a.remove(&k), b.remove(&k));
    }
    assert_eq!(a.len(), b.len());
    for k in 0..220_u64 {
        assert_eq!(a.get(&k).copied(), b.get(&k).copied());
        assert_eq!(
            a.lower_bound(&k).map(|(k, v)| (*k, *v)),
            b.lower_bound(&k).map(|(k, v)| (*k, *v))
        );
    }
    assert_eq!(a.insert(1, 5), Some(154));
    assert_eq!(a.get(&1).copied(), Some(5));
    assert_eq!(a.remove(&1), Some(5));
    assert_eq!(a.get(&1), None);
}

fn check_absent_removals_keep_a_map<M: OrderedMap<Value = u64>>() {
    let mut m = M::new();
    let mut oracle = BTreeMap::new();
    // even keys only, enough for several levels of a high-degree tree
    for k in 0..6000_u64 {
        let key = (k * 7919) % 12000 * 2 % 12000;
        assert_eq!(m.insert(key, k), oracle.insert(key, k));
    }
    assert_eq!(m.len(), oracle.len());
    // odd keys are absent: taking them out changes nothing
    for k in 0..3000_u64 {
        assert_eq!(m.remove(&(2 * k + 1)), None);
    }
    assert_eq!(m.len(), oracle.len());
    // now take out most entries, checking as we go
    for k in 0..5800_u64 {
        let key = (k * 7919) % 12000 * 2 % 12000;
        assert_eq!(m.remove(&key), oracle.remove(&key));
        if k % 97 == 0 {
            assert_eq!(m.remove(&(key + 1)), None);
        }
    }
    assert_eq!(m.len(), oracle.len());
    for k in 0..12001_u64 {
        assert_eq!(m.get(&k).copied(), oracle.get(&k).copied());
        assert_eq!(m.lower_bound(&k).map(|(k, v)| (*k, *v)), oracle_lower_bound(&oracle, k));
    }
}

#[test]
fn btree_absent_removals_keep_a_map() {
    check_absent_removals_keep_a_map::<BTreeMapCustom<u64, u64>>();
    check_absent_removals_keep_a_map::<FusionTreeMap<u64>>();
}

#[test]
fn scapegoat_sorted_inserts_then_removals() {
    // sorted insertions keep driving new nodes too deep, so subtrees get rebuilt
    let mut m = ScapegoatTreeMap::<u64, u64>::new();
    for k in 0..3000_u64 {
        assert_eq!(m.insert(k, k + 1), None);
    }
    assert_eq!(m.len(), 3000);
    for k in 0..3000_u64 {
        assert_eq!(m.get(&k).copied(), Some(k + 1));
    }
    // removing most entries rebuilds the whole tree on the way
    for k in 0..2900_u64 {
        assert_eq!(m.remove(&k), Some(k + 1));
    }
    assert_eq!(m.len(), 100);
    assert_eq!(m.lower_bound(&0).map(|(k, v)| (*k, *v)), Some((2900, 2901)));
    assert_eq!(m.lower_bound(&2999).map(|(k, v)| (*k, *v)), Some((2999, 3000)));
    assert_eq!(m.lower_bound(&3000), None);
}

#[test]
fn veb_extreme_keys_and_cluster_boundaries() {
    let mut m = VebMap::<u64>::new();
    let keys = [
        u64::MAX,
        0,
        1,
        u64::MAX - 1,
        1 << 32,
        (1 << 32) - 1,
        (1 << 32) + 1,
        1 << 63,
        (1 << 16) - 1,
        1 << 16,
    ];
    for (i, &k) in keys.iter().enumerate() {
        assert_eq!(m.insert(k, i as u64), None);
    }
    assert_eq!(m.len(), keys.len());
    let mut sorted = keys.to_vec();
    sorted.sort();
    for w in sorted.windows(2) {
        assert_eq!(m.lower_bound(&(w[0] + 1)).map(|(k, _)| *k), Some(w[1]));
    }
    assert_eq!(m.lower_bound(&u64::MAX).map(|(k, _)| *k), Some(u64::MAX));
    // take the smallest and the largest out, then the ones next to a cluster boundary
    assert_eq!(m.remove(&0), Some(1));
    assert_eq!(m.remove(&u64::MAX), Some(0));
    assert_eq!(m.lower_bound(&0).map(|(k, _)| *k), Some(1));
    assert_eq!(m.lower_bound(&(u64::MAX - 1)).map(|(k, _)| *k), Some(u64::MAX - 1));
    assert_eq!(m.lower_bound(&u64::MAX), None);
    assert_eq!(m.remove(&(1 << 32)), Some(4));
    assert_eq!(m.lower_bound(&((1 << 32) - 1)).map(|(k, _)| *k), Some((1 << 32) - 1));
    assert_eq!(m.lower_bound(&(1 << 32)).map(|(k, _)| *k), Some((1 << 32) + 1));
    assert_eq!(m.remove(&(1 << 32)), None);
    assert_eq!(m.len(), keys.len() - 3);
    for &k in &keys {
        assert_eq!(m.remove(&k).is_some(), k != 0 && k != u64::MAX && k != 1 << 32);
    }
    assert_eq!(m.len(), 0);
    assert_eq!(m.lower_bound(&0), None);
    assert_eq!(m.insert(5, 50), None);
    assert_eq!(m.lower_bound(&0).map(|(k, v)| (*k, *v)), Some((5, 50)));
}
