use alg_playground::bbst::{
    ImplicitAvl, ImplicitRbTree, ImplicitRbst, ImplicitSplay, ImplicitZipTree, RangeSum, RangeSumRangeAdd,
    SequenceAgg, SequenceBase, SequenceLazy, SequenceReverse, SequenceSplitMerge,
};
use rand::rngs::StdRng;
use rand::{Rng, SeedableRng};

#[test]
fn avl_insert_and_get() {
    let mut tree = ImplicitAvl::<RangeSumRangeAdd>::new();
    for i in 0..10 {
        tree.insert(i, i as i64);
    }
    assert_eq!(tree.len(), 10);
    for i in 0..10 {
        assert_eq!(tree.get(i), Some(&(i as i64)));
    }
}

#[test]
fn rb_insert_and_get() {
    let mut tree = ImplicitRbTree::<RangeSumRangeAdd>::new();
    for i in 0..10 {
        tree.insert(i, i as i64);
    }
    assert_eq!(tree.len(), 10);
    for i in 0..10 {
        assert_eq!(tree.get(i), Some(&(i as i64)));
    }
}

#[test]
fn rbst_insert_and_get() {
    let mut rbst = ImplicitRbst::<RangeSumRangeAdd>::new();
    for i in 0..10 {
        rbst.insert(i, i as i64);
    }
    assert_eq!(rbst.len(), 10);
    for i in 0..10 {
        assert_eq!(rbst.get(i), Some(&(i as i64)));
    }
}

#[test]
fn splay_insert_and_get() {
    let mut splay = ImplicitSplay::<RangeSumRangeAdd>::new();
    for i in 0..10 {
        splay.insert(i, i as i64);
    }
    assert_eq!(splay.len(), 10);
    for i in 0..10 {
        assert_eq!(splay.get(i), Some(&(i as i64)));
    }
}

#[test]
fn zip_insert_and_get() {
    let mut zip = ImplicitZipTree::<RangeSumRangeAdd>::new();
    for i in 0..10 {
        zip.insert(i, i as i64);
    }
    assert_eq!(zip.len(), 10);
    for i in 0..10 {
        assert_eq!(zip.get(i), Some(&(i as i64)));
    }
}

/// Random insert / remove / get / update / reverse / fold, checked against a `Vec`.
fn random_operations_match_vec<T>(mut tree: T)
where
    T: SequenceBase<Key = i64> + SequenceAgg<Agg = i64> + SequenceLazy<Act = i64> + SequenceReverse,
{
    let mut rng = StdRng::seed_from_u64(0x5EED_2026);
    let mut vec = Vec::<i64>::new();

    for _ in 0..2000 {
        let choice = rng.random_range(0..6);
        match choice {
            0 => {
                let index = if vec.is_empty() {
                    0
                } else {
                    rng.random_range(0..=vec.len())
                };
                let value = rng.random_range(-1000..=1000);
                tree.insert(index, value);
                vec.insert(index, value);
            }
            1 => {
                if vec.is_empty() {
                    continue;
                }
                let index = rng.random_range(0..vec.len());
                assert_eq!(tree.remove(index), Some(vec.remove(index)));
            }
            2 => {
                if vec.is_empty() {
                    continue;
                }
                let index = rng.random_range(0..vec.len());
                assert_eq!(tree.get(index), vec.get(index));
            }
            3 => {
                if vec.is_empty() {
                    continue;
                }
                let l = rng.random_range(0..vec.len());
                let r = rng.random_range((l + 1)..=vec.len());
                let delta = rng.random_range(-100..=100);
                tree.update(l..r, delta);
                for value in &mut vec[l..r] {
                    *value += delta;
                }
            }
            4 => {
                if vec.is_empty() {
                    continue;
                }
                let l = rng.random_range(0..vec.len());
                let r = rng.random_range((l + 1)..=vec.len());
                tree.reverse(l..r);
                vec[l..r].reverse();
            }
            _ => {
                if vec.is_empty() {
                    continue;
                }
                let l = rng.random_range(0..vec.len());
                let r = rng.random_range((l + 1)..=vec.len());
                let expected: i64 = vec[l..r].iter().sum();
                assert_eq!(tree.fold(l..r), expected);
            }
        }
    }
}

#[test]
fn avl_random_operations_match_vec() {
    random_operations_match_vec(ImplicitAvl::<RangeSumRangeAdd>::new());
}

#[test]
fn rb_random_operations_match_vec() {
    random_operations_match_vec(ImplicitRbTree::<RangeSumRangeAdd>::new());
}

#[test]
fn rbst_random_operations_match_vec() {
    random_operations_match_vec(ImplicitRbst::<RangeSumRangeAdd>::new());
}

#[test]
fn splay_random_operations_match_vec() {
    random_operations_match_vec(ImplicitSplay::<RangeSumRangeAdd>::new());
}

#[test]
fn zip_random_operations_match_vec() {
    random_operations_match_vec(ImplicitZipTree::<RangeSumRangeAdd>::new());
}

/// Split at every position and merge back, checking both halves.
fn split_merge_round_trip<T>(mut make: impl FnMut() -> T)
where
    T: SequenceBase<Key = i64> + SequenceSplitMerge + SequenceAgg<Agg = i64>,
{
    for cut in 0..=12 {
        let mut tree = make();
        for i in 0..10 {
            tree.insert(i, i as i64 * 3);
        }
        let mut right = tree.split_at(cut);
        let left_len = cut.min(10);
        assert_eq!(tree.len(), left_len);
        assert_eq!(right.len(), 10 - left_len);
        if left_len < 10 {
            assert_eq!(right.get(0), Some(&(left_len as i64 * 3)));
        }
        tree.merge(right);
        assert_eq!(tree.len(), 10);
        for i in 0..10 {
            assert_eq!(tree.get(i), Some(&(i as i64 * 3)));
        }
        assert_eq!(tree.fold(0..10), 135);
    }
}

#[test]
fn split_then_merge_restores_every_tree() {
    split_merge_round_trip(ImplicitAvl::<RangeSumRangeAdd>::new);
    split_merge_round_trip(ImplicitRbTree::<RangeSumRangeAdd>::new);
    split_merge_round_trip(ImplicitRbst::<RangeSumRangeAdd>::new);
    split_merge_round_trip(ImplicitSplay::<RangeSumRangeAdd>::new);
    split_merge_round_trip(ImplicitZipTree::<RangeSumRangeAdd>::new);
}

#[test]
fn invalid_positions_and_ranges_change_nothing() {
    let mut tree = ImplicitAvl::<RangeSumRangeAdd>::new();
    for i in 0..5 {
        tree.insert(i, 10 + i as i64);
    }
    tree.insert(9, 99);
    assert_eq!(tree.len(), 5);
    assert_eq!(tree.remove(5), None);
    assert_eq!(tree.get(5), None);
    tree.update(std::ops::Range { start: 3, end: 2 }, 100);
    tree.update(0..6, 100);
    tree.reverse(4..7);
    assert_eq!(tree.fold(2..9), 0);
    assert_eq!(tree.fold(0..5), 60);
    assert_eq!(tree.fold(2..2), 0);
    assert!(!tree.is_empty());
}

#[test]
fn reverse_twice_restores_and_update_adds() {
    let mut tree = ImplicitRbst::<RangeSumRangeAdd>::with_seed(7);
    for i in 0..8 {
        tree.insert(i, i as i64);
    }
    tree.reverse(2..7);
    assert_eq!(tree.get(2), Some(&6));
    assert_eq!(tree.get(6), Some(&2));
    tree.reverse(2..7);
    for i in 0..8 {
        assert_eq!(tree.get(i), Some(&(i as i64)));
    }
    tree.update(1..4, 5);
    assert_eq!(tree.fold(0..8), 28 + 15);
    assert_eq!(tree.get(3), Some(&8));
}

#[test]
fn range_sum_policy_without_actions() {
    let mut tree = ImplicitZipTree::<RangeSum>::with_seed(3);
    for i in 0..6 {
        tree.insert(0, i as i64);
    }
    assert_eq!(tree.fold(0..6), 15);
    assert_eq!(tree.get(0), Some(&5));
    assert_eq!(tree.remove(0), Some(5));
    assert_eq!(tree.fold(0..5), 10);
}

#[test]
fn sums_wrap_around_like_twos_complement() {
    let mut tree = ImplicitSplay::<RangeSumRangeAdd>::new();
    tree.insert(0, i64::MAX);
    tree.insert(1, 1);
    assert_eq!(tree.fold(0..2), i64::MIN);
    tree.update(0..2, i64::MAX);
    assert_eq!(tree.get(1), Some(&i64::MIN));
}
