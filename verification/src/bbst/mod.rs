//! Implicit balanced binary search trees: sequences with positional access,
//! split / merge, range aggregates, range actions and range reversal.

use vstd::prelude::*;
use std::ops::Range;

pub mod policy;
pub mod avl;
pub mod splay;
pub mod rbst;
pub mod zip;
pub mod rb;

pub use policy::{CorePolicy, LazyMapMonoid, RangeSum, RangeSumRangeAdd};
use policy::{fold, act_seq, lemma_fold_act};
pub use avl::ImplicitAvl;
pub use splay::ImplicitSplay;
pub use rbst::ImplicitRbst;
pub use zip::ImplicitZipTree;
pub use rb::ImplicitRbTree;

verus! {

/// The positions `[start, end)` a range names in a sequence of length `len`, if it is valid.
pub open spec fn range_ok(range: Range<usize>, len: nat) -> bool {
    range.start <= range.end <= len
}

/// Largest length a sequence counted in `usize` whose lengths act on `i64` can have.
pub open spec fn len_limit() -> nat {
    if usize::MAX < i64::MAX { usize::MAX as nat } else { i64::MAX as nat }
}

/// The keys with positions `[start, end)` reversed.
pub open spec fn reverse_range<K>(s: Seq<K>, start: int, end: int) -> Seq<K> {
    s.take(start) + s.subrange(start, end).reverse() + s.skip(end)
}

/// The keys with `f` applied to positions `[start, end)`.
pub open spec fn map_range<K>(s: Seq<K>, start: int, end: int, f: spec_fn(K) -> K) -> Seq<K> {
    s.take(start) + s.subrange(start, end).map_values(f) + s.skip(end)
}

/// The number of keys `split_at(index)` keeps on the left.
pub open spec fn split_count(len: nat, index: int) -> int {
    if index <= len { index } else { len as int }
}

/// A sequence with positional access.
pub trait SequenceBase {
    type Key;

    /// The keys in order.
    spec fn seq(&self) -> Seq<Self::Key>;

    /// The internal structure is consistent.
    spec fn wf(&self) -> bool;

    /// Largest length the structure can count.
    spec fn max_len() -> nat;

    fn len(&self) -> (r: usize)
        requires
            self.wf(),
        ensures
            r == self.seq().len(),
    ;

    fn is_empty(&self) -> (r: bool)
        requires
            self.wf(),
        ensures
            r == (self.seq().len() == 0),
    {
        self.len() == 0
    }

    fn get(&mut self, index: usize) -> (r: Option<&Self::Key>)
        requires
            old(self).wf(),
        ensures
            final(self).wf(),
            final(self).seq() == old(self).seq(),
            index < old(self).seq().len() ==> r == Some(&old(self).seq()[index as int]),
            index >= old(self).seq().len() ==> r is None,
    ;

    /// Insert `key` at `index`; an index past the end leaves the sequence unchanged.
    fn insert(&mut self, index: usize, key: Self::Key)
        requires
            old(self).wf(),
            old(self).seq().len() < Self::max_len(),
        ensures
            final(self).wf(),
            final(self).seq() == if index <= old(self).seq().len() {
                old(self).seq().insert(index as int, key)
            } else {
                old(self).seq()
            },
    ;

    /// Remove and return the key at `index`, if there is one.
    fn remove(&mut self, index: usize) -> (r: Option<Self::Key>)
        requires
            old(self).wf(),
        ensures
            final(self).wf(),
            index < old(self).seq().len() ==> r == Some(old(self).seq()[index as int])
                && final(self).seq() == old(self).seq().remove(index as int),
            index >= old(self).seq().len() ==> r is None && final(self).seq() == old(self).seq(),
    ;
}

/// Splitting off a suffix and appending a sequence.
pub trait SequenceSplitMerge: SequenceBase + Sized {
    /// Keep the first `index` keys; return the rest.
    fn split_at(&mut self, index: usize) -> (right: Self)
        requires
            old(self).wf(),
        ensures
            final(self).wf(),
            right.wf(),
            final(self).seq() == old(self).seq().take(split_count(old(self).seq().len(), index as int)),
            right.seq() == old(self).seq().skip(split_count(old(self).seq().len(), index as int)),
    ;

    /// Append `right`.
    fn merge(&mut self, right: Self)
        requires
            old(self).wf(),
            right.wf(),
            old(self).seq().len() + right.seq().len() <= Self::max_len(),
        ensures
            final(self).wf(),
            final(self).seq() == old(self).seq() + right.seq(),
    ;
}

/// Aggregates over ranges.
pub trait SequenceAgg: SequenceBase {
    type Agg;

    /// The aggregate of a sequence of keys.
    spec fn spec_fold(s: Seq<Self::Key>) -> Self::Agg;

    /// Aggregate of the keys in `range`; the empty aggregate for an invalid range.
    fn fold(&mut self, range: Range<usize>) -> (r: Self::Agg)
        requires
            old(self).wf(),
        ensures
            final(self).wf(),
            final(self).seq() == old(self).seq(),
            r == if range_ok(range, old(self).seq().len()) {
                Self::spec_fold(old(self).seq().subrange(range.start as int, range.end as int))
            } else {
                Self::spec_fold(Seq::empty())
            },
    ;
}

/// Actions on ranges.
pub trait SequenceLazy: SequenceAgg {
    type Act;

    /// What `act` does to one key.
    spec fn spec_apply(key: Self::Key, act: Self::Act) -> Self::Key;

    /// Apply `act` to every key in `range`; an invalid range changes nothing.
    fn update(&mut self, range: Range<usize>, act: Self::Act)
        requires
            old(self).wf(),
        ensures
            final(self).wf(),
            final(self).seq() == if range_ok(range, old(self).seq().len()) {
                map_range(old(self).seq(), range.start as int, range.end as int, |k: Self::Key| Self::spec_apply(k, act))
            } else {
                old(self).seq()
            },
    ;
}

/// Reversal of ranges.
pub trait SequenceReverse: SequenceBase {
    /// Reverse the keys in `range`; an invalid range changes nothing.
    fn reverse(&mut self, range: Range<usize>)
        requires
            old(self).wf(),
        ensures
            final(self).wf(),
            final(self).seq() == if range_ok(range, old(self).seq().len()) {
                reverse_range(old(self).seq(), range.start as int, range.end as int)
            } else {
                old(self).seq()
            },
    ;
}

/// Splitting a sequence at any position and merging the two parts gives it back.
pub proof fn law_split_then_merge<K>(s: Seq<K>, index: int)
    requires
        0 <= index,
    ensures
        s.take(split_count(s.len(), index)) + s.skip(split_count(s.len(), index)) == s,
{
    assert(s.take(split_count(s.len(), index)) + s.skip(split_count(s.len(), index)) =~= s);
}

/// Reversing the same range twice gives the sequence back.
pub proof fn law_reverse_twice<K>(s: Seq<K>, start: int, end: int)
    requires
        0 <= start <= end <= s.len(),
    ensures
        reverse_range(reverse_range(s, start, end), start, end) == s,
{
    let t = reverse_range(s, start, end);
    assert(t.subrange(start, end) =~= s.subrange(start, end).reverse());
    assert(t.take(start) =~= s.take(start));
    assert(t.skip(end) =~= s.skip(end));
    assert(s.subrange(start, end).reverse().reverse() =~= s.subrange(start, end));
    assert(reverse_range(t, start, end) =~= s);
}

/// After inserting a key at an index it sits there, and removing it gives the sequence back.
pub proof fn law_insert_then_remove<K>(s: Seq<K>, index: int, key: K)
    requires
        0 <= index <= s.len(),
    ensures
        s.insert(index, key)[index] == key,
        s.insert(index, key).remove(index) == s,
        s.insert(index, key).len() == s.len() + 1,
{
    assert(s.insert(index, key).remove(index) =~= s);
}

/// Reversing a range keeps its length and its keys (as a multiset), and the keys outside it.
pub proof fn law_reverse_keeps_keys<K>(s: Seq<K>, start: int, end: int)
    requires
        0 <= start <= end <= s.len(),
    ensures
        reverse_range(s, start, end).len() == s.len(),
        forall|i: int| 0 <= i < start || end <= i < s.len() ==> #[trigger] reverse_range(s, start, end)[i] == s[i],
        forall|i: int| start <= i < end ==> #[trigger] reverse_range(s, start, end)[i] == s[start + end - 1 - i],
{
}

/// Two actions on the same range act as their composition.
pub proof fn law_update_twice<P: LazyMapMonoid>(s: Seq<P::Key>, start: int, end: int, first: P::Act, second: P::Act)
    requires
        0 <= start <= end <= s.len(),
    ensures
        map_range(map_range(s, start, end, |k: P::Key| P::spec_act_apply_key(k, first)), start, end,
            |k: P::Key| P::spec_act_apply_key(k, second))
            == map_range(s, start, end, |k: P::Key| P::spec_act_apply_key(k, P::spec_act_compose(second, first))),
{
    let t = map_range(s, start, end, |k: P::Key| P::spec_act_apply_key(k, first));
    let lhs = map_range(t, start, end, |k: P::Key| P::spec_act_apply_key(k, second));
    let rhs = map_range(s, start, end, |k: P::Key| P::spec_act_apply_key(k, P::spec_act_compose(second, first)));
    assert forall|i: int| 0 <= i < s.len() implies lhs[i] == rhs[i] by {
        if start <= i < end {
            assert(t[i] == P::spec_act_apply_key(s[i], first));
            P::lemma_compose_key(s[i], second, first);
        } else {
            assert(t[i] == s[i]);
        }
    }
    assert(lhs =~= rhs);
}

/// The aggregate of a range after an action is the action applied to its aggregate.
pub proof fn law_fold_after_update<P: LazyMapMonoid>(s: Seq<P::Key>, act: P::Act)
    ensures
        fold::<P>(s.map_values(|k: P::Key| P::spec_act_apply_key(k, act))) == P::spec_act_apply_agg(fold::<P>(s), act, s.len()),
{
    lemma_fold_act::<P>(s, act);
    assert(s.map_values(|k: P::Key| P::spec_act_apply_key(k, act)) =~= act_seq::<P>(s, act));
}

/// The keys apart from `[start, end)`, and the middle part, put back together.
pub proof fn lemma_three_parts<K>(s: Seq<K>, start: int, end: int)
    requires
        0 <= start <= end <= s.len(),
    ensures
        s.take(start) + s.subrange(start, end) + s.skip(end) == s,
        s.skip(start).take(end - start) == s.subrange(start, end),
        s.skip(start).skip(end - start) == s.skip(end),
{
    assert(s.take(start) + s.subrange(start, end) + s.skip(end) =~= s);
    assert(s.skip(start).take(end - start) =~= s.subrange(start, end));
    assert(s.skip(start).skip(end - start) =~= s.skip(end));
}

} // verus!
