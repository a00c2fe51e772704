//! Monoid actions that the implicit sequences aggregate and apply lazily.

use vstd::prelude::*;
use vstd::wrapping::i64_specs::{wrapping_add, wrapping_mul};
use crate::wrap::{wrap64, lemma_wrap64_inner, lemma_wrapping_add, lemma_wrapping_mul, lemma_wrap64_id};

verus! {

/// Aggregates (`Agg`) over keys with lazily applied actions (`Act`).
///
/// `agg_merge(l, k, r)` aggregates a left part, one key and a right part; actions act on
/// keys and on aggregates of a given length.
pub trait LazyMapMonoid {
    type Key;
    type Agg;
    type Act;

    spec fn spec_agg_unit() -> Self::Agg;
    spec fn spec_agg_from_key(key: Self::Key) -> Self::Agg;
    spec fn spec_agg_merge(left: Self::Agg, key: Self::Key, right: Self::Agg) -> Self::Agg;
    spec fn spec_act_unit() -> Self::Act;
    spec fn spec_act_compose(new: Self::Act, old: Self::Act) -> Self::Act;
    spec fn spec_act_apply_key(key: Self::Key, act: Self::Act) -> Self::Key;
    spec fn spec_act_apply_agg(agg: Self::Agg, act: Self::Act, len: nat) -> Self::Agg;

    fn agg_unit() -> (r: Self::Agg)
        ensures
            r == Self::spec_agg_unit(),
    ;

    /// A copy of an aggregate.
    fn agg_copy(agg: &Self::Agg) -> (r: Self::Agg)
        ensures
            r == *agg,
    ;

    /// A copy of an action.
    fn act_copy(act: &Self::Act) -> (r: Self::Act)
        ensures
            r == *act,
    ;

    fn agg_from_key(key: &Self::Key) -> (r: Self::Agg)
        ensures
            r == Self::spec_agg_from_key(*key),
    ;

    fn agg_merge(left: &Self::Agg, key: &Self::Key, right: &Self::Agg) -> (r: Self::Agg)
        ensures
            r == Self::spec_agg_merge(*left, *key, *right),
    ;

    fn act_unit() -> (r: Self::Act)
        ensures
            r == Self::spec_act_unit(),
    ;

    /// Compose `new` after `old`.
    fn act_compose(new: &Self::Act, old: &Self::Act) -> (r: Self::Act)
        ensures
            r == Self::spec_act_compose(*new, *old),
    ;

    fn act_apply_key(key: &Self::Key, act: &Self::Act) -> (r: Self::Key)
        ensures
            r == Self::spec_act_apply_key(*key, *act),
    ;

    fn act_apply_agg(agg: &Self::Agg, act: &Self::Act, len: usize) -> (r: Self::Agg)
        requires
            len <= i64::MAX,
        ensures
            r == Self::spec_act_apply_agg(*agg, *act, len as nat),
    ;

    /// Merging is associative.
    proof fn lemma_merge_assoc(a: Self::Agg, x: Self::Key, b: Self::Agg, y: Self::Key, c: Self::Agg)
        ensures
            Self::spec_agg_merge(Self::spec_agg_merge(a, x, b), y, c) == Self::spec_agg_merge(a, x, Self::spec_agg_merge(b, y, c)),
    ;

    /// A single key aggregates to `agg_from_key`.
    proof fn lemma_merge_single(x: Self::Key)
        ensures
            Self::spec_agg_merge(Self::spec_agg_unit(), x, Self::spec_agg_unit()) == Self::spec_agg_from_key(x),
    ;

    /// Applying `old` then `new` to a key is applying their composition.
    proof fn lemma_compose_key(key: Self::Key, new: Self::Act, old: Self::Act)
        ensures
            Self::spec_act_apply_key(Self::spec_act_apply_key(key, old), new) == Self::spec_act_apply_key(key, Self::spec_act_compose(new, old)),
    ;

    /// The unit action leaves keys alone.
    proof fn lemma_unit_key(key: Self::Key)
        ensures
            Self::spec_act_apply_key(key, Self::spec_act_unit()) == key,
    ;

    /// An action on the empty aggregate.
    proof fn lemma_apply_unit(act: Self::Act)
        ensures
            Self::spec_act_apply_agg(Self::spec_agg_unit(), act, 0) == Self::spec_agg_unit(),
    ;

    /// An action distributes over a merge.
    proof fn lemma_apply_merge(a: Self::Agg, la: nat, x: Self::Key, b: Self::Agg, lb: nat, act: Self::Act)
        ensures
            Self::spec_act_apply_agg(Self::spec_agg_merge(a, x, b), act, la + 1 + lb)
                == Self::spec_agg_merge(Self::spec_act_apply_agg(a, act, la), Self::spec_act_apply_key(x, act),
                    Self::spec_act_apply_agg(b, act, lb)),
    ;
}

/// Aggregate of a sequence of keys, folded from the left end.
pub open spec fn fold<P: LazyMapMonoid>(s: Seq<P::Key>) -> P::Agg
    decreases s.len(),
{
    if s.len() == 0 {
        P::spec_agg_unit()
    } else {
        P::spec_agg_merge(P::spec_agg_unit(), s[0], fold::<P>(s.drop_first()))
    }
}

/// Apply an action to every key.
pub open spec fn act_seq<P: LazyMapMonoid>(s: Seq<P::Key>, act: P::Act) -> Seq<P::Key> {
    s.map_values(|k: P::Key| P::spec_act_apply_key(k, act))
}

/// The fold of a concatenation around one key.
pub proof fn lemma_fold_concat<P: LazyMapMonoid>(l: Seq<P::Key>, x: P::Key, r: Seq<P::Key>)
    ensures
        fold::<P>(l + seq![x] + r) == P::spec_agg_merge(fold::<P>(l), x, fold::<P>(r)),
    decreases l.len(),
{
    if l.len() == 0 {
        assert(l + seq![x] + r =~= seq![x] + r);
        assert((seq![x] + r).drop_first() =~= r);
    } else {
        let t = l.drop_first();
        lemma_fold_concat::<P>(t, x, r);
        assert((l + seq![x] + r).drop_first() =~= t + seq![x] + r);
        assert((l + seq![x] + r)[0] == l[0]);
        P::lemma_merge_assoc(P::spec_agg_unit(), l[0], fold::<P>(t), x, fold::<P>(r));
    }
}

/// The fold of a single key.
pub proof fn lemma_fold_single<P: LazyMapMonoid>(x: P::Key)
    ensures
        fold::<P>(seq![x]) == P::spec_agg_from_key(x),
{
    assert(seq![x].drop_first() =~= Seq::<P::Key>::empty());
    assert(fold::<P>(Seq::<P::Key>::empty()) == P::spec_agg_unit());
    P::lemma_merge_single(x);
}

/// An action on a fold is the fold of the acted keys.
pub proof fn lemma_fold_act<P: LazyMapMonoid>(s: Seq<P::Key>, act: P::Act)
    ensures
        P::spec_act_apply_agg(fold::<P>(s), act, s.len()) == fold::<P>(act_seq::<P>(s, act)),
    decreases s.len(),
{
    if s.len() == 0 {
        P::lemma_apply_unit(act);
        assert(act_seq::<P>(s, act) =~= Seq::<P::Key>::empty());
    } else {
        let t = s.drop_first();
        lemma_fold_act::<P>(t, act);
        P::lemma_apply_merge(P::spec_agg_unit(), 0, s[0], fold::<P>(t), t.len(), act);
        P::lemma_apply_unit(act);
        assert(act_seq::<P>(s, act).drop_first() =~= act_seq::<P>(t, act));
    }
}

/// Composed actions act in turn.
pub proof fn lemma_act_seq_compose<P: LazyMapMonoid>(s: Seq<P::Key>, new: P::Act, old: P::Act)
    ensures
        act_seq::<P>(act_seq::<P>(s, old), new) == act_seq::<P>(s, P::spec_act_compose(new, old)),
{
    assert forall|i: int| 0 <= i < s.len() implies #[trigger] act_seq::<P>(act_seq::<P>(s, old), new)[i]
        == act_seq::<P>(s, P::spec_act_compose(new, old))[i] by {
        P::lemma_compose_key(s[i], new, old);
    }
    assert(act_seq::<P>(act_seq::<P>(s, old), new) =~= act_seq::<P>(s, P::spec_act_compose(new, old)));
}

/// The unit action changes nothing.
pub proof fn lemma_act_seq_unit<P: LazyMapMonoid>(s: Seq<P::Key>)
    ensures
        act_seq::<P>(s, P::spec_act_unit()) == s,
{
    assert forall|i: int| 0 <= i < s.len() implies #[trigger] act_seq::<P>(s, P::spec_act_unit())[i] == s[i] by {
        P::lemma_unit_key(s[i]);
    }
    assert(act_seq::<P>(s, P::spec_act_unit()) =~= s);
}

/// Reversing the keys and applying an action commute.
pub proof fn lemma_act_reverse<P: LazyMapMonoid>(s: Seq<P::Key>, act: P::Act)
    ensures
        act_seq::<P>(s.reverse(), act) == act_seq::<P>(s, act).reverse(),
{
    assert(act_seq::<P>(s.reverse(), act) =~= act_seq::<P>(s, act).reverse());
}

pub proof fn lemma_reverse_concat<K>(a: Seq<K>, x: K, b: Seq<K>)
    ensures
        (a + seq![x] + b).reverse() == b.reverse() + seq![x] + a.reverse(),
{
    assert((a + seq![x] + b).reverse() =~= b.reverse() + seq![x] + a.reverse());
}

pub proof fn lemma_act_concat<P: LazyMapMonoid>(a: Seq<P::Key>, x: P::Key, b: Seq<P::Key>, act: P::Act)
    ensures
        act_seq::<P>(a + seq![x] + b, act) == act_seq::<P>(a, act) + seq![P::spec_act_apply_key(x, act)] + act_seq::<P>(b, act),
{
    assert(act_seq::<P>(a + seq![x] + b, act) =~= act_seq::<P>(a, act) + seq![P::spec_act_apply_key(x, act)] + act_seq::<P>(b, act));
}

/// The keys with `act` applied to positions `[start, end)`.
pub open spec fn upd<P: LazyMapMonoid>(s: Seq<P::Key>, start: int, end: int, act: P::Act) -> Seq<P::Key> {
    if start < end {
        s.take(start) + act_seq::<P>(s.subrange(start, end), act) + s.skip(end)
    } else {
        s
    }
}

/// Updating a range of `l + [k] + r` updates the parts it meets.
pub proof fn lemma_upd_split<P: LazyMapMonoid>(l: Seq<P::Key>, k: P::Key, r: Seq<P::Key>, start: int, end: int, act: P::Act)
    requires
        0 <= start < end <= l.len() + 1 + r.len(),
    ensures
        upd::<P>(l + seq![k] + r, start, end, act) == upd::<P>(l, start, if end < l.len() { end } else { l.len() as int }, act)
            + seq![if start <= l.len() < end { P::spec_act_apply_key(k, act) } else { k }]
            + upd::<P>(r, if start > l.len() + 1 { start - l.len() - 1 } else { 0 }, end - l.len() - 1, act),
{
    let s = l + seq![k] + r;
    let lhs = upd::<P>(s, start, end, act);
    let le = if end < l.len() { end } else { l.len() as int };
    let rs = if start > l.len() + 1 { start - l.len() - 1 } else { 0 };
    let re = end - l.len() - 1;
    let rhs = upd::<P>(l, start, le, act) + seq![if start <= l.len() < end { P::spec_act_apply_key(k, act) } else { k }]
        + upd::<P>(r, rs, re, act);
    assert(lhs.len() == rhs.len());
    assert forall|i: int| 0 <= i < lhs.len() implies lhs[i] == rhs[i] by {
        if i < l.len() {
            assert(rhs[i] == upd::<P>(l, start, le, act)[i]);
        } else if i == l.len() {
        } else {
            assert(rhs[i] == upd::<P>(r, rs, re, act)[i - l.len() - 1]);
        }
    }
    assert(lhs =~= rhs);
}

/// The fold of a range around the key between `l` and `r`.
pub proof fn lemma_fold_around<P: LazyMapMonoid>(l: Seq<P::Key>, k: P::Key, r: Seq<P::Key>, start: int, end: int)
    requires
        0 <= start <= l.len() < end <= l.len() + 1 + r.len(),
    ensures
        fold::<P>((l + seq![k] + r).subrange(start, end)) == P::spec_agg_merge(
            if start < l.len() { fold::<P>(l.subrange(start, l.len() as int)) } else { P::spec_agg_unit() },
            k,
            if end > l.len() + 1 { fold::<P>(r.subrange(0, end - l.len() - 1)) } else { P::spec_agg_unit() },
        ),
{
    let ls = l.subrange(start, l.len() as int);
    let rs = r.subrange(0, end - l.len() - 1);
    assert(start == l.len() ==> ls =~= Seq::<P::Key>::empty());
    assert(end == l.len() + 1 ==> rs =~= Seq::<P::Key>::empty());
    assert((l + seq![k] + r).subrange(start, end) =~= ls + seq![k] + rs);
    lemma_fold_concat::<P>(ls, k, rs);
}

/// Plain sequence of `i64` keys: no aggregate, no action.
pub struct CorePolicy;

impl LazyMapMonoid for CorePolicy {
    type Key = i64;
    type Agg = ();
    type Act = ();

    open spec fn spec_agg_unit() -> () { () }
    open spec fn spec_agg_from_key(key: i64) -> () { () }
    open spec fn spec_agg_merge(left: (), key: i64, right: ()) -> () { () }
    open spec fn spec_act_unit() -> () { () }
    open spec fn spec_act_compose(new: (), old: ()) -> () { () }
    open spec fn spec_act_apply_key(key: i64, act: ()) -> i64 { key }
    open spec fn spec_act_apply_agg(agg: (), act: (), len: nat) -> () { () }

    fn agg_copy(agg: &()) -> (r: ()) {
        *agg
    }

    fn act_copy(act: &()) -> (r: ()) {
        *act
    }

    fn agg_unit() -> (r: ()) {
    }

    fn agg_from_key(_key: &i64) -> (r: ()) {
    }

    fn agg_merge(_left: &(), _key: &i64, _right: &()) -> (r: ()) {
    }

    fn act_unit() -> (r: ()) {
    }

    fn act_compose(_new: &(), _old: &()) -> (r: ()) {
    }

    fn act_apply_key(key: &i64, _act: &()) -> (r: i64) {
        *key
    }

    fn act_apply_agg(_agg: &(), _act: &(), _len: usize) -> (r: ()) {
    }

    proof fn lemma_merge_assoc(a: (), x: i64, b: (), y: i64, c: ()) {}
    proof fn lemma_merge_single(x: i64) {}
    proof fn lemma_compose_key(key: i64, new: (), old: ()) {}
    proof fn lemma_unit_key(key: i64) {}
    proof fn lemma_apply_unit(act: ()) {}
    proof fn lemma_apply_merge(a: (), la: nat, x: i64, b: (), lb: nat, act: ()) {}
}

/// Range sums of `i64` keys (two's-complement wrapping), no action.
pub struct RangeSum;

impl LazyMapMonoid for RangeSum {
    type Key = i64;
    type Agg = i64;
    type Act = ();

    open spec fn spec_agg_unit() -> i64 { 0 }
    open spec fn spec_agg_from_key(key: i64) -> i64 { key }
    open spec fn spec_agg_merge(left: i64, key: i64, right: i64) -> i64 { wrap64(left + key + right) }
    open spec fn spec_act_unit() -> () { () }
    open spec fn spec_act_compose(new: (), old: ()) -> () { () }
    open spec fn spec_act_apply_key(key: i64, act: ()) -> i64 { key }
    open spec fn spec_act_apply_agg(agg: i64, act: (), len: nat) -> i64 { agg }

    fn agg_copy(agg: &i64) -> (r: i64) {
        *agg
    }

    fn act_copy(act: &()) -> (r: ()) {
        *act
    }

    fn agg_unit() -> (r: i64) {
        0
    }

    fn agg_from_key(key: &i64) -> (r: i64) {
        *key
    }

    fn agg_merge(left: &i64, key: &i64, right: &i64) -> (r: i64) {
        proof {
            lemma_wrapping_add(*left, *key);
            lemma_wrapping_add(wrapping_add(*left, *key), *right);
            lemma_wrap64_inner(*left + *key, *right as int);
        }
        left.wrapping_add(*key).wrapping_add(*right)
    }

    fn act_unit() -> (r: ()) {
    }

    fn act_compose(_new: &(), _old: &()) -> (r: ()) {
    }

    fn act_apply_key(key: &i64, _act: &()) -> (r: i64) {
        *key
    }

    fn act_apply_agg(agg: &i64, _act: &(), _len: usize) -> (r: i64) {
        *agg
    }

    proof fn lemma_merge_assoc(a: i64, x: i64, b: i64, y: i64, c: i64) {
        lemma_wrap64_inner(a + x + b, y + c);
        lemma_wrap64_inner(b + y + c, a + x);
        assert(a + x + b + (y + c) == b + y + c + (a + x));
    }

    proof fn lemma_merge_single(x: i64) {
        lemma_wrap64_id(x);
    }

    proof fn lemma_compose_key(key: i64, new: (), old: ()) {}
    proof fn lemma_unit_key(key: i64) {}
    proof fn lemma_apply_unit(act: ()) {}
    proof fn lemma_apply_merge(a: i64, la: nat, x: i64, b: i64, lb: nat, act: ()) {}
}

/// Range sums with range additions (two's-complement wrapping).
pub struct RangeSumRangeAdd;

impl LazyMapMonoid for RangeSumRangeAdd {
    type Key = i64;
    type Agg = i64;
    type Act = i64;

    open spec fn spec_agg_unit() -> i64 { 0 }
    open spec fn spec_agg_from_key(key: i64) -> i64 { key }
    open spec fn spec_agg_merge(left: i64, key: i64, right: i64) -> i64 { wrap64(left + key + right) }
    open spec fn spec_act_unit() -> i64 { 0 }
    open spec fn spec_act_compose(new: i64, old: i64) -> i64 { wrap64(new + old) }
    open spec fn spec_act_apply_key(key: i64, act: i64) -> i64 { wrap64(key + act) }
    open spec fn spec_act_apply_agg(agg: i64, act: i64, len: nat) -> i64 { wrap64(agg + act * len) }

    fn agg_copy(agg: &i64) -> (r: i64) {
        *agg
    }

    fn act_copy(act: &i64) -> (r: i64) {
        *act
    }

    fn agg_unit() -> (r: i64) {
        0
    }

    fn agg_from_key(key: &i64) -> (r: i64) {
        *key
    }

    fn agg_merge(left: &i64, key: &i64, right: &i64) -> (r: i64) {
        proof {
            lemma_wrapping_add(*left, *key);
            lemma_wrapping_add(wrapping_add(*left, *key), *right);
            lemma_wrap64_inner(*left + *key, *right as int);
        }
        left.wrapping_add(*key).wrapping_add(*right)
    }

    fn act_unit() -> (r: i64) {
        0
    }

    fn act_compose(new: &i64, old: &i64) -> (r: i64) {
        proof {
            lemma_wrapping_add(*new, *old);
        }
        new.wrapping_add(*old)
    }

    fn act_apply_key(key: &i64, act: &i64) -> (r: i64) {
        proof {
            lemma_wrapping_add(*key, *act);
        }
        key.wrapping_add(*act)
    }

    fn act_apply_agg(agg: &i64, act: &i64, len: usize) -> (r: i64) {
        let l = len as i64;
        proof {
            lemma_wrapping_mul(*act, l);
            lemma_wrapping_add(*agg, wrapping_mul(*act, l));
            lemma_wrap64_inner(*act * l, *agg as int);
            assert(*act * l + *agg == *agg + *act * len);
        }
        agg.wrapping_add(act.wrapping_mul(l))
    }

    proof fn lemma_merge_assoc(a: i64, x: i64, b: i64, y: i64, c: i64) {
        lemma_wrap64_inner(a + x + b, y + c);
        lemma_wrap64_inner(b + y + c, a + x);
        assert(a + x + b + (y + c) == b + y + c + (a + x));
    }

    proof fn lemma_merge_single(x: i64) {
        lemma_wrap64_id(x);
    }

    proof fn lemma_compose_key(key: i64, new: i64, old: i64) {
        lemma_wrap64_inner(key + old, new as int);
        lemma_wrap64_inner(new + old, key as int);
        assert(key + old + new == new + old + key);
    }

    proof fn lemma_unit_key(key: i64) {
        lemma_wrap64_id(key);
    }

    proof fn lemma_apply_unit(act: i64) {
        lemma_wrap64_id(0);
    }

    proof fn lemma_apply_merge(a: i64, la: nat, x: i64, b: i64, lb: nat, act: i64) {
        lemma_wrap64_inner(a + x + b, act * (la + 1 + lb));
        let p = wrap64(a + act * la);
        let q = wrap64(x + act);
        let r = wrap64(b + act * lb);
        assert(wrap64(p + q + r) == wrap64((a + act * la) + q + r)) by {
            lemma_wrap64_inner(a + act * la, q + r);
        }
        assert(wrap64((a + act * la) + q + r) == wrap64((x + act) + (a + act * la) + r)) by {
            lemma_wrap64_inner(x + act, a + act * la + r);
        }
        assert(wrap64((x + act) + (a + act * la) + r) == wrap64((b + act * lb) + (x + act) + (a + act * la))) by {
            lemma_wrap64_inner(b + act * lb, x + act + a + act * la);
        }
        assert(act * (la + 1 + lb) == act * la + act + act * lb) by (nonlinear_arith);
    }
}

} // verus!
