//! Monoids with lazy actions for the dynamic trees, on `Copy` values.

use vstd::prelude::*;
use vstd::wrapping::i64_specs::{wrapping_add, wrapping_mul};
use crate::wrap::{wrap64, lemma_wrap64_inner, lemma_wrapping_add, lemma_wrapping_mul};

verus! {

/// A monoid over `Key` with a lazy action `Act`.
///
/// `Agg` aggregates an ordered sequence of keys; `key_unit` contributes nothing to it.
pub trait LazyMapMonoid {
    type Key;
    type Agg;
    type Act;

    spec fn spec_key_unit() -> Self::Key;
    spec fn spec_agg_unit() -> Self::Agg;
    spec fn spec_agg_from_key(key: Self::Key) -> Self::Agg;
    spec fn spec_agg_merge(left: Self::Agg, key: Self::Key, right: Self::Agg) -> Self::Agg;
    spec fn spec_act_unit() -> Self::Act;
    spec fn spec_act_compose(new: Self::Act, old: Self::Act) -> Self::Act;
    spec fn spec_act_apply_key(key: Self::Key, act: Self::Act) -> Self::Key;
    spec fn spec_act_apply_agg(agg: Self::Agg, act: Self::Act, len: nat) -> Self::Agg;

    /// Whether the aggregate is the same for a sequence and its reverse; then the reverse
    /// aggregates need not be kept.
    spec fn spec_reversal_invariant() -> bool;

    fn reversal_invariant() -> (r: bool)
        ensures
            r == Self::spec_reversal_invariant(),
    ;

    /// A copy of a key.
    fn key_copy(key: &Self::Key) -> (r: Self::Key)
        ensures
            r == *key,
    ;

    /// A copy of an aggregate.
    fn agg_copy(agg: &Self::Agg) -> (r: Self::Agg)
        ensures
            r == *agg,
    ;

    /// A copy of an action.
    fn act_copy(act: &Self::Act) -> (r: Self::Act)
        ensures
            r == *act,
    ;

    /// Neutral key, for vertices and arcs that carry nothing.
    fn key_unit() -> (r: Self::Key)
        ensures
            r == Self::spec_key_unit(),
    ;

    fn agg_unit() -> (r: Self::Agg)
        ensures
            r == Self::spec_agg_unit(),
    ;

    fn agg_from_key(key: &Self::Key) -> (r: Self::Agg)
        ensures
            r == Self::spec_agg_from_key(*key),
    ;

    /// Merge aggregates as `left + [key] + right`.
    fn agg_merge(left: &Self::Agg, key: &Self::Key, right: &Self::Agg) -> (r: Self::Agg)
        ensures
            r == Self::spec_agg_merge(*left, *key, *right),
    ;

    fn act_unit() -> (r: Self::Act)
        ensures
            r == Self::spec_act_unit(),
    ;

    /// Compose `new` after `old`.
    fn act_compose(new: &Self::Act, old: &Self::Act) -> (r: Self::Act)
        ensures
            r == Self::spec_act_compose(*new, *old),
    ;

    fn act_apply_key(key: &Self::Key, act: &Self::Act) -> (r: Self::Key)
        ensures
            r == Self::spec_act_apply_key(*key, *act),
    ;

    /// Apply `act` to an aggregate of `len` keys.
    fn act_apply_agg(agg: &Self::Agg, act: &Self::Act, len: usize) -> (r: Self::Agg)
        requires
            len <= i64::MAX,
        ensures
            r == Self::spec_act_apply_agg(*agg, *act, len as nat),
    ;
}

/// Plain `i64` keys: no aggregate, no action.
#[derive(Clone, Copy, Debug)]
pub struct CorePolicy;

impl LazyMapMonoid for CorePolicy {
    type Key = i64;
    type Agg = ();
    type Act = ();

    open spec fn spec_key_unit() -> i64 { 0 }
    open spec fn spec_agg_unit() -> () { () }
    open spec fn spec_agg_from_key(key: i64) -> () { () }
    open spec fn spec_agg_merge(left: (), key: i64, right: ()) -> () { () }
    open spec fn spec_act_unit() -> () { () }
    open spec fn spec_act_compose(new: (), old: ()) -> () { () }
    open spec fn spec_act_apply_key(key: i64, act: ()) -> i64 { key }
    open spec fn spec_act_apply_agg(agg: (), act: (), len: nat) -> () { () }
    open spec fn spec_reversal_invariant() -> bool { true }

    fn reversal_invariant() -> (r: bool) {
        true
    }

    fn key_copy(key: &i64) -> (r: i64) {
        *key
    }

    fn agg_copy(agg: &()) -> (r: ()) {
        *agg
    }

    fn act_copy(act: &()) -> (r: ()) {
        *act
    }

    fn key_unit() -> (r: i64) {
        0
    }

    fn agg_unit() -> (r: ()) {
    }

    fn agg_from_key(_key: &i64) -> (r: ()) {
    }

    fn agg_merge(_left: &(), _key: &i64, _right: &()) -> (r: ()) {
    }

    fn act_unit() -> (r: ()) {
    }

    fn act_compose(_new: &(), _old: &()) -> (r: ()) {
    }

    fn act_apply_key(key: &i64, _act: &()) -> (r: i64) {
        *key
    }

    fn act_apply_agg(agg: &(), _act: &(), _len: usize) -> (r: ()) {
        *agg
    }
}

/// Vertex sums of `i64` keys (two's-complement wrapping), no action.
#[derive(Clone, Copy, Debug)]
pub struct VertexSum;

impl LazyMapMonoid for VertexSum {
    type Key = i64;
    type Agg = i64;
    type Act = ();

    open spec fn spec_key_unit() -> i64 { 0 }
    open spec fn spec_agg_unit() -> i64 { 0 }
    open spec fn spec_agg_from_key(key: i64) -> i64 { key }
    open spec fn spec_agg_merge(left: i64, key: i64, right: i64) -> i64 { wrap64(left + key + right) }
    open spec fn spec_act_unit() -> () { () }
    open spec fn spec_act_compose(new: (), old: ()) -> () { () }
    open spec fn spec_act_apply_key(key: i64, act: ()) -> i64 { key }
    open spec fn spec_act_apply_agg(agg: i64, act: (), len: nat) -> i64 { agg }
    open spec fn spec_reversal_invariant() -> bool { true }

    fn reversal_invariant() -> (r: bool) {
        true
    }

    fn key_copy(key: &i64) -> (r: i64) {
        *key
    }

    fn agg_copy(agg: &i64) -> (r: i64) {
        *agg
    }

    fn act_copy(act: &()) -> (r: ()) {
        *act
    }

    fn key_unit() -> (r: i64) {
        0
    }

    fn agg_unit() -> (r: i64) {
        0
    }

    fn agg_from_key(key: &i64) -> (r: i64) {
        *key
    }

    fn agg_merge(left: &i64, key: &i64, right: &i64) -> (r: i64) {
        proof {
            lemma_wrapping_add(*left, *key);
            lemma_wrapping_add(wrapping_add(*left, *key), *right);
            lemma_wrap64_inner(*left + *key, *right as int);
        }
        left.wrapping_add(*key).wrapping_add(*right)
    }

    fn act_unit() -> (r: ()) {
    }

    fn act_compose(_new: &(), _old: &()) -> (r: ()) {
    }

    fn act_apply_key(key: &i64, _act: &()) -> (r: i64) {
        *key
    }

    fn act_apply_agg(agg: &i64, _act: &(), _len: usize) -> (r: i64) {
        *agg
    }
}

/// Vertex sums with additions (two's-complement wrapping).
#[derive(Clone, Copy, Debug)]
pub struct VertexSumAdd;

impl LazyMapMonoid for VertexSumAdd {
    type Key = i64;
    type Agg = i64;
    type Act = i64;

    open spec fn spec_key_unit() -> i64 { 0 }
    open spec fn spec_agg_unit() -> i64 { 0 }
    open spec fn spec_agg_from_key(key: i64) -> i64 { key }
    open spec fn spec_agg_merge(left: i64, key: i64, right: i64) -> i64 { wrap64(left + key + right) }
    open spec fn spec_act_unit() -> i64 { 0 }
    open spec fn spec_act_compose(new: i64, old: i64) -> i64 { wrap64(new + old) }
    open spec fn spec_act_apply_key(key: i64, act: i64) -> i64 { wrap64(key + act) }
    open spec fn spec_act_apply_agg(agg: i64, act: i64, len: nat) -> i64 { wrap64(agg + act * len) }
    open spec fn spec_reversal_invariant() -> bool { true }

    fn reversal_invariant() -> (r: bool) {
        true
    }

    fn key_copy(key: &i64) -> (r: i64) {
        *key
    }

    fn agg_copy(agg: &i64) -> (r: i64) {
        *agg
    }

    fn act_copy(act: &i64) -> (r: i64) {
        *act
    }

    fn key_unit() -> (r: i64) {
        0
    }

    fn agg_unit() -> (r: i64) {
        0
    }

    fn agg_from_key(key: &i64) -> (r: i64) {
        *key
    }

    fn agg_merge(left: &i64, key: &i64, right: &i64) -> (r: i64) {
        proof {
            lemma_wrapping_add(*left, *key);
            lemma_wrapping_add(wrapping_add(*left, *key), *right);
            lemma_wrap64_inner(*left + *key, *right as int);
        }
        left.wrapping_add(*key).wrapping_add(*right)
    }

    fn act_unit() -> (r: i64) {
        0
    }

    fn act_compose(new: &i64, old: &i64) -> (r: i64) {
        proof {
            lemma_wrapping_add(*new, *old);
        }
        new.wrapping_add(*old)
    }

    fn act_apply_key(key: &i64, act: &i64) -> (r: i64) {
        proof {
            lemma_wrapping_add(*key, *act);
        }
        key.wrapping_add(*act)
    }

    fn act_apply_agg(agg: &i64, act: &i64, len: usize) -> (r: i64) {
        let len = len as i64;
        proof {
            lemma_wrapping_mul(*act, len);
            lemma_wrapping_add(*agg, wrapping_mul(*act, len));
            lemma_wrap64_inner(*act * len, *agg as int);
            assert(*act * len + *agg == *agg + *act * len);
        }
        agg.wrapping_add(act.wrapping_mul(len))
    }
}

/// The affine map `x -> a * x + b` on `i64` (two's-complement wrapping).
#[derive(Clone, Copy, Debug, PartialEq, Eq, Structural)]
pub struct Affine {
    pub a: i64,
    pub b: i64,
}

/// Vertex sums with affine maps applied to vertices (two's-complement wrapping).
#[derive(Clone, Copy, Debug)]
pub struct VertexAffineSum;

impl LazyMapMonoid for VertexAffineSum {
    type Key = i64;
    type Agg = i64;
    type Act = Affine;

    open spec fn spec_key_unit() -> i64 { 0 }
    open spec fn spec_agg_unit() -> i64 { 0 }
    open spec fn spec_agg_from_key(key: i64) -> i64 { key }
    open spec fn spec_agg_merge(left: i64, key: i64, right: i64) -> i64 { wrap64(left + key + right) }
    open spec fn spec_act_unit() -> Affine { Affine { a: 1, b: 0 } }
    open spec fn spec_act_compose(new: Affine, old: Affine) -> Affine {
        Affine { a: wrap64(new.a * old.a), b: wrap64(new.a * old.b + new.b) }
    }
    open spec fn spec_act_apply_key(key: i64, act: Affine) -> i64 { wrap64(act.a * key + act.b) }
    open spec fn spec_act_apply_agg(agg: i64, act: Affine, len: nat) -> i64 { wrap64(act.a * agg + act.b * len) }
    open spec fn spec_reversal_invariant() -> bool { true }

    fn reversal_invariant() -> (r: bool) {
        true
    }

    fn key_copy(key: &i64) -> (r: i64) {
        *key
    }

    fn agg_copy(agg: &i64) -> (r: i64) {
        *agg
    }

    fn act_copy(act: &Affine) -> (r: Affine) {
        *act
    }

    fn key_unit() -> (r: i64) {
        0
    }

    fn agg_unit() -> (r: i64) {
        0
    }

    fn agg_from_key(key: &i64) -> (r: i64) {
        *key
    }

    fn agg_merge(left: &i64, key: &i64, right: &i64) -> (r: i64) {
        proof {
            lemma_wrapping_add(*left, *key);
            lemma_wrapping_add(wrapping_add(*left, *key), *right);
            lemma_wrap64_inner(*left + *key, *right as int);
        }
        left.wrapping_add(*key).wrapping_add(*right)
    }

    fn act_unit() -> (r: Affine) {
        Affine { a: 1, b: 0 }
    }

    fn act_compose(new: &Affine, old: &Affine) -> (r: Affine) {
        // new after old: a = a_new * a_old, b = a_new * b_old + b_new
        proof {
            lemma_wrapping_mul(new.a, old.a);
            lemma_wrapping_mul(new.a, old.b);
            lemma_wrapping_add(wrapping_mul(new.a, old.b), new.b);
            lemma_wrap64_inner(new.a * old.b, new.b as int);
        }
        Affine { a: new.a.wrapping_mul(old.a), b: new.a.wrapping_mul(old.b).wrapping_add(new.b) }
    }

    fn act_apply_key(key: &i64, act: &Affine) -> (r: i64) {
        proof {
            lemma_wrapping_mul(act.a, *key);
            lemma_wrapping_add(wrapping_mul(act.a, *key), act.b);
            lemma_wrap64_inner(act.a * *key, act.b as int);
        }
        act.a.wrapping_mul(*key).wrapping_add(act.b)
    }

    fn act_apply_agg(agg: &i64, act: &Affine, len: usize) -> (r: i64) {
        let len = len as i64;
        proof {
            lemma_wrapping_mul(act.a, *agg);
            lemma_wrapping_mul(act.b, len);
            lemma_wrapping_add(wrapping_mul(act.a, *agg), wrapping_mul(act.b, len));
            lemma_wrap64_inner(act.a * *agg, wrapping_mul(act.b, len) as int);
            lemma_wrap64_inner(act.b * len, act.a * *agg);
            assert(act.b * len + act.a * *agg == act.a * *agg + act.b * len);
        }
        act.a.wrapping_mul(*agg).wrapping_add(act.b.wrapping_mul(len))
    }
}

/// `f` after `g`, for affine maps as pairs `(a, b)`.
pub open spec fn spec_affine_compose(f: (i64, i64), g: (i64, i64)) -> (i64, i64) {
    (wrap64(f.0 * g.0), wrap64(f.0 * g.1 + f.1))
}

fn affine_compose(f: (i64, i64), g: (i64, i64)) -> (r: (i64, i64))
    ensures
        r == spec_affine_compose(f, g),
{
    proof {
        lemma_wrapping_mul(f.0, g.0);
        lemma_wrapping_mul(f.0, g.1);
        lemma_wrapping_add(wrapping_mul(f.0, g.1), f.1);
        lemma_wrap64_inner(f.0 * g.1, f.1 as int);
    }
    (f.0.wrapping_mul(g.0), f.0.wrapping_mul(g.1).wrapping_add(f.1))
}

/// Composition of the affine maps along a path, first vertex first; no action.
#[derive(Clone, Copy, Debug)]
pub struct PathComposite;

impl LazyMapMonoid for PathComposite {
    type Key = (i64, i64);
    type Agg = (i64, i64);
    type Act = ();

    open spec fn spec_key_unit() -> (i64, i64) { (1, 0) }
    open spec fn spec_agg_unit() -> (i64, i64) { (1, 0) }
    open spec fn spec_agg_from_key(key: (i64, i64)) -> (i64, i64) { key }
    open spec fn spec_agg_merge(left: (i64, i64), key: (i64, i64), right: (i64, i64)) -> (i64, i64) {
        spec_affine_compose(right, spec_affine_compose(key, left))
    }
    open spec fn spec_act_unit() -> () { () }
    open spec fn spec_act_compose(new: (), old: ()) -> () { () }
    open spec fn spec_act_apply_key(key: (i64, i64), act: ()) -> (i64, i64) { key }
    open spec fn spec_act_apply_agg(agg: (i64, i64), act: (), len: nat) -> (i64, i64) { agg }
    open spec fn spec_reversal_invariant() -> bool { false }

    fn reversal_invariant() -> (r: bool) {
        false
    }

    fn key_copy(key: &(i64, i64)) -> (r: (i64, i64)) {
        *key
    }

    fn agg_copy(agg: &(i64, i64)) -> (r: (i64, i64)) {
        *agg
    }

    fn act_copy(act: &()) -> (r: ()) {
        *act
    }

    fn key_unit() -> (r: (i64, i64)) {
        (1, 0)
    }

    fn agg_unit() -> (r: (i64, i64)) {
        (1, 0)
    }

    fn agg_from_key(key: &(i64, i64)) -> (r: (i64, i64)) {
        *key
    }

    fn agg_merge(left: &(i64, i64), key: &(i64, i64), right: &(i64, i64)) -> (r: (i64, i64)) {
        // the sequence left + [key] + right composes as right after key after left
        let tmp = affine_compose(*key, *left);
        affine_compose(*right, tmp)
    }

    fn act_unit() -> (r: ()) {
    }

    fn act_compose(_new: &(), _old: &()) -> (r: ()) {
    }

    fn act_apply_key(key: &(i64, i64), _act: &()) -> (r: (i64, i64)) {
        *key
    }

    fn act_apply_agg(agg: &(i64, i64), _act: &(), _len: usize) -> (r: (i64, i64)) {
        *agg
    }
}

} // verus!
