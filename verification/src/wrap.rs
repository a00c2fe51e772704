//! Two's-complement wrapping of `i64` arithmetic, stated over `int`.

use vstd::prelude::*;
use vstd::wrapping::i64_specs::{signed_crop, wrapping_add, wrapping_mul};
use vstd::arithmetic::div_mod::{lemma_fundamental_div_mod, lemma_mod_multiples_vanish, lemma_small_mod};

verus! {

/// `x` reduced into the `i64` range modulo `2^64`.
pub open spec fn wrap64(x: int) -> i64 {
    signed_crop(x)
}

pub open spec fn modulus() -> int {
    0x1_0000_0000_0000_0000
}

/// `wrap64(x)` is congruent to `x`.
pub proof fn lemma_wrap64_congruent(x: int) -> (q: int)
    ensures
        x == wrap64(x) as int + q * modulus(),
{
    let r = modulus();
    lemma_fundamental_div_mod(x, r);
    let q = x / r;
    if x % r > i64::MAX as int {
        assert(x == wrap64(x) as int + (q + 1) * r) by (nonlinear_arith)
            requires x == r * q + x % r, wrap64(x) as int == x % r - r;
        q + 1
    } else {
        assert(x == wrap64(x) as int + q * r) by (nonlinear_arith)
            requires x == r * q + x % r, wrap64(x) as int == x % r;
        q
    }
}

/// Congruent values wrap to the same `i64`.
pub proof fn lemma_wrap64_shift(x: int, q: int)
    ensures
        wrap64(x + q * modulus()) == wrap64(x),
{
    let r = modulus();
    lemma_mod_multiples_vanish(q, x, r);
    assert((x + q * r) % r == x % r) by {
        assert(x + q * r == r * q + x) by (nonlinear_arith);
    }
}

/// Wrapping is insensitive to an inner wrap.
pub proof fn lemma_wrap64_inner(u: int, v: int)
    ensures
        wrap64(wrap64(u) + v) == wrap64(u + v),
{
    let q = lemma_wrap64_congruent(u);
    lemma_wrap64_shift(wrap64(u) + v, q);
    assert(wrap64(u) + v + q * modulus() == u + v);
}

/// An `i64` wraps to itself.
pub proof fn lemma_wrap64_id(a: i64)
    ensures
        wrap64(a as int) == a,
{
    let r = modulus();
    if a >= 0 {
        lemma_small_mod(a as nat, r as nat);
    } else {
        lemma_mod_multiples_vanish(1, a as int, r);
        assert(r * 1 + a == a + r);
        lemma_small_mod((a + r) as nat, r as nat);
    }
}

/// `i64::wrapping_add` wraps the exact sum.
pub proof fn lemma_wrapping_add(a: i64, b: i64)
    ensures
        wrapping_add(a, b) == wrap64(a + b),
{
    let r = modulus();
    let s = a + b;
    if s > i64::MAX {
        lemma_wrap64_id((s - r) as i64);
        lemma_wrap64_shift(s - r, 1);
    } else if s < i64::MIN {
        lemma_wrap64_id((s + r) as i64);
        lemma_wrap64_shift(s + r, -1);
    } else {
        lemma_wrap64_id(s as i64);
    }
}

/// `i64::wrapping_mul` wraps the exact product.
pub proof fn lemma_wrapping_mul(a: i64, b: i64)
    ensures
        wrapping_mul(a, b) == wrap64(a * b),
{
}

} // verus!
