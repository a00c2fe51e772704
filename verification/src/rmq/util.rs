use vstd::prelude::*;
use vstd::arithmetic::power2::{pow2, lemma2_to64, lemma_pow2_unfold, lemma_pow2_pos};
use vstd::bits::lemma_u64_shr_is_div;
use vstd::std_specs::bits::{u64_leading_zeros, axiom_u64_leading_zeros};
use crate::rmq::better;

verus! {

/// Index of the smaller value, the smaller index on ties.
pub(crate) fn better_index(values: &[i64], a: usize, b: usize) -> (r: usize)
    requires
        a < values@.len(),
        b < values@.len(),
    ensures
        r as int == better(values@, a as int, b as int),
{
    let va = values[a];
    let vb = values[b];
    if va < vb || (va == vb && a < b) { a } else { b }
}

/// Like `better_index`, for `a < b`.
pub(crate) fn better_index_ordered(values: &[i64], a: usize, b: usize) -> (r: usize)
    requires
        a < b < values@.len(),
    ensures
        r == if values@[a as int] <= values@[b as int] { a } else { b },
        r as int == better(values@, a as int, b as int),
{
    if values[a] <= values[b] { a } else { b }
}

/// Whether `a` beats `b`: smaller value, then smaller index.
pub(crate) fn is_strictly_less(values: &[i64], a: usize, b: usize) -> (r: bool)
    requires
        a < values@.len(),
        b < values@.len(),
    ensures
        r == (values@[a as int] < values@[b as int] || (values@[a as int] == values@[b as int] && a < b)),
{
    let va = values[a];
    let vb = values[b];
    va < vb || (va == vb && a < b)
}

/// `floor(log2(x))` for `x > 0`.
pub(crate) fn floor_log2_nonzero(x: usize) -> (r: u32)
    requires
        x > 0,
    ensures
        r < 64,
        pow2(r as nat) <= x < pow2(r as nat + 1),
{
    let lz = (x as u64).leading_zeros();
    proof {
        let i = x as u64;
        axiom_u64_leading_zeros(i);
        let z = u64_leading_zeros(i);
        assert(z < 64);
        let k = (63 - z) as u64;
        let y = i >> k;
        assert(y & 1u64 != 0u64 ==> y >= 1) by (bit_vector);
        lemma_u64_shr_is_div(i, k);
        lemma_pow2_pos(k as nat);
        assert(i as nat / pow2(k as nat) >= 1);
        assert(pow2(k as nat) <= i) by {
            vstd::arithmetic::div_mod::lemma_fundamental_div_mod(i as int, pow2(k as nat) as int);
            assert(i == pow2(k as nat) * (i as nat / pow2(k as nat)) + i as nat % pow2(k as nat));
            assert(pow2(k as nat) * (i as nat / pow2(k as nat)) >= pow2(k as nat)) by (nonlinear_arith)
                requires i as nat / pow2(k as nat) >= 1, pow2(k as nat) > 0;
        }
        if z >= 1 {
            let k1 = (64 - z) as u64;
            assert(i >> k1 == 0);
            lemma_u64_shr_is_div(i, k1);
            lemma_pow2_pos(k1 as nat);
            assert(i < pow2(k1 as nat)) by {
                vstd::arithmetic::div_mod::lemma_fundamental_div_mod(i as int, pow2(k1 as nat) as int);
                vstd::arithmetic::div_mod::lemma_mod_bound(i as int, pow2(k1 as nat) as int);
            }
        } else {
            lemma2_to64();
        }
    }
    63 - lz
}

} // verus!
