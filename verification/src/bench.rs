//! Inputs for the benchmarks.

use vstd::prelude::*;
use vstd::arithmetic::power2::{pow2, lemma_pow2_strictly_increases};
use vstd::bits::{lemma_u64_shl_is_mul, lemma_u64_pow2_no_overflow};

verus! {

/// The values whose highest set bit is bit `bits - 1` (at most bit 63):
/// `[2^(bits - 1), 2^bits - 1]`, or `[2^63, u64::MAX]` from 64 bits on.
pub fn random_bits_bounds(bits: u32) -> (r: (u64, u64))
    requires
        bits > 0,
    ensures
        r.0 == pow2((if bits - 1 < 63 { bits - 1 } else { 63 }) as nat),
        r.1 == if bits >= 64 { u64::MAX as int } else { pow2(bits as nat) - 1 },
        r.0 <= r.1,
{
    let high_bit = if bits - 1 < 63 { bits - 1 } else { 63 };
    let shift = high_bit as u64;
    proof {
        lemma_u64_pow2_no_overflow(shift as nat);
        lemma_u64_shl_is_mul(1, shift);
    }
    let min = 1u64 << shift;
    let max = if bits >= 64 {
        u64::MAX
    } else {
        let b = bits as u64;
        proof {
            lemma_u64_pow2_no_overflow(b as nat);
            lemma_u64_shl_is_mul(1, b);
            lemma_pow2_strictly_increases(shift as nat, b as nat);
        }
        (1u64 << b) - 1
    };
    (min, max)
}

} // verus!
