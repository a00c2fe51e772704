use vstd::prelude::*;
use vstd::arithmetic::power2::{pow2, lemma2_to64, lemma_pow2_pos, lemma_pow2_unfold, lemma_pow2_adds};
use vstd::arithmetic::div_mod::{lemma_mod_breakdown, lemma_fundamental_div_mod, lemma_mod_multiples_vanish, lemma_small_mod};
use vstd::bits::{lemma_u64_shr_is_div, lemma_u64_shl_is_mul};
use vstd::std_specs::bits::{u64_trailing_zeros, axiom_u64_trailing_zeros};

verus! {

/// Greatest common divisor, by Euclid's recursion (`gcd(a, 0) = a`).
pub open spec fn spec_gcd(a: nat, b: nat) -> nat
    decreases b,
{
    if b == 0 {
        a
    } else {
        spec_gcd(b, a % b)
    }
}

/// `d` is a positive divisor of `n`.
pub open spec fn divides(d: nat, n: nat) -> bool {
    d > 0 && n % d == 0
}

proof fn lemma_mod_of_multiple_plus(q: nat, m: nat, r: nat, d: nat)
    requires
        d > 0,
        m % d == 0,
    ensures
        (q * m + r) % d == r % d,
{
    lemma_fundamental_div_mod(m as int, d as int);
    let k = m / d;
    assert(q * m == d * (q * k)) by (nonlinear_arith)
        requires m == d * k + 0;
    lemma_mod_multiples_vanish((q * k) as int, r as int, d as int);
}

/// One Euclid step keeps the common divisors.
proof fn lemma_euclid_step_divisors(a: nat, b: nat, d: nat)
    requires
        b > 0,
        d > 0,
    ensures
        (a % d == 0 && b % d == 0) <==> (b % d == 0 && (a % b) % d == 0),
{
    lemma_fundamental_div_mod(a as int, b as int);
    let q = a / b;
    let r = a % b;
    assert(a == q * b + r) by (nonlinear_arith)
        requires a == b * q + r;
    if b % d == 0 {
        lemma_mod_of_multiple_plus(q, b, r, d);
    }
}

/// The common divisors of `a` and `b` are exactly the divisors of `spec_gcd(a, b)`.
pub proof fn lemma_gcd_divisors(a: nat, b: nat)
    ensures
        forall|d: nat| (divides(d, a) && divides(d, b)) <==> #[trigger] divides(d, spec_gcd(a, b)),
    decreases b,
{
    if b > 0 {
        lemma_gcd_divisors(b, a % b);
        assert forall|d: nat| (divides(d, a) && divides(d, b)) <==> #[trigger] divides(d, spec_gcd(a, b)) by {
            if d > 0 {
                lemma_euclid_step_divisors(a, b, d);
                assert(divides(d, spec_gcd(b, a % b)) <==> (divides(d, b) && divides(d, a % b)));
            }
        }
    }
}

/// Two numbers with the same positive divisors are equal.
proof fn lemma_same_divisors_equal(g1: nat, g2: nat)
    requires
        forall|d: nat| #[trigger] divides(d, g1) <==> divides(d, g2),
    ensures
        g1 == g2,
{
    if g1 == 0 {
        let d = g2 + 1;
        assert(divides(d, g1));
        lemma_small_mod(g2, d);
    } else if g2 == 0 {
        let d = g1 + 1;
        assert(divides(d, g2));
        assert(divides(d, g1));
        lemma_small_mod(g1, d);
    } else {
        assert(g1 % g1 == 0) by { lemma_mod_multiples_vanish(1, 0, g1 as int); }
        assert(g2 % g2 == 0) by { lemma_mod_multiples_vanish(1, 0, g2 as int); }
        assert(divides(g1, g1));
        assert(divides(g2, g2));
        assert(divides(g1, g2));
        assert(divides(g2, g1));
        assert(g2 % g1 == 0);
        assert(g1 % g2 == 0);
        lemma_fundamental_div_mod(g2 as int, g1 as int);
        lemma_fundamental_div_mod(g1 as int, g2 as int);
        let k1 = g2 / g1;
        let k2 = g1 / g2;
        assert(g1 == g2) by (nonlinear_arith)
            requires g2 == g1 * k1, g1 == g2 * k2, g1 > 0, g2 > 0, k1 >= 0, k2 >= 0;
    }
}

/// `spec_gcd(a, b)` divides both arguments, and every common divisor divides it.
pub proof fn lemma_gcd_is_greatest_common_divisor(a: nat, b: nat)
    ensures
        spec_gcd(a, b) > 0 ==> a % spec_gcd(a, b) == 0 && b % spec_gcd(a, b) == 0,
        spec_gcd(a, b) == 0 <==> (a == 0 && b == 0),
        forall|d: nat| divides(d, a) && divides(d, b) ==> #[trigger] divides(d, spec_gcd(a, b)),
{
    lemma_gcd_divisors(a, b);
    let g = spec_gcd(a, b);
    if g > 0 {
        assert(g % g == 0) by { lemma_mod_multiples_vanish(1, 0, g as int); }
        assert(divides(g, g));
    } else {
        assert(divides(a + 1, g));
        lemma_small_mod(a, a + 1);
        assert(divides(b + 1, g));
        lemma_small_mod(b, b + 1);
    }
    if a == 0 && b == 0 {
        assert(spec_gcd(0, 0) == 0);
    }
}

proof fn lemma_gcd_eq_by_divisors(a1: nat, b1: nat, a2: nat, b2: nat)
    requires
        forall|d: nat| d > 0 ==> ((#[trigger] divides(d, a1) && divides(d, b1)) <==> (divides(d, a2) && divides(d, b2))),
    ensures
        spec_gcd(a1, b1) == spec_gcd(a2, b2),
{
    lemma_gcd_divisors(a1, b1);
    lemma_gcd_divisors(a2, b2);
    assert forall|d: nat| #[trigger] divides(d, spec_gcd(a1, b1)) <==> divides(d, spec_gcd(a2, b2)) by {
        if d > 0 {
            assert((divides(d, a1) && divides(d, b1)) <==> divides(d, spec_gcd(a1, b1)));
            assert((divides(d, a2) && divides(d, b2)) <==> divides(d, spec_gcd(a2, b2)));
        }
    }
    lemma_same_divisors_equal(spec_gcd(a1, b1), spec_gcd(a2, b2));
}

/// `gcd` is symmetric.
pub proof fn lemma_gcd_commutative(a: nat, b: nat)
    ensures
        spec_gcd(a, b) == spec_gcd(b, a),
{
    lemma_gcd_eq_by_divisors(a, b, b, a);
}

/// Subtracting the smaller argument from the larger keeps the gcd.
proof fn lemma_gcd_sub(a: nat, b: nat)
    requires
        a <= b,
    ensures
        spec_gcd(a, b) == spec_gcd(a, (b - a) as nat),
{
    assert forall|d: nat| d > 0 implies ((#[trigger] divides(d, a) && divides(d, b)) <==> (divides(d, a) && divides(d, (b - a) as nat))) by {
        if a % d == 0 {
            lemma_mod_of_multiple_plus(1, a, (b - a) as nat, d);
        }
    }
    lemma_gcd_eq_by_divisors(a, b, a, (b - a) as nat);
}

proof fn lemma_odd_divisor(a: nat, d: nat)
    requires
        a % 2 == 1,
        d > 0,
        a % d == 0,
    ensures
        d % 2 == 1,
{
    lemma_fundamental_div_mod(a as int, d as int);
    lemma_fundamental_div_mod(d as int, 2);
    let q = a / d;
    let h = d / 2;
    if d % 2 == 0 {
        assert(a == 2 * (h * q)) by (nonlinear_arith)
            requires a == d * q, d == 2 * h;
        lemma_mod_multiples_vanish((h * q) as int, 0, 2);
    }
}

proof fn lemma_odd_divides_double(b: nat, d: nat)
    requires
        d % 2 == 1,
        (2 * b) % d == 0,
    ensures
        b % d == 0,
{
    lemma_fundamental_div_mod(b as int, d as int);
    let q = b / d;
    let r = b % d;
    assert(2 * b == (2 * q) * d + 2 * r) by (nonlinear_arith)
        requires b == d * q + r;
    lemma_mod_multiples_vanish(1, 0, d as int);
    lemma_mod_of_multiple_plus(2 * q, d, 2 * r, d);
    // (2 * r) % d == 0 with 0 <= 2 * r < 2 * d
    if r > 0 {
        if 2 * r < d {
            lemma_small_mod(2 * r, d);
        } else {
            lemma_mod_multiples_vanish(1, (2 * r - d) as int, d as int);
            lemma_small_mod((2 * r - d) as nat, d);
        }
    }
}

/// With `a` odd, a factor two in `b` does not change the gcd.
proof fn lemma_gcd_odd_double(a: nat, b: nat)
    requires
        a % 2 == 1,
    ensures
        spec_gcd(a, 2 * b) == spec_gcd(a, b),
{
    assert forall|d: nat| d > 0 implies ((#[trigger] divides(d, a) && divides(d, 2 * b)) <==> (divides(d, a) && divides(d, b))) by {
        if a % d == 0 {
            lemma_odd_divisor(a, d);
            if (2 * b) % d == 0 {
                lemma_odd_divides_double(b, d);
            }
            if b % d == 0 {
                lemma_mod_of_multiple_plus(2, b, 0, d);
            }
        }
    }
    lemma_gcd_eq_by_divisors(a, 2 * b, a, b);
}

proof fn lemma_gcd_odd_pow2(a: nat, b: nat, k: nat)
    requires
        a % 2 == 1,
    ensures
        spec_gcd(a, b * pow2(k)) == spec_gcd(a, b),
    decreases k,
{
    if k == 0 {
        lemma2_to64();
    } else {
        lemma_pow2_unfold(k);
        let k1 = (k - 1) as nat;
        assert(b * pow2(k) == 2 * (b * pow2(k1))) by (nonlinear_arith)
            requires pow2(k) == 2 * pow2(k1);
        lemma_gcd_odd_double(a, b * pow2(k1));
        lemma_gcd_odd_pow2(a, b, k1);
    }
}

proof fn lemma_gcd_double(a: nat, b: nat)
    ensures
        spec_gcd(2 * a, 2 * b) == 2 * spec_gcd(a, b),
    decreases b,
{
    if b > 0 {
        lemma_mod_breakdown((2 * a) as int, 2, b as int);
        assert((2 * a) / 2 == a);
        lemma_mod_multiples_vanish(a as int, 0, 2);
        assert((2 * a) % (2 * b) == 2 * (a % b));
        lemma_gcd_double(b, a % b);
    }
}

proof fn lemma_gcd_pow2(a: nat, b: nat, k: nat)
    ensures
        spec_gcd(a * pow2(k), b * pow2(k)) == pow2(k) * spec_gcd(a, b),
    decreases k,
{
    if k == 0 {
        lemma2_to64();
    } else {
        lemma_pow2_unfold(k);
        let k1 = (k - 1) as nat;
        let p = pow2(k1);
        assert(a * pow2(k) == 2 * (a * p)) by (nonlinear_arith)
            requires pow2(k) == 2 * p;
        assert(b * pow2(k) == 2 * (b * p)) by (nonlinear_arith)
            requires pow2(k) == 2 * p;
        lemma_gcd_double(a * p, b * p);
        lemma_gcd_pow2(a, b, k1);
        assert(2 * (p * spec_gcd(a, b)) == pow2(k) * spec_gcd(a, b)) by (nonlinear_arith)
            requires pow2(k) == 2 * p;
    }
}

/// A nonzero value is its odd part times two to the number of trailing zeros.
proof fn lemma_trailing_zeros_split(x: u64)
    requires
        x != 0,
    ensures
        u64_trailing_zeros(x) < 64,
        (x >> (u64_trailing_zeros(x) as u64)) as nat % 2 == 1,
        x as nat == (x >> (u64_trailing_zeros(x) as u64)) as nat * pow2(u64_trailing_zeros(x) as nat),
{
    axiom_u64_trailing_zeros(x);
    let t = u64_trailing_zeros(x) as u64;
    assert(t < 64);
    let y = x >> t;
    assert(y & 1u64 == 1u64);
    assert(y & 1u64 == 1u64 ==> y % 2 == 1) by (bit_vector);
    lemma_u64_shr_is_div(x, t);
    // every low bit below t is zero, so x is a multiple of 2^t
    lemma_low_zero_bits_multiple(x, t as nat, t);
    lemma_pow2_pos(t as nat);
    lemma_fundamental_div_mod(x as int, pow2(t as nat) as int);
}

proof fn lemma_low_zero_bits_multiple(x: u64, j: nat, t: u64)
    requires
        j <= t < 64,
        forall|i: u64| 0 <= i < t ==> #[trigger] (x >> i) & 1u64 == 0u64,
    ensures
        x as nat % pow2(j) == 0,
    decreases j,
{
    if j == 0 {
        lemma2_to64();
    } else {
        let j1 = (j - 1) as nat;
        lemma_low_zero_bits_multiple(x, j1, t);
        let i = j1 as u64;
        assert((x >> i) & 1u64 == 0u64);
        lemma_u64_shr_is_div(x, i);
        let y = x >> i;
        assert(y & 1u64 == 0u64 ==> y % 2 == 0) by (bit_vector);
        lemma_pow2_unfold(j);
        lemma_pow2_pos(j1);
        lemma_mod_breakdown(x as int, pow2(j1) as int, 2);
        assert(pow2(j1) * 2 == pow2(j));
    }
}

/// Binary gcd: `tz(a | b)` is the smaller of the two trailing-zero counts.
proof fn lemma_trailing_zeros_or(a: u64, b: u64)
    requires
        a != 0,
        b != 0,
    ensures
        u64_trailing_zeros(a | b) == if u64_trailing_zeros(a) <= u64_trailing_zeros(b) {
            u64_trailing_zeros(a)
        } else {
            u64_trailing_zeros(b)
        },
{
    axiom_u64_trailing_zeros(a);
    axiom_u64_trailing_zeros(b);
    axiom_u64_trailing_zeros(a | b);
    assert(a | b != 0) by (bit_vector)
        requires a != 0;
    let ta = u64_trailing_zeros(a) as u64;
    let tb = u64_trailing_zeros(b) as u64;
    let t = u64_trailing_zeros(a | b) as u64;
    let m = if ta <= tb { ta } else { tb };
    assert forall|i: u64| 0 <= i < 64 implies #[trigger] ((a | b) >> i) & 1u64 == (((a >> i) & 1u64) | ((b >> i) & 1u64)) by {
        assert(((a | b) >> i) & 1u64 == (((a >> i) & 1u64) | ((b >> i) & 1u64))) by (bit_vector);
    }
    if t < m {
        assert((a >> t) & 1u64 == 0u64);
        assert((b >> t) & 1u64 == 0u64);
        assert(((a | b) >> t) & 1u64 == (((a >> t) & 1u64) | ((b >> t) & 1u64)));
        assert(0u64 | 0u64 == 0u64) by (bit_vector);
    }
    if t > m {
        assert(((a | b) >> m) & 1u64 == 0u64);
        assert(((a | b) >> m) & 1u64 == (((a >> m) & 1u64) | ((b >> m) & 1u64)));
        if ta <= tb {
            assert((a >> m) & 1u64 == 1u64);
        } else {
            assert((b >> m) & 1u64 == 1u64);
        }
        let x = (a >> m) & 1u64;
        let y = (b >> m) & 1u64;
        assert((x == 1u64 || y == 1u64) ==> (x | y) != 0u64) by (bit_vector);
    }
}

/// Euclid's algorithm.
pub fn gcd_euclid(a: u64, b: u64) -> (g: u64)
    ensures
        g == spec_gcd(a as nat, b as nat),
{
    let mut a = a;
    let mut b = b;
    let ghost a0 = a as nat;
    let ghost b0 = b as nat;
    while b != 0
        invariant
            spec_gcd(a as nat, b as nat) == spec_gcd(a0, b0),
        decreases b,
    {
        let r = a % b;
        a = b;
        b = r;
    }
    a
}

/// Stein's binary gcd algorithm.
pub fn gcd_binary(a: u64, b: u64) -> (g: u64)
    ensures
        g == spec_gcd(a as nat, b as nat),
{
    if a == 0 {
        proof {
            lemma_gcd_commutative(0, b as nat);
        }
        return b;
    }
    if b == 0 {
        return a;
    }
    let ghost a0 = a as nat;
    let ghost b0 = b as nat;
    let shift = (a | b).trailing_zeros();
    let ta = a.trailing_zeros();
    proof {
        lemma_trailing_zeros_or(a, b);
        lemma_trailing_zeros_split(a);
        lemma_trailing_zeros_split(b);
    }
    let mut u = a >> ta;
    let mut v = b;
    proof {
        // gcd(a0, b0) == 2^shift * gcd(odd part of a0, b0)
        let tb = u64_trailing_zeros(v) as nat;
        let oa = u as nat;
        let ob = (v >> (tb as u64)) as nat;
        let s = shift as nat;
        let tan = ta as nat;
        lemma_pow2_adds(s, (tan - s) as nat);
        lemma_pow2_adds(s, (tb - s) as nat);
        let xa = oa * pow2((tan - s) as nat);
        let xb = ob * pow2((tb - s) as nat);
        assert(a0 == xa * pow2(s)) by (nonlinear_arith)
            requires a0 == oa * pow2(tan), pow2(tan) == pow2(s) * pow2((tan - s) as nat), xa == oa * pow2((tan - s) as nat);
        assert(b0 == xb * pow2(s)) by (nonlinear_arith)
            requires b0 == ob * pow2(tb), pow2(tb) == pow2(s) * pow2((tb - s) as nat), xb == ob * pow2((tb - s) as nat);
        lemma_gcd_pow2(xa, xb, s);
        // one of the two exponents is zero
        if tan == s {
            lemma2_to64();
            assert(pow2((tan - s) as nat) == 1);
            assert(xa == oa);
            lemma_gcd_odd_pow2(oa, ob, (tb - s) as nat);
        } else {
            assert(tb == s);
            lemma2_to64();
            assert(pow2((tb - s) as nat) == 1);
            assert(xb == ob);
            lemma_gcd_commutative(xa, xb);
            lemma_gcd_odd_pow2(ob, oa, (tan - s) as nat);
            lemma_gcd_commutative(ob, oa);
        }
        lemma_gcd_odd_pow2(oa, ob, tb);
        assert(spec_gcd(a0, b0) == pow2(s) * spec_gcd(u as nat, v as nat));
        lemma_pow2_pos(s);
    }
    loop
        invariant
            u as nat % 2 == 1,
            v != 0,
            shift < 64,
            spec_gcd(a0, b0) == pow2(shift as nat) * spec_gcd(u as nat, v as nat),
            0 < a0 <= u64::MAX,
            a0 == a as nat,
            b0 == b as nat,
        decreases u as int + v as int,
    {
        let tb = v.trailing_zeros();
        proof {
            lemma_trailing_zeros_split(v);
            lemma_gcd_odd_pow2(u as nat, (v >> tb as u64) as nat, tb as nat);
        }
        let ghost b_before = v;
        v = v >> tb;
        assert(v <= b_before) by {
            lemma_pow2_pos(tb as nat);
            assert(v as nat * 1 <= v as nat * pow2(tb as nat)) by (nonlinear_arith)
                requires pow2(tb as nat) >= 1;
        }
        if u > v {
            proof {
                lemma_gcd_commutative(u as nat, v as nat);
            }
            let t = u;
            u = v;
            v = t;
        }
        proof {
            lemma_gcd_sub(u as nat, v as nat);
        }
        v = v - u;
        if v == 0 {
            proof {
                lemma_pow2_pos(shift as nat);
                lemma_gcd_is_greatest_common_divisor(a0, b0);
                assert(spec_gcd(u as nat, 0) == u as nat);
                let g = spec_gcd(a0, b0);
                assert(g > 0);
                assert(a0 % g == 0);
                lemma_fundamental_div_mod(a0 as int, g as int);
                assert(g <= a0) by (nonlinear_arith)
                    requires a0 == g * (a0 / g), a0 > 0, g > 0;
                assert(u as nat * pow2(shift as nat) == pow2(shift as nat) * u as nat) by (nonlinear_arith);
                assert(u as nat * pow2(shift as nat) <= u64::MAX);
                lemma_u64_shl_is_mul(u, shift as u64);
            }
            let sh: u64 = shift as u64;
            return u << sh;
        }
    }
}

} // verus!
