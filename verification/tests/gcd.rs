use alg_playground::bench::random_bits_bounds;
use alg_playground::gcd::{gcd_binary, gcd_euclid};

#[test]
fn gcd_known_cases() {
    let cases = [
        (0_u64, 0_u64, 0_u64),
        (0, 18, 18),
        (18, 0, 18),
        (54, 24, 6),
        (48, 180, 12),
        (17, 13, 1),
        (4096, 256, 256),
    ];

    for (a, b, expected) in cases {
        assert_eq!(gcd_euclid(a, b), expected);
        assert_eq!(gcd_binary(a, b), expected);
    }
}

#[test]
fn gcd_impls_agree() {
    let pairs = [
        (1_u64, 1_u64),
        (2, 3),
        (7, 14),
        (25, 100),
        (81, 153),
        (9_699, 3_231),
    ];

    for (a, b) in pairs {
        let euclid = gcd_euclid(a, b);
        assert_eq!(gcd_binary(a, b), euclid);
    }
}

#[test]
fn gcd_extremes() {
    assert_eq!(gcd_euclid(u64::MAX, u64::MAX), u64::MAX);
    assert_eq!(gcd_binary(u64::MAX, u64::MAX), u64::MAX);
    assert_eq!(gcd_euclid(u64::MAX, 0), u64::MAX);
    assert_eq!(gcd_binary(0, u64::MAX), u64::MAX);
    assert_eq!(gcd_euclid(1 << 63, 1 << 40), 1 << 40);
    assert_eq!(gcd_binary(1 << 63, 1 << 40), 1 << 40);
    assert_eq!(gcd_euclid(u64::MAX, u64::MAX - 1), 1);
    assert_eq!(gcd_binary(u64::MAX, u64::MAX - 1), 1);
}

#[test]
fn gcd_is_commutative_on_samples() {
    for a in 0..60_u64 {
        for b in 0..60_u64 {
            assert_eq!(gcd_euclid(a, b), gcd_euclid(b, a));
            assert_eq!(gcd_binary(a, b), gcd_euclid(a, b));
            let g = gcd_binary(a, b);
            if g != 0 {
                assert_eq!(a % g, 0);
                assert_eq!(b % g, 0);
            }
        }
    }
}

#[test]
fn random_bits_bounds_cover_exactly_the_bit_length() {
    assert_eq!(random_bits_bounds(1), (1, 1));
    assert_eq!(random_bits_bounds(8), (128, 255));
    assert_eq!(random_bits_bounds(63), (1 << 62, (1 << 63) - 1));
    assert_eq!(random_bits_bounds(64), (1 << 63, u64::MAX));
    assert_eq!(random_bits_bounds(100), (1 << 63, u64::MAX));
}
