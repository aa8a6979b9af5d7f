use clam_core::double::Double;
use clam_core::wallet::lamports_to_sol;
use clam_core::x402_client::base_units_to_usdc;

fn double(value: f64) -> Double {
    Double { bits: value.to_bits() }
}

fn usdc(raw: &str) -> f64 {
    f64::from_bits(base_units_to_usdc(raw).bits)
}

#[test]
fn doubles_compare_as_ieee_says() {
    let values = [
        0.0,
        -0.0,
        1.0,
        -1.0,
        0.05,
        0.1,
        1e-320,
        -1e-320,
        5e-324,
        f64::MIN_POSITIVE,
        f64::MAX,
        f64::MIN,
        f64::INFINITY,
        f64::NEG_INFINITY,
        f64::NAN,
        -f64::NAN,
    ];
    for a in values {
        for b in values {
            assert_eq!(double(a).exceeds(&double(b)), a > b, "{a} > {b}");
        }
    }
}

#[test]
fn base_units_are_millionths() {
    assert_eq!(usdc("1000"), 0.001);
    assert_eq!(usdc("1"), 0.000001);
    assert_eq!(usdc("1000000"), 1.0);
    assert_eq!(usdc("4500000"), 4.5);
    assert_eq!(usdc("0"), 0.0);
}

#[test]
fn base_units_may_have_spaces_a_plus_sign_and_zeros_around_them() {
    assert_eq!(usdc("  1500000\n"), 1.5);
    assert_eq!(usdc("+2000000"), 2.0);
    assert_eq!(usdc("0007"), 0.000007);
}

#[test]
fn what_is_no_number_counts_as_zero() {
    for raw in ["", " ", "-1", "1.5", "1e6", "++1", "+", "0x10", "1 2", "\u{0661}"] {
        assert_eq!(base_units_to_usdc(raw).bits, 0, "{raw:?}");
    }
}

#[test]
fn base_units_divide_as_floats_do() {
    let mut n: u128 = 1;
    let mut seed: u64 = 0x9e37_79b9_7f4a_7c15;
    for _ in 0..2000 {
        seed ^= seed << 13;
        seed ^= seed >> 7;
        seed ^= seed << 17;
        n = (n.wrapping_mul(3)).wrapping_add(seed as u128);
        for value in [n, n >> 64, n >> 75, n >> 100, seed as u128 & 0xffff_ffff] {
            assert_eq!(usdc(&value.to_string()), value as f64 / 1_000_000.0, "{value}");
        }
    }
    assert_eq!(usdc(&u128::MAX.to_string()), u128::MAX as f64 / 1_000_000.0);
}

#[test]
fn ties_go_to_the_even_mantissa() {
    for value in [
        9_007_199_254_740_993u128,
        9_007_199_254_740_995,
        18_014_398_509_481_986,
        18_014_398_509_481_990,
        36_893_488_147_419_107_329,
    ] {
        assert_eq!(usdc(&value.to_string()), value as f64 / 1_000_000.0, "{value}");
    }
}

#[test]
fn amounts_beyond_128_bits_keep_their_size() {
    let huge = "1".to_string() + &"0".repeat(40);
    assert_eq!(usdc(&huge), 1e40 / 1_000_000.0);
    let beyond = "1".to_string() + &"0".repeat(400);
    assert_eq!(usdc(&beyond), f64::INFINITY);
    let largest_u256 = "115792089237316195423570985008687907853269984665640564039457584007913129639935";
    assert_eq!(usdc(largest_u256), 2f64.powi(256) / 1_000_000.0);
}

#[test]
fn greater_amounts_do_not_become_smaller_doubles() {
    let mut last = 0u64;
    for n in (9_007_199_254_740_900u64..9_007_199_254_741_100).chain(18_014_398_509_481_900..18_014_398_509_482_100) {
        let bits = base_units_to_usdc(&n.to_string()).bits;
        assert!(bits >= last);
        last = bits;
    }
}

#[test]
fn lamports_are_billionths() {
    for lamports in [0u64, 1, 987_000_000, 1_000_000_000, 123_456_789_012_345_678, u64::MAX, (1 << 53) + 1] {
        let sol = f64::from_bits(lamports_to_sol(lamports).bits);
        assert_eq!(sol, lamports as f64 / 1_000_000_000.0);
    }
    assert_eq!(f64::from_bits(lamports_to_sol(987_000_000).bits), 0.987);
}
