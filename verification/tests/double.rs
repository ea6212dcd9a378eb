use netmon::double::{round_whole, Double};
use netmon::rate::{each_second, seconds, share_of_cpu, tick_seconds};

fn num(x: f64) -> Double {
    Double::from_bits(x.to_bits()).unwrap()
}

fn val(d: Double) -> f64 {
    f64::from_bits(d.to_bits())
}

/// A sequence of bit patterns of all magnitudes.
fn patterns(n: usize) -> Vec<u64> {
    let mut s: u64 = 0x9E37_79B9_7F4A_7C15;
    let mut r = Vec::new();
    while r.len() < n {
        s = s.wrapping_mul(6364136223846793005).wrapping_add(1442695040888963407);
        let bits = (s >> 1) ^ (s >> 33);
        let bits = bits & 0x7FFF_FFFF_FFFF_FFFF;
        if bits <= 0x7FF0_0000_0000_0000 {
            r.push(bits);
        }
    }
    r
}

/// Numbers close to each other, where rounding matters.
fn close(n: usize) -> Vec<f64> {
    let mut s: u64 = 88172645463325252;
    let mut r = Vec::new();
    while r.len() < n {
        s ^= s << 13;
        s ^= s >> 7;
        s ^= s << 17;
        r.push((s >> 11) as f64 / (1u64 << (s % 60)) as f64);
    }
    r
}

const SPECIAL: [f64; 14] = [
    0.0,
    5e-324,
    1e-320,
    2.2250738585072014e-308,
    2.225073858507201e-308,
    0.1,
    0.5,
    1.0,
    1.1,
    3.0,
    100.0,
    9007199254740993.0,
    1.7976931348623157e308,
    f64::INFINITY,
];

fn all() -> Vec<f64> {
    let mut r: Vec<f64> = SPECIAL.to_vec();
    r.extend(patterns(120).iter().map(|b| f64::from_bits(*b)));
    r.extend(close(120));
    r
}

#[test]
fn only_numbers_without_sign_are_held() {
    assert!(Double::from_bits((-1.0f64).to_bits()).is_none());
    assert!(Double::from_bits(f64::NAN.to_bits()).is_none());
    assert!(Double::from_bits((-0.0f64).to_bits()).is_none());
    assert_eq!(val(Double::from_bits(1.5f64.to_bits()).unwrap()), 1.5);
    assert_eq!(val(Double::zero()), 0.0);
}

#[test]
fn sums_differences_products_and_quotients_round_as_ieee() {
    let xs = all();
    for &a in &xs {
        for &b in &xs {
            assert_eq!(val(num(a).plus(num(b))), a + b, "{} + {}", a, b);
            assert_eq!(num(a).le(num(b)), a <= b);
            assert_eq!(val(num(a).max(num(b))), a.max(b));
            assert_eq!(val(num(a).min(num(b))), a.min(b));
            if a.is_finite() && b.is_finite() {
                assert_eq!(val(num(a).diff(num(b))), (a - b).abs(), "{} - {}", a, b);
            }
            if !(a * b).is_nan() {
                assert_eq!(val(num(a).times(num(b))), a * b, "{} * {}", a, b);
            }
            if b > 0.0 && !(a / b).is_nan() {
                assert_eq!(val(num(a).over(num(b))), a / b, "{} / {}", a, b);
            }
        }
    }
}

#[test]
fn whole_parts_saturate() {
    for a in all() {
        assert_eq!(num(a).floor(), a as u64);
        assert_eq!(num(a).ceil(), a.ceil() as u64);
        assert_eq!(num(a).round(), a.round() as u64);
    }
    assert_eq!(num(2.5).round(), 3);
    assert_eq!(num(2.4999).round(), 2);
    assert_eq!(num(2.0001).ceil(), 3);
    assert_eq!(num(f64::INFINITY).floor(), u64::MAX);
}

#[test]
fn integers_are_rounded_to_the_nearest() {
    for n in [
        0u64,
        1,
        1023,
        9007199254740991,
        9007199254740992,
        9007199254740993,
        9007199254740995,
        u64::MAX - 1024,
        u64::MAX - 1025,
        u64::MAX,
    ] {
        assert_eq!(val(Double::from_u64(n)), n as f64);
        assert_eq!(round_whole(n), (n as f64) as u128);
    }
    for b in patterns(200) {
        assert_eq!(val(Double::from_u64(b)), b as f64);
        assert_eq!(round_whole(b), (b as f64) as u128);
    }
}

#[test]
fn times_and_rates_match_floating_point() {
    for ns in [1u64, 499_999_999, 500_000_000, 1_000_000_000, 1_500_000_001, u64::MAX] {
        let t = std::time::Duration::from_nanos(ns).as_secs_f64();
        assert_eq!(val(seconds(ns)), t);
        for amount in [0u64, 1, 6313, 1_000_000_007, u64::MAX] {
            assert_eq!(val(each_second(amount, ns)), amount as f64 / t);
            assert_eq!(val(share_of_cpu(amount, 100, ns)), (amount as f64 / (100.0 * t)) * 100.0);
        }
    }
    assert_eq!(val(tick_seconds(13148, 100)), 131.48);
    assert_eq!(val(seconds(0)), 0.0);
}

#[test]
fn tenths_round_half_to_even() {
    for (x, t) in [
        (0.0, 0u64),
        (0.25, 2),
        (0.75, 8),
        (0.05, 1),
        (23.44, 234),
        (99.95, 1000),
        (1e-300, 0),
        (5e-324, 0),
        (4503599627370495.5, 45035996273704955),
    ] {
        assert!(num(x).is_small());
        assert_eq!(num(x).tenths(), t, "{}", x);
    }
    assert!(!num(9007199254740992.0).is_small());
}
