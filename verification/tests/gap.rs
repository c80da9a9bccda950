use cdr_outline::gap::{does_gap_exceed, is_gap_within};
use cdr_outline::measure::{is_before, is_finite, is_finite_positive, is_less, is_nan, is_same};

/// A sequence of numbers without a pattern.
fn step(state: &mut u64) -> u64 {
    *state ^= *state << 13;
    *state ^= *state >> 7;
    *state ^= *state << 17;
    *state
}

fn compare(a: f64, b: f64, limit: f64) {
    let within = (a - b).abs() <= limit;
    let exceeds = (a - b).abs() > limit;
    assert_eq!(
        is_gap_within(a.to_bits(), b.to_bits(), limit.to_bits()),
        within,
        "{a:e} {b:e} {limit:e}"
    );
    assert_eq!(
        does_gap_exceed(a.to_bits(), b.to_bits(), limit.to_bits()),
        exceeds,
        "{a:e} {b:e} {limit:e}"
    );
}

#[test]
fn gaps_are_those_of_rounded_differences() {
    let mut state = 0x9e37_79b9_7f4a_7c15u64;
    for limit in [1.0e-9, 1.0e-7, 0.002, 0.2] {
        for _ in 0..20_000 {
            let a = f64::from_bits(step(&mut state));
            let b = f64::from_bits(step(&mut state));
            compare(a, b, limit);
        }
        for _ in 0..20_000 {
            let a = (step(&mut state) % 1_000_000) as f64 / 997.0 - 400.0;
            let shift = (step(&mut state) % 9) as i64 - 4;
            let b = a + limit;
            compare(a, f64::from_bits((b.to_bits() as i64 + shift) as u64), limit);
            compare(a, a - limit, limit);
            compare(-a, limit - a, limit);
        }
    }
}

#[test]
fn gaps_at_the_ends_of_the_range() {
    for a in [0.0, -0.0, f64::MIN_POSITIVE, 5.0e-324, f64::MAX, f64::INFINITY, f64::NAN, 1.0e-9] {
        for b in [0.0, -0.0, -f64::MIN_POSITIVE, f64::MAX, -f64::MAX, f64::NEG_INFINITY, 2.0e-9] {
            compare(a, b, 1.0e-9);
            compare(b, a, 1.0e-9);
            compare(a, a, 1.0e-9);
        }
    }
}

#[test]
fn patterns_compare_like_their_numbers() {
    let values = [
        0.0,
        -0.0,
        1.0,
        -1.0,
        5.0e-324,
        f64::MAX,
        f64::MIN,
        f64::INFINITY,
        f64::NEG_INFINITY,
        f64::NAN,
        -f64::NAN,
    ];
    for a in values {
        assert_eq!(is_finite(a.to_bits()), a.is_finite());
        assert_eq!(is_nan(a.to_bits()), a.is_nan());
        assert_eq!(is_finite_positive(a.to_bits()), a.is_finite() && a > 0.0);
        for b in values {
            assert_eq!(is_less(a.to_bits(), b.to_bits()), a < b);
            assert_eq!(is_same(a.to_bits(), b.to_bits()), a == b);
            assert_eq!(
                is_before(a.to_bits(), b.to_bits()),
                a.total_cmp(&b) == std::cmp::Ordering::Less
            );
        }
    }
}
