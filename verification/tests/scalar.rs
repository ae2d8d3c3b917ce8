use drone_fleet_ternary::scalar::{MINUS_ONE, ONE, ZERO};
use drone_fleet_ternary::Scalar;

fn s(v: f32) -> Scalar {
    Scalar { bits: v.to_bits() }
}

fn samples() -> Vec<f32> {
    vec![
        0.0,
        -0.0,
        f32::from_bits(1),
        -f32::from_bits(1),
        f32::MIN_POSITIVE,
        0.01,
        0.15,
        -0.15,
        0.999_999_94,
        1.0,
        -1.0,
        1.000_000_1,
        2.0,
        2.5,
        8_388_607.5,
        16_777_216.0,
        1.0e20,
        f32::MAX,
        f32::MIN,
        f32::INFINITY,
        f32::NEG_INFINITY,
        f32::NAN,
        -f32::NAN,
    ]
}

#[test]
fn named_patterns_are_the_numbers_they_name() {
    assert_eq!(ZERO, 0.0f32.to_bits());
    assert_eq!(ONE, 1.0f32.to_bits());
    assert_eq!(MINUS_ONE, (-1.0f32).to_bits());
}

#[test]
fn comparison_agrees_with_the_numbers() {
    for a in samples() {
        for b in samples() {
            assert_eq!(s(a).exceeds(s(b)), a > b, "{} > {}", a, b);
        }
    }
}

#[test]
fn raising_keeps_the_larger_number() {
    assert_eq!(s(0.5).at_least(s(0.0)), s(0.5));
    assert_eq!(s(-0.5).at_least(s(0.0)), s(0.0));
    assert_eq!(s(f32::NAN).at_least(s(0.0)), s(0.0));
    assert_eq!(s(0.0001).at_least(s(0.001)), s(0.001));
    for a in samples() {
        assert_eq!(f32::from_bits(s(a).at_least(s(0.15)).bits), a.max(0.15));
    }
}

#[test]
fn limiting_agrees_with_clamp() {
    for a in samples() {
        assert_eq!(s(a).clamp(s(-1.0), s(1.0)).bits, a.clamp(-1.0, 1.0).to_bits());
    }
}

#[test]
fn counts_are_compared_exactly() {
    // 8.0 needs 8, 8.5 needs 9, and so does anything just above 8.
    assert!(s(8.0).exceeds_count(7));
    assert!(!s(8.0).exceeds_count(8));
    assert!(s(8.5).exceeds_count(8));
    assert!(!s(8.5).exceeds_count(9));
    assert!(s(f32::from_bits(8.0f32.to_bits() + 1)).exceeds_count(8));
    assert!(s(0.25).exceeds_count(0));
    assert!(!s(0.25).exceeds_count(1));
    assert!(s(f32::from_bits(1)).exceeds_count(0));
    assert!(!s(0.0).exceeds_count(0));
    assert!(!s(-3.0).exceeds_count(0));
}

#[test]
fn counts_too_long_for_a_significand_are_not_rounded() {
    // 2^24 + 1 has no single-precision form.
    assert!(s(16_777_216.0).exceeds_count(16_777_215));
    assert!(!s(16_777_216.0).exceeds_count(16_777_216));
    assert!(!s(16_777_216.0).exceeds_count(16_777_217));
    assert!(s(16_777_218.0).exceeds_count(16_777_217));
    assert!(!s(f32::MAX).exceeds_count(u128::MAX));
    let largest: u128 = 0xff_ffff << 104;
    assert!(s(f32::MAX).exceeds_count(largest - 1));
    assert!(!s(f32::MAX).exceeds_count(largest));
}

#[test]
fn infinities_and_nans_against_counts() {
    assert!(s(f32::INFINITY).exceeds_count(u128::MAX));
    assert!(!s(f32::NEG_INFINITY).exceeds_count(0));
    assert!(!s(f32::NAN).exceeds_count(0));
    assert!(!s(-f32::NAN).exceeds_count(0));
}

#[test]
fn small_counts_agree_with_the_numbers() {
    for a in samples() {
        for n in 0u128..20 {
            assert_eq!(s(a).exceeds_count(n), a > n as f32, "{} > {}", a, n);
        }
    }
}
