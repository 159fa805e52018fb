//! Binary32 values by their bits, against the machine's own floating point.
use softgraphics::bits;

fn samples() -> Vec<f32> {
    let mut values = vec![0.0, -0.0, 1.0, -1.0, 0.5, -0.5, 1.5, -1.5, 2.5, -2.5, 0.499_999_97, 8_388_607.5, 16_777_216.0, f32::MAX, f32::MIN, f32::MIN_POSITIVE, f32::EPSILON, 1e-45, 1e30, -1e30, 2_147_483_648.0, -2_147_483_648.0, 9.2e18, f32::INFINITY, f32::NEG_INFINITY, f32::NAN];
    let mut seed = 1_u32;
    for _ in 0..200 {
        seed = seed.wrapping_mul(1_664_525).wrapping_add(1_013_904_223);
        values.push(f32::from_bits(seed));
        values.push((seed as i32) as f32 / 65_536.0);
    }
    values
}

#[test]
fn comparisons_are_the_machines() {
    assert_eq!(f32::from_bits(bits::ONE), 1.0);
    for left in samples() {
        let word = left.to_bits();
        assert_eq!(bits::is_nan(word), left.is_nan(), "{left}");
        assert_eq!(bits::is_finite(word), left.is_finite(), "{left}");
        for right in samples() {
            let other = right.to_bits();
            assert_eq!(bits::less(word, other), left < right, "{left} {right}");
            assert_eq!(bits::equal(word, other), left == right, "{left} {right}");
            assert_eq!(bits::at_least(word, other), left >= right, "{left} {right}");
        }
    }
}

#[test]
fn a_sign_is_cleared_and_flipped() {
    for value in samples() {
        let word = value.to_bits();
        assert_eq!(bits::abs(word), value.abs().to_bits());
        assert_eq!(bits::negate(word), (-value).to_bits());
        assert_eq!(bits::negate(bits::negate(word)), word);
    }
}

#[test]
fn rounding_and_flooring_are_the_machines() {
    for value in samples().into_iter().filter(|value| value.is_finite()) {
        let word = value.to_bits();
        assert_eq!(bits::round_away(word, 0), value.round() as i64, "{value}");
        assert_eq!(bits::round_away(word, 8), (value as f64 * 256.0).round() as i64, "{value}");
        assert_eq!(bits::floor_of(word), value.floor() as i32, "{value}");
    }
    assert_eq!(bits::round_away(0.5_f32.to_bits(), 0), 1);
    assert_eq!(bits::round_away((-0.5_f32).to_bits(), 0), -1);
    assert_eq!(bits::floor_of((-0.5_f32).to_bits()), -1);
    assert_eq!(bits::round_away(f32::MAX.to_bits(), 0), i64::MAX);
    assert_eq!(bits::round_away(f32::MIN.to_bits(), 0), i64::MIN);
}

#[test]
fn a_wide_floor_goes_past_thirty_two_bits() {
    for value in [0.0_f32, -0.0, 0.5, -0.5, 1.0e10, -1.0e10, 3.0e9, 1.0e30, -1.0e30, 8388607.5] {
        assert_eq!(bits::floor_wide(value.to_bits()), value.floor() as i64, "{value}");
    }
}

#[test]
fn a_clamped_number_is_between_its_ends() {
    let clamp = |value: f32| f32::from_bits(bits::clamp(value.to_bits(), 0, bits::ONE));
    assert_eq!((clamp(-0.5), clamp(1.5), clamp(0.5)), (0.0, 1.0, 0.5));
    assert!(clamp(f32::NAN).is_nan());
    assert_eq!(bits::lesser_of(f32::NAN.to_bits(), 7), 7);
    assert_eq!(bits::greater_of((-1.0_f32).to_bits(), 2.0_f32.to_bits()), 2.0_f32.to_bits());
}
