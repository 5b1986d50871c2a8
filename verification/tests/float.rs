use ossia::Float;

fn f(x: f32) -> Float {
    Float::from_bits(x.to_bits())
}

#[test]
fn truncation_agrees_with_the_machine() {
    let samples = [
        0.0f32, -0.0, 0.5, -0.5, 0.999_999_9, 1.0, -1.0, 1.5, 2.75, -2.75, 8_388_607.5, 16_777_216.0,
        123_456.79, -98_765.43, 2_147_483_520.0, 2_147_483_648.0, -2_147_483_648.0, -2_147_483_904.0,
        1e10, -1e10, 3.4e38, -3.4e38, 1e-40, -1e-40, f32::INFINITY, f32::NEG_INFINITY, f32::NAN,
        f32::MIN_POSITIVE, f32::MAX, f32::MIN,
    ];
    for x in samples {
        assert_eq!(f(x).trunc(), x as i32, "truncating {}", x);
    }
}

#[test]
fn truncation_exact_values() {
    assert_eq!(f(2.75).trunc(), 2);
    assert_eq!(f(-2.75).trunc(), -2);
    assert_eq!(f(1e10).trunc(), i32::MAX);
    assert_eq!(f(-1e10).trunc(), i32::MIN);
    assert_eq!(f(f32::NAN).trunc(), 0);
}

#[test]
fn rounding_from_integers_agrees_with_the_machine() {
    let samples = [
        0i32, 1, -1, 2, 3, 7, 255, 256, 1000, -1000, 8_388_607, 8_388_608, 16_777_215, 16_777_216,
        16_777_217, 16_777_218, 16_777_219, 16_777_220, 33_554_433, 33_554_434, 33_554_435, 123_456_789,
        -987_654_321, 0x7fff_ff80, 0x7fff_ffbf, 0x7fff_ffc0, 0x7fff_ffff, i32::MAX, i32::MIN, i32::MIN + 1,
        -16_777_217, -16_777_219,
    ];
    for x in samples {
        assert_eq!(Float::from_i32(x).to_bits(), (x as f32).to_bits(), "rounding {}", x);
    }
}

#[test]
fn small_integers_round_trip_through_floats() {
    for x in [-16_777_216i32, -5, 0, 1, 42, 16_777_216] {
        assert_eq!(Float::from_i32(x).trunc(), x);
    }
}

#[test]
fn order_agrees_with_the_machine() {
    let samples = [
        0.0f32, -0.0, 1.0, -1.0, 0.5, 2.0, -2.0, 1e-40, -1e-40, 3.4e38, f32::INFINITY, f32::NEG_INFINITY,
        f32::NAN,
    ];
    for a in samples {
        for b in samples {
            assert_eq!(f(a).less(&f(b)), a < b, "{} < {}", a, b);
            assert_eq!(f(a).less_eq(&f(b)), a <= b, "{} <= {}", a, b);
        }
    }
}

#[test]
fn zero_and_nan_are_told_apart() {
    assert!(!f(0.0).nonzero());
    assert!(!f(-0.0).nonzero());
    assert!(f(1e-40).nonzero());
    assert!(f(f32::NAN).nonzero());
    assert!(f(f32::NAN).nan());
    assert!(!f(f32::INFINITY).nan());
    assert_eq!(Float::zero().to_bits(), 0);
}
