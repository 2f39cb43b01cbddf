use streamstat::number::Number;

fn num(x: f64) -> Number {
    Number::from_bits(x.to_bits())
}

fn samples() -> Vec<f64> {
    vec![
        f64::NEG_INFINITY,
        f64::MIN,
        -1.0e300,
        -10.0,
        -4.000000000000001,
        -4.0,
        -1.5,
        -1.0,
        -f64::MIN_POSITIVE,
        -5e-324,
        -0.0,
        0.0,
        5e-324,
        f64::MIN_POSITIVE,
        0.1,
        1.0,
        1.0000000000000002,
        3.999999999999999,
        4.0,
        5.0,
        10.0,
        1.0e300,
        f64::MAX,
        f64::INFINITY,
        f64::NAN,
        -f64::NAN,
        f64::from_bits(0x7ff0_0000_0000_0001),
        f64::from_bits(0xfff8_0000_0000_0000),
    ]
}

#[test]
fn less_than_agrees_with_the_hardware_order() {
    for a in samples() {
        for b in samples() {
            assert_eq!(num(a).less_than(num(b)), a < b, "{:?} < {:?}", a, b);
        }
    }
}

#[test]
fn greater_than_agrees_with_the_hardware_order() {
    for a in samples() {
        for b in samples() {
            assert_eq!(num(a).greater_than(num(b)), a > b, "{:?} > {:?}", a, b);
        }
    }
}

#[test]
fn is_nan_agrees_with_the_hardware() {
    for a in samples() {
        assert_eq!(num(a).is_nan(), a.is_nan(), "{:?}", a);
    }
}

#[test]
fn is_negative_reads_the_sign_bit() {
    for a in samples() {
        assert_eq!(num(a).is_negative(), a.is_sign_negative(), "{:?}", a);
    }
}

#[test]
fn both_zeros_are_equal_in_order() {
    assert!(!num(-0.0).less_than(num(0.0)));
    assert!(!num(0.0).less_than(num(-0.0)));
    assert!(!num(-0.0).greater_than(num(0.0)));
}

#[test]
fn nan_is_neither_below_nor_above() {
    let nan = num(f64::NAN);
    assert!(!nan.less_than(num(1.0)));
    assert!(!nan.greater_than(num(1.0)));
    assert!(!num(1.0).less_than(nan));
    assert!(!num(1.0).greater_than(nan));
    assert!(!nan.less_than(nan));
}

#[test]
fn bits_round_trip() {
    for a in samples() {
        assert_eq!(num(a).to_bits(), a.to_bits());
    }
    assert_eq!(Number::from_bits(0x4014_0000_0000_0000).to_bits(), 5.0f64.to_bits());
}

#[test]
fn is_infinite_agrees_with_the_hardware() {
    for a in samples() {
        assert_eq!(num(a).is_infinite(), a.is_infinite(), "{:?}", a);
    }
}

#[test]
fn parts_multiply_out_to_the_value() {
    for a in samples() {
        match num(a).parts() {
            None => assert!(!a.is_finite()),
            Some((m, e)) => {
                assert!(a.is_finite());
                let magnitude = (m as f64) * 2.0f64.powi(e / 2) * 2.0f64.powi(e - e / 2);
                assert_eq!(magnitude, a.abs(), "{:?}", a);
            }
        }
    }
}

fn positions() -> Vec<f64> {
    let mut v = samples();
    v.extend_from_slice(&[
        0.25, 0.49999999999999994, 0.5, 0.5000000000000001, 0.75, 1.25, 1.5, 2.5, 3.5, 7.999999,
        123456.5, 4503599627370495.5, 4503599627370496.0, 9007199254740993.0,
        18446744073709549568.0, 18446744073709551615.0, 18446744073709551616.0, 3.0e19,
    ]);
    v
}

#[test]
fn floor_agrees_with_floor_and_cast() {
    for a in positions() {
        assert_eq!(num(a).floor_u64(), a.floor() as u64, "{:?}", a);
        assert_eq!(num(a).floor_u64(), a.trunc() as u64, "{:?}", a);
    }
}

#[test]
fn round_agrees_with_round_and_cast() {
    for a in positions() {
        assert_eq!(num(a).round_u64(), a.round() as u64, "{:?}", a);
    }
}

#[test]
fn counts_of_scattered_bit_patterns() {
    let mut state: u64 = 0x1234_5678_9abc_def1;
    for _ in 0..20000 {
        state = state.wrapping_mul(6364136223846793005).wrapping_add(1442695040888963407);
        let a = f64::from_bits(state);
        assert_eq!(num(a).floor_u64(), a.floor() as u64, "{:?}", a);
        assert_eq!(num(a).round_u64(), a.round() as u64, "{:?}", a);
        let b = (state >> 12) as f64 / 4096.0;
        assert_eq!(num(b).floor_u64(), b.floor() as u64, "{:?}", b);
        assert_eq!(num(b).round_u64(), b.round() as u64, "{:?}", b);
    }
}
