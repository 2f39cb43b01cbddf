use streamstat::fixed::{fixed, push_fixed, MAX_PLACES};
use streamstat::number::Number;

fn num(x: f64) -> Number {
    Number::from_bits(x.to_bits())
}

fn std_text(x: f64, places: u8) -> String {
    format!("{:.*}", places as usize, x)
}

fn agree(x: f64) {
    for places in [0u8, 1, 2, 3, 4, 6, 9, 17, MAX_PLACES] {
        assert_eq!(fixed(num(x), places), std_text(x, places), "{:e} with {} places", x, places);
    }
}

#[test]
fn two_places() {
    assert_eq!(fixed(num(10.0), 2), "10.00");
    assert_eq!(fixed(num(2.5), 2), "2.50");
    assert_eq!(fixed(num(-5.0), 2), "-5.00");
    assert_eq!(fixed(num(0.0), 2), "0.00");
    assert_eq!(fixed(num(1234.5678), 2), "1234.57");
    assert_eq!(fixed(num(0.005), 2), "0.01");
    assert_eq!(fixed(num(0.004999), 2), "0.00");
}

#[test]
fn three_places() {
    assert_eq!(fixed(num(1.0), 3), "1.000");
    assert_eq!(fixed(num(3.0), 3), "3.000");
    assert_eq!(fixed(num(31.622776601683793), 3), "31.623");
    assert_eq!(fixed(num(2.138089935299395), 3), "2.138");
    assert_eq!(fixed(num(0.0005), 3), "0.001");
    assert_eq!(fixed(num(-0.0004), 3), "-0.000");
}

#[test]
fn a_half_goes_to_the_even_neighbour() {
    assert_eq!(fixed(num(0.5), 0), "0");
    assert_eq!(fixed(num(1.5), 0), "2");
    assert_eq!(fixed(num(2.5), 0), "2");
    assert_eq!(fixed(num(0.125), 2), "0.12");
    assert_eq!(fixed(num(0.375), 2), "0.38");
    assert_eq!(fixed(num(0.0625), 3), "0.062");
    assert_eq!(fixed(num(0.1875), 3), "0.188");
}

#[test]
fn what_is_no_finite_number() {
    assert_eq!(fixed(num(f64::NAN), 2), "NaN");
    assert_eq!(fixed(num(-f64::NAN), 2), "NaN");
    assert_eq!(fixed(num(f64::INFINITY), 2), "inf");
    assert_eq!(fixed(num(f64::NEG_INFINITY), 2), "-inf");
}

#[test]
fn negative_zero_keeps_its_sign() {
    assert_eq!(fixed(num(-0.0), 2), std_text(-0.0, 2));
    assert_eq!(fixed(num(-0.0), 0), std_text(-0.0, 0));
    assert_eq!(fixed(num(-1e-9), 3), std_text(-1e-9, 3));
}

#[test]
fn without_places_there_is_no_point() {
    assert_eq!(fixed(num(7.0), 0), "7");
    assert_eq!(fixed(num(1e15), 0), "1000000000000000");
}

#[test]
fn whole_numbers_beyond_the_significand() {
    assert_eq!(fixed(num(9007199254740992.0), 2), "9007199254740992.00");
    assert_eq!(fixed(num(1e22), 1), "10000000000000000000000.0");
    assert_eq!(fixed(num(f64::MAX), 2), std_text(f64::MAX, 2));
    assert_eq!(fixed(num(f64::MIN), 3), std_text(f64::MIN, 3));
    assert_eq!(fixed(num(f64::MAX), 2).len(), 312);
}

#[test]
fn appends_to_what_is_there() {
    let mut s = String::from("min:   ");
    push_fixed(&mut s, num(1.0), 3);
    assert_eq!(s, "min:   1.000");
}

#[test]
fn agrees_with_std_on_chosen_values() {
    let values = [
        0.0, -0.0, 1.0, -1.0, 0.1, 0.2, 0.3, 0.7, 0.15, 0.25, 0.35, 0.45, 1.005, 2.675, 1e-3,
        5e-4, 4.9999e-4, 5.0001e-4, 0.0625, 0.1875, 0.3125, 123456.789, 1e10, 1e15, 1e16, 1e17,
        4503599627370496.0, 4503599627370496.5, 4503599627370497.5, 9007199254740991.0,
        9007199254740992.0, 9007199254740994.0, 1e100, 1e300, f64::MAX, f64::MIN_POSITIVE,
        5e-324, 1e-320, 2.2250738585072011e-308, f64::EPSILON, 1.0 - f64::EPSILON,
        0.9999999999999999, 0.99999, 9.9999, 99.995, 99.9949999, 1e-18, 1.5e-18, 5e-19, 4.9e-19,
        3.141592653589793, 2.718281828459045, 1.7976931348623157e308, 6.02214076e23,
    ];
    for v in values {
        agree(v);
        agree(-v);
    }
}

#[test]
fn agrees_with_std_on_halves_of_every_scale() {
    let mut x = 0.5f64;
    for _ in 0..80 {
        agree(x);
        agree(x * 3.0);
        agree(x * 5.0);
        agree(x * 7.0);
        x /= 2.0;
    }
    let mut y = 1.0f64;
    for _ in 0..1100 {
        agree(y);
        y *= 2.0;
        if !y.is_finite() {
            break;
        }
    }
}

#[test]
fn agrees_with_std_on_scattered_bit_patterns() {
    let mut state: u64 = 0x9e37_79b9_7f4a_7c15;
    for _ in 0..4000 {
        state = state.wrapping_mul(6364136223846793005).wrapping_add(1442695040888963407);
        let x = f64::from_bits(state);
        if x.is_nan() {
            assert_eq!(fixed(num(x), 2), "NaN");
        } else {
            for places in [0u8, 2, 3, 12] {
                assert_eq!(fixed(num(x), places), std_text(x, places), "{:e}", x);
            }
        }
    }
}

#[test]
fn agrees_with_std_on_everyday_values() {
    let mut state: u64 = 12345;
    for _ in 0..4000 {
        state = state.wrapping_mul(6364136223846793005).wrapping_add(1442695040888963407);
        let x = ((state >> 11) as f64 / (1u64 << 53) as f64 - 0.5) * 2000.0;
        for places in [0u8, 1, 2, 3, 5] {
            assert_eq!(fixed(num(x), places), std_text(x, places), "{:e}", x);
        }
        let cents = ((state >> 40) as f64) / 1000.0;
        assert_eq!(fixed(num(cents), 2), std_text(cents, 2));
        assert_eq!(fixed(num(cents), 3), std_text(cents, 3));
    }
}
