use streamstat::number::Number;
use streamstat::parse::parse_number;
use streamstat::shortest::{push_shortest, shortest};

fn num(x: f64) -> Number {
    Number::from_bits(x.to_bits())
}

fn agree(x: f64) {
    assert_eq!(shortest(num(x)), format!("{}", x), "{:e}", x);
}

#[test]
fn shortest_plain_numbers() {
    assert_eq!(shortest(num(0.0)), "0");
    assert_eq!(shortest(num(-0.0)), "-0");
    assert_eq!(shortest(num(1.0)), "1");
    assert_eq!(shortest(num(15.0)), "15");
    assert_eq!(shortest(num(40.0)), "40");
    assert_eq!(shortest(num(-2.5)), "-2.5");
    assert_eq!(shortest(num(0.1)), "0.1");
    assert_eq!(shortest(num(0.30000000000000004)), "0.30000000000000004");
    assert_eq!(shortest(num(1e21)), "1000000000000000000000");
    assert_eq!(shortest(num(1e-7)), "0.0000001");
    assert_eq!(shortest(num(1e23)), "100000000000000000000000");
    assert_eq!(shortest(num(123456.789)), "123456.789");
}

#[test]
fn shortest_of_what_is_no_finite_number() {
    assert_eq!(shortest(num(f64::NAN)), "NaN");
    assert_eq!(shortest(num(-f64::NAN)), "NaN");
    assert_eq!(shortest(num(f64::INFINITY)), "inf");
    assert_eq!(shortest(num(f64::NEG_INFINITY)), "-inf");
}

#[test]
fn shortest_appends_to_what_is_there() {
    let mut s = String::from("sum: ");
    push_shortest(&mut s, num(40.0));
    assert_eq!(s, "sum: 40");
}

#[test]
fn shortest_chosen_values_agree_with_std() {
    for x in [
        0.0, 1.0, 0.5, 0.25, 0.2, 0.3, 0.7, 1.5, 2.0, 3.0, 9.0, 9.5, 10.0, 99.0, 100.0, 1e15,
        1e16, 1e17, 1e22, 1e23, 1e24, 1e-1, 1e-2, 1e-3, 1e-4, 1e-5, 1e-6, 1e-7, 1e-8, 1e-9,
        1e-10, 1e-22, 1e-23, 1e100, 1e-100, 1e300, 1e-300, 1e308, 1e-308, f64::MAX, f64::MIN_POSITIVE,
        5e-324, 1e-323, 2e-323, 4.5e-320, 2.2250738585072009e-308, 2.2250738585072011e-308,
        1.7976931348623155e308, 9007199254740991.0, 9007199254740992.0, 9007199254740994.0,
        4503599627370496.0, 4503599627370496.5, 0.9999999999999999, 1.0000000000000002,
        0.1 + 0.2, 1.0 / 3.0, 2.0 / 3.0, 100.0 / 7.0, 3.141592653589793, 2.718281828459045,
        6.02214076e23, 1.6e-19, 299792458.0, 9.999999999999999e22, 9.999999999999999e-8,
        8.41e21, 5.1e-5, 123456789012345680.0, 0.000001234, 1.2345e-12, 5e-5, 1.5e300,
        f64::EPSILON, 4.35, 4.349999999999999, 4.350000000000001, 0.000244140625,
    ] {
        agree(x);
        agree(-x);
    }
}

#[test]
fn powers_of_two_agree_with_std() {
    for exponent in (-1074..1024).step_by(41) {
        let x = 2.0f64.powi(exponent / 2) * 2.0f64.powi(exponent - exponent / 2);
        agree(x);
        if x > 5e-324 {
            agree(f64::from_bits(x.to_bits() - 1));
        }
        agree(f64::from_bits(x.to_bits() + 1));
    }
}

#[test]
fn powers_of_ten_agree_with_std() {
    for q in (-323..309).step_by(7) {
        let z: f64 = format!("1e{}", q).parse().unwrap();
        agree(z);
        agree(f64::from_bits(z.to_bits() - 1));
        agree(f64::from_bits(z.to_bits() + 1));
    }
}

#[test]
fn small_powers_of_ten_agree_with_std() {
    for q in -30..40 {
        let z: f64 = format!("1e{}", q).parse().unwrap();
        agree(z);
        agree(f64::from_bits(z.to_bits() - 1));
        agree(f64::from_bits(z.to_bits() + 1));
    }
}

#[test]
fn shortest_scattered_bit_patterns_agree_with_std() {
    let mut state: u64 = 0xfeed_f00d;
    for _ in 0..60 {
        state = state.wrapping_mul(6364136223846793005).wrapping_add(1442695040888963407);
        let x = f64::from_bits(state);
        if x.is_finite() {
            agree(x);
        }
    }
}

#[test]
fn shortest_everyday_numbers_agree_with_std() {
    let mut state: u64 = 0xfeed_f00d;
    for i in 0..1500 {
        state = state.wrapping_mul(6364136223846793005).wrapping_add(1442695040888963407);
        let small = ((state >> 11) as f64 / (1u64 << 53) as f64 - 0.5) * 2000.0;
        agree(small);
        agree((small * 100.0).round() / 100.0);
        agree((i as f64) * 0.1);
        agree(1.0 / (i as f64 + 1.0));
    }
}

#[test]
fn sums_agree_with_std() {
    let mut sum = 0.0f64;
    let mut state: u64 = 77;
    for _ in 0..2000 {
        state = state.wrapping_mul(6364136223846793005).wrapping_add(1442695040888963407);
        sum += (state % 100000) as f64 / 100.0;
        agree(sum);
    }
}

#[test]
fn the_shortest_text_reads_back() {
    let mut state: u64 = 0xabcd_ef01;
    for i in 0..400 {
        state = state.wrapping_mul(6364136223846793005).wrapping_add(1442695040888963407);
        let x = if i % 8 == 0 {
            f64::from_bits(state)
        } else {
            ((state >> 11) as f64 / (1u64 << 53) as f64 - 0.5) * 1e9
        };
        if x.is_finite() {
            let text = shortest(num(x));
            assert_eq!(parse_number(&text).unwrap().to_bits(), x.to_bits(), "{}", text);
        }
    }
}
