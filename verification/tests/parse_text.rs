use streamstat::number::Number;
use streamstat::parse::parse_number;

fn val(n: Number) -> f64 {
    f64::from_bits(n.to_bits())
}

fn agree(text: &str) {
    let expected = text.parse::<f64>().ok();
    let got = parse_number(text);
    match (got, expected) {
        (None, None) => {}
        (Some(g), Some(e)) => {
            if e.is_nan() {
                assert!(g.is_nan(), "{:?}", text);
                assert_eq!(g.is_negative(), e.is_sign_negative(), "{:?}", text);
            } else {
                assert_eq!(g.to_bits(), e.to_bits(), "{:?}: {:e} against {:e}", text, val(g), e);
            }
        }
        (g, e) => panic!("{:?}: {:?} against {:?}", text, g.map(val), e),
    }
}

#[test]
fn plain_numbers() {
    assert_eq!(val(parse_number("1").unwrap()), 1.0);
    assert_eq!(val(parse_number("5").unwrap()), 5.0);
    assert_eq!(val(parse_number("10").unwrap()), 10.0);
    assert_eq!(val(parse_number("-2.5").unwrap()), -2.5);
    assert_eq!(val(parse_number("0.1").unwrap()), 0.1);
    assert_eq!(val(parse_number("1e3").unwrap()), 1000.0);
    assert_eq!(val(parse_number("1.5E-3").unwrap()), 0.0015);
    assert_eq!(val(parse_number("+7").unwrap()), 7.0);
    assert_eq!(parse_number("-0").unwrap().to_bits(), (-0.0f64).to_bits());
}

#[test]
fn words() {
    assert_eq!(val(parse_number("inf").unwrap()), f64::INFINITY);
    assert_eq!(val(parse_number("-inf").unwrap()), f64::NEG_INFINITY);
    assert_eq!(val(parse_number("+Infinity").unwrap()), f64::INFINITY);
    assert_eq!(val(parse_number("INF").unwrap()), f64::INFINITY);
    assert!(parse_number("nan").unwrap().is_nan());
    assert!(parse_number("NaN").unwrap().is_nan());
    assert!(parse_number("-nan").unwrap().is_nan());
    assert!(parse_number("in").is_none());
    assert!(parse_number("infinit").is_none());
    assert!(parse_number("infinityy").is_none());
    assert!(parse_number("nano").is_none());
}

#[test]
fn what_is_no_number() {
    for text in [
        "", " ", "+", "-", ".", "+.", "e", "e5", ".e5", "1e", "1e+", "1e-", "1 ", " 1", "1_000",
        "0x10", "1.2.3", "1..2", "--1", "+-1", "1e5.5", "1e5e5", "1,5", "one", "1f", "1.0f64",
        "٣", "1é", "é1", "1\n", "\t1", "1e 5", "1 e5", "- 1", "i", "n", "infi", "+infinite",
    ] {
        assert!(parse_number(text).is_none(), "{:?}", text);
        agree(text);
    }
}

#[test]
fn grammar_agrees_with_std() {
    let pieces = ["", "+", "-", "0", "1", "12", ".", ".5", "5.", "e", "E", "e1", "e+1", "e-1", "e01", "x"];
    for a in pieces {
        for b in pieces {
            for c in pieces {
                agree(&format!("{}{}{}", a, b, c));
            }
        }
    }
    for word in ["inf", "Inf", "iNF", "infinity", "INFINITY", "InFiNiTy", "nan", "NAN", "nAn", "infinit", "na", "inff"] {
        for sign in ["", "+", "-", "++", " "] {
            agree(&format!("{}{}", sign, word));
            agree(&format!("{}{} ", sign, word));
        }
    }
}

#[test]
fn chosen_values_agree_with_std() {
    for text in [
        "0", "0.0", "-0.0", "000", "0e0", "0e999999999999999999999", "0e-999999999999999999999",
        "0.000e5", "1", "1.0", "001.00", "3.14159", "2.718281828459045", "0.1", "0.2", "0.3",
        "1e1", "1e22", "1e23", "1e-1", "1e-5", "1e100", "1e-100", "1e308", "1e309", "1.7976931348623157e308",
        "1.7976931348623158e308", "1.7976931348623159e308", "1.797693134862315807e308",
        "1.797693134862315808e308", "179769313486231580793728971405303415079934132710037826936173778980444968292764750946649017977587207096330286416692887910946555547851940402630657488671505820681908902000708383676273854845817711531764475730270069855571366959622842914819860834936475292719074168444365510704342711559699508093042880177904174497791.9999",
        "179769313486231580793728971405303415079934132710037826936173778980444968292764750946649017977587207096330286416692887910946555547851940402630657488671505820681908902000708383676273854845817711531764475730270069855571366959622842914819860834936475292719074168444365510704342711559699508093042880177904174497792",
        "4.9e-324", "5e-324", "2.4703282292062327e-324", "2.4703282292062328e-324", "2.47e-324",
        "2.48e-324", "7.4e-324", "7.5e-324", "1e-323", "2.2250738585072014e-308",
        "2.2250738585072011e-308", "2.225073858507201e-308", "2.2250738585072009e-308",
        "9007199254740992", "9007199254740993", "9007199254740994", "9007199254740995",
        "9007199254740993.0000000000000000000000000000000000000000001", "9007199254740992.9999",
        "4503599627370496.5", "4503599627370497.5", "4503599627370496.50000000000000000001",
        "0.5", "0.25", "0.125", "1e400", "-1e400", "1e-400", "-1e-400", "1e999999999999999999999",
        "1e-999999999999999999999", "123456789012345678901234567890", "0.000000000000000000000000000001",
        "12345678901234567890.12345678901234567890e-10", "1e+0005", "1.e5", ".5e1", "5.e-1",
        "100000000000000000000000000000000000000000000000000000000000000000000e-60",
        "0.00000000000000000000000000000000000000000000000000000000000000000001e70",
        "6.02214076e23", "1.6e-19", "299792458", "8.5070591730234616e37", "3.4028234664e38",
    ] {
        agree(text);
        agree(&format!("-{}", text));
        agree(&format!("+{}", text));
    }
}

#[test]
fn scattered_numbers_agree_with_std() {
    let mut state: u64 = 2024;
    for i in 0..6000 {
        state = state.wrapping_mul(6364136223846793005).wrapping_add(1442695040888963407);
        let x = f64::from_bits(state);
        if x.is_finite() {
            agree(&format!("{}", x));
            agree(&format!("{:e}", x));
            agree(&format!("{:.3}", x));
        }
        let small = ((state >> 11) as f64 / (1u64 << 53) as f64 - 0.5) * 2000.0;
        agree(&format!("{}", small));
        agree(&format!("{:.2}", small));
        agree(&format!("{:.17e}", small));
        let digits = format!("{}", state);
        let cut = (state % 19) as usize + 1;
        let exponent = (i % 700) as i64 - 350;
        if cut < digits.len() {
            agree(&format!("{}.{}e{}", &digits[..cut], &digits[cut..], exponent));
        }
        agree(&format!("{}e{}", digits, exponent));
        agree(&format!("0.{}", digits));
    }
}

#[test]
fn halfway_cases_agree_with_std() {
    let mut state: u64 = 515;
    for _ in 0..1500 {
        state = state.wrapping_mul(6364136223846793005).wrapping_add(1442695040888963407);
        let m = (state >> 11) | (1 << 52);
        // m + 1/2 exactly, and just beside it, over a range of scales
        for text in [format!("{}.5", m), format!("{}.4999999999999999999999999", m), format!("{}.5000000000000000000000001", m)] {
            agree(&text);
        }
        let twice = (m as u128) * 2 + 1;
        agree(&format!("{}", twice));
        agree(&format!("{}e3", twice));
        agree(&format!("{}e-3", twice));
    }
}
