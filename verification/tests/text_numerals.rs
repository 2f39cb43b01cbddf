use streamstat::rounding::rounded_half_even;
use streamstat::text::{parse_u64, push_decimal, push_padded, push_spaces};

fn decimal(n: u128) -> String {
    let mut s = String::new();
    push_decimal(&mut s, n);
    s
}

#[test]
fn decimal_numerals() {
    assert_eq!(decimal(0), "0");
    assert_eq!(decimal(7), "7");
    assert_eq!(decimal(10), "10");
    assert_eq!(decimal(1203), "1203");
    assert_eq!(decimal(u64::MAX as u128), "18446744073709551615");
    assert_eq!(decimal(u128::MAX), "340282366920938463463374607431768211455");
}

#[test]
fn decimal_appends_to_what_is_there() {
    let mut s = String::from("count: ");
    push_decimal(&mut s, 5);
    assert_eq!(s, "count: 5");
}

#[test]
fn decimal_agrees_with_std() {
    let mut n: u128 = 1;
    for _ in 0..120 {
        assert_eq!(decimal(n), n.to_string());
        assert_eq!(decimal(n - 1), (n - 1).to_string());
        n = n.wrapping_mul(3).wrapping_add(1);
    }
}

#[test]
fn parse_reads_numerals() {
    assert_eq!(parse_u64("0"), Some(0));
    assert_eq!(parse_u64("50"), Some(50));
    assert_eq!(parse_u64("+50"), Some(50));
    assert_eq!(parse_u64("007"), Some(7));
    assert_eq!(parse_u64("18446744073709551615"), Some(u64::MAX));
}

#[test]
fn parse_rejects_what_is_no_numeral() {
    assert_eq!(parse_u64(""), None);
    assert_eq!(parse_u64("+"), None);
    assert_eq!(parse_u64("-1"), None);
    assert_eq!(parse_u64("-0"), None);
    assert_eq!(parse_u64("++1"), None);
    assert_eq!(parse_u64("1+"), None);
    assert_eq!(parse_u64(" 1"), None);
    assert_eq!(parse_u64("1 "), None);
    assert_eq!(parse_u64("1.0"), None);
    assert_eq!(parse_u64("1e3"), None);
    assert_eq!(parse_u64("0x10"), None);
    assert_eq!(parse_u64("1_000"), None);
    assert_eq!(parse_u64("١٢"), None);
    assert_eq!(parse_u64("12é"), None);
    assert_eq!(parse_u64("+é"), None);
}

#[test]
fn parse_rejects_what_does_not_fit() {
    assert_eq!(parse_u64("18446744073709551616"), None);
    assert_eq!(parse_u64("18446744073709551620"), None);
    assert_eq!(parse_u64("99999999999999999999"), None);
    assert_eq!(parse_u64("184467440737095516150"), None);
    assert_eq!(parse_u64("18446744073709551616x"), None);
}

#[test]
fn parse_agrees_with_std() {
    let texts = [
        "", "+", "-", "0", "+0", "-0", "1", "+1", "-1", "12a", "a12", "4294967296",
        "18446744073709551615", "18446744073709551616", "000000000000000000000000001",
        "1 2", "\t3", "3\n", "+-3", "٣", "1.5", "inf",
    ];
    for text in texts {
        assert_eq!(parse_u64(text), text.parse::<u64>().ok(), "{:?}", text);
    }
}

#[test]
fn parse_reads_back_what_decimal_writes() {
    for n in [0u64, 1, 9, 10, 99, 100, 12345, u32::MAX as u64, u64::MAX - 1, u64::MAX] {
        assert_eq!(parse_u64(&decimal(n as u128)), Some(n));
    }
}

#[test]
fn rounding_half_to_even() {
    assert_eq!(rounded_half_even(0, 5), 0);
    assert_eq!(rounded_half_even(7, 2), 4);
    assert_eq!(rounded_half_even(5, 2), 2);
    assert_eq!(rounded_half_even(3, 2), 2);
    assert_eq!(rounded_half_even(1, 2), 0);
    assert_eq!(rounded_half_even(4, 3), 1);
    assert_eq!(rounded_half_even(5, 3), 2);
    assert_eq!(rounded_half_even(3, 6), 0);
    assert_eq!(rounded_half_even(9, 6), 2);
    assert_eq!(rounded_half_even(10, u128::MAX), 0);
    assert_eq!(rounded_half_even(u128::MAX, 1), u128::MAX);
    assert_eq!(rounded_half_even(u128::MAX - 1, 2), u128::MAX / 2);
}

#[test]
fn spaces() {
    let mut s = String::from("a");
    push_spaces(&mut s, 3);
    s.push('b');
    assert_eq!(s, "a   b");
    push_spaces(&mut s, 0);
    assert_eq!(s, "a   b");
}

#[test]
fn padding_right_justifies() {
    let mut s = String::new();
    push_padded(&mut s, "1.25", 8);
    assert_eq!(s, "    1.25");
    assert_eq!(s, format!("{:>8}", "1.25"));
    let mut t = String::from("|");
    push_padded(&mut t, "123456789", 4);
    assert_eq!(t, "|123456789");
    let mut u = String::new();
    push_padded(&mut u, "é", 3);
    assert_eq!(u, format!("{:>3}", "é"));
    let mut v = String::new();
    push_padded(&mut v, "", 0);
    assert_eq!(v, "");
}
