use streamstat::number::Number;

fn num(x: f64) -> Number {
    Number::from_bits(x.to_bits())
}

fn val(n: Number) -> f64 {
    f64::from_bits(n.to_bits())
}

fn same(got: Number, expected: f64, what: &str) {
    if expected.is_nan() {
        assert!(got.is_nan(), "{}: expected NaN, got {:e}", what, val(got));
    } else {
        assert_eq!(got.to_bits(), expected.to_bits(), "{}: got {:e}, expected {:e}", what, val(got), expected);
    }
}

fn chosen() -> Vec<f64> {
    vec![
        0.0, -0.0, 1.0, -1.0, 2.0, 3.0, 0.5, 0.1, 0.2, 0.3, 1.5, 2.5, 1e-3, 1.000001, 7.0, 10.0,
        100.0, 1e10, 1e15, 1e16, 1e22, 1e100, 1e200, 1e300, 1e308, f64::MAX, f64::MIN,
        f64::MIN_POSITIVE, 5e-324, 1e-320, 1e-310, 2.2250738585072009e-308, 1e-200, 1e-100,
        4503599627370496.0, 4503599627370497.0, 9007199254740991.0, 9007199254740992.0,
        9007199254740993.0, 1.0000000000000002, 0.9999999999999999, 1.7976931348623155e308,
        3.141592653589793, 2.718281828459045, 6.02214076e23, 1.6e-19, f64::EPSILON,
        f64::INFINITY, f64::NEG_INFINITY, f64::NAN, -3.5, -1e-5, -123456.789, 8.98846567431158e307,
        1.3407807929942597e154, 1.4916681462400413e-154, 2.0f64.powi(-1022), 2.0f64.powi(-1074),
        2.0f64.powi(1023), 2.0f64.powi(52), 2.0f64.powi(53), 2.0f64.powi(64), 2.0f64.powi(-537),
    ]
}

fn scattered(seed: u64, n: usize) -> Vec<f64> {
    let mut state = seed;
    let mut out = Vec::new();
    for i in 0..n {
        state = state.wrapping_mul(6364136223846793005).wrapping_add(1442695040888963407);
        let x = match i % 4 {
            0 => f64::from_bits(state),
            1 => ((state >> 11) as f64 / (1u64 << 53) as f64 - 0.5) * 2000.0,
            2 => f64::from_bits((state & 0x800f_ffff_ffff_ffff) | (((state >> 52) % 40 + 1003) << 52)),
            _ => f64::from_bits(state & 0x801f_ffff_ffff_ffff),
        };
        out.push(x);
    }
    out
}

#[test]
fn from_count_agrees_with_the_cast() {
    let mut counts = vec![
        0u64, 1, 2, 3, 5, 10, 1 << 52, (1 << 53) - 1, 1 << 53, (1 << 53) + 1, (1 << 53) + 2,
        (1 << 53) + 3, (1 << 54) + 2, (1 << 54) + 6, u64::MAX, u64::MAX - 1, u64::MAX - 1023,
        u64::MAX - 1024, u64::MAX - 2047, u64::MAX - 2048, 1 << 63, (1 << 63) + 1024,
        (1 << 63) + 1025, 0xffff_ffff_ffff_fbff, 0xffff_ffff_ffff_fc00,
    ];
    let mut state: u64 = 99;
    for _ in 0..5000 {
        state = state.wrapping_mul(6364136223846793005).wrapping_add(1442695040888963407);
        counts.push(state);
        counts.push(state >> (state % 64));
    }
    for c in counts {
        assert_eq!(Number::from_count(c).to_bits(), (c as f64).to_bits(), "{}", c);
    }
}

#[test]
fn times_agrees_with_the_hardware_on_chosen_values() {
    for a in chosen() {
        for b in chosen() {
            same(num(a).times(num(b)), a * b, &format!("{:e} * {:e}", a, b));
        }
    }
}

#[test]
fn times_agrees_with_the_hardware_on_scattered_values() {
    let xs = scattered(1, 3000);
    let ys = scattered(2, 3000);
    for i in 0..xs.len() {
        same(num(xs[i]).times(num(ys[i])), xs[i] * ys[i], &format!("{:e} * {:e}", xs[i], ys[i]));
    }
}

#[test]
fn times_exact_values() {
    assert_eq!(val(num(3.0).times(num(4.0))), 12.0);
    assert_eq!(val(num(-0.5).times(num(8.0))), -4.0);
    assert_eq!(val(num(0.1).times(num(3.0))), 0.30000000000000004);
    assert_eq!(num(-0.0).times(num(5.0)).to_bits(), (-0.0f64).to_bits());
    assert_eq!(val(num(1e200).times(num(1e200))), f64::INFINITY);
    assert_eq!(val(num(1e-200).times(num(-1e-200))).to_bits(), (-0.0f64).to_bits());
    assert!(num(f64::INFINITY).times(num(0.0)).is_nan());
}

#[test]
fn plus_agrees_with_the_hardware_on_chosen_values() {
    for a in chosen() {
        for b in chosen() {
            same(num(a).plus(num(b)), a + b, &format!("{:e} + {:e}", a, b));
            same(num(a).plus(num(-b)), a + -b, &format!("{:e} + {:e}", a, -b));
        }
    }
}

#[test]
fn minus_agrees_with_the_hardware_on_chosen_values() {
    for a in chosen() {
        for b in chosen() {
            same(num(a).minus(num(b)), a - b, &format!("{:e} - {:e}", a, b));
        }
    }
}

#[test]
fn plus_and_minus_agree_with_the_hardware_on_scattered_values() {
    let xs = scattered(3, 4000);
    let ys = scattered(4, 4000);
    for i in 0..xs.len() {
        same(num(xs[i]).plus(num(ys[i])), xs[i] + ys[i], &format!("{:e} + {:e}", xs[i], ys[i]));
        same(num(xs[i]).minus(num(ys[i])), xs[i] - ys[i], &format!("{:e} - {:e}", xs[i], ys[i]));
    }
}

#[test]
fn plus_agrees_with_the_hardware_on_neighbours() {
    let mut state: u64 = 77;
    for _ in 0..4000 {
        state = state.wrapping_mul(6364136223846793005).wrapping_add(1442695040888963407);
        let a = f64::from_bits(state & 0x7fef_ffff_ffff_ffff);
        for gap in [0u64, 1, 2, 52, 53, 54, 55, 63, 64, 65, 66, 100] {
            let field = (a.to_bits() >> 52) & 0x7ff;
            if field > gap {
                let b = f64::from_bits(
                    (a.to_bits() & 0x000f_ffff_ffff_ffff) ^ (state >> 13 & 0x000f_ffff_ffff_ffff)
                        | ((field - gap) << 52),
                );
                same(num(a).plus(num(b)), a + b, &format!("{:e} + {:e}", a, b));
                same(num(a).minus(num(b)), a - b, &format!("{:e} - {:e}", a, b));
                same(num(b).minus(num(a)), b - a, &format!("{:e} - {:e}", b, a));
            }
        }
        let up = f64::from_bits(a.to_bits() + 1);
        same(num(up).minus(num(a)), up - a, "neighbours");
        same(num(a).minus(num(a)), a - a, "itself");
        same(num(-a).plus(num(a)), -a + a, "opposites");
    }
}

#[test]
fn plus_exact_values() {
    assert_eq!(val(num(1.0).plus(num(2.0))), 3.0);
    assert_eq!(val(num(0.1).plus(num(0.2))), 0.30000000000000004);
    assert_eq!(val(num(1e16).plus(num(1.0))), 1e16);
    assert_eq!(val(num(5.0).minus(num(5.0))).to_bits(), 0.0f64.to_bits());
    assert_eq!(val(num(-0.0).plus(num(-0.0))).to_bits(), (-0.0f64).to_bits());
    assert_eq!(val(num(-0.0).plus(num(0.0))).to_bits(), 0.0f64.to_bits());
    assert_eq!(val(num(f64::MAX).plus(num(f64::MAX))), f64::INFINITY);
    assert!(num(f64::INFINITY).minus(num(f64::INFINITY)).is_nan());
    assert_eq!(val(num(f64::INFINITY).plus(num(-1e308))), f64::INFINITY);
}

#[test]
fn negate_flips_the_sign() {
    for a in chosen() {
        if !a.is_nan() {
            assert_eq!(num(a).negate().to_bits(), (-a).to_bits());
        }
    }
}

#[test]
fn over_agrees_with_the_hardware_on_chosen_values() {
    for a in chosen() {
        for b in chosen() {
            same(num(a).over(num(b)), a / b, &format!("{:e} / {:e}", a, b));
        }
    }
}

#[test]
fn over_agrees_with_the_hardware_on_scattered_values() {
    let xs = scattered(5, 4000);
    let ys = scattered(6, 4000);
    for i in 0..xs.len() {
        same(num(xs[i]).over(num(ys[i])), xs[i] / ys[i], &format!("{:e} / {:e}", xs[i], ys[i]));
        same(num(ys[i]).over(num(xs[i])), ys[i] / xs[i], &format!("{:e} / {:e}", ys[i], xs[i]));
    }
}

#[test]
fn over_counts_agrees_with_the_hardware() {
    let xs = scattered(7, 3000);
    for (i, x) in xs.iter().enumerate() {
        let n = (i as u64 % 97) + 1;
        same(num(*x).over(Number::from_count(n)), *x / n as f64, &format!("{:e} / {}", x, n));
        let big = (i as u64).wrapping_mul(0x9e37_79b9_7f4a_7c15) | 1;
        same(num(*x).over(Number::from_count(big)), *x / big as f64, &format!("{:e} / {}", x, big));
    }
}

#[test]
fn over_exact_values() {
    assert_eq!(val(num(1.0).over(num(4.0))), 0.25);
    assert_eq!(val(num(1.0).over(num(3.0))), 0.3333333333333333);
    assert_eq!(val(num(2.0).over(num(3.0))), 0.6666666666666666);
    assert_eq!(val(num(-7.0).over(num(2.0))), -3.5);
    assert_eq!(val(num(1.0).over(num(0.0))), f64::INFINITY);
    assert_eq!(val(num(-1.0).over(num(0.0))), f64::NEG_INFINITY);
    assert!(num(0.0).over(num(0.0)).is_nan());
    assert!(num(f64::INFINITY).over(num(f64::INFINITY)).is_nan());
    assert_eq!(num(1.0).over(num(f64::NEG_INFINITY)).to_bits(), (-0.0f64).to_bits());
    assert_eq!(val(num(5e-324).over(num(2.0))), 0.0);
    assert_eq!(val(num(f64::MAX).over(num(0.5))), f64::INFINITY);
}

#[test]
fn sqrt_agrees_with_the_hardware_on_chosen_values() {
    for a in chosen() {
        same(num(a).sqrt(), a.sqrt(), &format!("sqrt {:e}", a));
        same(num(-a).sqrt(), (-a).sqrt(), &format!("sqrt {:e}", -a));
    }
}

#[test]
fn sqrt_agrees_with_the_hardware_on_scattered_values() {
    for x in scattered(8, 8000) {
        same(num(x).sqrt(), x.sqrt(), &format!("sqrt {:e}", x));
        same(num(x.abs()).sqrt(), x.abs().sqrt(), &format!("sqrt {:e}", x.abs()));
    }
}

#[test]
fn sqrt_of_squares_and_their_neighbours() {
    let mut state: u64 = 4242;
    for _ in 0..4000 {
        state = state.wrapping_mul(6364136223846793005).wrapping_add(1442695040888963407);
        let r = (state >> 11) as f64 / 1024.0;
        let square = r * r;
        same(num(square).sqrt(), square.sqrt(), "square");
        let up = f64::from_bits(square.to_bits() + 1);
        same(num(up).sqrt(), up.sqrt(), "above a square");
        if square > 0.0 {
            let down = f64::from_bits(square.to_bits() - 1);
            same(num(down).sqrt(), down.sqrt(), "below a square");
        }
    }
}

#[test]
fn sqrt_exact_values() {
    assert_eq!(val(num(4.0).sqrt()), 2.0);
    assert_eq!(val(num(2.0).sqrt()), 1.4142135623730951);
    assert_eq!(val(num(0.25).sqrt()), 0.5);
    assert_eq!(num(0.0).sqrt().to_bits(), 0.0f64.to_bits());
    assert_eq!(num(-0.0).sqrt().to_bits(), (-0.0f64).to_bits());
    assert!(num(-1.0).sqrt().is_nan());
    assert_eq!(val(num(f64::INFINITY).sqrt()), f64::INFINITY);
    assert_eq!(val(num(5e-324).sqrt()), 2.2227587494850775e-162);
}
