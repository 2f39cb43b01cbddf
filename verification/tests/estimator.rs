use streamstat::number::Number;
use streamstat::streaming_variance::StreamingVariance;

fn num(x: f64) -> Number {
    Number::from_bits(x.to_bits())
}

fn val(n: Number) -> f64 {
    f64::from_bits(n.to_bits())
}

fn estimate(values: &[f64]) -> StreamingVariance {
    let mut s = StreamingVariance::new();
    for v in values {
        s.update(num(*v));
    }
    s
}

/// The same recurrences in the floating point of the machine.
struct Floating {
    count: u64,
    mean: f64,
    variance: f64,
}

fn floating(values: &[f64]) -> Floating {
    let mut f = Floating { count: 0, mean: 0.0, variance: 0.0 };
    for v in values {
        f.count += 1;
        let delta = v - f.mean;
        f.mean += delta / (f.count as f64);
        let delta2 = v - f.mean;
        f.variance += delta * delta2;
    }
    f
}

fn same(got: Number, expected: f64) {
    if expected.is_nan() {
        assert!(got.is_nan());
    } else {
        assert_eq!(got.to_bits(), expected.to_bits(), "{:e} against {:e}", val(got), expected);
    }
}

fn scattered(seed: u64, n: usize, spread: f64) -> Vec<f64> {
    let mut state = seed;
    let mut out = Vec::new();
    for _ in 0..n {
        state = state.wrapping_mul(6364136223846793005).wrapping_add(1442695040888963407);
        out.push(((state >> 11) as f64 / (1u64 << 53) as f64 - 0.5) * spread);
    }
    out
}

#[test]
fn a_new_estimator_is_empty() {
    let s = StreamingVariance::new();
    assert_eq!(s.count(), 0);
    assert_eq!(s.mean().to_bits(), 0.0f64.to_bits());
    assert!(s.variance().is_none());
    assert!(s.standard_deviation().is_none());
    assert!(s.sample_variance().is_none());
    assert!(s.sample_standard_deviation().is_none());
}

#[test]
fn count_after_updates_equals_their_number() {
    let mut s = StreamingVariance::new();
    for i in 0..500u64 {
        assert_eq!(s.count(), i);
        s.update(num(i as f64));
    }
    assert_eq!(s.count(), 500);
}

#[test]
fn mean_of_one_to_five() {
    let s = estimate(&[1.0, 2.0, 3.0, 4.0, 5.0]);
    assert_eq!(s.count(), 5);
    assert_eq!(val(s.mean()), 3.0);
    assert_eq!(val(s.variance().unwrap()), 2.0);
    assert_eq!(val(s.sample_variance().unwrap()), 2.5);
    assert_eq!(val(s.standard_deviation().unwrap()), 2.0f64.sqrt());
    assert_eq!(val(s.sample_standard_deviation().unwrap()), 2.5f64.sqrt());
}

#[test]
fn sample_variance_of_a_known_stream() {
    let s = estimate(&[2.0, 4.0, 4.0, 4.0, 5.0, 5.0, 7.0, 9.0]);
    assert_eq!(val(s.mean()), 5.0);
    assert_eq!(val(s.variance().unwrap()), 4.0);
    assert_eq!(val(s.standard_deviation().unwrap()), 2.0);
    assert_eq!(val(s.sample_variance().unwrap()), 32.0 / 7.0);
}

#[test]
fn one_value_has_a_variance_but_no_sample_variance() {
    let s = estimate(&[7.5]);
    assert_eq!(val(s.mean()), 7.5);
    assert_eq!(val(s.variance().unwrap()), 0.0);
    assert!(s.sample_variance().is_none());
    assert!(s.sample_standard_deviation().is_none());
}

#[test]
fn constant_streams_have_no_variance_at_all() {
    for v in [1.0, -1.0, 0.1, 3.3333333333333335, 1e300, -1e-300, 5e-324, 0.0, -0.0, f64::MAX] {
        for n in [2usize, 3, 10, 1000] {
            let s = estimate(&vec![v; n]);
            assert_eq!(s.count(), n as u64);
            assert_eq!(s.sample_variance().unwrap().to_bits(), 0.0f64.to_bits(), "{:e} x {}", v, n);
            assert_eq!(s.variance().unwrap().to_bits(), 0.0f64.to_bits());
            assert_eq!(s.sample_standard_deviation().unwrap().to_bits(), 0.0f64.to_bits());
            if v != 0.0 {
                assert_eq!(s.mean().to_bits(), v.to_bits());
            }
        }
    }
}

#[test]
fn a_constant_stream_of_infinity_has_no_number_for_a_variance() {
    let s = estimate(&[f64::INFINITY, f64::INFINITY]);
    assert!(s.sample_variance().unwrap().is_nan());
}

#[test]
fn agrees_with_floating_point_step_by_step() {
    for (seed, spread) in [(1u64, 10.0), (2, 1e-6), (3, 1e12), (4, 1e300), (5, 1e-300)] {
        let values = scattered(seed, 400, spread);
        let mut s = StreamingVariance::new();
        for n in 1..=values.len() {
            s.update(num(values[n - 1]));
            let f = floating(&values[..n]);
            assert_eq!(s.count(), f.count);
            same(s.mean(), f.mean);
            same(s.variance().unwrap(), f.variance / f.count as f64);
            same(s.standard_deviation().unwrap(), (f.variance / f.count as f64).sqrt());
            if n > 1 {
                same(s.sample_variance().unwrap(), f.variance / (f.count as f64 - 1.0));
                same(
                    s.sample_standard_deviation().unwrap(),
                    (f.variance / (f.count as f64 - 1.0)).sqrt(),
                );
            }
        }
    }
}

#[test]
fn agrees_with_floating_point_on_what_is_no_finite_number() {
    let values = [1.0, f64::INFINITY, 2.0, f64::NAN, 3.0, f64::NEG_INFINITY];
    for n in 1..=values.len() {
        let s = estimate(&values[..n]);
        let f = floating(&values[..n]);
        same(s.mean(), f.mean);
        same(s.variance().unwrap(), f.variance / f.count as f64);
    }
}

#[test]
fn mean_matches_the_arithmetic_mean() {
    let mut streams = vec![
        scattered(11, 1000, 1.0),
        scattered(12, 1000, 1e9),
        (1..=1000).map(|i| i as f64).collect::<Vec<f64>>(),
    ];
    let mut disparate = Vec::new();
    for i in 0..500 {
        disparate.push(1e12 + i as f64);
        disparate.push(1e-3 * i as f64);
    }
    streams.push(disparate);
    streams.push(vec![1e15, 1.0, 1e15, 1.0, 1e15, 1.0]);
    for values in streams {
        let s = estimate(&values);
        let exact: f64 = values.iter().sum::<f64>() / values.len() as f64;
        let mean = val(s.mean());
        assert!((mean - exact).abs() <= 1e-9 * exact.abs(), "{:e} against {:e}", mean, exact);
    }
}

#[test]
fn variance_stays_sound_next_to_a_large_offset() {
    let values: Vec<f64> = [4.0, 7.0, 13.0, 16.0].iter().map(|v| v + 1e9).collect();
    let s = estimate(&values);
    assert_eq!(val(s.sample_variance().unwrap()), 30.0);
    assert_eq!(val(s.mean()), 1e9 + 10.0);
}

#[test]
fn the_mean_lies_within_the_range_of_the_values() {
    let streams: Vec<Vec<f64>> = vec![
        vec![1e16, 1.0, -1e16],
        vec![-1e16, 3.0, 3.0, 3.0],
        vec![1e-300, 1e300, -1e300, 5e-324],
        vec![4.49423283715579e307, -4.49423283715579e307, 4.49423283715579e307],
        vec![1.7e308, 9e307, 1.7976931348623157e308, 8.99e307],
        vec![0.1, 0.1, 0.1, 0.30000000000000004],
        scattered(7, 500, 1e12),
        scattered(8, 500, 1e-300),
    ];
    for values in streams {
        let mut s = StreamingVariance::new();
        let mut low = f64::INFINITY;
        let mut high = f64::NEG_INFINITY;
        for v in &values {
            s.update(num(*v));
            low = low.min(*v);
            high = high.max(*v);
            let mean = val(s.mean());
            assert!(mean.is_finite());
            assert!(low <= mean && mean <= high, "{:e} outside {:e} to {:e}", mean, low, high);
        }
    }
}

#[test]
fn values_too_far_apart_take_the_mean_out_of_their_range() {
    let s = estimate(&[1.7e308, -1.7e308]);
    assert!(s.mean().is_infinite());
    assert!(s.mean().is_negative());
}

#[test]
fn the_mean_can_be_far_from_the_arithmetic_mean() {
    // The three values add up to one, and their mean is a third.
    let s = estimate(&[1e16, 1.0, -1e16]);
    assert_eq!(val(s.mean()), 0.0);
}

#[test]
fn the_variance_is_never_negative() {
    let streams: Vec<Vec<f64>> = vec![
        vec![1e16, 1.0, -1e16],
        vec![-0.0, 0.0, -0.0],
        vec![0.1, 0.1, 0.1, 0.30000000000000004],
        vec![1e200, -1e200, 1e200, 3.0],
        vec![5e-324, 1e-323, 5e-324],
        vec![1.7e308, 9e307, 1.7976931348623157e308, 8.99e307],
        scattered(11, 300, 1e9),
        scattered(12, 300, 1e-310),
    ];
    for values in streams {
        let mut s = StreamingVariance::new();
        for (i, v) in values.iter().enumerate() {
            s.update(num(*v));
            let population = s.variance().unwrap();
            assert!(!population.is_nan() && !population.is_negative());
            if i >= 1 {
                let sample = s.sample_variance().unwrap();
                assert!(!sample.is_nan() && !sample.is_negative());
                let deviation = s.sample_standard_deviation().unwrap();
                assert!(!deviation.is_nan());
            }
        }
    }
}

#[test]
fn values_too_far_apart_leave_no_variance() {
    let s = estimate(&[1.7e308, -1.7e308]);
    let sample = s.sample_variance().unwrap();
    assert!(sample.is_nan() || sample.is_negative());
}

/// `n` times the mean less the sum of the values, and the most that the
/// roundings allow of it, both times two to the power of 60. The values
/// are whole numbers of no more than `bound`.
fn error_and_allowance(values: &[f64], bound: f64) -> (i128, i128) {
    let scale = (1u128 << 60) as f64;
    let s = estimate(values);
    let n = values.len() as i128;
    let mean = (val(s.mean()) * scale) as i128;
    let total: i128 = values.iter().map(|v| (*v as i128) << 60).sum();
    let error = (n * mean - total).abs();
    let allowance = n * (n + 6) * ((((bound as i128) << 60) >> 53) + 1) + n;
    (error, allowance)
}

#[test]
fn the_mean_is_near_the_arithmetic_mean_of_whole_numbers() {
    let streams: Vec<(Vec<f64>, f64)> = vec![
        (vec![1e16, 1.0, -1e16], 1e16),
        (vec![1.0, 2.0, 3.0, 4.0, 5.0], 5.0),
        (vec![9007199254740991.0, 1.0, 3.0, -9007199254740991.0, 7.0], 9007199254740991.0),
        ((1..=1000).map(|i| (i * i % 977) as f64 - 400.0).collect(), 977.0),
        ((1..=500).map(|i| if i % 2 == 0 { 1e15 } else { -1e15 + i as f64 }).collect(), 1e15),
    ];
    for (values, bound) in streams {
        let (error, allowance) = error_and_allowance(&values, bound);
        assert!(error <= allowance, "{} above {}", error, allowance);
    }
}

#[test]
fn the_mean_of_moderate_values_is_within_a_billionth_of_the_greatest() {
    let values: Vec<f64> = (0..20000).map(|i| ((i * 7919) % 100003) as f64 - 50000.0).collect();
    let s = estimate(&values);
    let exact = values.iter().map(|v| *v as i128).sum::<i128>() as f64 / values.len() as f64;
    assert!((val(s.mean()) - exact).abs() <= 1e-9 * 50003.0);
}

#[test]
fn the_mean_matches_the_arithmetic_mean_where_values_do_not_cancel() {
    let streams: Vec<Vec<f64>> = vec![
        vec![1.0, 2.0, 3.0, 4.0, 5.0],
        vec![1e16, 1.0, 1.0, 3.0],
        vec![7.0, 1e15, 2.0, 9e15, 4.0, 1e12],
        (1..=5000).map(|i| (i * 37 % 1009) as f64 + 1.0).collect(),
        (1..=3000).map(|i| -((i * i % 4093) as f64) - 5.0).collect(),
    ];
    for values in streams {
        let s = estimate(&values);
        let n = values.len() as i128;
        let total: i128 = values.iter().map(|v| *v as i128).sum();
        let scale = (1u128 << 60) as f64;
        let mean = (val(s.mean()) * scale) as i128;
        let error = (n * mean - (total << 60)).abs();
        assert!(1_000_000_000 * error <= (total.abs() << 60) + 1_000_000_000 * n);
    }
}
