use streamstat::bucket::{bucketize, log_arguments, span_of, Logarithms};
use streamstat::number::Number;
use streamstat::parse::parse_number;
use streamstat::plot::{
    edge_shares, linear_edges, marker_exponents, peak_of, plot, Binning, ConfigError, Histogram,
    LogScale, PlotArgs, PlotError,
};
use streamstat::summary::Summary;

fn num(x: f64) -> Number {
    Number::from_bits(x.to_bits())
}

fn val(n: Number) -> f64 {
    f64::from_bits(n.to_bits())
}

fn vals(numbers: &[Number]) -> Vec<f64> {
    numbers.iter().map(|n| val(*n)).collect()
}

fn args(width: u64, height: u64, num_labels: u64) -> PlotArgs {
    ranged(width, height, num_labels, 0.0, 10.0)
}

fn ranged(width: u64, height: u64, num_labels: u64, min: f64, max: f64) -> PlotArgs {
    PlotArgs {
        min: num(min),
        max: num(max),
        width,
        height,
        num_labels,
        log_x: false,
        log_y: false,
        log_x_rev: false,
        omit_empty: false,
    }
}

fn edges_between(height: u64, min: f64, max: f64) -> Vec<Number> {
    linear_edges(&ranged(50, height, 4, min, max))
}

fn edges_of(a: &PlotArgs) -> Vec<Number> {
    linear_edges(a)
}

/// The logarithms and powers that a logarithmic count axis asks for.
fn log_scale(a: &PlotArgs, buckets: &[u64]) -> LogScale {
    let peak = num((*buckets.iter().max().unwrap() as f64).log10());
    LogScale {
        peak,
        counts: buckets.iter().map(|b| num((*b as f64).log10())).collect(),
        markers: marker_exponents(a, peak).iter().map(|e| num(10.0f64.powf(val(*e)))).collect(),
    }
}

/// The powers of the span that a logarithmic value axis asks for.
fn powers(a: &PlotArgs) -> Vec<Number> {
    let span = val(span_of(a.min, a.max));
    edge_shares(a).iter().map(|share| num(span.powf(val(*share)))).collect()
}

/// The layout as floating point draws it, for a linear count axis.
fn drawn_with_floats(a: &PlotArgs, buckets: &[u64], edges: &[Number]) -> Histogram {
    let top = *buckets.iter().max().unwrap();
    let tile = a.width as f64 / top as f64;
    let max = format!("{:.2}", f64::from_bits(a.max.to_bits()));
    let padding = max.len();
    let cell = (a.width / a.num_labels - 2) as usize;
    let mut header = format!("{1:>0$}  ", padding, "");
    for i in 1..=a.num_labels {
        header.push_str(&format!(
            "{1:>0$.3} |",
            cell,
            top as f64 * i as f64 / a.num_labels as f64
        ));
    }
    let mut rows = Vec::new();
    for (i, bucket) in buckets.iter().enumerate() {
        if !a.omit_empty || *bucket > 0 {
            let mut row = format!("{1:>0$.2}: ", padding, f64::from_bits(edges[i].to_bits()));
            if *bucket > 1 {
                for _ in 0..(tile * *bucket as f64).round() as u64 {
                    row.push('#');
                }
            } else if *bucket > 0 {
                row.push('X');
            }
            rows.push(row);
        }
    }
    Histogram { header, rows, footer: max }
}

#[test]
fn one_row_where_empty_buckets_are_left_out() {
    let mut a = args(40, 4, 4);
    a.omit_empty = true;
    let h = plot(&a, &vec![0, 0, 5, 0], None, None).unwrap();
    assert_eq!(h.rows.len(), 1);
    assert_eq!(h.rows[0], format!(" 5.00: {}", "#".repeat(40)));
}

#[test]
fn four_rows_where_empty_buckets_are_kept() {
    let a = args(40, 4, 4);
    let h = plot(&a, &vec![0, 0, 5, 0], None, None).unwrap();
    assert_eq!(h.rows.len(), 4);
    assert_eq!(
        h.rows,
        vec![
            " 0.00: ".to_string(),
            " 2.50: ".to_string(),
            format!(" 5.00: {}", "#".repeat(40)),
            " 7.50: ".to_string(),
        ]
    );
}

#[test]
fn header_and_footer() {
    let a = args(40, 4, 4);
    let h = plot(&a, &vec![0, 0, 5, 0], None, None).unwrap();
    assert_eq!(h.header, "          1.250 |   2.500 |   3.750 |   5.000 |");
    assert_eq!(h.footer, "10.00");
}

#[test]
fn bars_are_shares_of_the_width() {
    let a = args(50, 5, 5);
    let h = plot(&a, &vec![10, 5, 3, 1, 0], None, None).unwrap();
    assert_eq!(h.rows[0], format!(" 0.00: {}", "#".repeat(50)));
    assert_eq!(h.rows[1], format!(" 2.00: {}", "#".repeat(25)));
    assert_eq!(h.rows[2], format!(" 4.00: {}", "#".repeat(15)));
    assert_eq!(h.rows[3], " 6.00: X");
    assert_eq!(h.rows[4], " 8.00: ");
}

#[test]
fn a_half_character_is_rounded_up() {
    // 3 * 2 / 4 = 1.5 and 3 * 3 / 4 = 2.25
    let a = ranged(3, 3, 1, 0.0, 3.0);
    let h = plot(&a, &vec![2, 3, 4], None, None).unwrap();
    assert_eq!(h.rows, vec!["0.00: ##", "1.00: ##", "2.00: ###"]);
}

#[test]
fn a_count_of_one_is_a_cross_whatever_the_width() {
    let a = ranged(1000, 2, 2, 0.0, 1.0);
    let h = plot(&a, &vec![1, 1], None, None).unwrap();
    assert_eq!(h.rows, vec!["0.00: X", "0.50: X"]);
}

#[test]
fn edges_are_right_justified_to_the_upper_end() {
    let mut a = ranged(10, 3, 2, -5.0, 1000.0);
    a.log_x = true;
    let powers = vec![num(1.0), num(106.0), num(1234573.0)];
    let h = plot(&a, &vec![2, 2, 2], Some(&powers), None).unwrap();
    assert_eq!(
        h.rows,
        vec!["  -5.00: ##########", " 100.00: ##########", "1234567.00: ##########"]
    );
    assert_eq!(h.header, "         1.000 |2.000 |");
    assert_eq!(h.footer, "1000.00");
}

#[test]
fn markers_wider_than_their_cell_are_kept_whole() {
    let a = ranged(4, 1, 2, 0.0, 1.0);
    let h = plot(&a, &vec![123456], None, None).unwrap();
    assert_eq!(h.header, "      61728.000 |123456.000 |");
}

#[test]
fn layout_agrees_with_floating_point() {
    let cases: Vec<(u64, u64, Vec<u64>)> = vec![
        (50, 5, vec![3, 9, 27, 81, 243, 1, 0, 2]),
        (50, 4, vec![7, 7, 7]),
        (80, 10, vec![1, 2, 3, 4, 5, 6, 7, 8, 9, 10, 11, 12]),
        (33, 3, vec![0, 0, 1]),
        (120, 7, vec![1000000, 999999, 500000, 333333, 2, 1, 0]),
        (64, 8, vec![13, 21, 34, 55, 89, 144]),
    ];
    for (width, num_labels, buckets) in cases {
        for omit_empty in [false, true] {
            let mut a = ranged(width, buckets.len() as u64, num_labels, -3.5, 17.25);
            a.omit_empty = omit_empty;
            let edges = edges_of(&a);
            let h = plot(&a, &buckets, None, None).unwrap();
            let expected = drawn_with_floats(&a, &buckets, &edges);
            assert_eq!(h.header, expected.header);
            assert_eq!(h.rows, expected.rows);
            assert_eq!(h.footer, expected.footer);
        }
    }
}

#[test]
fn logarithmic_count_axis_scales_bars_by_logarithms() {
    let mut a = args(40, 4, 2);
    a.log_y = true;
    let buckets = vec![1000, 10, 1, 0];
    let exponents = marker_exponents(&a, num(3.0));
    assert_eq!(vals(&exponents), vec![1.5, 3.0]);
    let scale = LogScale {
        peak: num(3.0),
        counts: vec![num(3.0), num(1.0), num(0.0), num(f64::NEG_INFINITY)],
        markers: vec![num(31.622776601683793), num(1000.0)],
    };
    let h = plot(&a, &buckets, None, Some(&scale)).unwrap();
    assert_eq!(h.header, format!("       {:>18} |{:>18} |", "31.623", "1000.000"));
    assert_eq!(
        h.rows,
        vec![
            format!(" 0.00: {}", "#".repeat(40)),
            format!(" 2.50: {}", "#".repeat(13)),
            " 5.00: X".to_string(),
            " 7.50: ".to_string(),
        ]
    );
}

#[test]
fn logarithmic_bars_are_rounded_to_the_nearest_character() {
    // 10 / 2 * 0.5 = 2.5, 10 / 2 * 0.75 = 3.75 and 10 / 2 * 0.68 = 3.4
    let mut a = ranged(10, 3, 1, 0.0, 3.0);
    a.log_y = true;
    let scale = LogScale {
        peak: num(2.0),
        counts: vec![num(0.5), num(0.75), num(0.68)],
        markers: vec![num(100.0)],
    };
    let h = plot(&a, &vec![3, 6, 5], None, Some(&scale)).unwrap();
    assert_eq!(h.rows, vec!["0.00: ###", "1.00: ####", "2.00: ###"]);
}

#[test]
fn logarithmic_count_axis_agrees_with_floating_point() {
    for (width, num_labels, buckets) in [
        (50u64, 5u64, vec![3u64, 9, 27, 81, 243, 1, 0, 2]),
        (80, 10, vec![1, 2, 3, 4, 5, 6, 7, 8, 9, 10, 11, 12]),
        (120, 7, vec![1000000, 999999, 500000, 333333, 2, 1, 0]),
        (64, 8, vec![13, 21, 34, 55, 89, 144]),
    ] {
        let mut a = ranged(width, buckets.len() as u64, num_labels, -3.5, 17.25);
        a.log_y = true;
        let scale = log_scale(&a, &buckets);
        let h = plot(&a, &buckets, None, Some(&scale)).unwrap();
        let top = (*buckets.iter().max().unwrap() as f64).log10();
        let tile = width as f64 / top;
        let cell = (width / num_labels - 2) as usize;
        let mut header = format!("{1:>0$}  ", 5, "");
        for i in 1..=num_labels {
            let at = 10.0f64.powf(top * i as f64 / num_labels as f64);
            header.push_str(&format!("{1:>0$.3} |", cell, at));
        }
        assert_eq!(h.header, header);
        for (i, count) in buckets.iter().enumerate() {
            let bar = h.rows[i].split(": ").nth(1).unwrap();
            if *count > 1 {
                let length = (tile * (*count as f64).log10()).round() as usize;
                assert_eq!(bar, "#".repeat(length));
            } else if *count == 1 {
                assert_eq!(bar, "X");
            } else {
                assert_eq!(bar, "");
            }
        }
    }
}

#[test]
fn marker_exponents_divide_the_logarithm_of_the_peak() {
    let a = args(40, 4, 4);
    assert_eq!(vals(&marker_exponents(&a, num(2.0))), vec![0.5, 1.0, 1.5, 2.0]);
    let top = 12345.0f64.log10();
    let exponents = marker_exponents(&args(70, 4, 7), num(top));
    for i in 1..=7u64 {
        let expected = top * i as f64 / 7.0;
        assert_eq!(exponents[i as usize - 1].to_bits(), expected.to_bits());
    }
}

#[test]
fn edge_shares_divide_the_axis() {
    let mut a = args(40, 4, 4);
    a.log_x = true;
    assert_eq!(vals(&edge_shares(&a)), vec![0.0, 0.25, 0.5, 0.75]);
    a.log_x = false;
    a.log_x_rev = true;
    assert_eq!(vals(&edge_shares(&a)), vec![1.0, 0.75, 0.5, 0.25]);
    let mut b = args(40, 7, 4);
    b.log_x_rev = true;
    let shares = edge_shares(&b);
    for i in 0..7u64 {
        assert_eq!(shares[i as usize].to_bits(), (1.0 - i as f64 / 7.0).to_bits());
    }
}

#[test]
fn logarithmic_edges_lie_by_their_powers_of_the_span() {
    // The span of 0 to 15 is 16: its powers to 0, 1/4, 1/2 and 3/4 are 1, 2, 4 and 8.
    let mut a = ranged(40, 4, 4, 0.0, 15.0);
    a.log_x = true;
    let given = vec![num(1.0), num(2.0), num(4.0), num(8.0)];
    let h = plot(&a, &vec![2, 2, 2, 2], Some(&given), None).unwrap();
    let edges: Vec<&str> = h.rows.iter().map(|r| r.split(':').next().unwrap()).collect();
    assert_eq!(edges, vec![" 0.00", " 1.00", " 3.00", " 7.00"]);
    a.log_x = false;
    a.log_x_rev = true;
    let given = vec![num(16.0), num(8.0), num(4.0), num(2.0)];
    let h = plot(&a, &vec![2, 2, 2, 2], Some(&given), None).unwrap();
    let edges: Vec<&str> = h.rows.iter().map(|r| r.split(':').next().unwrap()).collect();
    assert_eq!(edges, vec![" 0.00", " 8.00", "12.00", "14.00"]);
}

#[test]
fn logarithmic_edges_agree_with_floating_point() {
    for (height, min, max) in [(4u64, 0.0, 10.0), (10, -3.5, 17.25), (7, 1e-3, 1e9)] {
        for reverse in [false, true] {
            let mut a = ranged(50, height, 4, min, max);
            a.log_x = !reverse;
            a.log_x_rev = reverse;
            let buckets = vec![2u64; height as usize];
            let h = plot(&a, &buckets, Some(&powers(&a)), None).unwrap();
            let padding = format!("{:.2}", max).len();
            for i in 0..height {
                let share = i as f64 / height as f64;
                let edge = if reverse {
                    max + 1.0 - (max - min + 1.0).powf(1.0 - share)
                } else {
                    (max - min + 1.0).powf(share) + min - 1.0
                };
                let expected = format!("{1:>0$.2}", padding, edge);
                assert_eq!(h.rows[i as usize].split(':').next().unwrap(), expected);
            }
        }
    }
}

#[test]
fn linear_count_axis_does_not_read_the_scale() {
    let a = args(40, 2, 2);
    let scale = LogScale { peak: num(0.0), counts: vec![], markers: vec![] };
    let with = plot(&a, &vec![4, 2], None, Some(&scale)).unwrap();
    let without = plot(&a, &vec![4, 2], None, None).unwrap();
    assert_eq!(with.header, without.header);
    assert_eq!(with.rows, without.rows);
}

#[test]
fn no_buckets_is_nothing_to_plot() {
    let a = args(40, 4, 4);
    let r = plot(&a, &Vec::new(), None, None);
    assert_eq!(r.err(), Some(PlotError::NothingToPlot));
}

#[test]
fn empty_buckets_are_nothing_to_plot() {
    let a = args(40, 4, 4);
    let r = plot(&a, &vec![0, 0, 0, 0], None, None);
    assert_eq!(r.err(), Some(PlotError::NothingToPlot));
}

#[test]
fn unusable_configurations() {
    let buckets = vec![1, 2, 3, 4];
    let axis: Option<&Vec<Number>> = None;
    let r = plot(&args(40, 0, 4), &buckets, axis, None);
    assert_eq!(r.err(), Some(PlotError::Config(ConfigError::NoBuckets)));
    let r = plot(&args(40, 4, 0), &buckets, axis, None);
    assert_eq!(r.err(), Some(PlotError::Config(ConfigError::NoLabels)));
    let r = plot(&args(7, 4, 4), &buckets, axis, None);
    assert_eq!(r.err(), Some(PlotError::Config(ConfigError::LabelsTooNarrow)));
    let r = plot(&args(0, 4, 4), &buckets, axis, None);
    assert_eq!(r.err(), Some(PlotError::Config(ConfigError::LabelsTooNarrow)));
    let mut both = args(40, 4, 4);
    both.log_x = true;
    both.log_x_rev = true;
    let r = plot(&both, &buckets, axis, None);
    assert_eq!(r.err(), Some(PlotError::Config(ConfigError::ConflictingAxes)));
    assert!(plot(&args(8, 4, 4), &buckets, axis, None).is_ok());
}

#[test]
fn nothing_to_plot_comes_before_the_configuration() {
    let r = plot(&args(40, 0, 4), &Vec::new(), None, None);
    assert_eq!(r.err(), Some(PlotError::NothingToPlot));
    let r = plot(&args(0, 4, 0), &vec![0, 0, 0, 0], None, None);
    assert_eq!(r.err(), Some(PlotError::NothingToPlot));
    let mut both = args(40, 4, 4);
    both.log_x = true;
    both.log_x_rev = true;
    assert_eq!(plot(&both, &Vec::new(), None, None).err(), Some(PlotError::NothingToPlot));
}

#[test]
fn no_values_and_no_buckets_is_nothing_to_plot() {
    let a = args(50, 0, 4);
    let buckets = bucketize(&Vec::new(), 0, a.min, a.max, a.binning(), None).unwrap();
    assert_eq!(plot(&a, &buckets, None, None).err(), Some(PlotError::NothingToPlot));
}

#[test]
fn buckets_must_match_the_height() {
    let r = plot(&args(40, 4, 4), &vec![1, 2, 3], None, None);
    assert_eq!(r.err(), Some(PlotError::BucketsMismatch));
}

#[test]
fn a_logarithmic_value_axis_needs_its_powers() {
    let mut a = args(40, 4, 4);
    a.log_x_rev = true;
    let buckets = vec![1, 2, 3, 4];
    assert_eq!(plot(&a, &buckets, None, None).err(), Some(PlotError::PowersMismatch));
    let short = edges_between(3, 0.0, 1.0);
    assert_eq!(plot(&a, &buckets, Some(&short), None).err(), Some(PlotError::PowersMismatch));
    let fitting = vec![num(11.0), num(5.0), num(2.5), num(1.5)];
    let h = plot(&a, &buckets, Some(&fitting), None).unwrap();
    assert_eq!(h.rows[1], format!(" 6.00: {}", "#".repeat(20)));
}

#[test]
fn a_linear_value_axis_reads_no_powers() {
    let a = args(40, 4, 4);
    let misleading = vec![num(99.0)];
    let with = plot(&a, &vec![1, 2, 3, 4], Some(&misleading), None).unwrap();
    let without = plot(&a, &vec![1, 2, 3, 4], None, None).unwrap();
    assert_eq!(with.rows, without.rows);
    assert_eq!(without.rows[1], format!(" 2.50: {}", "#".repeat(20)));
}

#[test]
fn logarithmic_count_axis_needs_its_scale() {
    let mut a = args(40, 2, 2);
    a.log_y = true;
    let buckets = vec![5, 50];
    assert_eq!(plot(&a, &buckets, None, None).err(), Some(PlotError::LogScaleMismatch));
    let short =
        LogScale { peak: num(1.0), counts: vec![num(1.0)], markers: vec![num(1.0), num(2.0)] };
    assert_eq!(plot(&a, &buckets, None, Some(&short)).err(), Some(PlotError::LogScaleMismatch));
    let unmarked =
        LogScale { peak: num(1.0), counts: vec![num(1.0), num(2.0)], markers: vec![num(1.0)] };
    assert_eq!(plot(&a, &buckets, None, Some(&unmarked)).err(), Some(PlotError::LogScaleMismatch));
    let fitting = LogScale {
        peak: num(1.0),
        counts: vec![num(1.0), num(2.0)],
        markers: vec![num(1.0), num(2.0)],
    };
    assert!(plot(&a, &buckets, None, Some(&fitting)).is_ok());
}

#[test]
fn peak_is_the_greatest_count() {
    assert_eq!(peak_of(&Vec::new()), 0);
    assert_eq!(peak_of(&vec![0, 0]), 0);
    assert_eq!(peak_of(&vec![3, 9, 2]), 9);
    assert_eq!(peak_of(&vec![u64::MAX, 1]), u64::MAX);
}

#[test]
fn huge_counts_do_not_overflow() {
    let a = args(u64::MAX, 2, 1);
    let top = u64::MAX;
    let mut small = ranged(10, 2, 1, 0.0, 1.0);
    small.omit_empty = true;
    let h = plot(&small, &vec![top, top / 2], None, None).unwrap();
    assert_eq!(h.rows, vec!["0.00: ##########", "0.50: #####"]);
    assert_eq!(h.header, format!("      {:.3} |", u64::MAX as f64));
    assert_eq!(h.header, "      18446744073709551616.000 |");
    assert!(a.check().is_ok());
}

#[test]
fn binning_follows_the_switches() {
    let mut a = args(40, 4, 4);
    assert_eq!(a.binning(), Binning::Linear);
    a.log_x_rev = true;
    assert_eq!(a.binning(), Binning::ReverseLogarithmic);
    a.log_x = true;
    assert_eq!(a.binning(), Binning::Logarithmic);
    a.log_x_rev = false;
    assert_eq!(a.binning(), Binning::Logarithmic);
}

#[test]
fn check_reports_the_first_defect() {
    assert_eq!(args(40, 4, 4).check(), Ok(()));
    assert_eq!(args(0, 0, 0).check(), Err(ConfigError::NoBuckets));
    assert_eq!(args(0, 1, 0).check(), Err(ConfigError::NoLabels));
    assert_eq!(args(1, 1, 1).check(), Err(ConfigError::LabelsTooNarrow));
    assert_eq!(args(2, 1, 1).check(), Ok(()));
}

#[test]
fn linear_edges_agree_with_floating_point() {
    for (height, min, max) in [(4u64, 0.0, 10.0), (10, -3.5, 17.25), (7, 1e-3, 1e9), (3, -1e300, 1e300)] {
        let a = ranged(50, height, 4, min, max);
        let edges = linear_edges(&a);
        assert_eq!(edges.len() as u64, height);
        for i in 0..height {
            let expected = min + (i as f64) * (max - min) / height as f64;
            assert_eq!(edges[i as usize].to_bits(), expected.to_bits());
        }
    }
}

#[test]
fn linear_edges_exact_values() {
    let edges = linear_edges(&ranged(50, 4, 4, 0.0, 10.0));
    let values: Vec<f64> = edges.iter().map(|e| f64::from_bits(e.to_bits())).collect();
    assert_eq!(values, vec![0.0, 2.5, 5.0, 7.5]);
}

#[test]
fn histogram_of_a_stream_from_its_lines() {
    let text = "3\n1\n4\n1\n5\n9\n2\n6\n5\n3\n5\n8\n9\n7\n9\n3\n2\n3\n8\n4\n6\n2\n6\n4\n3";
    let mut summary = Summary::new();
    let mut values = Vec::new();
    for line in text.lines() {
        let value = parse_number(line).unwrap();
        summary.update(value);
        values.push(value);
    }
    let a = PlotArgs {
        min: summary.min().unwrap(),
        max: summary.max().unwrap(),
        width: 50,
        height: 4,
        num_labels: 5,
        log_x: false,
        log_y: false,
        log_x_rev: false,
        omit_empty: false,
    };
    let buckets = bucketize(&values, 4, a.min, a.max, a.binning(), None).unwrap();
    assert_eq!(buckets, vec![10, 6, 4, 5]);
    let h = plot(&a, &buckets, None, None).unwrap();
    assert_eq!(h.header, "         2.000 |   4.000 |   6.000 |   8.000 |  10.000 |");
    assert_eq!(
        h.rows,
        vec![
            format!("1.00: {}", "#".repeat(50)),
            format!("3.00: {}", "#".repeat(30)),
            format!("5.00: {}", "#".repeat(20)),
            format!("7.00: {}", "#".repeat(25)),
        ]
    );
    assert_eq!(h.footer, "9.00");
}

#[test]
fn histogram_with_both_axes_logarithmic() {
    let raw = [1.0, 1.0, 1.0, 1.0, 2.0, 2.0, 3.0, 5.0, 9.0, 20.0, 50.0, 100.0];
    let values: Vec<Number> = raw.iter().map(|v| num(*v)).collect();
    let mut a = ranged(30, 3, 3, 1.0, 100.0);
    a.log_x = true;
    a.log_y = true;
    let arguments = log_arguments(&values, a.min, a.max, a.binning());
    let logs = Logarithms {
        span: num(val(span_of(a.min, a.max)).ln()),
        values: arguments.iter().map(|x| num(val(*x).ln())).collect(),
    };
    let buckets = bucketize(&values, 3, a.min, a.max, a.binning(), Some(&logs)).unwrap();
    assert_eq!(buckets, vec![7, 3, 2]);
    let h = plot(&a, &buckets, Some(&powers(&a)), Some(&log_scale(&a, &buckets))).unwrap();
    assert_eq!(h.rows.len(), 3);
    assert_eq!(h.rows[0], format!("  1.00: {}", "#".repeat(30)));
    assert_eq!(h.rows[1], format!("  4.64: {}", "#".repeat(17)));
    assert_eq!(h.rows[2], format!(" 21.54: {}", "#".repeat(11)));
    assert_eq!(h.header, "           1.913 |   3.659 |   7.000 |");
    assert_eq!(h.footer, "100.00");
}
