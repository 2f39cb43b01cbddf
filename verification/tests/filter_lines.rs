use clap::{App, Arg};
use streamstat::filter::{bound_texts, filter, BoundError, BoundTexts, Threshold, Verdict};
use streamstat::number::Number;

fn num(x: f64) -> Number {
    Number::from_bits(x.to_bits())
}

fn lines(texts: &[&str]) -> Vec<String> {
    texts.iter().map(|t| t.to_string()).collect()
}

fn bounds(lower: Option<f64>, upper: Option<f64>) -> Threshold {
    Threshold { lower: lower.map(num), upper: upper.map(num) }
}

fn texts(lower: Option<&str>, upper: Option<&str>) -> BoundTexts {
    BoundTexts { lower: lower.map(|t| t.to_string()), upper: upper.map(|t| t.to_string()) }
}

fn filter_app() -> App<'static, 'static> {
    App::new("filter")
        .arg(Arg::with_name("less-than").long("less-than").takes_value(true).allow_hyphen_values(true))
        .arg(
            Arg::with_name("greater-than")
                .long("greater-than")
                .takes_value(true)
                .allow_hyphen_values(true),
        )
}

#[test]
fn greater_than_four_keeps_five_and_ten() {
    let stream: Vec<String> = "1\n5\n10".lines().map(|l| l.to_string()).collect();
    let out = filter(&stream, &bounds(Some(4.0), None));
    assert_eq!(out.join("\n"), "5\n10");
}

#[test]
fn greater_than_four_from_the_command_line() {
    let matches = filter_app().get_matches_from(vec!["filter", "--greater-than=4"]);
    let threshold = Threshold::new(&matches).unwrap();
    assert_eq!(threshold.lower.map(|n| n.to_bits()), Some(4.0f64.to_bits()));
    assert!(threshold.upper.is_none());
    let out = filter(&lines(&["1", "5", "10"]), &threshold);
    assert_eq!(out.join("\n"), "5\n10");
}

#[test]
fn bound_texts_reads_both_bounds() {
    let matches =
        filter_app().get_matches_from(vec!["filter", "--less-than", "-2.5", "--greater-than", "-7"]);
    let texts = bound_texts(&matches);
    assert_eq!(texts.lower, Some("-7".to_string()));
    assert_eq!(texts.upper, Some("-2.5".to_string()));
    let threshold = Threshold::new(&matches).unwrap();
    assert_eq!(threshold.lower.map(|n| n.to_bits()), Some((-7.0f64).to_bits()));
    assert_eq!(threshold.upper.map(|n| n.to_bits()), Some((-2.5f64).to_bits()));
}

#[test]
fn bound_texts_without_bounds() {
    let matches = filter_app().get_matches_from(vec!["filter"]);
    let texts = bound_texts(&matches);
    assert_eq!(texts.lower, None);
    assert_eq!(texts.upper, None);
    let threshold = Threshold::new(&matches).unwrap();
    assert!(threshold.lower.is_none() && threshold.upper.is_none());
}

#[test]
fn bounds_that_are_no_numbers() {
    let matches = filter_app().get_matches_from(vec!["filter", "--less-than", "ten"]);
    assert_eq!(Threshold::new(&matches).err(), Some(BoundError::LessThan));
    let matches = filter_app().get_matches_from(vec!["filter", "--greater-than", "1,5"]);
    assert_eq!(Threshold::new(&matches).err(), Some(BoundError::GreaterThan));
    let matches =
        filter_app().get_matches_from(vec!["filter", "--greater-than", "x", "--less-than", "y"]);
    assert_eq!(Threshold::new(&matches).err(), Some(BoundError::LessThan));
}

#[test]
fn bounds_from_texts() {
    let t = Threshold::from_texts(&texts(Some("1e3"), Some("+2.5E3"))).unwrap();
    assert_eq!(t.lower.map(|n| n.to_bits()), Some(1000.0f64.to_bits()));
    assert_eq!(t.upper.map(|n| n.to_bits()), Some(2500.0f64.to_bits()));
    assert_eq!(Threshold::from_texts(&texts(Some(""), None)).err(), Some(BoundError::GreaterThan));
    assert_eq!(Threshold::from_texts(&texts(None, Some(" 1"))).err(), Some(BoundError::LessThan));
    let open = Threshold::from_texts(&texts(None, None)).unwrap();
    assert!(open.lower.is_none() && open.upper.is_none());
    let wide = Threshold::from_texts(&texts(Some("-inf"), Some("nan"))).unwrap();
    assert!(wide.upper.unwrap().is_nan());
}

#[test]
fn no_bounds_pass_every_number() {
    let out = filter(&lines(&["3", "-1e9", "inf", "0.0"]), &bounds(None, None));
    assert_eq!(out, vec!["3", "-1e9", "inf", "0.0"]);
}

#[test]
fn bounds_are_inclusive() {
    let out = filter(&lines(&["1", "2", "3", "4", "5"]), &bounds(Some(2.0), Some(4.0)));
    assert_eq!(out, vec!["2", "3", "4"]);
}

#[test]
fn upper_bound_alone() {
    let out = filter(&lines(&["1", "5", "10"]), &bounds(None, Some(5.0)));
    assert_eq!(out, vec!["1", "5"]);
}

#[test]
fn text_passes_as_it_arrived() {
    let out = filter(&lines(&["5.000", "+5", "5e0", "0x5", "  5", "05", "5."]), &bounds(Some(4.0), None));
    assert_eq!(out, vec!["5.000", "+5", "5e0", "05", "5."]);
}

#[test]
fn lines_that_are_no_numbers_are_skipped() {
    let out = filter(&lines(&["a", "", "7", "seven", "8 "]), &bounds(None, None));
    assert_eq!(out, vec!["7"]);
}

#[test]
fn order_of_arrival_is_kept() {
    let out = filter(&lines(&["9", "1", "8", "2", "7", "3"]), &bounds(Some(5.0), None));
    assert_eq!(out, vec!["9", "8", "7"]);
}

#[test]
fn nan_passes_any_bounds() {
    let out = filter(&lines(&["NaN", "1"]), &bounds(Some(5.0), Some(6.0)));
    assert_eq!(out, vec!["NaN"]);
}

#[test]
fn crossed_bounds_pass_nothing_ordered() {
    let out = filter(&lines(&["1", "5", "10"]), &bounds(Some(6.0), Some(4.0)));
    assert!(out.is_empty());
}

#[test]
fn empty_stream_gives_nothing() {
    let out = filter(&Vec::new(), &bounds(Some(4.0), None));
    assert!(out.is_empty());
}

#[test]
fn filter_agrees_with_floating_point() {
    let mut state: u64 = 808;
    let mut stream = Vec::new();
    for i in 0..3000 {
        state = state.wrapping_mul(6364136223846793005).wrapping_add(1442695040888963407);
        let x = ((state >> 11) as f64 / (1u64 << 53) as f64 - 0.5) * 100.0;
        stream.push(match i % 5 {
            0 => format!("{}", x),
            1 => format!("{:.3}", x),
            2 => format!("{:e}", x),
            3 => format!("{} ", x),
            _ => format!("{}", state as i64),
        });
    }
    for (lower, upper) in [(None, None), (Some(-10.0), None), (None, Some(12.5)), (Some(-20.0), Some(20.0))] {
        let expected: Vec<String> = stream
            .iter()
            .filter(|line| match line.parse::<f64>() {
                Err(_) => false,
                Ok(v) => !(lower.map_or(false, |l| v < l) || upper.map_or(false, |u| v > u)),
            })
            .cloned()
            .collect();
        assert_eq!(filter(&stream, &bounds(lower, upper)), expected);
    }
}

#[test]
fn passes_agrees_with_the_comparisons() {
    let values = [f64::NEG_INFINITY, -3.0, -0.0, 0.0, 2.5, 4.0, 4.5, 1e300, f64::INFINITY, f64::NAN];
    let limits = [None, Some(-3.0), Some(0.0), Some(4.0), Some(f64::NAN), Some(f64::INFINITY)];
    for lower in limits {
        for upper in limits {
            let threshold = bounds(lower, upper);
            for v in values {
                let mut expected = true;
                if let Some(l) = lower {
                    if v < l {
                        expected = false;
                    }
                }
                if let Some(u) = upper {
                    if v > u {
                        expected = false;
                    }
                }
                assert_eq!(threshold.passes(num(v)), expected, "{:?} in {:?}..{:?}", v, lower, upper);
            }
        }
    }
}

#[test]
fn verdicts() {
    let threshold = bounds(Some(0.0), Some(10.0));
    assert_eq!(threshold.judge("1"), Verdict::Passed);
    assert_eq!(threshold.judge("10.0"), Verdict::Passed);
    assert_eq!(threshold.judge("10.000000000000002"), Verdict::Dropped);
    assert_eq!(threshold.judge("-1e-300"), Verdict::Dropped);
    assert_eq!(threshold.judge("one"), Verdict::NotANumber);
    assert_eq!(threshold.judge(""), Verdict::NotANumber);
}
