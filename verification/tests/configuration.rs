use clap::{App, Arg};
use streamstat::number::Number;
use streamstat::plot::{ConfigError, PlotArgs, RawArgs, Setting};

fn num(x: f64) -> Number {
    Number::from_bits(x.to_bits())
}

fn plot_app() -> App<'static, 'static> {
    App::new("plot")
        .arg(Arg::with_name("width").long("width").takes_value(true).default_value("50"))
        .arg(Arg::with_name("height").long("height").takes_value(true).default_value("10"))
        .arg(Arg::with_name("num-labels").long("num-labels").takes_value(true).default_value("4"))
        .arg(Arg::with_name("log-x").long("log-x"))
        .arg(Arg::with_name("log-x-rev").long("log-x-rev"))
        .arg(Arg::with_name("log-y").long("log-y"))
        .arg(Arg::with_name("omit-empty").long("omit-empty"))
}

fn bare_app() -> App<'static, 'static> {
    App::new("plot")
        .arg(Arg::with_name("width").long("width").takes_value(true))
        .arg(Arg::with_name("height").long("height").takes_value(true))
        .arg(Arg::with_name("num-labels").long("num-labels").takes_value(true))
}

fn raw(width: &str, height: &str, num_labels: &str) -> RawArgs {
    RawArgs {
        width: Some(width.to_string()),
        height: Some(height.to_string()),
        num_labels: Some(num_labels.to_string()),
        log_x: false,
        log_x_rev: false,
        log_y: false,
        omit_empty: false,
    }
}

#[test]
fn defaults_from_the_command_line() {
    let matches = plot_app().get_matches_from(vec!["plot"]);
    let args = PlotArgs::new(&matches, num(1.0), num(9.0)).unwrap();
    assert_eq!(args.width, 50);
    assert_eq!(args.height, 10);
    assert_eq!(args.num_labels, 4);
    assert!(!args.log_x && !args.log_x_rev && !args.log_y && !args.omit_empty);
    assert_eq!(args.min.to_bits(), 1.0f64.to_bits());
    assert_eq!(args.max.to_bits(), 9.0f64.to_bits());
}

#[test]
fn settings_from_the_command_line() {
    let matches = plot_app().get_matches_from(vec![
        "plot",
        "--width",
        "80",
        "--height=20",
        "--num-labels",
        "8",
        "--log-x-rev",
        "--log-y",
        "--omit-empty",
    ]);
    let args = PlotArgs::new(&matches, num(0.0), num(1.0)).unwrap();
    assert_eq!(args.width, 80);
    assert_eq!(args.height, 20);
    assert_eq!(args.num_labels, 8);
    assert!(!args.log_x);
    assert!(args.log_x_rev);
    assert!(args.log_y);
    assert!(args.omit_empty);
}

#[test]
fn each_switch_is_read_under_its_own_name() {
    for (flag, expected) in [
        ("--log-x", (true, false, false, false)),
        ("--log-x-rev", (false, true, false, false)),
        ("--log-y", (false, false, true, false)),
        ("--omit-empty", (false, false, false, true)),
    ] {
        let matches = plot_app().get_matches_from(vec!["plot", flag]);
        let args = PlotArgs::new(&matches, num(0.0), num(1.0)).unwrap();
        assert_eq!((args.log_x, args.log_x_rev, args.log_y, args.omit_empty), expected);
    }
}

#[test]
fn malformed_numbers_from_the_command_line() {
    let matches = plot_app().get_matches_from(vec!["plot", "--width", "wide"]);
    assert_eq!(
        PlotArgs::new(&matches, num(0.0), num(1.0)).err(),
        Some(ConfigError::Malformed(Setting::Width))
    );
    let matches = plot_app().get_matches_from(vec!["plot", "--height", "1.5"]);
    assert_eq!(
        PlotArgs::new(&matches, num(0.0), num(1.0)).err(),
        Some(ConfigError::Malformed(Setting::Height))
    );
    let matches = plot_app().get_matches_from(vec!["plot", "--num-labels", "99999999999999999999"]);
    assert_eq!(
        PlotArgs::new(&matches, num(0.0), num(1.0)).err(),
        Some(ConfigError::Malformed(Setting::NumLabels))
    );
}

#[test]
fn missing_settings_from_the_command_line() {
    let matches = bare_app().get_matches_from(vec!["plot"]);
    assert_eq!(
        PlotArgs::new(&matches, num(0.0), num(1.0)).err(),
        Some(ConfigError::Missing(Setting::Width))
    );
    let matches = bare_app().get_matches_from(vec!["plot", "--width", "50"]);
    assert_eq!(
        PlotArgs::new(&matches, num(0.0), num(1.0)).err(),
        Some(ConfigError::Missing(Setting::Height))
    );
    let matches = bare_app().get_matches_from(vec!["plot", "--width", "50", "--height", "5"]);
    assert_eq!(
        PlotArgs::new(&matches, num(0.0), num(1.0)).err(),
        Some(ConfigError::Missing(Setting::NumLabels))
    );
}

#[test]
fn both_logarithmic_cuts_are_read_and_conflict_when_checked() {
    let matches = plot_app().get_matches_from(vec!["plot", "--log-x", "--log-x-rev"]);
    let args = PlotArgs::new(&matches, num(0.0), num(1.0)).unwrap();
    assert!(args.log_x && args.log_x_rev);
    assert_eq!(args.check(), Err(ConfigError::ConflictingAxes));
}

#[test]
fn numbers_that_parse_are_taken_as_they_are() {
    let matches = plot_app().get_matches_from(vec![
        "plot",
        "--width",
        "0",
        "--height",
        "0",
        "--num-labels",
        "0",
        "--omit-empty",
    ]);
    let args = PlotArgs::new(&matches, num(-2.5), num(7.0)).unwrap();
    assert_eq!((args.width, args.height, args.num_labels), (0, 0, 0));
    assert!(!args.log_x && !args.log_x_rev && !args.log_y && args.omit_empty);
    assert_eq!(args.min.to_bits(), (-2.5f64).to_bits());
    assert_eq!(args.max.to_bits(), 7.0f64.to_bits());
    let matches = plot_app().get_matches_from(vec![
        "plot",
        "--width",
        "18446744073709551615",
        "--height",
        "1",
        "--num-labels",
        "18446744073709551615",
    ]);
    let args = PlotArgs::new(&matches, num(0.0), num(1.0)).unwrap();
    assert_eq!((args.width, args.height, args.num_labels), (u64::MAX, 1, u64::MAX));
}

#[test]
fn raw_settings_are_read_in_their_order() {
    let args = PlotArgs::from_raw(&raw("50", "+10", "004"), num(0.0), num(1.0)).unwrap();
    assert_eq!((args.width, args.height, args.num_labels), (50, 10, 4));
    assert_eq!(
        PlotArgs::from_raw(&raw("x", "y", "z"), num(0.0), num(1.0)).err(),
        Some(ConfigError::Malformed(Setting::Width))
    );
    assert_eq!(
        PlotArgs::from_raw(&raw("1", "y", "z"), num(0.0), num(1.0)).err(),
        Some(ConfigError::Malformed(Setting::Height))
    );
    assert_eq!(
        PlotArgs::from_raw(&raw("1", "1", ""), num(0.0), num(1.0)).err(),
        Some(ConfigError::Malformed(Setting::NumLabels))
    );
    let mut missing = raw("1", "1", "1");
    missing.height = None;
    assert_eq!(
        PlotArgs::from_raw(&missing, num(0.0), num(1.0)).err(),
        Some(ConfigError::Missing(Setting::Height))
    );
}

#[test]
fn raw_settings_that_parse_give_a_configuration() {
    for (width, height, num_labels, defect) in [
        ("50", "0", "4", Some(ConfigError::NoBuckets)),
        ("50", "10", "0", Some(ConfigError::NoLabels)),
        ("7", "10", "4", Some(ConfigError::LabelsTooNarrow)),
        ("8", "1", "4", None),
    ] {
        let args = PlotArgs::from_raw(&raw(width, height, num_labels), num(0.0), num(1.0)).unwrap();
        assert_eq!(args.width, width.parse::<u64>().unwrap());
        assert_eq!(args.height, height.parse::<u64>().unwrap());
        assert_eq!(args.num_labels, num_labels.parse::<u64>().unwrap());
        assert_eq!(args.check().err(), defect);
    }
    let mut both = raw("50", "10", "4");
    both.log_x = true;
    both.log_x_rev = true;
    let args = PlotArgs::from_raw(&both, num(0.0), num(1.0)).unwrap();
    assert!(args.log_x && args.log_x_rev);
    assert_eq!(args.check(), Err(ConfigError::ConflictingAxes));
}
