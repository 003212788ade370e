use scuisei_rs::analysis::{AnalysisTarget, AnalyzeOptions};
use scuisei_rs::cli::{
    accept_nonnegative_f64, accept_unit_interval_f64, parse_nonnegative_i32, parse_positive_usize,
    Cli, OutputFormat, DEFAULT_BASE_THRESHOLD, DEFAULT_HIST_WEIGHT, DEFAULT_ME_INTRA_THRESH,
    DEFAULT_ME_INTRA_THRESH2, DEFAULT_ME_SEARCH_RADIUS, DEFAULT_MIN_HIST_DISTANCE,
    DEFAULT_MIN_SCORE, DEFAULT_SAD_WEIGHT, DEFAULT_SIGMA, DEFAULT_WINDOW_SIZE,
};
use scuisei_rs::double::Double;
use std::path::PathBuf;

fn double(value: f64) -> Double {
    Double::from_bits(value.to_bits())
}

#[test]
fn test_invalid_window_size_is_rejected_by_cli() {
    assert_eq!(parse_positive_usize("0"), Err("must be greater than 0".to_string()));
}

#[test]
fn counts_are_read_as_decimals() {
    assert_eq!(parse_positive_usize("30"), Ok(30));
    assert_eq!(parse_positive_usize("+007"), Ok(7));
    for bad in ["", "+", "-1", " 1", "1 ", "1_0", "0x1", "99999999999999999999999"] {
        assert!(parse_positive_usize(bad).is_err(), "{bad:?}");
    }
}

#[test]
fn refused_numbers_are_explained() {
    for (bad, message) in [
        ("", "cannot parse integer from empty string"),
        ("1x", "invalid digit found in string"),
        ("99999999999999999999999", "number too large to fit in target type"),
    ] {
        assert_eq!(parse_positive_usize(bad), Err(message.to_string()));
        assert_eq!(parse_nonnegative_i32(bad), Err(message.to_string()));
    }
    assert_eq!(
        parse_nonnegative_i32("-2147483649"),
        Err("number too small to fit in target type".to_string())
    );
}

#[test]
fn signed_numbers_are_read_as_decimals() {
    assert_eq!(parse_nonnegative_i32("2000"), Ok(2000));
    assert_eq!(parse_nonnegative_i32("0"), Ok(0));
    assert_eq!(parse_nonnegative_i32("-0"), Ok(0));
    assert_eq!(
        parse_nonnegative_i32("-1"),
        Err("must be greater than or equal to 0".to_string())
    );
    for bad in ["", "-", "--1", "2147483648", "-2147483649", "1.5"] {
        assert!(parse_nonnegative_i32(bad).is_err(), "{bad:?}");
    }
}

#[test]
fn numbers_out_of_range_are_not_accepted() {
    let accepted = accept_nonnegative_f64(double(2.5)).expect("in range");
    assert_eq!(accepted.to_bits(), 2.5_f64.to_bits());
    for bad in [-0.5, f64::NAN, f64::INFINITY] {
        assert_eq!(
            accept_nonnegative_f64(double(bad)).expect_err("out of range"),
            "must be a finite number greater than or equal to 0"
        );
    }
    assert!(accept_unit_interval_f64(double(1.0)).is_ok());
    assert!(accept_unit_interval_f64(double(0.0)).is_ok());
    assert_eq!(
        accept_unit_interval_f64(double(1.5)).expect_err("out of range"),
        "must be a finite number between 0 and 1"
    );
    assert_eq!(
        accept_unit_interval_f64(double(-1.5)).expect_err("out of range"),
        "must be a finite number greater than or equal to 0"
    );
}

#[test]
fn defaults_are_the_documented_numbers() {
    assert_eq!(DEFAULT_WINDOW_SIZE, 30);
    assert_eq!(f64::from_bits(DEFAULT_SIGMA), 3.0);
    assert_eq!(f64::from_bits(DEFAULT_BASE_THRESHOLD), 0.20);
    assert_eq!(f64::from_bits(DEFAULT_MIN_HIST_DISTANCE), 0.03);
    assert_eq!(f64::from_bits(DEFAULT_MIN_SCORE), 0.0);
    assert_eq!(f64::from_bits(DEFAULT_SAD_WEIGHT), 0.70);
    assert_eq!(f64::from_bits(DEFAULT_HIST_WEIGHT), 0.30);
    assert_eq!(DEFAULT_ME_SEARCH_RADIUS, 4);
    assert_eq!(DEFAULT_ME_INTRA_THRESH, 2000);
    assert_eq!(f64::from_bits(DEFAULT_ME_INTRA_THRESH2), 90.0);
}

#[test]
fn options_follow_the_command_line() {
    let cli = Cli {
        input: PathBuf::from("clip.mkv"),
        output: None,
        format: OutputFormat::Agi,
        native_res: true,
        window_size: 12,
        sigma: double(2.0),
        base_threshold: double(0.4),
        min_hist_distance: double(0.05),
        min_score: double(0.01),
        sad_weight: double(0.6),
        hist_weight: double(0.4),
        me_search_radius: 8,
        me_intra_thresh: 1500,
        me_intra_thresh2: double(70.0),
        hwdec: Some("vaapi".to_string()),
    };
    let options = AnalyzeOptions::from_cli(&cli, true);
    assert_eq!(options.input, PathBuf::from("clip.mkv"));
    assert!(options.native_res);
    assert_eq!(options.hwdec.as_deref(), Some("vaapi"));
    assert!(options.dump_scores);
    assert_eq!(options.xvid_config.search_radius, 8);
    assert_eq!(options.xvid_config.intra_thresh, 1500);
    assert_eq!(options.xvid_config.intra_thresh2.to_bits(), 70.0_f64.to_bits());
    assert_eq!(options.adaptive_config.window_size, 12);
    assert_eq!(options.adaptive_config.sigma.to_bits(), 2.0_f64.to_bits());
    assert_eq!(options.adaptive_config.sad_weight.to_bits(), 0.6_f64.to_bits());
    assert_eq!(options.adaptive_config.hist_weight.to_bits(), 0.4_f64.to_bits());
    assert_eq!(options.postprocess_config.cluster_gap_frames, 12);
    assert!(options.validate().is_ok());
}

#[test]
fn each_format_needs_its_own_analysis() {
    assert_eq!(AnalysisTarget::for_format(OutputFormat::Agi), AnalysisTarget::Keyframes);
    assert_eq!(AnalysisTarget::for_format(OutputFormat::Frames), AnalysisTarget::Keyframes);
    assert_eq!(AnalysisTarget::for_format(OutputFormat::Xvid), AnalysisTarget::PassDecisions);
}
