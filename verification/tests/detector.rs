use scuisei_rs::detector::{Detector, DetectorConfig, XvidDetector, XvidDetectorConfig};
use scuisei_rs::double::Double;
use scuisei_rs::SCuiseiError;

fn double(value: f64) -> Double {
    Double::from_bits(value.to_bits())
}

fn number(value: Double) -> f64 {
    f64::from_bits(value.to_bits())
}

fn statistic(scores: &[f64], sigma: f64) -> f64 {
    let n = scores.len() as f64;
    let mean = scores.iter().sum::<f64>() / n;
    let mut var = scores.iter().map(|value| (value - mean) * (value - mean)).sum::<f64>() / n;
    if var.is_sign_negative() {
        var = 0.0;
    }
    mean + sigma * var.sqrt()
}

fn baseline_threshold(config: DetectorConfig, values: &[f64]) -> f64 {
    if values.len() < 5 {
        return number(config.base_threshold);
    }

    let mut values = values.to_vec();
    values.sort_by(f64::total_cmp);

    let len = values.len();
    let trim = (len / 10).clamp(1, len / 4);
    let slice = &values[trim..len.saturating_sub(trim)];
    if slice.len() < 2 {
        return number(config.base_threshold);
    }
    statistic(slice, number(config.sigma)).max(number(config.base_threshold))
}

fn detector_threshold(detector: &Detector, sigma: f64) -> f64 {
    let statistic = match detector.middle_scores() {
        Some(scores) => {
            let scores: Vec<f64> = scores.into_iter().map(number).collect();
            statistic(&scores, sigma)
        }
        None => 0.0,
    };
    number(detector.threshold(double(statistic)))
}

struct Random(u32);

impl Random {
    fn next(&mut self) -> u32 {
        self.0 = self.0.wrapping_mul(1_664_525).wrapping_add(1_013_904_223);
        self.0 >> 8
    }

    fn unit(&mut self) -> f64 {
        f64::from(self.next()) / f64::from(1_u32 << 24)
    }
}

#[test]
fn threshold_matches_sorted_baseline() {
    let mut random = Random(0x5eed);
    for _ in 0..200 {
        let window_size = 5 + random.next() as usize % 59;
        let sigma = random.unit() * 8.0;
        let base_threshold = random.unit();
        let count = random.next() as usize % 128;
        let values: Vec<f64> = (0..count).map(|_| random.unit()).collect();

        let config = DetectorConfig {
            window_size,
            sigma: double(sigma),
            base_threshold: double(base_threshold),
            ..DetectorConfig::default()
        };
        let mut detector = Detector::new(config);
        for value in values.iter().copied() {
            detector.observe(double(value));
        }

        let window = &values[values.len() - values.len().min(window_size)..];
        let expected = baseline_threshold(config, window);
        let actual = detector_threshold(&detector, sigma);
        assert!((actual - expected).abs() < 1e-12);
    }
}

#[test]
fn window_forgets_the_oldest_scores() {
    let config = DetectorConfig { window_size: 5, ..DetectorConfig::default() };
    let mut detector = Detector::new(config);
    for value in [9.0, 0.5, 0.1, 0.4, 0.2] {
        detector.observe(double(value));
    }
    let scores: Vec<f64> =
        detector.middle_scores().expect("five scores").into_iter().map(number).collect();
    assert_eq!(scores, vec![0.2, 0.4, 0.5]);
    detector.observe(double(0.3));
    let scores: Vec<f64> =
        detector.middle_scores().expect("five scores").into_iter().map(number).collect();
    assert_eq!(scores, vec![0.2, 0.3, 0.4]);
    detector.reset();
    assert!(detector.middle_scores().is_none());
}

#[test]
fn window_without_room_stays_empty() {
    let config = DetectorConfig { window_size: 0, ..DetectorConfig::default() };
    let mut detector = Detector::new(config);
    for _ in 0..10 {
        detector.observe(double(0.5));
    }
    assert!(detector.middle_scores().is_none());
}

#[test]
fn adaptive_decision_needs_score_distance_and_threshold() {
    let config = DetectorConfig {
        min_score: double(0.1),
        min_hist_distance: double(0.03),
        base_threshold: double(0.2),
        ..DetectorConfig::default()
    };
    let detector = Detector::new(config);
    let any = double(0.0);
    let (cut, threshold) = detector.decide_with_threshold(double(0.2), double(0.03), any);
    assert!(cut);
    assert_eq!(number(threshold), 0.2);
    assert!(!detector.decide_with_threshold(double(0.19), double(0.5), any).0);
    assert!(!detector.decide_with_threshold(double(0.9), double(0.029), any).0);
    assert!(!detector.decide_with_threshold(double(f64::NAN), double(0.5), any).0);
    let strict = Detector::new(DetectorConfig { min_score: double(0.95), ..config });
    assert!(!strict.decide_with_threshold(double(0.9), double(0.5), any).0);
}

#[test]
fn threshold_is_never_below_its_base() {
    let config = DetectorConfig { window_size: 8, ..DetectorConfig::default() };
    let mut detector = Detector::new(config);
    assert_eq!(number(detector.threshold(double(0.9))), 0.2);
    for _ in 0..5 {
        detector.observe(double(0.5));
    }
    assert_eq!(number(detector.threshold(double(0.9))), 0.9);
    assert_eq!(number(detector.threshold(double(0.1))), 0.2);
    assert_eq!(number(detector.threshold(double(f64::NAN))), 0.2);
}

#[test]
fn thresholds_are_raised_after_a_cut() {
    let detector = XvidDetector::new(XvidDetectorConfig::default(), 1);
    assert_eq!(detector.threshold_raise(), 4 * 29);
    let mut detector = detector;
    let frame = vec![0_u8; 16];
    for expected in (0..29_u32).rev() {
        let decision = detector.decide(&frame, &frame, 4, 4, double(90.0));
        assert!(!decision.is_cut);
        assert_eq!(number(decision.score), 0.0);
        assert_eq!(detector.threshold_raise(), 4 * expected);
    }
    let decision = detector.decide(&frame, &frame, 4, 4, double(-1.0));
    assert!(decision.is_cut);
    assert_eq!(detector.threshold_raise(), 4 * 29);
    let decision = detector.decide(&frame, &frame, 4, 4, double(90.0));
    assert!(!decision.is_cut);
    assert_eq!(detector.threshold_raise(), 4 * 28);
    detector.reset();
    assert_eq!(detector.threshold_raise(), 4 * 29);
}

#[test]
fn a_frame_of_new_blocks_is_a_cut() {
    let prev = vec![0_u8; 33 * 33];
    let curr = vec![255_u8; 33 * 33];
    let mut detector = XvidDetector::new(XvidDetectorConfig::default(), 1);
    let decision = detector.decide(&prev, &curr, 33, 33, double(f64::INFINITY));
    assert!(decision.is_cut);
    assert_eq!(number(decision.score), 796.0);
    assert_eq!(decision.mc_sad, 65_280);
    assert_eq!((decision.intra_blocks, decision.total_blocks), (1, 1));

    // Right after a cut a block may differ by 15 * 9 * 9 more before it counts as new.
    let config = XvidDetectorConfig { intra_thresh: 65_280 - 15 * 81, ..XvidDetectorConfig::default() };
    let mut detector = XvidDetector::new(config, 1);
    let decision = detector.decide(&prev, &curr, 33, 33, double(796.0));
    assert!(!decision.is_cut);
    let decision = detector.decide(&prev, &curr, 33, 33, double(796.0));
    assert!(decision.is_cut);
}

#[test]
fn default_settings_are_valid() {
    assert!(XvidDetectorConfig::default().validate().is_ok());
    assert!(DetectorConfig::default().validate().is_ok());
    assert_eq!(XvidDetectorConfig::default().search_radius, 4);
    assert_eq!(XvidDetectorConfig::default().intra_thresh, 2000);
    assert_eq!(number(XvidDetectorConfig::default().intra_thresh2), 90.0);
    let config = DetectorConfig::default();
    assert_eq!(config.window_size, 30);
    assert_eq!(number(config.sigma), 3.0);
    assert_eq!(number(config.base_threshold), 0.20);
    assert_eq!(number(config.min_hist_distance), 0.03);
    assert_eq!(number(config.min_score), 0.0);
    assert_eq!(number(config.sad_weight), 0.70);
    assert_eq!(number(config.hist_weight), 0.30);
}

fn complaint(result: Result<(), SCuiseiError>) -> String {
    let error = result.expect_err("should be refused");
    assert!(matches!(error, SCuiseiError::Config(_)));
    error.description()
}

#[test]
fn settings_out_of_range_are_refused() {
    let good = XvidDetectorConfig::default();
    assert_eq!(
        complaint(XvidDetectorConfig { search_radius: -1, intra_thresh: -1, ..good }.validate()),
        "configuration error: xvid_config.search_radius must be greater than or equal to 0"
    );
    assert_eq!(
        complaint(XvidDetectorConfig { intra_thresh: -1, ..good }.validate()),
        "configuration error: xvid_config.intra_thresh must be greater than or equal to 0"
    );
    assert_eq!(
        complaint(XvidDetectorConfig { intra_thresh2: double(f64::NAN), ..good }.validate()),
        "configuration error: xvid_config.intra_thresh2 must be a finite number greater than or \
         equal to 0"
    );
    let good = DetectorConfig::default();
    assert_eq!(
        complaint(DetectorConfig { window_size: 0, ..good }.validate()),
        "configuration error: adaptive_config.window_size must be greater than 0"
    );
    assert_eq!(
        complaint(DetectorConfig { sigma: double(-0.5), ..good }.validate()),
        "configuration error: adaptive_config.sigma must be a finite number greater than or equal \
         to 0"
    );
    assert_eq!(
        complaint(DetectorConfig { base_threshold: double(1.5), ..good }.validate()),
        "configuration error: adaptive_config.base_threshold must be a finite number between 0 \
         and 1"
    );
    assert!(DetectorConfig { min_hist_distance: double(-0.1), ..good }.validate().is_err());
    assert!(DetectorConfig { min_score: double(2.0), ..good }.validate().is_err());
    assert!(DetectorConfig { sad_weight: double(f64::INFINITY), ..good }.validate().is_err());
    assert!(DetectorConfig { hist_weight: double(-1.0), ..good }.validate().is_err());
    assert!(DetectorConfig { hist_weight: double(-0.0), ..good }.validate().is_ok());
}

#[test]
fn test_zero_detector_weights_fail_with_config_error() {
    let config = DetectorConfig {
        sad_weight: double(0.0),
        hist_weight: double(0.0),
        ..DetectorConfig::default()
    };
    assert_eq!(
        complaint(config.validate()),
        "configuration error: adaptive_config.sad_weight + adaptive_config.hist_weight must be \
         greater than 0"
    );
}
