use scuisei_rs::double::Double;
use scuisei_rs::postprocess::{
    refine_frame_keyframes_with_config, FrameCutStats, PostprocessConfig,
};
use scuisei_rs::SCuiseiError;

fn double(value: f64) -> Double {
    Double::from_bits(value.to_bits())
}

fn number(value: Double) -> f64 {
    f64::from_bits(value.to_bits())
}

fn refine(stats: &[FrameCutStats], config: &PostprocessConfig) -> Vec<usize> {
    let blended: Vec<Double> = stats
        .iter()
        .map(|s| {
            double(
                number(s.hist_distance)
                    + number(config.grid_hist_median_weight) * number(s.grid_hist_median),
            )
        })
        .collect();
    refine_frame_keyframes_with_config(stats, &blended, config)
}

fn quiet(count: usize) -> Vec<FrameCutStats> {
    (1..=count)
        .map(|frame_index| FrameCutStats {
            frame_index,
            is_cut: false,
            score: double(0.0),
            hist_distance: double(0.0),
            grid_hist_distance: double(0.0),
            grid_hist_median: double(0.0),
        })
        .collect()
}

fn mark(stats: &mut [FrameCutStats], frame: usize, hist: f64, score: f64) {
    stats[frame - 1].hist_distance = double(hist);
    stats[frame - 1].score = double(score);
}

struct Random(u32);

impl Random {
    fn next(&mut self) -> u32 {
        self.0 = self.0.wrapping_mul(1_664_525).wrapping_add(1_013_904_223);
        self.0 >> 8
    }

    fn unit(&mut self) -> f64 {
        f64::from(self.next()) / f64::from(1_u32 << 24)
    }
}

#[test]
fn refined_keyframes_are_sorted_unique_and_bounded() {
    let mut random = Random(0xC0FF_EE00);
    for _ in 0..300 {
        let count = random.next() as usize % 150;
        let stats: Vec<FrameCutStats> = (0..count)
            .map(|idx| FrameCutStats {
                frame_index: idx + 1,
                is_cut: random.next() % 2 == 0,
                score: double(random.unit() * 200.0),
                hist_distance: double(random.unit()),
                grid_hist_distance: double(random.unit()),
                grid_hist_median: double(random.unit()),
            })
            .collect();

        let keyframes = refine(&stats, &PostprocessConfig::default());
        assert!(!keyframes.is_empty());
        assert_eq!(keyframes[0], 0);
        assert!(keyframes.windows(2).all(|window| window[0] < window[1]));
        let max_frame = stats.last().map_or(0, |item| item.frame_index);
        assert!(keyframes.iter().all(|frame| *frame <= max_frame));
    }
}

#[test]
fn short_runs_report_every_cut_and_large_distance() {
    let mut stats = quiet(10);
    stats[2].is_cut = true;
    stats[5].hist_distance = double(0.10);
    stats[7].hist_distance = double(0.0999);
    assert_eq!(refine(&stats, &PostprocessConfig::default()), vec![0, 3, 6]);
    assert_eq!(refine(&[], &PostprocessConfig::default()), vec![0]);
}

#[test]
fn a_single_peak_is_a_keyframe() {
    let mut stats = quiet(30);
    mark(&mut stats, 10, 0.5, 100.0);
    stats[9].is_cut = true;
    assert_eq!(refine(&stats, &PostprocessConfig::default()), vec![0, 10]);
}

#[test]
fn without_candidates_the_baseline_stands() {
    let mut stats = quiet(30);
    // A large distance with a small score is no candidate.
    mark(&mut stats, 10, 0.5, 10.0);
    assert_eq!(refine(&stats, &PostprocessConfig::default()), vec![0, 10]);
}

#[test]
fn a_second_cut_in_a_row_is_dropped() {
    let mut stats = quiet(40);
    mark(&mut stats, 10, 0.5, 100.0);
    mark(&mut stats, 11, 0.6, 100.0);
    stats[9].is_cut = true;
    stats[10].is_cut = true;
    // The second is a cut right after a cut, the first no local peak.
    mark(&mut stats, 30, 0.5, 100.0);
    assert_eq!(refine(&stats, &PostprocessConfig::default()), vec![0, 30]);
}

#[test]
fn structure_alone_makes_a_candidate() {
    let mut stats = quiet(30);
    stats[11].grid_hist_distance = double(0.22);
    stats[11].hist_distance = double(0.05);
    assert_eq!(refine(&stats, &PostprocessConfig::default()), vec![0, 12]);
}

#[test]
fn a_cluster_keeps_its_strongest_frame() {
    let mut stats = quiet(60);
    mark(&mut stats, 20, 0.3, 100.0);
    mark(&mut stats, 25, 0.5, 100.0);
    mark(&mut stats, 36, 0.4, 100.0);
    mark(&mut stats, 48, 0.2, 100.0);
    assert_eq!(refine(&stats, &PostprocessConfig::default()), vec![0, 25, 48]);
}

#[test]
fn dense_gaps_are_filled_slot_by_slot() {
    let mut stats = quiet(70);
    for (frame, hist) in [(10, 0.2), (20, 0.3), (30, 0.35), (40, 0.4), (50, 0.2), (60, 0.5)] {
        mark(&mut stats, frame, hist, 100.0);
    }
    assert_eq!(refine(&stats, &PostprocessConfig::default()), vec![0, 20, 40, 60]);
}

#[test]
fn gaps_too_short_for_two_take_the_best() {
    let config = PostprocessConfig {
        dense_recovery_target_span_frames: 40,
        ..PostprocessConfig::default()
    };
    let mut stats = quiet(70);
    for (frame, hist) in [(10, 0.2), (20, 0.45), (30, 0.35), (40, 0.4), (50, 0.2), (60, 0.5)] {
        mark(&mut stats, frame, hist, 100.0);
    }
    assert_eq!(refine(&stats, &config), vec![0, 20, 60]);
}

#[test]
fn remaining_places_go_to_the_strongest() {
    // Three slots of four, but all that fits lies in the second.
    let config = PostprocessConfig {
        dense_recovery_target_span_frames: 20,
        dense_recovery_margin_frames: 1,
        ..PostprocessConfig::default()
    };
    let mut stats = quiet(70);
    for (frame, hist) in [(18, 0.3), (21, 0.25), (24, 0.35), (27, 0.2), (38, 0.19), (49, 0.1), (60, 0.5)] {
        mark(&mut stats, frame, hist, 100.0);
    }
    assert_eq!(refine(&stats, &config), vec![0, 18, 24, 38, 60]);
}

#[test]
fn in_a_burst_a_strong_cut_goes_first() {
    let mut stats = quiet(40);
    for frame in 10..17 {
        mark(&mut stats, frame, 0.1, 0.0);
    }
    mark(&mut stats, 12, 0.1, 130.0);
    stats[11].is_cut = true;
    mark(&mut stats, 20, 0.5, 100.0);
    assert_eq!(refine(&stats, &PostprocessConfig::default()), vec![0, 12]);
}

#[test]
fn defaults_are_valid_and_as_documented() {
    let config = PostprocessConfig::default();
    assert!(config.validate().is_ok());
    assert_eq!(number(config.hist_blend_threshold), 0.10);
    assert_eq!(number(config.structure_hist_max), 0.05);
    assert_eq!(number(config.structure_grid_hist_min), 0.22);
    assert_eq!(number(config.frames_score_min), 70.0);
    assert_eq!(config.candidate_peak_radius, 1);
    assert_eq!(config.cluster_gap_frames, 12);
    assert_eq!(config.min_postprocess_frames, 24);
    assert_eq!(config.dense_recovery_min_gap_frames, 24);
    assert_eq!(config.dense_recovery_min_candidates, 4);
    assert_eq!(config.dense_recovery_margin_frames, 12);
    assert_eq!(number(config.dense_recovery_blend_min), 0.18);
    assert_eq!(number(config.dense_recovery_score_min), 80.0);
    assert_eq!(config.dense_recovery_target_span_frames, 26);
    assert_eq!(config.temporal_burst_window_frames, 12);
    assert_eq!(number(config.temporal_burst_activity_blend_min), 0.08);
    assert_eq!(config.temporal_burst_min_count, 6);
    assert_eq!(number(config.temporal_burst_raw_hist_max), 0.30);
    assert_eq!(number(config.temporal_burst_raw_score_max), 120.0);
    assert_eq!(number(config.temporal_burst_nonraw_score_max), 90.0);
    assert_eq!(number(config.temporal_burst_nonraw_blend_max), 0.20);
    assert_eq!(config.temporal_burst_dense_min_count, 20);
    assert_eq!(number(config.temporal_burst_dense_nonraw_score_max), 90.0);
    assert_eq!(number(config.temporal_burst_cut_fallback_hist_max), 0.20);
    assert_eq!(number(config.temporal_burst_cut_fallback_score_min), 120.0);
    assert_eq!(number(config.grid_hist_median_weight), 0.1);
}

#[test]
fn thresholds_out_of_range_are_refused() {
    let good = PostprocessConfig::default();
    let complaint = |config: PostprocessConfig| {
        let error = config.validate().expect_err("should be refused");
        assert!(matches!(error, SCuiseiError::Config(_)));
        error.description()
    };
    assert_eq!(
        complaint(PostprocessConfig { hist_blend_threshold: double(1.1), ..good }),
        "configuration error: postprocess_config.hist_blend_threshold must be a finite number \
         between 0 and 1"
    );
    assert_eq!(
        complaint(PostprocessConfig { dense_recovery_target_span_frames: 0, ..good }),
        "configuration error: postprocess_config.dense_recovery_target_span_frames must be \
         greater than 0"
    );
    assert_eq!(
        complaint(PostprocessConfig { grid_hist_median_weight: double(-1.0), ..good }),
        "configuration error: postprocess_config.grid_hist_median_weight must be a finite number \
         greater than or equal to 0"
    );
}

#[test]
fn thresholds_are_compared_as_numbers() {
    let defaults = PostprocessConfig::default();
    assert!(defaults == PostprocessConfig::default());
    let wider = PostprocessConfig { cluster_gap_frames: 13, ..defaults };
    assert!(defaults != wider);
    let heavier = PostprocessConfig { grid_hist_median_weight: double(9.0), ..defaults };
    assert!(defaults != heavier);
    let zero = PostprocessConfig { structure_hist_max: double(0.0), ..defaults };
    let minus_zero = PostprocessConfig { structure_hist_max: double(-0.0), ..defaults };
    assert!(zero == minus_zero);
    let undefined = PostprocessConfig { structure_hist_max: double(f64::NAN), ..defaults };
    assert!(undefined != undefined.clone());
}
