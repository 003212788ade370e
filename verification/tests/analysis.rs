use scuisei_rs::analysis::{
    compute_downscale_dims, prepare_analysis_pixels, AnalysisResult, AnalysisTarget,
    AnalyzeOptions, DetectionRun, FrameArrival, FrameMeasures, FrameValues, PlanCache,
};
use scuisei_rs::decoder::{FrameInfo, LumaView};
use scuisei_rs::double::Double;
use scuisei_rs::cli::OutputFormat;
use scuisei_rs::formatter::command_output;
use scuisei_rs::simd_metrics::{
    Dissimilarity, DownscalePlan, GridHistogramPlan, MedianDissimilarity,
};
use scuisei_rs::{write_agi, write_frames_csv, write_pass_log, SCuiseiError};
use std::path::PathBuf;

fn double(value: f64) -> Double {
    Double::from_bits(value.to_bits())
}

fn number(value: Double) -> f64 {
    f64::from_bits(value.to_bits())
}

fn distance(parts: Dissimilarity) -> f64 {
    if parts.total == 0 {
        return 0.0;
    }
    (1.0 - parts.overlap as f64 / parts.total as f64).clamp(0.0, 1.0)
}

fn values(options: &AnalyzeOptions, measures: &FrameMeasures) -> FrameValues {
    let mut threshold = number(options.xvid_config.intra_thresh2);
    if measures.threshold_raise > 0 {
        threshold += f64::from(measures.threshold_raise);
    }
    let hist_distance = distance(measures.hist);
    let median = match measures.grid_hist_median {
        MedianDissimilarity::Absent => 0.0,
        MedianDissimilarity::Middle(middle) => distance(middle),
        MedianDissimilarity::Between(lower, upper) => (distance(lower) + distance(upper)) * 0.5,
    };
    let pixels = (measures.width * measures.height) as f64;
    let sad_score = measures.sad as f64 / (pixels * 255.0);
    let sad_weight = number(options.adaptive_config.sad_weight);
    let hist_weight = number(options.adaptive_config.hist_weight);
    let adaptive_score = (sad_weight * sad_score.clamp(0.0, 1.0)
        + hist_weight * hist_distance.clamp(0.0, 1.0))
        / (sad_weight + hist_weight);
    let statistic = match &measures.middle_scores {
        None => 0.0,
        Some(scores) => {
            let n = scores.len() as f64;
            let mean = scores.iter().map(|score| number(*score)).sum::<f64>() / n;
            let var = scores.iter().map(|score| (number(*score) - mean).powi(2)).sum::<f64>() / n;
            mean + number(options.adaptive_config.sigma) * var.sqrt()
        }
    };
    FrameValues {
        threshold: double(threshold),
        promotion_threshold: double(threshold * 0.85),
        hist_distance: double(hist_distance),
        grid_hist_distance: double(distance(measures.grid_hist)),
        grid_hist_median: double(median),
        adaptive_score: double(adaptive_score),
        statistic: double(statistic),
    }
}

fn analyze(
    options: &AnalyzeOptions,
    target: AnalysisTarget,
    frames: &[(Vec<u8>, usize, usize)],
) -> AnalysisResult {
    let mut run = DetectionRun::new(options, target, 2);
    for (data, width, height) in frames {
        let view = LumaView { data, stride: *width };
        let info = FrameInfo { width: *width, height: *height };
        if let FrameArrival::Compared(measures) = run.process_frame(view, info) {
            run.settle_frame(values(options, &measures));
        }
    }
    assert_eq!(run.frames(), frames.len());
    let weight = number(options.postprocess_config.grid_hist_median_weight);
    let blended: Vec<Double> = run
        .frame_stats()
        .iter()
        .map(|s| double(number(s.hist_distance) + weight * number(s.grid_hist_median)))
        .collect();
    run.finish(&blended)
}

fn fixture() -> Vec<(Vec<u8>, usize, usize)> {
    [0_u8, 128, 255].iter().map(|level| (vec![*level; 16 * 16], 16, 16)).collect()
}

fn options() -> AnalyzeOptions {
    AnalyzeOptions::defaults_for_input(PathBuf::from("target/fixtures/test_video.y4m"))
}

#[test]
fn test_library_api_matches_expected_fixture_outputs() {
    let options = options();
    let result = analyze(&options, AnalysisTarget::Both, &fixture());

    assert_eq!(result.keyframes, vec![0, 1, 2]);
    assert_eq!(result.pass_decisions, vec![true, false, false]);
    assert_eq!(result.frame_count(), 3);

    let mut frames_output = Vec::new();
    write_frames_csv(&mut frames_output, &result.keyframes);
    let frames_string = String::from_utf8(frames_output).expect("frames output should be UTF-8");
    assert_eq!(frames_string, "0,1,2\n");

    let mut agi_output = Vec::new();
    write_agi(&mut agi_output, &result.keyframes);
    let agi_string = String::from_utf8(agi_output).expect("agi output should be UTF-8");
    assert_eq!(
        agi_string,
        "# keyframe format v1\nfps 0\n\n0 I -1\n1 I -1\n2 I -1\n"
    );

    let version = "0.1.0";
    let mut pass_output = Vec::new();
    write_pass_log(&mut pass_output, &result.pass_decisions, version);
    let pass_string = String::from_utf8(pass_output).expect("pass output should be UTF-8");
    assert_eq!(
        pass_string,
        format!(
            "# XviD 2pass stat file (core version scuisei-rs {version})\n# Please do not modify this file\n\ni\np\np\n"
        )
    );
}

#[test]
fn plans_are_kept_side_by_side() {
    let mut plans = PlanCache::new();
    for (width, height) in [(320, 240), (640, 480), (320, 240), (1, 1), (0, 5)] {
        let (work_w, work_h) = compute_downscale_dims(width, height);
        assert_eq!(
            *plans.downscale_plan(width, height),
            DownscalePlan::new(width, height, work_w, work_h)
        );
        assert_eq!(*plans.grid_plan(work_w, work_h), GridHistogramPlan::new(work_w, work_h));
        assert_eq!(
            *plans.downscale_plan(width, height),
            DownscalePlan::new(width, height, work_w, work_h)
        );
    }
}

#[test]
fn full_runs_note_each_decision_twice() {
    let options = options();
    let mut run = DetectionRun::new(&options, AnalysisTarget::Both, 1);
    for (data, width, height) in &fixture() {
        let info = FrameInfo { width: *width, height: *height };
        let view = LumaView { data, stride: *width };
        if let FrameArrival::Compared(measures) = run.process_frame(view, info) {
            run.settle_frame(values(&options, &measures));
        }
    }
    let cuts: Vec<bool> = run.frame_stats().iter().map(|stat| stat.is_cut).collect();
    let blended = vec![double(0.0); cuts.len()];
    let result = run.conclude(Ok(()), &blended).expect("decoding succeeded");
    assert_eq!(result.pass_decisions[1..], cuts);
}

#[test]
fn a_failed_decode_is_reported_as_it_is() {
    let options = options();
    let run = DetectionRun::new(&options, AnalysisTarget::Both, 1);
    let error = run
        .conclude(Err(SCuiseiError::decode("broken stream")), &[])
        .expect_err("decoding failed");
    assert_eq!(error.category(), "decode");
    assert_eq!(error.description(), "decode error: broken stream");
}

#[test]
fn commands_write_what_full_runs_find() {
    let options = options();
    for format in [OutputFormat::Agi, OutputFormat::Xvid, OutputFormat::Frames] {
        let full = analyze(&options, AnalysisTarget::Both, &fixture());
        let own = analyze(&options, AnalysisTarget::for_format(format), &fixture());
        let mut expected = Vec::new();
        match format {
            OutputFormat::Agi => write_agi(&mut expected, &full.keyframes),
            OutputFormat::Xvid => write_pass_log(&mut expected, &full.pass_decisions, "1.2"),
            OutputFormat::Frames => write_frames_csv(&mut expected, &full.keyframes),
        }
        let out = command_output(format, Ok(own), "1.2").expect("analysis succeeded");
        assert_eq!(out, expected);

        let failure = command_output(format, Err(SCuiseiError::io_message("gone")), "1.2")
            .expect_err("analysis failed");
        assert_eq!(failure.category(), "io");
        assert_eq!(failure.description(), "input/output error: gone");
    }
}

#[test]
fn keyframe_settings_do_not_matter_to_pass_decisions() {
    let options = options();
    let mut tuned = options.clone();
    tuned.postprocess_config.dense_recovery_target_span_frames = 0;
    tuned.postprocess_config.hist_blend_threshold = double(-1.0);
    assert!(tuned.validate_for(AnalysisTarget::PassDecisions).is_ok());
    assert_eq!(
        tuned.validate_for(AnalysisTarget::Keyframes).expect_err("refused").category(),
        "config"
    );
    assert_eq!(
        analyze(&tuned, AnalysisTarget::PassDecisions, &fixture()).pass_decisions,
        analyze(&options, AnalysisTarget::Both, &fixture()).pass_decisions
    );
    tuned.xvid_config.search_radius = -1;
    assert_eq!(
        tuned.validate_for(AnalysisTarget::PassDecisions).expect_err("refused").category(),
        "config"
    );
}

#[test]
fn inputs_are_anything_that_names_a_path() {
    let by_text = AnalyzeOptions::defaults_for_input("clips/a.mkv");
    let by_path = AnalyzeOptions::defaults_for_input(PathBuf::from("clips/a.mkv"));
    assert_eq!(by_text.input, PathBuf::from("clips/a.mkv"));
    assert_eq!(by_path.input, by_text.input);
}

#[test]
fn test_specialized_analysis_paths_match_full_analysis() {
    let options = options();
    let full = analyze(&options, AnalysisTarget::Both, &fixture());
    let keyframes = analyze(&options, AnalysisTarget::Keyframes, &fixture());
    let pass_decisions = analyze(&options, AnalysisTarget::PassDecisions, &fixture());

    assert_eq!(keyframes.keyframes, full.keyframes);
    assert_eq!(pass_decisions.pass_decisions, full.pass_decisions);
    assert!(keyframes.pass_decisions.is_empty());
    assert!(pass_decisions.keyframes.is_empty());
}

#[test]
fn test_library_api_rejects_invalid_config_as_config_error() {
    let mut options = options();
    options.adaptive_config.window_size = 0;
    let error = options.validate().expect_err("invalid config should fail");
    assert!(matches!(error, SCuiseiError::Config(_)));

    options.adaptive_config.window_size = 30;
    options.adaptive_config.sad_weight = double(0.0);
    options.adaptive_config.hist_weight = double(0.0);
    let error = options.validate().expect_err("zero detector weights should fail");
    assert!(matches!(error, SCuiseiError::Config(_)));
}

#[test]
fn keyframe_settings_do_not_matter_for_pass_decisions() {
    let mut options = options();
    assert!(options.validate().is_ok());
    options.postprocess_config.dense_recovery_target_span_frames = 0;
    assert!(options.validate().is_err());
    assert!(options.validate_for(AnalysisTarget::Keyframes).is_err());
    assert!(options.validate_for(AnalysisTarget::PassDecisions).is_ok());
    options.xvid_config.search_radius = -1;
    assert_eq!(
        options.validate_for(AnalysisTarget::Both).expect_err("first complaint").description(),
        "configuration error: xvid_config.search_radius must be greater than or equal to 0"
    );
}

fn texture(width: usize, height: usize, seed: usize) -> Vec<u8> {
    (0..width * height)
        .map(|i| u8::try_from((i % width * seed + i / width * (seed + 6)) % 251).unwrap_or(0))
        .collect()
}

#[test]
fn a_new_picture_is_a_cut() {
    let (width, height) = (160, 96);
    let mut frames = Vec::new();
    for shot in [3_usize, 97] {
        for _ in 0..20 {
            frames.push((texture(width, height, shot), width, height));
        }
    }
    let options = options();
    let result = analyze(&options, AnalysisTarget::Both, &frames);
    let mut expected = vec![false; 40];
    expected[0] = true;
    expected[20] = true;
    assert_eq!(result.pass_decisions, expected);
    assert_eq!(result.frame_count(), 40);
}

#[test]
fn a_change_of_size_starts_a_scene() {
    let options = options();
    let mut run = DetectionRun::new(&options, AnalysisTarget::Both, 1);
    let first = vec![10_u8; 16 * 16];
    let second = vec![10_u8; 32 * 16];
    let info = FrameInfo { width: 16, height: 16 };
    let arrival = run.process_frame(LumaView { data: &first, stride: 16 }, info);
    assert!(matches!(arrival, FrameArrival::First));
    let info = FrameInfo { width: 32, height: 16 };
    match run.process_frame(LumaView { data: &second, stride: 32 }, info) {
        FrameArrival::NewScene(record) => {
            assert!(record.is_cut);
            assert_eq!(number(record.score), f64::INFINITY);
            assert_eq!(number(record.threshold), f64::INFINITY);
            assert_eq!(number(record.hist_distance), 1.0);
            assert_eq!(number(record.grid_hist_median), 1.0);
        }
        other => panic!("expected a new scene: {other:?}"),
    }
    match run.process_frame(LumaView { data: &second, stride: 32 }, info) {
        FrameArrival::Compared(measures) => {
            assert_eq!(measures.hist, Dissimilarity { overlap: 512, total: 512 });
            assert_eq!(measures.sad, 0);
            assert_eq!(measures.threshold_raise, 4 * 29);
            assert!(measures.middle_scores.is_none());
            let record = run.settle_frame(values(&options, &measures));
            assert!(!record.is_cut);
        }
        other => panic!("expected a comparison: {other:?}"),
    }
    let result = run.finish(&[double(1.1), double(0.0)]);
    assert_eq!(result.pass_decisions, vec![true, true, false]);
    assert_eq!(result.keyframes, vec![0, 1]);
}

#[test]
fn an_almost_cut_is_promoted_by_the_adaptive_detector() {
    let options = options();
    let frame = vec![10_u8; 16 * 16];
    let info = FrameInfo { width: 16, height: 16 };
    let mut run = DetectionRun::new(&options, AnalysisTarget::PassDecisions, 1);
    run.process_frame(LumaView { data: &frame, stride: 16 }, info);
    let base = FrameValues {
        threshold: double(206.0),
        promotion_threshold: double(0.0),
        hist_distance: double(0.5),
        grid_hist_distance: double(0.5),
        grid_hist_median: double(0.5),
        adaptive_score: double(0.9),
        statistic: double(0.0),
    };
    let trials = vec![
        (base, true),
        (FrameValues { promotion_threshold: double(0.1), ..base }, false),
        (FrameValues { threshold: double(f64::INFINITY), ..base }, false),
        (FrameValues { adaptive_score: double(0.1), ..base }, false),
        (FrameValues { hist_distance: double(0.01), ..base }, false),
    ];
    for (given, expected) in trials {
        run.process_frame(LumaView { data: &frame, stride: 16 }, info);
        assert_eq!(run.settle_frame(given).is_cut, expected);
    }
}

#[test]
fn working_sizes_are_bounded() {
    assert_eq!(compute_downscale_dims(1920, 1080), (160, 90));
    assert_eq!(compute_downscale_dims(1440, 1080), (128, 96));
    assert_eq!(compute_downscale_dims(1080, 1920), (54, 96));
    assert_eq!(compute_downscale_dims(160, 96), (160, 96));
    assert_eq!(compute_downscale_dims(16, 16), (16, 16));
    assert_eq!(compute_downscale_dims(100_000, 1), (160, 1));
    assert_eq!(compute_downscale_dims(1, 100_000), (1, 96));
    assert_eq!(compute_downscale_dims(0, 5), (0, 0));
}

#[test]
fn frames_are_copied_or_reduced() {
    let mut plans = PlanCache::new();
    let mut pixels = Vec::new();
    let data: Vec<u8> = (0..40).collect();
    let view = LumaView { data: &data, stride: 10 };
    let info = FrameInfo { width: 3, height: 4 };
    let size = prepare_analysis_pixels(view, info, true, &mut plans, &mut pixels);
    assert_eq!(size, (3, 4));
    assert_eq!(pixels, vec![0, 1, 2, 10, 11, 12, 20, 21, 22, 30, 31, 32]);

    let data = vec![7_u8; 320 * 96];
    let view = LumaView { data: &data, stride: 320 };
    let info = FrameInfo { width: 320, height: 96 };
    for _ in 0..2 {
        let size = prepare_analysis_pixels(view, info, false, &mut plans, &mut pixels);
        assert_eq!(size, (160, 48));
        assert_eq!(pixels, vec![7_u8; 160 * 48]);
    }
    let info = FrameInfo { width: 0, height: 96 };
    let size = prepare_analysis_pixels(view, info, false, &mut plans, &mut pixels);
    assert_eq!(size, (0, 0));
    assert!(pixels.is_empty());
}
