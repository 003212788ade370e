use scuisei_rs::analysis::AnalyzeOptions;
use scuisei_rs::decoder::{
    borrow_packed8, borrow_planar16, choose_hw_format, decode_anyhow, decoder_threads,
    high_bit_luma_format, hw_attach_error, hw_config_is_usable, is_direct_luma_format, luma_route,
    needs_new_scaler, open_error, parse_hw_device_type, receive_step, validate_hw_frame_requirement,
    validate_plane, HighBitLumaFormat, LumaRoute, LumaSource, PixelFormat, PlaneFault,
    ReceiveOutcome, ReceiveStep, ScalerInput,
};
use scuisei_rs::simd_metrics::{extract_packed8, DownscalePlan};
use scuisei_rs::SCuiseiError;
use std::path::PathBuf;

#[test]
fn requiring_hw_frames_rejects_software_output() {
    let error = validate_hw_frame_requirement(true, false)
        .expect_err("software frames should be rejected when --hwdec is required");
    assert!(matches!(error, SCuiseiError::Unsupported(_)));
}

#[test]
fn software_frames_are_allowed_without_hw_requirement() {
    assert!(validate_hw_frame_requirement(false, false).is_ok());
    assert!(validate_hw_frame_requirement(true, true).is_ok());
}

#[test]
fn invalid_hwdec_name_is_config_error() {
    let error = parse_hw_device_type("not-a-device", None).expect_err("invalid device should fail");
    assert!(matches!(error, SCuiseiError::Config(_)));
    assert_eq!(error.description(), "configuration error: unknown --hwdec: not-a-device");
}

#[test]
fn nul_in_hwdec_name_is_config_error() {
    let error = parse_hw_device_type("bad\0device", None).expect_err("nul device should fail");
    assert!(matches!(error, SCuiseiError::Config(_)));
    assert_eq!(
        error.description(),
        "configuration error: invalid --hwdec value: nul byte found in provided data at position: 3"
    );
}

#[test]
fn known_hwdec_name_gives_its_type() {
    assert_eq!(parse_hw_device_type("vaapi", Some(3)).expect("known device"), 3);
}

#[test]
fn test_library_api_classifies_missing_input_as_io_error() {
    let options =
        AnalyzeOptions::defaults_for_input(PathBuf::from("target/fixtures/does-not-exist.y4m"));
    let path = options.input.display().to_string();
    let cause = std::io::Error::from(std::io::ErrorKind::NotFound);
    let error = open_error(&path, &cause);
    assert!(matches!(error, SCuiseiError::Io(_)));
}

#[test]
fn test_missing_input_fails_with_context() {
    let error = open_error("target/fixtures/does-not-exist.y4m", &"No such file or directory");
    assert_eq!(
        error.description(),
        "input/output error: failed to open input: target/fixtures/does-not-exist.y4m: \
         No such file or directory"
    );
}

#[test]
fn test_invalid_hwdec_fails_with_context() {
    let error = parse_hw_device_type("not-a-device", None).expect_err("unknown device");
    assert!(error.description().contains("unknown --hwdec"));
}

#[test]
fn unusable_device_is_unsupported() {
    let error = hw_attach_error("vaapi", &"failed to enable hardware decoding");
    assert_eq!(
        error.description(),
        "unsupported operation: failed to enable hardware decoding (--hwdec vaapi): \
         failed to enable hardware decoding"
    );
}

#[test]
fn outside_decoding_errors_are_decode_errors() {
    let error = decode_anyhow(&anyhow::Error::msg("scaler unexpectedly missing"));
    assert!(matches!(error, SCuiseiError::Decode(_)));
    assert_eq!(error.description(), "decode error: scaler unexpectedly missing");
}

#[test]
fn packed8_strided_extraction_matches_plane() {
    let stride: usize = 64;
    let bytes: Vec<u8> =
        (0..stride * 29).map(|index| u8::try_from(index % 251).expect("fits")).collect();

    let view = borrow_packed8(&bytes, stride, 61, 29).expect("borrow should not fail");
    let (data, stride) = (view.data, view.stride);

    let mut extracted = Vec::new();
    extract_packed8(data, stride, 61, 29, &mut extracted);
    assert_eq!(extracted.len(), 61 * 29);
    for y in 0..29_usize {
        assert_eq!(
            &extracted[y * 61..(y + 1) * 61],
            &data[y * stride..y * stride + 61],
        );
    }

    let plan = DownscalePlan::new(61, 29, 17, 11);
    let mut sampled_strided = Vec::new();
    plan.run_packed8(data, stride, &mut sampled_strided);
    let mut sampled_contiguous = Vec::new();
    plan.run(&extracted, &mut sampled_contiguous);
    assert_eq!(sampled_strided, sampled_contiguous);
}

#[test]
fn planes_that_hold_all_rows_are_accepted() {
    let data = vec![0_u8; 10];
    assert!(validate_plane(&data, 4, 2, 3).is_ok());
    assert!(validate_plane(&data, 4, 2, 0).is_ok());
    assert!(validate_plane(&data, 10, 10, 1).is_ok());
}

#[test]
fn plane_faults_are_told() {
    let data = vec![0_u8; 10];
    assert_eq!(
        validate_plane(&data, 3, 4, 1),
        Err(PlaneFault::NarrowStride { stride: 3, row_bytes: 4 })
    );
    assert_eq!(validate_plane(&data, usize::MAX, 4, 3), Err(PlaneFault::Overflow));
    assert_eq!(
        validate_plane(&data, 4, 4, 3),
        Err(PlaneFault::ShortData { have: 10, needed: 12 })
    );
    assert_eq!(
        borrow_packed8(&data, 3, 4, 1).expect_err("narrow").description(),
        "decode error: unexpected luma stride (3) for row size (4)"
    );
    assert_eq!(
        borrow_packed8(&data, usize::MAX, 4, 3).expect_err("overflow").description(),
        "decode error: stride multiplication overflow"
    );
    assert_eq!(
        borrow_packed8(&data, 4, 4, 103).expect_err("short").description(),
        "decode error: insufficient luma data (have 10, need 412)"
    );
}

#[test]
fn high_bit_planes_take_two_bytes_a_pixel() {
    let data = vec![0_u8; 16];
    let format = HighBitLumaFormat { bit_depth: 10, little_endian: true };
    let view = borrow_planar16(&data, 8, 4, 2, format, false).expect("fits");
    assert_eq!(view.stride, 8);
    assert_eq!(view.params.bit_depth, 10);
    assert!(view.params.little_endian);
    assert!(!view.params.full_range);
    assert!(matches!(LumaSource::Planar16(view), LumaSource::Planar16(_)));
    assert_eq!(
        borrow_planar16(&data, 8, 5, 2, format, false).expect_err("narrow").description(),
        "decode error: unexpected luma stride (8) for row size (10)"
    );
}

#[test]
fn pixel_formats_are_classified() {
    assert!(is_direct_luma_format(PixelFormat::Gray8));
    assert!(is_direct_luma_format(PixelFormat::Nv12));
    assert!(!is_direct_luma_format(PixelFormat::Yuv420P10Le));
    assert!(!is_direct_luma_format(PixelFormat::Other));
    assert_eq!(
        high_bit_luma_format(PixelFormat::Yuv420P10Le),
        Some(HighBitLumaFormat { bit_depth: 10, little_endian: true })
    );
    assert_eq!(
        high_bit_luma_format(PixelFormat::Yuv444P9Be),
        Some(HighBitLumaFormat { bit_depth: 9, little_endian: false })
    );
    assert_eq!(
        high_bit_luma_format(PixelFormat::Yuv440P12Be),
        Some(HighBitLumaFormat { bit_depth: 12, little_endian: false })
    );
    assert_eq!(
        high_bit_luma_format(PixelFormat::Yuv422P14Le).map(|found| found.bit_depth),
        Some(14)
    );
    assert_eq!(
        high_bit_luma_format(PixelFormat::Yuv422P16Le).map(|found| found.bit_depth),
        Some(16)
    );
    assert_eq!(high_bit_luma_format(PixelFormat::Yuv420P), None);
}

#[test]
fn luma_source_without_high_bit_falls_back_to_swscale() {
    assert_eq!(luma_route(PixelFormat::Yuv420P10Le, false), LumaRoute::Convert);
    assert_eq!(
        luma_route(PixelFormat::Yuv420P10Le, true),
        LumaRoute::HighBit(HighBitLumaFormat { bit_depth: 10, little_endian: true })
    );
    assert_eq!(luma_route(PixelFormat::Yuv420P, true), LumaRoute::Direct);
    assert_eq!(luma_route(PixelFormat::Other, true), LumaRoute::Convert);
}

#[test]
fn scaler_recreates_on_format_change() {
    let first = ScalerInput { format: 0, width: 32, height: 32 };
    let second = ScalerInput { format: 23, width: 32, height: 32 };
    assert!(needs_new_scaler(false, None, first));
    assert!(!needs_new_scaler(true, Some(first), first));
    assert!(needs_new_scaler(true, Some(first), second));
}

#[test]
fn scaler_recreates_on_dimension_change() {
    let first = ScalerInput { format: 0, width: 32, height: 32 };
    let second = ScalerInput { format: 0, width: 64, height: 48 };
    assert!(needs_new_scaler(true, Some(first), second));
    assert!(needs_new_scaler(true, None, first));
}

#[test]
fn receiving_stops_fails_or_hands_on() {
    assert_eq!(
        receive_step(&ReceiveOutcome::Frame { is_hw: false }, false).expect("frame"),
        ReceiveStep::Forward { from_hardware: false }
    );
    assert_eq!(
        receive_step(&ReceiveOutcome::Frame { is_hw: true }, true).expect("frame"),
        ReceiveStep::Forward { from_hardware: true }
    );
    assert!(matches!(
        receive_step(&ReceiveOutcome::Frame { is_hw: false }, true),
        Err(SCuiseiError::Unsupported(_))
    ));
    assert_eq!(
        receive_step(&ReceiveOutcome::Starved, true).expect("starved"),
        ReceiveStep::Stop
    );
    assert_eq!(
        receive_step(&ReceiveOutcome::Finished, true).expect("finished"),
        ReceiveStep::Stop
    );
    assert_eq!(
        receive_step(&ReceiveOutcome::Failed("Invalid data".to_string()), false)
            .expect_err("failed")
            .description(),
        "decode error: failed to receive frame: Invalid data"
    );
}

#[test]
fn hardware_configurations_are_chosen() {
    assert!(hw_config_is_usable(0b101, 0b001, 3, 3));
    assert!(!hw_config_is_usable(0b100, 0b001, 3, 3));
    assert!(!hw_config_is_usable(0b101, 0b001, 4, 3));
    assert_eq!(choose_hw_format(44, &[1, 44, 2], -1), 44);
    assert_eq!(choose_hw_format(44, &[1, 2], -1), -1);
    assert_eq!(choose_hw_format(44, &[], -1), -1);
}

#[test]
fn decoding_threads_are_limited() {
    assert_eq!(decoder_threads(None), 0);
    assert_eq!(decoder_threads(Some(4)), 8);
    assert_eq!(decoder_threads(Some(31)), 62);
    assert_eq!(decoder_threads(Some(32)), 64);
    assert_eq!(decoder_threads(Some(usize::MAX)), 64);
}
