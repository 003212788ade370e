use scuisei_rs::SCuiseiError;

#[test]
fn from_anyhow_defaults_to_internal_error() {
    let error = SCuiseiError::from(anyhow::Error::msg("opaque failure"));
    assert!(matches!(error, SCuiseiError::Internal(_)));
    assert_eq!(error.description(), "internal error: opaque failure");
}

#[test]
fn io_helper_preserves_io_category() {
    let error = SCuiseiError::io_message("failed to open input: foo.mp4");
    assert!(matches!(error, SCuiseiError::Io(_)));
    assert_eq!(error.category(), "io");
}

#[test]
fn config_helper_preserves_config_category() {
    let error = SCuiseiError::config("unknown --hwdec: nope");
    assert!(matches!(error, SCuiseiError::Config(_)));
    assert_eq!(error.category(), "config");
}

#[test]
fn every_variant_has_its_category_and_description() {
    let cases = vec![
        (SCuiseiError::config("m"), "config", "configuration error: m"),
        (SCuiseiError::io_message("m"), "io", "input/output error: m"),
        (SCuiseiError::decode("m"), "decode", "decode error: m"),
        (SCuiseiError::unsupported("m"), "unsupported", "unsupported operation: m"),
        (SCuiseiError::internal("m"), "internal", "internal error: m"),
    ];
    for (error, category, description) in cases {
        assert_eq!(error.category(), category);
        assert_eq!(error.description(), description);
    }
}

#[test]
fn context_is_put_before_the_outside_error() {
    let cause = 7_u8;
    assert_eq!(
        SCuiseiError::config_with("while reading", &cause).description(),
        "configuration error: while reading: 7"
    );
    assert_eq!(
        SCuiseiError::io_with("while writing", &"no space").description(),
        "input/output error: while writing: no space"
    );
    assert_eq!(
        SCuiseiError::decode_with("frame", &cause).description(),
        "decode error: frame: 7"
    );
    assert_eq!(
        SCuiseiError::unsupported_with("device", &cause).description(),
        "unsupported operation: device: 7"
    );
    assert_eq!(
        SCuiseiError::internal_with("state", &cause).description(),
        "internal error: state: 7"
    );
}

#[test]
fn io_errors_are_told_in_context() {
    let cause = std::io::Error::other("disk on fire");
    let error = SCuiseiError::io("failed to flush output", &cause);
    assert!(matches!(error, SCuiseiError::Io(_)));
    assert_eq!(
        error.description(),
        "input/output error: failed to flush output: disk on fire"
    );
}
