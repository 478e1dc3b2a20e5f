use rutree2::cli::validate_color;

#[test]
fn test_validate_color_valid_values() {
    assert!(validate_color("auto").is_ok());
    assert!(validate_color("always").is_ok());
    assert!(validate_color("never").is_ok());
}

#[test]
fn test_validate_color_invalid_value() {
    let result = validate_color("invalid");
    assert!(result.is_err());
    assert!(result
        .unwrap_err()
        .contains("must be one of: auto, always, never"));
}
