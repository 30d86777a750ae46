use wminspect::colorized::{ColorizedFormatter, OutputMode};

#[test]
fn test_output_modes() {
    let mut formatter = ColorizedFormatter::new();

    // Test colorized mode
    formatter.set_mode(OutputMode::Colorized);
    assert_eq!(formatter.get_mode(), OutputMode::Colorized);

    // Test concise mode
    formatter.set_mode(OutputMode::Concise);
    assert_eq!(formatter.get_mode(), OutputMode::Concise);

    // Test no color mode
    formatter.set_mode(OutputMode::NoColor);
    assert_eq!(formatter.get_mode(), OutputMode::NoColor);
}

#[test]
fn test_formatting_functions() {
    let formatter = ColorizedFormatter::with_mode(OutputMode::NoColor);

    // Test basic formatting functions
    assert_eq!(formatter.format_window_id(0x123), "0x123");
    assert_eq!(formatter.format_window_name("test"), "test");
    assert_eq!(formatter.format_geometry("100x200+50+75"), "100x200+50+75");
    assert_eq!(formatter.format_attributes("OR Viewable"), "OR Viewable");

    // Test message formatting
    assert_eq!(formatter.format_error("test error"), "Error: test error");
    assert_eq!(formatter.format_warning("test warning"), "Warning: test warning");
    assert_eq!(formatter.format_info("test info"), "Info: test info");
    assert_eq!(formatter.format_success("test success"), "Success: test success");
}

#[test]
fn test_window_entry_formatting() {
    let formatter = ColorizedFormatter::with_mode(OutputMode::NoColor);

    let entry = formatter.format_window_entry(
        0,
        0x123,
        "test-window",
        "100x200+50+75",
        "OR Viewable",
        false,
    );

    assert_eq!(entry, "0: 0x123(test-window) 100x200+50+75 OR Viewable");
}

#[test]
fn test_concise_formatting() {
    let formatter = ColorizedFormatter::with_mode(OutputMode::Concise);

    let entry = formatter.format_window_entry(
        0,
        0x123,
        "test-window",
        "100x200+50+75",
        "OR Viewable",
        false,
    );

    // In concise mode, only id and name should be shown
    assert!(entry.contains("0x123"));
    assert!(entry.contains("test-window"));
    assert!(!entry.contains("100x200+50+75"));
}

#[test]
fn test_diff_formatting() {
    let formatter = ColorizedFormatter::with_mode(OutputMode::NoColor);

    let normal_entry =
        formatter.format_window_entry(0, 0x123, "test", "100x200+50+75", "Viewable", false);

    let diff_entry =
        formatter.format_window_entry(0, 0x123, "test", "100x200+50+75", "Viewable", true);

    assert_ne!(normal_entry, diff_entry);
    assert!(diff_entry.starts_with(">>>"));
}

#[test]
fn test_table_formatting() {
    let formatter = ColorizedFormatter::with_mode(OutputMode::NoColor);

    let headers = vec!["ID".to_string(), "Name".to_string(), "Geometry".to_string()];
    let table_header = formatter.format_table_header(&headers);

    assert!(table_header.contains("ID | Name | Geometry"));
    assert!(table_header.contains("---"));
}

#[test]
fn test_text_truncation() {
    let formatter = ColorizedFormatter::with_mode(OutputMode::NoColor);

    let long_text = "This is a very long text that should be truncated";
    let truncated = formatter.truncate_to_width(long_text, Some(20));

    assert_eq!(truncated.len(), 20);
    assert!(truncated.ends_with("..."));
}

#[test]
fn test_supports_color() {
    let mut formatter = ColorizedFormatter::with_mode(OutputMode::Colorized);
    assert!(!formatter.supports_color());
    formatter.set_terminal(true);
    assert!(formatter.supports_color());
    formatter.set_mode(OutputMode::NoColor);
    assert!(!formatter.supports_color());
}

#[test]
fn test_colorized_wraps_in_escapes() {
    let mut formatter = ColorizedFormatter::with_mode(OutputMode::Colorized);
    formatter.set_terminal(true);
    let id = formatter.format_window_id(0x123);
    assert_eq!(id, "\u{1b}[94;1m0x123\u{1b}[0m");
    let err = formatter.format_error("oops");
    assert_eq!(err, "\u{1b}[91;1mError\u{1b}[0m: \u{1b}[31moops\u{1b}[0m");
}

#[test]
fn test_key_value_and_stats() {
    let formatter = ColorizedFormatter::with_mode(OutputMode::NoColor);
    assert_eq!(formatter.format_key_value("key", "value"), "key: value");
    assert_eq!(formatter.format_stats("windows", "12"), "windows: 12");
    assert_eq!(formatter.format_header("Totals"), "=== Totals ===");
    assert_eq!(formatter.format_separator(), "-".repeat(40));
}

#[test]
fn test_truncation_keeps_short_text() {
    let formatter = ColorizedFormatter::with_mode(OutputMode::NoColor);
    assert_eq!(formatter.truncate_to_width("short", Some(20)), "short");
    assert_eq!(formatter.truncate_to_width("short", None), "short");
}
