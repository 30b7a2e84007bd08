use sel::cli::ColorMode;
use sel::output::{Fragment, OutputFormatter};

fn create_test_formatter(color_mode: ColorMode) -> OutputFormatter {
    OutputFormatter::new(Vec::new(), false, false, None, color_mode)
}

#[test]
fn test_fragment_middle() {
    let line = "This is a test line with some content";
    let frag = Fragment::new(line, 11, 5);
    assert!(frag.content.contains("a test"));
}

#[test]
fn test_fragment_start() {
    let line = "This is a test line";
    let frag = Fragment::new(line, 1, 5);
    assert_eq!(frag.start_column, 1);
    assert!(frag.content.starts_with("This"));
}

#[test]
fn test_fragment_end() {
    let line = "This is a test line";
    let frag = Fragment::new(line, 100, 5);
    assert!(frag.content.ends_with("line"));
    assert!(frag.content.len() <= line.len());
}

#[test]
fn test_fragment_pointer_offset() {
    let line = "This is a test line";
    let frag = Fragment::new(line, 11, 5);
    assert_eq!(frag.pointer_offset(), 11 - frag.start_column);
}

#[test]
fn test_fragment_short_line() {
    let line = "abc";
    let frag = Fragment::new(line, 2, 10);
    assert_eq!(frag.content, "abc");
}

#[test]
#[allow(clippy::single_range_in_vec_init)]
fn test_highlight_matches_single() {
    let formatter = create_test_formatter(ColorMode::Always);
    let text = "Hello ERROR in this line";
    let matches = vec![6..11];
    let result = formatter.highlight_matches(text, &matches);
    assert!(result.contains("\x1b[7m"));
    assert!(result.contains("\x1b[0m"));
    assert!(result.contains("ERROR"));
}

#[test]
fn test_highlight_matches_multiple() {
    let formatter = create_test_formatter(ColorMode::Always);
    let text = "ERROR: something went wrong with ERROR code";
    let matches = vec![0..5, 33..38];
    let result = formatter.highlight_matches(text, &matches);
    assert!(result.contains("\x1b[7mERROR\x1b[0m"));
    let count = result.matches("\x1b[7m").count();
    assert_eq!(count, 2);
}

#[test]
#[allow(clippy::single_range_in_vec_init)]
fn test_highlight_matches_no_color() {
    let formatter = create_test_formatter(ColorMode::Never);
    let text = "Hello ERROR in this line";
    let matches = vec![6..11];
    let result = formatter.highlight_matches(text, &matches);
    assert!(result.contains("\x1b[7m"));
}

#[test]
fn test_highlight_substring() {
    let formatter = create_test_formatter(ColorMode::Always);
    let text = "This is a test line";
    let range = 5..7;
    let result = formatter.highlight_substring(text, &range);
    assert_eq!(result, "This \x1b[7mis\x1b[0m a test line");
}

#[test]
fn test_highlight_substring_at_start() {
    let formatter = create_test_formatter(ColorMode::Always);
    let text = "ERROR in this line";
    let range = 0..5;
    let result = formatter.highlight_substring(text, &range);
    assert_eq!(result, "\x1b[7mERROR\x1b[0m in this line");
}

#[test]
fn test_highlight_substring_at_end() {
    let formatter = create_test_formatter(ColorMode::Always);
    let text = "This line has ERROR";
    let range = 14..19;
    let result = formatter.highlight_substring(text, &range);
    assert_eq!(result, "This line has \x1b[7mERROR\x1b[0m");
}

#[test]
fn test_highlight_substring_empty_range() {
    let formatter = create_test_formatter(ColorMode::Always);
    let text = "This is a test";
    let range = 5..5;
    let result = formatter.highlight_substring(text, &range);
    assert_eq!(result, text);
}

#[test]
fn test_highlight_matches_overlapping() {
    let formatter = create_test_formatter(ColorMode::Always);
    let text = "ERROR123ERROR";
    let matches = vec![0..5, 5..10];
    let result = formatter.highlight_matches(text, &matches);
    assert!(result.contains("\x1b[7m"));
}

#[test]
#[allow(clippy::single_range_in_vec_init)]
fn test_highlight_matches_out_of_bounds() {
    let formatter = create_test_formatter(ColorMode::Always);
    let text = "Short";
    let matches = vec![0..100];
    let result = formatter.highlight_matches(text, &matches);
    assert!(result.contains("\x1b[7mShort\x1b[0m"));
}

// Own checks.

#[test]
fn highlight_matches_exact_output() {
    let formatter = create_test_formatter(ColorMode::Always);
    let result = formatter.highlight_matches("ERROR123ERROR", &[8..13, 0..5]);
    assert_eq!(result, "\x1b[7mERROR\x1b[0m123\x1b[7mERROR\x1b[0m");
}

#[test]
fn write_methods_produce_prefixed_lines() {
    let mut f = OutputFormatter::new(Vec::new(), true, true, Some("f.txt".to_string()), ColorMode::Never);
    f.write_line(3, "abc").unwrap();
    f.write_target_line(4, "def").unwrap();
    f.write_context_line(5, "ghi").unwrap();
    f.write_fragment(6, "frag", 2).unwrap();
    f.write_line_with_matches(7, "hit here", &[0..3]).unwrap();
    f.write_fragment_with_match(8, "xyz", 1..2).unwrap();
    f.flush().unwrap();
    let out = String::from_utf8(f.into_inner()).unwrap();
    assert_eq!(
        out,
        "f.txt:3:abc\n> f.txt:4:def\nf.txt:5:ghi\n6:frag\n  ^\nf.txt:7:hit here\n8:xyz\n ^\n"
    );
}

#[test]
fn colored_write_methods() {
    let mut f = OutputFormatter::new(Vec::new(), false, false, None, ColorMode::Always);
    f.write_target_line_with_matches(1, "a b", &[2..3]).unwrap();
    f.write_fragment_with_match(2, "xyz", 1..2).unwrap();
    let out = String::from_utf8(f.into_inner()).unwrap();
    assert_eq!(
        out,
        "\x1b[32m>\x1b[0m a \x1b[7mb\x1b[0m\nx\x1b[7my\x1b[0mz\n\x1b[32m ^\x1b[0m\n"
    );
}

#[test]
fn fragment_format_and_pointer() {
    let mut frag = Fragment::new("This is a test line", 11, 3);
    assert_eq!(frag.start_column, 8);
    assert_eq!(frag.content, " a test");
    frag.line_number = 4;
    assert_eq!(frag.format(), "4: a test");
    assert_eq!(frag.format_pointer(), "   ^");
    let empty = Fragment::new("", 3, 2);
    assert_eq!(empty.content, "");
    assert_eq!(empty.start_column, 1);
}

#[test]
fn matches_are_not_cut_without_color() {
    let mut f = OutputFormatter::new(Vec::new(), false, false, None, ColorMode::Never);
    f.write_line_with_matches(1, "ab", &[5..1]).unwrap();
    assert_eq!(String::from_utf8(f.into_inner()).unwrap(), "ab\n");
}
