use sel::cli::Cli;
use sel::context::{LineContext, NoContext};
use sel::format::{FormatOpts, PlainFormatter};
use sel::pipeline::Pipeline;
use sel::wiring::{AnyExpander, AnyFormatter, AnyMatcher};
use sel::{Line, LineMatcher, RegexMatcher, Selector, SelError};

fn opts(width: usize) -> FormatOpts {
    FormatOpts {
        show_line_numbers: true,
        show_filename: false,
        filename: None,
        color: false,
        target_marker: false,
        line_number_width: width,
    }
}

fn run<M: sel::Matcher, E: sel::context::Expander, F: sel::format::Formatter>(
    p: &mut Pipeline<M, E, F>,
    lines: &[&str],
) -> String {
    let mut out: Vec<u8> = Vec::new();
    for (i, l) in lines.iter().enumerate() {
        p.feed(Line::new(i as u64 + 1, l.as_bytes().to_vec()), &mut out).unwrap();
    }
    p.finish(&mut out).unwrap();
    String::from_utf8(out).unwrap()
}

#[test]
fn pipeline_selects_lines() {
    let sel = Selector::parse("2,4").unwrap();
    let mut p = Pipeline::new(
        LineMatcher::from_selector(&sel),
        NoContext,
        PlainFormatter::new(opts(4)),
    );
    assert_eq!(run(&mut p, &["a", "b", "c", "d", "e"]), "   2: b\n   4: d\n");
}

#[test]
fn pipeline_with_context_marks_targets() {
    let sel = Selector::parse("2").unwrap();
    let mut o = opts(4);
    o.target_marker = true;
    let mut p = Pipeline::new(
        LineMatcher::from_selector(&sel),
        LineContext::new(1),
        PlainFormatter::new(o),
    );
    assert_eq!(
        run(&mut p, &["alpha", "beta", "gamma"]),
        "   1: alpha\n>    2: beta\n   3: gamma\n"
    );
}

#[test]
fn pipeline_with_regex_and_invert() {
    let mut p = Pipeline::new(
        RegexMatcher::new("ERROR", true).unwrap(),
        NoContext,
        PlainFormatter::new(opts(4)),
    );
    assert_eq!(
        run(&mut p, &["keep", "drop ERROR", "keep too"]),
        "   1: keep\n   3: keep too\n"
    );
}

#[test]
fn wiring_picks_components() {
    let cli = Cli {
        args: vec!["1:5".to_string(), "f.txt".to_string()],
        char_context: Some(2),
        ..Default::default()
    };
    assert!(matches!(cli.matcher_for(false), Err(SelError::PositionalWithStdin)));
    let matcher = cli.matcher_for(true).unwrap();
    assert!(matches!(matcher, AnyMatcher::Positions(_)));
    let expander = cli.expander_for();
    assert!(matches!(expander, AnyExpander::Hits(_)));
    let formatter = cli.formatter_for("f.txt", false, false);
    match &formatter {
        AnyFormatter::Fragment(f) => {
            assert_eq!(f.char_context, 2);
            assert_eq!(f.opts.line_number_width, 4);
            assert_eq!(f.opts.filename, Some("f.txt".to_string()));
        }
        AnyFormatter::Plain(_) => panic!("expected a fragment formatter"),
    }
    let mut p = Pipeline::new(matcher, expander, formatter);
    assert_eq!(run(&mut p, &["abcdef"]), "   1: cdef\n        ^\n");
}

#[test]
fn wiring_for_whole_file_and_context() {
    let cli = Cli {
        args: vec!["f.txt".to_string()],
        context: Some(1),
        ..Default::default()
    };
    assert!(matches!(cli.matcher_for(false), Ok(AnyMatcher::All(_))));
    assert!(matches!(cli.expander_for(), AnyExpander::Lines(_)));
    match cli.formatter_for("f.txt", true, true) {
        AnyFormatter::Plain(f) => {
            assert!(f.opts.target_marker);
            assert!(f.opts.show_filename);
            assert!(f.opts.color);
            assert!(f.opts.show_line_numbers);
        }
        AnyFormatter::Fragment(_) => panic!("expected a plain formatter"),
    }
    let zero = Cli {
        context: Some(0),
        ..Default::default()
    };
    assert!(matches!(zero.expander_for(), AnyExpander::Hits(_)));
}

#[test]
fn wiring_reports_bad_selectors_and_regexes() {
    let bad_regex = Cli {
        regex: Some("(".to_string()),
        ..Default::default()
    };
    assert!(matches!(bad_regex.matcher_for(true), Err(SelError::InvalidRegex(_))));
    let bad_range = Cli {
        args: vec!["20-10".to_string()],
        ..Default::default()
    };
    assert!(matches!(bad_range.matcher_for(true), Err(SelError::InvalidSelector(_))));
    let lines = Cli {
        args: vec!["3-4".to_string()],
        ..Default::default()
    };
    assert!(matches!(lines.matcher_for(false), Ok(AnyMatcher::Lines(_))));
    let regex = Cli {
        regex: Some("a+".to_string()),
        ..Default::default()
    };
    assert!(matches!(regex.matcher_for(false), Ok(AnyMatcher::Regex(_))));
}

