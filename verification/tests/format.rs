use sel::format::ansi::paint;
use sel::format::{digits, FormatOpts, Formatter, FragmentFormatter, PlainFormatter};
use sel::{Emit, Line, MatchInfo, Role};

fn opts(color: bool) -> FormatOpts {
    FormatOpts {
        show_line_numbers: true,
        show_filename: false,
        filename: None,
        color,
        target_marker: true,
        line_number_width: 0,
    }
}

#[test]
fn target_gets_marker_and_prefix() {
    let line = Line::new(7, b"hello".to_vec());
    let mi = MatchInfo {
        hit: true,
        ..Default::default()
    };
    let emit = Emit {
        line: &line,
        role: Role::Target,
        match_info: &mi,
    };
    let mut f = PlainFormatter::new(opts(false));
    let mut buf: Vec<u8> = Vec::new();
    f.write(&mut buf, &emit).unwrap();
    assert_eq!(String::from_utf8(buf).unwrap(), "> 7:hello\n");
}

#[test]
fn context_has_no_marker() {
    let line = Line::new(3, b"ctx".to_vec());
    let mi = MatchInfo::default();
    let emit = Emit {
        line: &line,
        role: Role::Context,
        match_info: &mi,
    };
    let mut f = PlainFormatter::new(opts(false));
    let mut buf: Vec<u8> = Vec::new();
    f.write(&mut buf, &emit).unwrap();
    assert_eq!(String::from_utf8(buf).unwrap(), "3:ctx\n");
}

#[test]
#[allow(clippy::single_range_in_vec_init)]
fn spans_highlight_when_color_enabled() {
    let line = Line::new(1, b"an ERROR today".to_vec());
    let mi = MatchInfo {
        hit: true,
        spans: vec![3..8],
        ..Default::default()
    };
    let emit = Emit {
        line: &line,
        role: Role::Target,
        match_info: &mi,
    };
    let mut f = PlainFormatter::new(opts(true));
    let mut buf: Vec<u8> = Vec::new();
    f.write(&mut buf, &emit).unwrap();
    let s = String::from_utf8(buf).unwrap();
    assert!(s.contains("\x1b[7mERROR\x1b[0m"));
}

#[test]
fn renders_fragment_with_caret_under_col() {
    let line = Line::new(1, b"abcdefghij".to_vec());
    let mi = MatchInfo {
        hit: true,
        col: Some(5),
        ..Default::default()
    };
    let emit = Emit {
        line: &line,
        role: Role::Target,
        match_info: &mi,
    };
    let opts = FormatOpts {
        show_line_numbers: true,
        show_filename: false,
        filename: None,
        color: false,
        target_marker: false,
        line_number_width: 4,
    };
    let mut f = FragmentFormatter::new(opts, 2);
    let mut buf: Vec<u8> = Vec::new();
    f.write(&mut buf, &emit).unwrap();
    let s = String::from_utf8(buf).unwrap();
    assert_eq!(s, "   1: cdefg\n        ^\n");
}

// Own checks.

fn write_plain(f: &mut PlainFormatter, no: u64, text: &[u8], role: Role, mi: &MatchInfo) -> String {
    let line = Line::new(no, text.to_vec());
    let emit = Emit {
        line: &line,
        role,
        match_info: mi,
    };
    let mut buf: Vec<u8> = Vec::new();
    f.write(&mut buf, &emit).unwrap();
    String::from_utf8(buf).unwrap()
}

#[test]
fn padded_field_keeps_its_width() {
    let mut o = opts(false);
    o.line_number_width = 4;
    o.target_marker = false;
    let mut f = PlainFormatter::new(o);
    let mi = MatchInfo::default();
    assert_eq!(write_plain(&mut f, 1, b"line1", Role::Target, &mi), "   1: line1\n");
    assert_eq!(write_plain(&mut f, 9999, b"x", Role::Target, &mi), "9999: x\n");
    assert_eq!(write_plain(&mut f, 10000, b"y", Role::Target, &mi), "10000: y\n");
    assert_eq!(write_plain(&mut f, 2, b"z", Role::Target, &mi), "   2: z\n");
    assert_eq!(f.opts.line_number_width, 4);
}

#[test]
fn marker_stays_outside_padded_field() {
    let mut o = opts(false);
    o.line_number_width = 4;
    let mut f = PlainFormatter::new(o);
    let mi = MatchInfo::default();
    assert_eq!(write_plain(&mut f, 2, b"beta", Role::Target, &mi), ">    2: beta\n");
    assert_eq!(write_plain(&mut f, 3, b"gamma", Role::Context, &mi), "   3: gamma\n");
}

#[test]
fn filename_prefix_and_no_numbers() {
    let o = FormatOpts {
        show_line_numbers: false,
        show_filename: true,
        filename: Some("a.txt".to_string()),
        color: false,
        target_marker: false,
        line_number_width: 4,
    };
    assert_eq!(o.prefix(12), "a.txt:");
    let mut f = PlainFormatter::new(o);
    let mi = MatchInfo::default();
    assert_eq!(write_plain(&mut f, 12, b"hi", Role::Target, &mi), "a.txt:hi\n");
}

#[test]
fn overlapping_and_unsorted_spans_are_highlighted_in_order() {
    let mut f = PlainFormatter::new(opts(true));
    let mi = MatchInfo {
        hit: true,
        spans: vec![6..8, 0..2, 1..3],
        col: None,
    };
    assert_eq!(
        write_plain(&mut f, 1, b"abcdefgh", Role::Context, &mi),
        "1:\x1b[7mab\x1b[0mcdef\x1b[7mgh\x1b[0m\n"
    );
}

#[test]
fn invalid_utf8_is_replaced() {
    let mut f = PlainFormatter::new(opts(false));
    let mi = MatchInfo::default();
    assert_eq!(write_plain(&mut f, 1, &[0x66, 0xff, 0x67], Role::Context, &mi), "1:f\u{FFFD}g\n");
}

#[test]
fn fragment_uses_first_span_and_highlights_it() {
    let line = Line::new(3, b"xx ERROR yy".to_vec());
    let mi = MatchInfo {
        hit: true,
        spans: vec![3..8],
        col: None,
    };
    let emit = Emit {
        line: &line,
        role: Role::Target,
        match_info: &mi,
    };
    let mut o = opts(true);
    o.line_number_width = 0;
    let mut f = FragmentFormatter::new(o, 1);
    let mut buf: Vec<u8> = Vec::new();
    f.write(&mut buf, &emit).unwrap();
    let s = String::from_utf8(buf).unwrap();
    assert_eq!(s, "3:  \x1b[7mER\x1b[0m\n    \x1b[32m^\x1b[0m\n");
    assert_eq!(f.opts.line_number_width, 1);
}

#[test]
fn fragment_column_beyond_line_end_clamps() {
    let line = Line::new(1, b"abcdef".to_vec());
    let mi = MatchInfo {
        hit: true,
        spans: Vec::new(),
        col: Some(100),
    };
    let emit = Emit {
        line: &line,
        role: Role::Target,
        match_info: &mi,
    };
    let mut o = opts(false);
    o.line_number_width = 4;
    let mut f = FragmentFormatter::new(o, 2);
    let mut buf: Vec<u8> = Vec::new();
    f.write(&mut buf, &emit).unwrap();
    assert_eq!(String::from_utf8(buf).unwrap(), "   1: def\n        ^\n");
}

#[test]
fn digits_and_paint() {
    assert_eq!(digits(0), 1);
    assert_eq!(digits(9), 1);
    assert_eq!(digits(10), 2);
    assert_eq!(digits(18446744073709551615), 20);
    assert_eq!(paint(true, "<", "x"), "<x\x1b[0m");
    assert_eq!(paint(false, "<", "x"), "x");
    let mut o = opts(false);
    o.widen_for_line(123);
    assert_eq!(o.line_number_width, 3);
    o.widen_for_line(5);
    assert_eq!(o.line_number_width, 3);
}
