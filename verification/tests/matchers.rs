use sel::{AllMatcher, Line, LineMatcher, Matcher, PositionMatcher, RegexMatcher, Selector};

fn mk_line(n: u64) -> Line {
    Line::new(n, Vec::new())
}

fn mk(bytes: &[u8]) -> Line {
    Line::new(1, bytes.to_vec())
}

#[test]
fn single_line_hits_only_that_line() {
    let sel = Selector::parse("5").unwrap();
    let mut m = LineMatcher::from_selector(&sel);
    assert!(!m.match_line(&mk_line(4)).hit);
    assert!(m.match_line(&mk_line(5)).hit);
    assert!(!m.match_line(&mk_line(6)).hit);
}

#[test]
fn range_hits_inclusive() {
    let sel = Selector::parse("10-12").unwrap();
    let mut m = LineMatcher::from_selector(&sel);
    assert!(!m.match_line(&mk_line(9)).hit);
    assert!(m.match_line(&mk_line(10)).hit);
    assert!(m.match_line(&mk_line(11)).hit);
    assert!(m.match_line(&mk_line(12)).hit);
    assert!(!m.match_line(&mk_line(13)).hit);
}

#[test]
fn mixed_list_merges_ranges() {
    let sel = Selector::parse("1,5,10-15,14").unwrap();
    let mut m = LineMatcher::from_selector(&sel);
    assert!(m.match_line(&mk_line(1)).hit);
    assert!(!m.match_line(&mk_line(2)).hit);
    assert!(m.match_line(&mk_line(5)).hit);
    assert!(m.match_line(&mk_line(12)).hit);
    assert!(m.match_line(&mk_line(15)).hit);
    assert!(!m.match_line(&mk_line(16)).hit);
}

#[test]
fn single_position_hits_correct_line_with_col() {
    let sel = Selector::parse("23:260").unwrap();
    let mut m = PositionMatcher::from_selector(&sel);
    assert!(!m.match_line(&mk_line(22)).hit);
    let info = m.match_line(&mk_line(23));
    assert!(info.hit);
    assert_eq!(info.col, Some(260));
    assert!(!m.match_line(&mk_line(24)).hit);
}

#[test]
fn multiple_positions_hit_in_order() {
    let sel = Selector::parse("5:10,5:20,9:3").unwrap();
    let mut m = PositionMatcher::from_selector(&sel);
    let h5 = m.match_line(&mk_line(5));
    assert!(h5.hit);
    assert_eq!(h5.col, Some(10));
    let h9 = m.match_line(&mk_line(9));
    assert!(h9.hit);
    assert_eq!(h9.col, Some(3));
}

#[test]
fn basic_match_gives_spans() {
    let mut m = RegexMatcher::new("ERROR", false).unwrap();
    let info = m.match_line(&mk(b"an ERROR happened"));
    assert!(info.hit);
    assert_eq!(info.spans.len(), 1);
    assert_eq!(info.spans[0], 3..8);
}

#[test]
fn invert_flips_hit_and_clears_spans() {
    let mut m = RegexMatcher::new("ERROR", true).unwrap();
    let miss_inverted = m.match_line(&mk(b"an ERROR happened"));
    assert!(!miss_inverted.hit);
    assert!(miss_inverted.spans.is_empty());

    let hit_inverted = m.match_line(&mk(b"all clear"));
    assert!(hit_inverted.hit);
    assert!(hit_inverted.spans.is_empty());
}

#[test]
fn invalid_regex_errors() {
    let err = RegexMatcher::new("(unclosed", false).unwrap_err();
    let msg = err.message();
    assert!(msg.contains("invalid regex"));
}

// Own checks.

#[test]
fn all_matcher_hits_everything() {
    let mut m = AllMatcher;
    let info = m.match_line(&mk_line(77));
    assert!(info.hit);
    assert!(info.spans.is_empty());
    assert_eq!(info.col, None);
}

#[test]
fn regex_gives_every_match_span() {
    let mut m = RegexMatcher::new("o", false).unwrap();
    let info = m.match_line(&mk(b"foo bor"));
    assert!(info.hit);
    assert_eq!(info.spans, vec![1..2, 2..3, 5..6]);
    let miss = m.match_line(&mk(b"xyz"));
    assert!(!miss.hit);
    assert!(miss.spans.is_empty());
}

#[test]
fn position_matcher_reports_smallest_column_and_skips_passed_lines() {
    let sel = Selector::parse("4:9,2:7,4:3").unwrap();
    let mut m = PositionMatcher::from_selector(&sel);
    assert!(!m.match_line(&mk_line(1)).hit);
    assert_eq!(m.match_line(&mk_line(2)).col, Some(7));
    assert!(!m.match_line(&mk_line(3)).hit);
    let h4 = m.match_line(&mk_line(4));
    assert!(h4.hit);
    assert_eq!(h4.col, Some(3));
    assert!(!m.match_line(&mk_line(5)).hit);
}

#[test]
fn position_matcher_repeated_line_number() {
    let sel = Selector::parse("5:10,5:20,9:3").unwrap();
    let mut m = PositionMatcher::from_selector(&sel);
    assert_eq!(m.match_line(&mk_line(5)).col, Some(10));
    assert_eq!(m.match_line(&mk_line(5)).col, Some(10));
    let miss = m.match_line(&mk_line(7));
    assert!(!miss.hit && miss.spans.is_empty() && miss.col.is_none());
    assert_eq!(m.match_line(&mk_line(9)).col, Some(3));
}
