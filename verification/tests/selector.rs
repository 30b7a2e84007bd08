use sel::{LineSpec, Position, Selector};

#[test]
fn parse_single_line() {
    let sel = Selector::parse("42").unwrap();
    assert_eq!(sel, Selector::LineNumbers(vec![LineSpec::Single(42)]));
}

#[test]
fn parse_range() {
    let sel = Selector::parse("10-20").unwrap();
    assert_eq!(sel, Selector::LineNumbers(vec![LineSpec::Range(10, 20)]));
}

#[test]
fn parse_multiple_specs() {
    let sel = Selector::parse("1,5,10-15,20").unwrap();
    assert_eq!(
        sel,
        Selector::LineNumbers(vec![
            LineSpec::Single(1),
            LineSpec::Single(5),
            LineSpec::Range(10, 15),
            LineSpec::Single(20),
        ])
    );
}

#[test]
fn parse_position() {
    let sel = Selector::parse("23:260").unwrap();
    assert_eq!(sel, Selector::Positions(vec![Position::new(23, 260)]));
}

#[test]
fn parse_multiple_positions() {
    let sel = Selector::parse("15:30,23:260").unwrap();
    assert_eq!(
        sel,
        Selector::Positions(vec![Position::new(15, 30), Position::new(23, 260),])
    );
}

#[test]
fn reject_mixed_selector() {
    let result = Selector::parse("1,23:260");
    assert!(result.is_err());
}

#[test]
fn parse_empty_selector() {
    let sel = Selector::parse("").unwrap();
    assert_eq!(sel, Selector::All);
}

#[test]
fn reject_zero_line() {
    assert!(Selector::parse("0").is_err());
    assert!(Selector::parse("10-0").is_err());
}

#[test]
fn reject_invalid_range() {
    assert!(Selector::parse("20-10").is_err());
}

#[test]
fn line_spec_contains() {
    let spec = LineSpec::Range(10, 20);
    assert!(!spec.contains(9));
    assert!(spec.contains(10));
    assert!(spec.contains(15));
    assert!(spec.contains(20));
    assert!(!spec.contains(21));
}

#[test]
fn normalize_merges_overlapping_ranges() {
    let sel = Selector::LineNumbers(vec![LineSpec::Range(1, 5), LineSpec::Range(3, 10)]);
    let normalized = sel.normalize();
    assert_eq!(normalized, Selector::LineNumbers(vec![LineSpec::Range(1, 10)]));
}

#[test]
fn normalize_merges_adjacent_ranges() {
    let sel = Selector::LineNumbers(vec![LineSpec::Range(1, 5), LineSpec::Range(6, 10)]);
    let normalized = sel.normalize();
    assert_eq!(normalized, Selector::LineNumbers(vec![LineSpec::Range(1, 10)]));
}

#[test]
fn normalize_merges_single_lines_into_ranges() {
    let sel = Selector::LineNumbers(vec![
        LineSpec::Single(1),
        LineSpec::Single(2),
        LineSpec::Single(3),
        LineSpec::Single(10),
    ]);
    let normalized = sel.normalize();
    assert_eq!(
        normalized,
        Selector::LineNumbers(vec![LineSpec::Range(1, 3), LineSpec::Single(10)])
    );
}

#[test]
fn normalize_complex_merge() {
    let sel = Selector::LineNumbers(vec![
        LineSpec::Range(1, 5),
        LineSpec::Single(6),
        LineSpec::Range(7, 10),
        LineSpec::Range(15, 20),
        LineSpec::Single(21),
    ]);
    let normalized = sel.normalize();
    assert_eq!(
        normalized,
        Selector::LineNumbers(vec![LineSpec::Range(1, 10), LineSpec::Range(15, 21)])
    );
}

#[test]
fn normalize_keeps_non_adjacent_ranges_separate() {
    let sel = Selector::LineNumbers(vec![LineSpec::Range(1, 5), LineSpec::Range(10, 15)]);
    let normalized = sel.normalize();
    assert_eq!(
        normalized,
        Selector::LineNumbers(vec![LineSpec::Range(1, 5), LineSpec::Range(10, 15)])
    );
}

#[test]
fn normalize_removes_duplicate_lines() {
    let sel = Selector::LineNumbers(vec![
        LineSpec::Single(5),
        LineSpec::Single(5),
        LineSpec::Single(5),
    ]);
    let normalized = sel.normalize();
    assert_eq!(normalized, Selector::LineNumbers(vec![LineSpec::Single(5)]));
}

#[test]
fn normalize_empty_selector() {
    let sel = Selector::LineNumbers(vec![]);
    let normalized = sel.normalize();
    assert_eq!(normalized, Selector::LineNumbers(vec![]));
}

// Own checks.

#[test]
fn normalize_is_idempotent_on_example() {
    let sel = Selector::LineNumbers(vec![
        LineSpec::Range(7, 9),
        LineSpec::Single(3),
        LineSpec::Range(1, 2),
        LineSpec::Single(11),
    ]);
    let once = sel.normalize();
    assert_eq!(
        once,
        Selector::LineNumbers(vec![LineSpec::Range(1, 3), LineSpec::Range(7, 9), LineSpec::Single(11)])
    );
    assert_eq!(once.normalize(), once);
}

#[test]
fn normalize_sorts_and_dedups_positions() {
    let sel = Selector::Positions(vec![
        Position::new(9, 3),
        Position::new(5, 20),
        Position::new(5, 10),
        Position::new(9, 3),
    ]);
    assert_eq!(
        sel.normalize(),
        Selector::Positions(vec![Position::new(5, 10), Position::new(5, 20), Position::new(9, 3)])
    );
}

#[test]
fn parse_errors_carry_invalid_selector() {
    match Selector::parse("abc") {
        Err(sel::SelError::InvalidSelector(_)) => {}
        other => panic!("expected InvalidSelector, got {other:?}"),
    }
    match Selector::parse("3:0") {
        Err(sel::SelError::InvalidSelector(_)) => {}
        other => panic!("expected InvalidSelector, got {other:?}"),
    }
}

#[test]
fn line_spec_and_position_parse() {
    assert_eq!(LineSpec::parse("7").unwrap(), LineSpec::Single(7));
    assert!(LineSpec::parse("+7").is_err());
    assert!(LineSpec::parse("07").is_err());
    assert!(LineSpec::parse("0").is_err());
    assert!(Position::parse("02:3").is_err());
    assert!(Selector::parse("+5").is_err());
    assert!(Selector::parse("1-05").is_err());
    assert_eq!(LineSpec::parse("3-4").unwrap(), LineSpec::Range(3, 4));
    assert_eq!(LineSpec::Range(3, 4).start(), 3);
    assert!(LineSpec::parse("4-3").is_err());
    assert_eq!(Position::parse("2:9").unwrap(), Position::new(2, 9));
    assert!(Position::parse("2:").is_err());
    assert!(Selector::parse("1:2").unwrap().is_positional());
    assert!(!Selector::parse("1-2").unwrap().is_positional());
}
