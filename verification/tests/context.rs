use sel::context::{EmitOwned, Expander, LineContext, NoContext};
use sel::{Line, MatchInfo, Role};

fn hit(n: u64) -> (Line, MatchInfo) {
    (
        Line::new(n, format!("line{n}").into_bytes()),
        MatchInfo {
            hit: true,
            ..Default::default()
        },
    )
}

fn miss(n: u64) -> (Line, MatchInfo) {
    (Line::new(n, format!("line{n}").into_bytes()), MatchInfo::default())
}

fn collect<E: Expander>(mut e: E, inputs: Vec<(Line, MatchInfo)>) -> Vec<(u64, Role)> {
    let mut out: Vec<(u64, Role)> = Vec::new();
    for (l, i) in inputs {
        for emit in e.push(l, i) {
            out.push((emit.line.no, emit.role));
        }
    }
    for emit in e.drain() {
        out.push((emit.line.no, emit.role));
    }
    out
}

#[test]
fn no_context_emits_only_hits() {
    let out = collect(NoContext, vec![miss(1), hit(2), miss(3), hit(4)]);
    assert_eq!(out, vec![(2, Role::Target), (4, Role::Target)]);
}

#[test]
fn line_context_emits_around_hit() {
    let out = collect(
        LineContext::new(1),
        vec![miss(1), miss(2), hit(3), miss(4), miss(5)],
    );
    assert_eq!(out, vec![(2, Role::Context), (3, Role::Target), (4, Role::Context),]);
}

#[test]
fn overlapping_contexts_do_not_duplicate() {
    let out = collect(LineContext::new(1), vec![miss(1), hit(2), hit(3), miss(4)]);
    assert_eq!(
        out,
        vec![
            (1, Role::Context),
            (2, Role::Target),
            (3, Role::Target),
            (4, Role::Context),
        ]
    );
}

// Own checks.

#[test]
fn context_window_of_two_merges_nearby_hits() {
    // Lines within 2 of a hit: 1..=6 around hits 3 and 4, then 9..=11 around 11.
    let mut inputs = Vec::new();
    for n in 1..=12u64 {
        if n == 3 || n == 4 || n == 11 {
            inputs.push(hit(n));
        } else {
            inputs.push(miss(n));
        }
    }
    let out = collect(LineContext::new(2), inputs);
    let expected: Vec<(u64, Role)> = vec![
        (1, Role::Context),
        (2, Role::Context),
        (3, Role::Target),
        (4, Role::Target),
        (5, Role::Context),
        (6, Role::Context),
        (9, Role::Context),
        (10, Role::Context),
        (11, Role::Target),
        (12, Role::Context),
    ];
    assert_eq!(out, expected);
}

#[test]
fn zero_width_context_is_hits_only() {
    let out = collect(LineContext::new(0), vec![miss(1), hit(2), miss(3)]);
    assert_eq!(out, vec![(2, Role::Target)]);
}

#[test]
fn emitted_lines_keep_their_bytes_and_info() {
    let mut e = LineContext::new(1);
    assert!(e.push(miss(1).0, miss(1).1).is_empty());
    let out: Vec<EmitOwned> = e.push(hit(2).0, hit(2).1);
    assert_eq!(out.len(), 2);
    assert_eq!(out[0].line.bytes, b"line1".to_vec());
    assert!(!out[0].match_info.hit);
    assert_eq!(out[1].line.bytes, b"line2".to_vec());
    assert!(out[1].match_info.hit);
    let b = out[1].borrow();
    assert_eq!(b.line.no, 2);
    assert_eq!(b.role, Role::Target);
}

#[test]
fn repeated_line_numbers_are_emitted_once() {
    let out = collect(LineContext::new(1), vec![hit(2), hit(2), miss(2)]);
    assert_eq!(out, vec![(2, Role::Target)]);
}
