use sel::{Line, MatchInfo, SelError};
use std::io;

#[test]
fn io_error_includes_path() {
    let err = SelError::Io {
        path: "nope.txt".into(),
        source: io::Error::new(io::ErrorKind::NotFound, "no such"),
    };
    let msg = err.message();
    assert!(msg.contains("nope.txt"), "got: {msg}");
}

#[test]
fn positional_with_stdin_has_clear_message() {
    let err = SelError::PositionalWithStdin;
    let msg = err.message();
    assert!(msg.contains("stdin"));
}

#[test]
fn output_exists_names_path() {
    let err = SelError::OutputExists("out.txt".to_string());
    let msg = err.message();
    assert!(msg.contains("out.txt"));
    assert!(msg.contains("--force"));
}

#[test]
fn line_as_str_lossy_handles_invalid_utf8() {
    let line = Line::new(1, vec![0xFF, b'a']);
    let s = line.as_str_lossy();
    assert!(s.ends_with('a'));
}

#[test]
fn match_info_default_is_miss() {
    let mi = MatchInfo::default();
    assert!(!mi.hit);
    assert!(mi.spans.is_empty());
    assert!(mi.col.is_none());
}

// Own checks.

#[test]
fn every_message_is_exact() {
    assert_eq!(SelError::InvalidSelector("x".into()).message(), "invalid selector: x");
    assert_eq!(SelError::InvalidRegex("y".into()).message(), "invalid regex: y");
    assert_eq!(
        SelError::PositionalWithStdin.message(),
        "positional selectors require a seekable file; stdin is line-only"
    );
    assert_eq!(
        SelError::CharContextWithoutTarget.message(),
        "--char-context requires --regex or a positional selector"
    );
    assert_eq!(
        SelError::OutputExists("o".into()).message(),
        "output file already exists: o (use --force to overwrite)"
    );
    let io = SelError::Io {
        path: "p".into(),
        source: io::Error::new(io::ErrorKind::Other, "boom"),
    };
    assert_eq!(io.message(), "p: boom");
}

#[test]
fn unknown_path_io_error() {
    match SelError::from(io::Error::new(io::ErrorKind::Other, "e")) {
        SelError::Io { path, source } => {
            assert_eq!(path, "<unknown>");
            assert_eq!(source.kind(), io::ErrorKind::Other);
        }
        other => panic!("unexpected {other:?}"),
    }
}

#[test]
fn lossy_line_text() {
    assert_eq!(Line::new(2, vec![0x68, 0xff, 0x69]).as_str_lossy(), "h\u{FFFD}i");
    assert_eq!(Line::new(2, b"ok".to_vec()).as_str_lossy(), "ok");
}
