use sel::reader::{merge_context_ranges, ContextBuffer, ContextRange, LineReader};

#[test]
fn test_line_reader() {
    let data = b"line1\nline2\nline3";
    let mut reader = LineReader::new(&data[..]);

    assert_eq!(reader.read_line().unwrap(), Some((1, "line1".to_string())));
    assert_eq!(reader.read_line().unwrap(), Some((2, "line2".to_string())));
    assert_eq!(reader.read_line().unwrap(), Some((3, "line3".to_string())));
    assert_eq!(reader.read_line().unwrap(), None);
}

#[test]
fn test_context_buffer() {
    let mut buf = ContextBuffer::new(3);

    buf.push(1, "a".to_string());
    buf.push(2, "b".to_string());
    buf.push(3, "c".to_string());

    let lines = buf.get_lines();
    assert_eq!(lines.len(), 3);
    assert_eq!(lines[0].0, 1);
    assert_eq!(lines[1].0, 2);
    assert_eq!(lines[2].0, 3);
}

#[test]
fn test_context_buffer_wraparound() {
    let mut buf = ContextBuffer::new(2);

    buf.push(1, "a".to_string());
    buf.push(2, "b".to_string());
    buf.push(3, "c".to_string());

    let lines = buf.get_lines();
    assert_eq!(lines.len(), 2);
    assert_eq!(lines[0].0, 2);
    assert_eq!(lines[1].0, 3);
}

#[test]
fn test_context_buffer_drain() {
    let mut buf = ContextBuffer::new(3);

    buf.push(1, "a".to_string());
    buf.push(2, "b".to_string());

    let lines = buf.drain();
    assert_eq!(lines.len(), 2);
    assert_eq!(buf.len(), 0);
    assert!(buf.is_empty());
}

#[test]
fn test_context_range_around() {
    let range = ContextRange::around(5, 2);
    assert_eq!(range.start, 3);
    assert_eq!(range.end, 7);
}

#[test]
fn test_context_range_near_start() {
    let range = ContextRange::around(2, 3);
    assert_eq!(range.start, 0);
    assert_eq!(range.end, 5);
}

#[test]
fn test_context_range_overlaps() {
    let r1 = ContextRange::new(1, 5);
    let r2 = ContextRange::new(3, 8);

    assert!(r1.overlaps(&r2));
    assert!(r2.overlaps(&r1));
}

#[test]
fn test_context_range_adjacent() {
    let r1 = ContextRange::new(1, 5);
    let r2 = ContextRange::new(6, 10);

    assert!(r1.overlaps(&r2));
}

#[test]
fn test_context_range_no_overlap() {
    let r1 = ContextRange::new(1, 5);
    let r2 = ContextRange::new(7, 10);

    assert!(!r1.overlaps(&r2));
}

#[test]
fn test_merge_context_ranges() {
    let ranges = vec![
        ContextRange::new(1, 3),
        ContextRange::new(5, 7),
        ContextRange::new(6, 9),
    ];

    let merged = merge_context_ranges(ranges);
    assert_eq!(merged.len(), 2);
    assert_eq!(merged[0], ContextRange::new(1, 3));
    assert_eq!(merged[1], ContextRange::new(5, 9));
}

#[test]
fn test_merge_context_ranges_all_overlapping() {
    let ranges = vec![
        ContextRange::new(1, 5),
        ContextRange::new(3, 7),
        ContextRange::new(6, 10),
    ];

    let merged = merge_context_ranges(ranges);
    assert_eq!(merged.len(), 1);
    assert_eq!(merged[0], ContextRange::new(1, 10));
}

// Own checks.

#[test]
fn line_reader_strips_crlf_and_keeps_empty_lines() {
    let mut reader = LineReader::new(b"a\r\n\nb\r\r\n");
    assert_eq!(reader.read_line().unwrap(), Some((1, "a".to_string())));
    assert_eq!(reader.read_line().unwrap(), Some((2, String::new())));
    assert_eq!(reader.read_line().unwrap(), Some((3, "b".to_string())));
    assert_eq!(reader.read_line().unwrap(), None);
    assert_eq!(reader.current_line(), 3);
    reader.reset_line_counter();
    assert_eq!(reader.current_line(), 0);
}

#[test]
fn line_reader_rejects_invalid_utf8() {
    let mut reader = LineReader::new(&[0x61, 0xff, 0x0a, 0x62]);
    match reader.read_line() {
        Err(sel::SelError::Io { path, .. }) => assert_eq!(path, "<unknown>"),
        other => panic!("expected an I/O error, got {other:?}"),
    }
    assert_eq!(reader.current_line(), 0);
    assert_eq!(reader.read_line().unwrap(), Some((1, "b".to_string())));
}

#[test]
fn context_buffer_keeps_last_lines_in_order() {
    let mut buf = ContextBuffer::new(3);
    for i in 1..=7usize {
        buf.push(i, format!("l{i}"));
    }
    let lines = buf.get_lines();
    assert_eq!(
        lines,
        vec![(5, "l5".to_string()), (6, "l6".to_string()), (7, "l7".to_string())]
    );
    buf.clear();
    assert!(buf.is_empty());
    let mut none = ContextBuffer::new(0);
    none.push(1, "x".to_string());
    assert!(none.get_lines().is_empty());
}

#[test]
fn merged_context_ranges_cover_the_same_lines() {
    let ranges = vec![
        ContextRange::new(20, 22),
        ContextRange::new(1, 2),
        ContextRange::new(3, 4),
        ContextRange::new(10, 12),
        ContextRange::new(11, 11),
    ];
    let merged = merge_context_ranges(ranges);
    assert_eq!(
        merged,
        vec![ContextRange::new(1, 4), ContextRange::new(10, 12), ContextRange::new(20, 22)]
    );
    assert!(merge_context_ranges(Vec::new()).is_empty());
    let mut r = ContextRange::new(4, 6);
    r.merge(&ContextRange::new(2, 5));
    assert_eq!(r, ContextRange::new(2, 6));
    assert_eq!(ContextRange::around(usize::MAX - 1, 5).end, usize::MAX);
}

#[test]
fn strip_newline_removes_one_line_ending() {
    let mut a = b"x\r\n".to_vec();
    sel::reader::strip_newline(&mut a);
    assert_eq!(a, b"x".to_vec());
    let mut b = b"x\r\r\n".to_vec();
    sel::reader::strip_newline(&mut b);
    assert_eq!(b, b"x\r".to_vec());
    let mut c = b"x\r".to_vec();
    sel::reader::strip_newline(&mut c);
    assert_eq!(c, b"x\r".to_vec());
    let mut d = b"\n\n".to_vec();
    sel::reader::strip_newline(&mut d);
    assert_eq!(d, b"\n".to_vec());
}
