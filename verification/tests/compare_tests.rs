use spreadsheet::compare::{compare, split_lines, CompareReport, DiffKind};

fn compare_contents(a: &[u8], b: &[u8]) -> CompareReport {
    compare(&a.to_vec(), &b.to_vec())
}

fn text(v: &[char]) -> String {
    v.iter().collect()
}

#[test]
fn test_identical_files() {
    let result = compare_contents(b"Hello World\nLine 2\n", b"Hello World\nLine 2\n");
    assert_eq!(result.diffs, 0);
}

#[test]
fn test_extra_lines_in_first_file() {
    let result = compare_contents(b"Line 1\nLine 2\nLine 3\n", b"Line 1\nLine 2\n");
    assert_eq!(result.diffs, 1);
}

#[test]
fn test_long_lines_over_buffer() {
    let long_line = "a".repeat(25);
    let f1 = format!("{long_line}\n");
    let f2 = format!("{}b\n", &long_line[..24]);
    let result = compare_contents(f1.as_bytes(), f2.as_bytes());
    assert_eq!(result.diffs, 1);
}

#[test]
fn test_empty_files() {
    let result = compare_contents(b"", b"");
    assert_eq!(result.diffs, 0);
}

#[test]
fn test_one_empty_file() {
    let result = compare_contents(b"", b"Content\n");
    assert_eq!(result.diffs, 1);
}

#[test]
fn test_one_line_differs() {
    let result = compare_contents(b"a\nb\n", b"a\nc\n");
    assert_eq!(result.diffs, 1);
    assert_eq!(result.lines[0].line, 2);
    assert_eq!(result.lines[0].kind, DiffKind::Mismatch);
    assert_eq!(text(&result.lines[0].first), "b");
    assert_eq!(text(&result.lines[0].second), "c");
}

#[test]
fn test_newline_moved_within_lines() {
    // "Line1" against "Line1Line2", then a second line only the first file has
    let result = compare_contents(b"Line1\nLine2", b"Line1Line2\n");
    assert_eq!(result.diffs, 2);
    assert_eq!(result.lines[0].kind, DiffKind::Mismatch);
    assert_eq!(result.lines[1].kind, DiffKind::ExtraInFirst);
    assert_eq!(text(&result.lines[1].first), "Line2");
}

#[test]
fn test_split_lines() {
    let lines = split_lines(&b"a\n\nbc\nd".to_vec());
    assert_eq!(lines, vec![b"a".to_vec(), b"".to_vec(), b"bc".to_vec(), b"d".to_vec()]);
    let lines = split_lines(&b"a\n".to_vec());
    assert_eq!(lines, vec![b"a".to_vec()]);
    assert!(split_lines(&Vec::new()).is_empty());
    assert_eq!(split_lines(&b"\n".to_vec()), vec![Vec::<u8>::new()]);
}

#[test]
fn test_report_lines_of_each_kind() {
    let result = compare_contents(b"same\nold\nonly first\n", b"same\nnew\n");
    assert_eq!(result.diffs, 2);
    assert_eq!(result.lines[0].line, 2);
    assert_eq!(result.lines[0].kind, DiffKind::Mismatch);
    assert_eq!(text(&result.lines[0].first), "old");
    assert_eq!(text(&result.lines[0].second), "new");
    assert_eq!(result.lines[1].line, 3);
    assert_eq!(result.lines[1].kind, DiffKind::ExtraInFirst);
    assert_eq!(text(&result.lines[1].first), "only first");
    assert_eq!(text(&result.lines[1].second), "");

    let result = compare_contents(b"abc\n", b"abd\n");
    assert_eq!(result.diffs, 1);
    assert_eq!(result.lines[0].kind, DiffKind::Mismatch);
    assert_eq!(text(&result.lines[0].first), "abc");
    assert_eq!(text(&result.lines[0].second), "abd");

    // a long line is one line, however long
    let result = compare_contents(b"x\ny\n", &[b'x'; 40]);
    assert_eq!(result.diffs, 2);
    assert_eq!(result.lines[0].kind, DiffKind::Mismatch);
    assert_eq!(text(&result.lines[0].second).len(), 40);
    assert_eq!(result.lines[1].kind, DiffKind::ExtraInFirst);
    assert_eq!(result.lines[1].line, 2);
    assert_eq!(text(&result.lines[1].first), "y");
}

#[test]
fn test_invalid_utf8_is_replaced() {
    let result = compare_contents(&[0xff, b'\n'], &[0xfe, b'\n']);
    // both decode to the replacement character, so they compare equal
    assert_eq!(result.diffs, 0);
}

#[test]
fn test_compare_self_and_swapped() {
    let a: &[u8] = b"first line\nsecond\nthird line that runs long\n";
    let b: &[u8] = b"first line\n2nd\n";
    assert_eq!(compare_contents(a, a).diffs, 0);
    assert_eq!(compare_contents(a, b).diffs, compare_contents(b, a).diffs);
    assert!(compare_contents(a, b).diffs > 0);
}
