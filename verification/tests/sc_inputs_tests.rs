use spreadsheet::sc_inputs::{initial_line, sc_line, separate_parts};

#[test]
fn test_sc_line_marks_range_function() {
    assert_eq!(sc_line("A1=SUM(B1:B3)").as_deref(), Some("let A1=@FLOOR(@SUM(B1:B3)))"));
}

#[test]
fn test_sc_line_needs_equals() {
    assert_eq!(sc_line("no assignment here"), None);
    assert_eq!(sc_line(""), None);
}

#[test]
fn test_sc_line_trims_left_side_and_marks_each_function_once() {
    assert_eq!(
        sc_line(" B2 = MAX(A1:A2)+MIN(A1:A2)").as_deref(),
        Some("let B2=@FLOOR( @MAX(A1:A2)+@MIN(A1:A2)))")
    );
    assert_eq!(
        sc_line("A1=SUM(A2:A3)+SUM(A4:A5)").as_deref(),
        Some("let A1=@FLOOR(@SUM(A2:A3)+SUM(A4:A5)))")
    );
}

#[test]
fn test_sc_line_keeps_one_line_break() {
    assert_eq!(sc_line("C1=5\n\n").as_deref(), Some("let C1=@FLOOR(5))\n"));
    assert_eq!(sc_line("C1=A=B").as_deref(), Some("let C1=@FLOOR(A=B))"));
}

#[test]
fn test_initial_line_names_cell() {
    assert_eq!(initial_line(0, 3), "let A1=@FLOOR(0)");
    assert_eq!(initial_line(4, 3), "let B2=@FLOOR(0)");
    assert_eq!(initial_line(27, 28), "let AB1=@FLOOR(0)");
}

#[test]
fn test_separate_parts_splits_letters_and_number() {
    let mut letters = String::new();
    assert_eq!(separate_parts("AB12", &mut letters), 12);
    assert_eq!(letters, "AB");
    let mut letters = String::from("x");
    assert_eq!(separate_parts("A1B2", &mut letters), 12);
    assert_eq!(letters, "xAB");
    let mut letters = String::new();
    assert_eq!(separate_parts("XYZ", &mut letters), 0);
    assert_eq!(letters, "XYZ");
    let mut letters = String::new();
    assert_eq!(separate_parts("C99999999999", &mut letters), 0);
    assert_eq!(letters, "C");
}
