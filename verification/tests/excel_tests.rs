use spreadsheet::excel::{parse_excel_style, Operation};

#[test]
fn test_set_value() {
    assert_eq!(parse_excel_style("A1 = 42"), Ok(Operation::SetValue(0, 0, 42)));
    assert_eq!(parse_excel_style("  b3=-7  "), Ok(Operation::SetValue(2, 1, -7)));
    assert_eq!(parse_excel_style("AA10 = 1"), Ok(Operation::SetValue(9, 26, 1)));
}

#[test]
fn test_set_reference() {
    assert_eq!(parse_excel_style("B2 = A1"), Ok(Operation::SetFormula(1, 1, 0, 0, 0)));
    assert_eq!(parse_excel_style("A1 = c2"), Ok(Operation::SetFormula(0, 0, 0, 12, 0)));
}

#[test]
fn test_constants_are_worked_out() {
    assert_eq!(parse_excel_style("A1 = 2 * 3"), Ok(Operation::SetValue(0, 0, 6)));
    assert_eq!(parse_excel_style("A1 = -3 + 5"), Ok(Operation::SetValue(0, 0, 2)));
    assert_eq!(parse_excel_style("A1 = 3-5"), Ok(Operation::SetValue(0, 0, -2)));
    assert_eq!(parse_excel_style("A1 = 7 / 2"), Ok(Operation::SetValue(0, 0, 3)));
    // the minus sign counts as the operator, leaving no first operand
    assert_eq!(parse_excel_style("A1 = -7 / 2"), Err("Empty cell reference"));
    assert_eq!(parse_excel_style("A1 = 9 / -2"), Err("Invalid cell reference — missing row number"));
    assert_eq!(parse_excel_style("A1 = 4 / 0"), Err("Division by zero"));
}

#[test]
fn test_formulas_with_cells() {
    assert_eq!(parse_excel_style("C3 = A1 + 5"), Ok(Operation::SetFormula(2, 2, 1, 0, 5)));
    assert_eq!(parse_excel_style("C3 = A1 - B1"), Ok(Operation::SetFormula(2, 2, 2, 0, 1)));
    assert_eq!(parse_excel_style("C3 = 2 * B2"), Ok(Operation::SetFormula(2, 2, 3, 2, 11)));
    assert_eq!(parse_excel_style("C3 = B2 / A2"), Ok(Operation::SetFormula(2, 2, 4, 11, 10)));
}

#[test]
fn test_operator_errors() {
    assert_eq!(parse_excel_style("A1 = 3 + 4 + 5"), Err("Invalid arithmetic formula format"));
    assert_eq!(parse_excel_style("A1 = foo"), Err("Unsupported formula format"));
    assert_eq!(parse_excel_style("A1 = B + 1"), Err("Invalid cell reference — missing row number"));
    assert_eq!(parse_excel_style("A1 = -1 * B1"), Err("Empty cell reference"));
}

#[test]
fn test_cell_name_errors() {
    assert_eq!(parse_excel_style("= 5"), Err("Empty cell reference"));
    assert_eq!(parse_excel_style("1A = 3"), Err("Invalid cell reference — missing row number"));
    assert_eq!(parse_excel_style("Ax = 3"), Err("Invalid cell reference — missing row number"));
    assert_eq!(parse_excel_style("A#1 = 3"), Err("Invalid character in cell reference"));
    assert_eq!(parse_excel_style("A1x = 3"), Err("Invalid row number"));
}

#[test]
fn test_print_and_exit() {
    assert_eq!(parse_excel_style("print"), Ok(Operation::PrintSheet));
    assert_eq!(parse_excel_style("PRINT b2"), Ok(Operation::PrintCell(1, 1)));
    assert_eq!(parse_excel_style("print   c1  "), Ok(Operation::PrintCell(0, 2)));
    assert_eq!(parse_excel_style("print a1 b2"), Err("Invalid print format"));
    assert_eq!(parse_excel_style("print 1"), Err("Invalid cell reference — missing row number"));
    assert_eq!(parse_excel_style("exit"), Ok(Operation::Exit));
    assert_eq!(parse_excel_style("  ExIt "), Ok(Operation::Exit));
    assert_eq!(parse_excel_style("hello"), Err("Unrecognized input format"));
    assert_eq!(parse_excel_style(""), Err("Unrecognized input format"));
}
