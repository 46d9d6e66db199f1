use spreadsheet::parser::ParserContext;
use spreadsheet::sheet::{parse_dimensions, Sheet};
use spreadsheet::status::StatusCode;

#[test]
fn test_sheet_new() {
    let sheet = Sheet::new(5, 10);
    assert_eq!(sheet.data.len(), 50);
    assert_eq!(sheet.n, 5);
    assert_eq!(sheet.m, 10);
    assert_eq!(sheet.px, 0);
    assert_eq!(sheet.py, 0);
}

#[test]
fn test_set_position_valid() {
    let mut sheet = Sheet::new(5, 10);
    let res = sheet.set_position(3, 5);
    assert!(res.is_ok());
    assert_eq!(sheet.px, 3);
    assert_eq!(sheet.py, 5);
}

#[test]
fn test_set_position_invalid() {
    let mut sheet = Sheet::new(5, 10);
    let res = sheet.set_position(10, 5);
    assert!(res.is_err());
    assert_eq!(res.err().unwrap(), StatusCode::OutOfBounds);
}

#[test]
fn test_scroll() {
    let mut sheet = Sheet::new(10, 10);
    let res = sheet.scroll(2, 3);
    assert!(res.is_ok());
    assert_eq!(sheet.px, 2);
    assert_eq!(sheet.py, 3);
    let res2 = sheet.scroll(-1, -1);
    assert!(res2.is_ok());
    assert_eq!(sheet.px, 1);
    assert_eq!(sheet.py, 2);
}

#[test]
fn test_display() {
    let mut sheet = Sheet::new(15, 15);
    for i in 0..15 {
        for j in 0..15 {
            let idx = sheet.get_cell(i, j);
            sheet.data[idx].value = (i * 15 + j) as i32;
        }
    }
    let mut parser_ctx = ParserContext::new();
    parser_ctx.px = 2;
    parser_ctx.py = 3;
    let grid = sheet.display(&parser_ctx);
    assert_eq!(sheet.px, 2);
    assert_eq!(sheet.py, 3);
    assert_eq!(grid.columns.len(), 10);
    assert_eq!(grid.columns[0], "D");
    assert_eq!(grid.rows.len(), 10);
    assert_eq!(grid.rows[0].number, 3);
    assert_eq!(grid.rows[0].cells[0], Some((2 * 15 + 3) as i32));
}

#[test]
fn test_display_near_edge_and_errors() {
    let mut sheet = Sheet::new(3, 12);
    sheet.data[1 * 12 + 11].info.invalid = true;
    let mut ctx = ParserContext::new();
    ctx.px = 1;
    ctx.py = 8;
    let grid = sheet.display(&ctx);
    assert_eq!(grid.columns, vec!["I", "J", "K", "L"]);
    assert_eq!(grid.rows.len(), 2);
    assert_eq!(grid.rows[0].number, 2);
    assert_eq!(grid.rows[0].cells, vec![Some(0), Some(0), Some(0), None]);
}

#[test]
fn test_is_valid_cell() {
    let sheet = Sheet::new(5, 10);
    assert!(sheet.is_valid_cell(4, 9));
    assert!(!sheet.is_valid_cell(5, 9));
    assert!(!sheet.is_valid_cell(4, 10));
}

#[test]
fn test_is_valid_range() {
    let sheet = Sheet::new(5, 10);
    assert!(sheet.is_valid_range(5, 15));
    assert!(!sheet.is_valid_range(20, 15));
}

#[test]
fn test_get_row_and_get_column() {
    let sheet = Sheet::new(5, 10);
    assert_eq!(sheet.get_row(23), 2);
    assert_eq!(sheet.get_column(23), 3);
    let (row, col) = sheet.get_row_and_column(23);
    assert_eq!(row, 2);
    assert_eq!(col, 3);
}

#[test]
fn test_get_cell_and_set_get() {
    let mut sheet = Sheet::new(5, 10);
    let idx = sheet.get_cell(2, 3);
    let mut cell = sheet.get(idx);
    assert_eq!(cell.value, 0);
    cell.value = 777;
    sheet.set(idx, cell);
    let new_cell = sheet.get(idx);
    assert_eq!(new_cell.value, 777);
}

#[test]
fn test_parse_dimensions() {
    let dims = parse_dimensions("10", "15");
    assert!(dims.is_ok());
    let (n, m) = dims.unwrap();
    assert_eq!(n, 10);
    assert_eq!(m, 15);

    let dims_err = parse_dimensions("0", "15");
    assert!(dims_err.is_err());
    assert_eq!(dims_err.err().unwrap(), "Invalid number of rows");

    let dims_err2 = parse_dimensions("10", "0");
    assert!(dims_err2.is_err());
    assert_eq!(dims_err2.err().unwrap(), "Invalid number of columns");
}

#[test]
fn test_parse_dimensions_limits() {
    assert_eq!(parse_dimensions("1000", "18278"), Ok((1000, 18278)));
    assert_eq!(parse_dimensions("1001", "1"), Err("Invalid number of rows"));
    assert_eq!(parse_dimensions("1", "18279"), Err("Invalid number of columns"));
    assert_eq!(parse_dimensions("+7", "x"), Err("Invalid number of columns"));
}
