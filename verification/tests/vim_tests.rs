use spreadsheet::sheet::Sheet;
use spreadsheet::status::StatusCode;
use spreadsheet::vim::{ExprError, Key, KeyInput, TextColor, VimAction, VimEditor, VimMode};

fn editor(n: usize, m: usize) -> VimEditor {
    VimEditor::new(Sheet::new(n, m))
}

fn press(e: &mut VimEditor, key: Key) -> VimAction {
    e.handle_key_event(KeyInput { key, plain: true })
}

fn type_text(e: &mut VimEditor, s: &str) {
    for c in s.chars() {
        press(e, Key::Char(c));
    }
}

fn enter_cell(e: &mut VimEditor, expr: &str) {
    press(e, Key::Char('i'));
    type_text(e, expr);
    press(e, Key::Enter);
}

fn command(e: &mut VimEditor, cmd: &str) -> VimAction {
    press(e, Key::Char(':'));
    type_text(e, cmd);
    press(e, Key::Enter)
}

fn value(e: &VimEditor, r: usize, c: usize) -> i32 {
    e.sheet.data[r * e.sheet.m + c].value
}

fn error_text(e: &VimEditor) -> Option<String> {
    e.error_message.as_ref().map(|v| v.iter().collect())
}

#[test]
fn test_vim_new_editor() {
    let e = editor(3, 4);
    assert_eq!(e.mode, VimMode::Normal);
    assert_eq!((e.cursor_x, e.cursor_y), (0, 0));
    assert_eq!(e.cell_formats.len(), 12);
    assert_eq!((e.display_rows, e.display_cols, e.col_width), (20, 20, 10));
    assert_eq!(e.last_status, StatusCode::Success);
}

#[test]
fn test_vim_insert_evaluates_expression() {
    let mut e = editor(5, 5);
    enter_cell(&mut e, "5+3");
    assert_eq!(value(&e, 0, 0), 8);
    assert_eq!(e.mode, VimMode::Normal);
    assert!(e.current_input.is_empty());
    let stored: String = e.expression_at(0).unwrap().iter().collect();
    assert_eq!(stored, "5+3");
}

#[test]
fn test_vim_dependent_cells_follow() {
    let mut e = editor(5, 5);
    enter_cell(&mut e, "4");
    press(&mut e, Key::Right);
    enter_cell(&mut e, "A1*2");
    assert_eq!(value(&e, 0, 1), 8);
    press(&mut e, Key::Down);
    enter_cell(&mut e, "B1-1");
    assert_eq!(value(&e, 1, 1), 7);
    press(&mut e, Key::Up);
    press(&mut e, Key::Left);
    enter_cell(&mut e, "10");
    assert_eq!(value(&e, 0, 0), 10);
    assert_eq!(value(&e, 0, 1), 20);
    assert_eq!(value(&e, 1, 1), 19);
}

#[test]
fn test_vim_cycle_stops() {
    let mut e = editor(2, 2);
    enter_cell(&mut e, "B1+1");
    press(&mut e, Key::Char('l'));
    enter_cell(&mut e, "A1+1");
    assert_eq!(value(&e, 0, 0), 3);
    assert_eq!(value(&e, 0, 1), 4);
}

#[test]
fn test_vim_invalid_expression_message() {
    let mut e = editor(3, 3);
    enter_cell(&mut e, "A1+");
    assert_eq!(error_text(&e).as_deref(), Some("Invalid expression: A1+"));
    assert_eq!(value(&e, 0, 0), 0);
    assert!(e.expression_at(0).is_none());
    e.clear_error();
    assert!(e.error_message.is_none());
    enter_cell(&mut e, "5/0");
    assert_eq!(error_text(&e).as_deref(), Some("Invalid expression: 5/0"));
}

#[test]
fn test_vim_insert_filters_characters() {
    let mut e = editor(3, 3);
    press(&mut e, Key::Char('i'));
    type_text(&mut e, "1=2 +x");
    let typed: String = e.current_input.iter().collect();
    assert_eq!(typed, "12+x");
    press(&mut e, Key::Backspace);
    let typed: String = e.current_input.iter().collect();
    assert_eq!(typed, "12+");
    press(&mut e, Key::Esc);
    assert_eq!(e.mode, VimMode::Normal);
    assert!(e.current_input.is_empty());
}

#[test]
fn test_vim_movement_stays_on_sheet() {
    let mut e = editor(2, 2);
    press(&mut e, Key::Char('h'));
    press(&mut e, Key::Char('k'));
    assert_eq!((e.cursor_x, e.cursor_y), (0, 0));
    press(&mut e, Key::Char('l'));
    press(&mut e, Key::Char('l'));
    press(&mut e, Key::Char('j'));
    press(&mut e, Key::Char('j'));
    assert_eq!((e.cursor_x, e.cursor_y), (1, 1));
}

#[test]
fn test_vim_quit_keys() {
    let mut e = editor(2, 2);
    assert_eq!(e.handle_key_event(KeyInput { key: Key::Char('q'), plain: false }), VimAction::Stay);
    assert_eq!(press(&mut e, Key::Char('q')), VimAction::Leave);
    assert_eq!(command(&mut e, "quit"), VimAction::Exit);
}

#[test]
fn test_vim_goto_command() {
    let mut e = editor(10, 10);
    assert_eq!(command(&mut e, "goto C4"), VimAction::Stay);
    assert_eq!((e.cursor_x, e.cursor_y), (2, 3));
    assert_eq!((e.start_col, e.start_row), (2, 3));
    assert_eq!(e.last_status, StatusCode::Success);
    command(&mut e, "goto Z99");
    assert_eq!(e.last_status, StatusCode::InvalidCell);
    assert_eq!((e.cursor_x, e.cursor_y), (2, 3));
    command(&mut e, "goto A0");
    assert_eq!(e.last_status, StatusCode::InvalidCell);
}

#[test]
fn test_vim_format_commands() {
    let mut e = editor(3, 3);
    command(&mut e, "b");
    command(&mut e, "u");
    assert!(e.cell_formats[0].bold && e.cell_formats[0].underline && !e.cell_formats[0].italic);
    command(&mut e, "color  Red");
    assert_eq!(e.cell_formats[0].color, Some(TextColor::Red));
    command(&mut e, "reset");
    assert!(!e.cell_formats[0].bold && e.cell_formats[0].color.is_none());
    command(&mut e, "color pink");
    assert_eq!(error_text(&e).as_deref(), Some("Invalid color: pink"));
    assert_eq!(e.last_status, StatusCode::InvalidCmd);
}

#[test]
fn test_vim_unknown_command() {
    let mut e = editor(3, 3);
    command(&mut e, "  foo ");
    assert_eq!(
        error_text(&e).as_deref(),
        Some("Invalid command: foo, type ':h' for list of commands.")
    );
    assert_eq!(e.mode, VimMode::Normal);
    command(&mut e, "w");
    assert_eq!(e.last_status, StatusCode::Success);
}

#[test]
fn test_vim_help_screen() {
    let mut e = editor(3, 3);
    command(&mut e, "help");
    assert_eq!(e.mode, VimMode::Help);
    press(&mut e, Key::Char('x'));
    assert_eq!(e.mode, VimMode::Help);
    press(&mut e, Key::Esc);
    assert_eq!(e.mode, VimMode::Normal);
}

#[test]
fn test_vim_screen_contents() {
    let mut e = editor(3, 25);
    enter_cell(&mut e, "7");
    press(&mut e, Key::Right);
    enter_cell(&mut e, "Y1");
    let s = e.screen();
    assert_eq!(s.columns.len(), 20);
    assert_eq!(s.columns[0], "A");
    assert_eq!(s.rows.len(), 3);
    assert_eq!(s.rows[0].number, 1);
    assert_eq!(s.rows[0].cells[0].value, Some(7));
    assert!(!s.rows[0].cells[0].cursor);
    assert!(s.rows[0].cells[1].cursor);
    let expr: String = s.cursor_expression.unwrap().iter().collect();
    assert_eq!(expr, "Y1");
    assert_eq!(s.rows[0].cells[1].value, Some(0));
}

#[test]
fn test_vim_expression_rules() {
    let mut e = editor(4, 4);
    enter_cell(&mut e, "6");
    let c = |s: &str| s.chars().collect::<Vec<char>>();
    assert_eq!(e.sheet.evaluate_expression(&c("A1")), Ok(6));
    assert_eq!(e.sheet.evaluate_expression(&c("A1-10")), Ok(-4));
    assert_eq!(e.sheet.evaluate_expression(&c("-7")), Ok(-7));
    assert_eq!(e.sheet.evaluate_expression(&c("2*A1")), Ok(12));
    assert_eq!(e.sheet.evaluate_expression(&c("A1/4")), Ok(1));
    assert_eq!(e.sheet.evaluate_expression(&c("9/0")), Err(ExprError::DivisionByZero));
    assert_eq!(e.sheet.evaluate_expression(&c("x/2")), Err(ExprError::InvalidColumn));
    assert_eq!(e.sheet.evaluate_expression(&c("E1")), Err(ExprError::OutOfBounds));
    assert_eq!(e.sheet.evaluate_expression(&c("A1+q")), Err(ExprError::InvalidColumn));
    assert_eq!(e.sheet.evaluate_expression(&c("1+B")), Err(ExprError::InvalidRow));
    assert_eq!(e.sheet.evaluate_expression(&c("abc")), Err(ExprError::InvalidFormat));
    assert_eq!(e.sheet.evaluate_expression(&c("2147483647+1")), Ok(i32::MIN));
    assert_eq!(e.sheet.parse_token(&c(" 42 ")), Ok(42));
    assert_eq!(e.sheet.parse_token(&c("A9")), Err(ExprError::InvalidReference));
    assert_eq!(e.sheet.parse_token(&c("A")), Err(ExprError::InvalidReferenceFormat));
    assert_eq!(e.sheet.parse_token(&c("4x")), Err(ExprError::InvalidNumber));
    assert_eq!(ExprError::DivisionByZero.message(), "Division by zero");
}

#[test]
fn test_editor_on_empty_sheet() {
    let e = editor(0, 0);
    assert_eq!(e.cursor_x, 0);
    assert_eq!(e.cursor_y, 0);
    assert!(e.cell_formats.is_empty());
    assert!(e.cell_expressions.is_empty());
    assert_eq!(e.mode, VimMode::Normal);
}
