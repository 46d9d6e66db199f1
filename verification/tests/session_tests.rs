use spreadsheet::info::CommandInfo;
use spreadsheet::parser::{parse, ParserContext};
use spreadsheet::session::Session;
use spreadsheet::status::StatusCode;

fn run(s: &mut Session, ctx: &mut ParserContext, line: &str) -> StatusCode {
    let n = s.graph.sheet.n;
    let m = s.graph.sheet.m;
    match parse(line, ctx, n, m) {
        Ok(cmd) => s.execute(&cmd),
        Err(_) => StatusCode::InvalidCmd,
    }
}

#[test]
fn test_assign_undo_redo() {
    let mut s = Session::new(5, 5);
    let mut ctx = ParserContext::new();
    assert_eq!(run(&mut s, &mut ctx, "A1=5"), StatusCode::Success);
    assert_eq!(run(&mut s, &mut ctx, "B1=A1*2"), StatusCode::Success);
    assert_eq!(s.graph.sheet.data[1].value, 10);
    assert_eq!(run(&mut s, &mut ctx, "A1=7"), StatusCode::Success);
    assert_eq!(s.graph.sheet.data[1].value, 14);

    assert_eq!(run(&mut s, &mut ctx, "undo"), StatusCode::Success);
    assert_eq!(s.graph.sheet.data[0].value, 5);
    assert_eq!(s.graph.sheet.data[1].value, 10);

    assert_eq!(run(&mut s, &mut ctx, "redo"), StatusCode::Success);
    assert_eq!(s.graph.sheet.data[0].value, 7);
    assert_eq!(s.graph.sheet.data[1].value, 14);
    assert_eq!(run(&mut s, &mut ctx, "redo"), StatusCode::NothingToRedo);
}

#[test]
fn test_nothing_to_undo() {
    let mut s = Session::new(2, 2);
    let cmd = CommandInfo { lhs_cell: -2, ..CommandInfo::default() };
    assert_eq!(s.execute(&cmd), StatusCode::NothingToUndo);
}

#[test]
fn test_cycle_keeps_history() {
    let mut s = Session::new(3, 3);
    let mut ctx = ParserContext::new();
    assert_eq!(run(&mut s, &mut ctx, "A1=B1"), StatusCode::Success);
    assert_eq!(run(&mut s, &mut ctx, "B1=A1"), StatusCode::CyclicDep);
    assert_eq!(s.undo_stack.len(), 1);
    assert_eq!(run(&mut s, &mut ctx, "undo"), StatusCode::Success);
    assert_eq!(s.undo_stack.len(), 0);
    assert_eq!(s.redo_stack.len(), 1);
}

#[test]
fn test_new_command_clears_redo() {
    let mut s = Session::new(3, 3);
    let mut ctx = ParserContext::new();
    run(&mut s, &mut ctx, "A1=1");
    run(&mut s, &mut ctx, "undo");
    assert_eq!(s.redo_stack.len(), 1);
    run(&mut s, &mut ctx, "B1=2");
    assert_eq!(s.redo_stack.len(), 0);
}

/// Each cell's value is what its formula gives on the other cells.
fn agrees(s: &Session) -> bool {
    let d = &s.graph.sheet.data;
    let m = s.graph.sheet.m;
    (0..d.len()).all(|c| {
        let mut cell = d[c];
        let before = cell;
        spreadsheet::formulas::apply_function(&mut cell, &s.graph.sheet);
        cell.value == before.value && cell.info.invalid == before.info.invalid
    }) && m > 0
}

#[test]
fn test_sheet_always_agrees_with_formulas() {
    let mut s = Session::new(4, 4);
    let mut ctx = ParserContext::new();
    for line in [
        "A1=3", "A2=A1+4", "B1=SUM(A1:A2)", "B2=MAX(A1:B1)", "C1=B2/0", "C2=C1+1", "A1=-5", "B1=A2",
        "undo", "undo", "redo", "A2=B2", "D4=AVG(A1:C3)",
    ] {
        run(&mut s, &mut ctx, line);
        assert!(agrees(&s), "after {line}");
    }
}

#[test]
fn test_undo_right_after_assignment_restores_cell() {
    let mut s = Session::new(3, 3);
    let mut ctx = ParserContext::new();
    run(&mut s, &mut ctx, "A1=2");
    run(&mut s, &mut ctx, "B1=A1+1");
    let before = s.graph.sheet.data[1];
    let undo_before = s.undo_stack.len();
    assert_eq!(run(&mut s, &mut ctx, "B1=A1*10"), StatusCode::Success);
    assert_eq!(s.graph.sheet.data[1].value, 20);
    assert_eq!(run(&mut s, &mut ctx, "undo"), StatusCode::Success);
    let after = s.graph.sheet.data[1];
    assert_eq!(after.value, before.value);
    assert_eq!(after.info.function_id, before.info.function_id);
    assert_eq!(after.info.arg, before.info.arg);
    assert!(after.literal_mode);
    assert_eq!(s.undo_stack.len(), undo_before);
    assert_eq!(s.redo_stack.len(), 1);
    assert_eq!(run(&mut s, &mut ctx, "redo"), StatusCode::Success);
    assert_eq!(s.graph.sheet.data[1].value, 20);
    assert!(s.graph.sheet.data[1].literal_mode);
    assert_eq!(s.redo_stack.len(), 0);
}

#[test]
fn test_cycles_are_refused_and_change_nothing() {
    let mut s = Session::new(3, 3);
    let mut ctx = ParserContext::new();
    run(&mut s, &mut ctx, "A1=B1+1");
    run(&mut s, &mut ctx, "B1=C1");
    let before: Vec<i32> = s.graph.sheet.data.iter().map(|c| c.value).collect();
    assert_eq!(run(&mut s, &mut ctx, "C1=A1"), StatusCode::CyclicDep);
    assert_eq!(run(&mut s, &mut ctx, "C1=SUM(A1:A3)"), StatusCode::CyclicDep);
    assert_eq!(run(&mut s, &mut ctx, "A1=A1"), StatusCode::CyclicDep);
    let after: Vec<i32> = s.graph.sheet.data.iter().map(|c| c.value).collect();
    assert_eq!(before, after);
}
