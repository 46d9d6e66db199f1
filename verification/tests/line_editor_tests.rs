use spreadsheet::line_editor::{EditorAction, EditorKind, LineEditor};
use spreadsheet::vim::{Key, KeyInput};

fn editor(lines: &[&str]) -> LineEditor {
    LineEditor::new(lines.iter().map(|l| l.chars().collect()).collect())
}

fn key(e: &mut LineEditor, kind: EditorKind, k: Key) -> EditorAction {
    let input = KeyInput { key: k, plain: true };
    assert!(!e.would_panic(kind, input));
    e.handle_key(kind, input)
}

fn text(e: &LineEditor, y: usize) -> String {
    e.lines[y].iter().collect()
}

#[test]
fn test_plain_editing_keys() {
    let p = EditorKind::Plain;
    let mut e = editor(&["hello", "world"]);
    for _ in 0..3 {
        assert_eq!(key(&mut e, p, Key::Char('l')), EditorAction::Redraw);
    }
    assert_eq!(e.cursor_x, 3);
    key(&mut e, p, Key::Char('x'));
    assert_eq!(text(&e, 0), "helo");
    key(&mut e, p, Key::Char('i'));
    key(&mut e, p, Key::Char('Z'));
    assert_eq!(text(&e, 0), "helZo");
    assert_eq!(e.cursor_x, 4);
    key(&mut e, p, Key::Backspace);
    assert_eq!(text(&e, 0), "helo");
    assert_eq!(e.cursor_x, 3);
    key(&mut e, p, Key::Char('j'));
    assert_eq!(text(&e, 0), "heljo");
    key(&mut e, p, Key::Esc);
    key(&mut e, p, Key::Char('j'));
    assert_eq!(e.cursor_y, 1);
    key(&mut e, p, Key::Char('j'));
    assert_eq!(e.cursor_y, 1);
    key(&mut e, p, Key::Char('y'));
    key(&mut e, p, Key::Char('y'));
    key(&mut e, p, Key::Char('p'));
    assert_eq!(e.lines.len(), 3);
    assert_eq!(text(&e, 2), "world");
}

#[test]
fn test_copy_takes_yy() {
    let p = EditorKind::Plain;
    let mut e = editor(&["one", "two"]);
    // a single `y` copies nothing yet
    assert_eq!(key(&mut e, p, Key::Char('y')), EditorAction::Nothing);
    assert!(e.clipboard.is_none());
    assert!(e.yank_pending);
    // another key in between drops the first `y`
    key(&mut e, p, Key::Char('j'));
    assert!(!e.yank_pending);
    key(&mut e, p, Key::Char('y'));
    assert!(e.clipboard.is_none());
    assert_eq!(key(&mut e, p, Key::Char('y')), EditorAction::Redraw);
    let copied: String = e.clipboard.as_ref().unwrap().iter().collect();
    assert_eq!(copied, "two");
    assert!(!e.yank_pending);
}

#[test]
fn test_plain_select_and_view() {
    let p = EditorKind::Plain;
    let mut e = editor(&["hello", "world"]);
    key(&mut e, p, Key::Down);
    for _ in 0..3 {
        key(&mut e, p, Key::Right);
    }
    assert_eq!(key(&mut e, p, Key::Char(':')), EditorAction::Prompt);
    for c in "select or".chars() {
        assert_eq!(key(&mut e, p, Key::Char(c)), EditorAction::Nothing);
    }
    assert_eq!(key(&mut e, p, Key::Enter), EditorAction::Redraw);
    assert!(e.command.is_none());
    assert!(!e.line_draw_fails(1));
    let v = e.line_view(1);
    let pieces: Vec<(String, bool, bool)> =
        v.pieces.iter().map(|q| (q.text.iter().collect(), q.highlight, q.cursor)).collect();
    assert_eq!(
        pieces,
        vec![
            ("w".to_string(), false, false),
            ("or".to_string(), true, false),
            ("l".to_string(), false, true),
            ("d".to_string(), false, false),
        ]
    );
    assert!(!v.end_cursor);
    key(&mut e, p, Key::Right);
    key(&mut e, p, Key::Right);
    assert!(e.line_view(1).end_cursor);
}

#[test]
fn test_help_and_quit() {
    let p = EditorKind::Plain;
    let mut e = editor(&["a"]);
    key(&mut e, p, Key::Char(':'));
    key(&mut e, p, Key::Char('h'));
    assert_eq!(key(&mut e, p, Key::Enter), EditorAction::ShowHelp);
    assert!(e.help_mode);
    assert_eq!(key(&mut e, p, Key::Char('x')), EditorAction::Nothing);
    assert_eq!(key(&mut e, p, Key::Esc), EditorAction::Redraw);
    assert!(!e.help_mode);
    let shifted = KeyInput { key: Key::Char('q'), plain: false };
    assert_eq!(e.handle_key(p, shifted), EditorAction::Redraw);
    assert_eq!(key(&mut e, p, Key::Char('q')), EditorAction::Quit);
}

#[test]
fn test_cursor_moves_by_bytes() {
    let p = EditorKind::Plain;
    let mut e = editor(&["é!"]);
    key(&mut e, p, Key::Right);
    assert_eq!(e.cursor_x, 1);
    key(&mut e, p, Key::Char('i'));
    let typed = KeyInput { key: Key::Char('x'), plain: true };
    assert!(e.would_panic(p, typed));
    key(&mut e, p, Key::Right);
    assert_eq!(e.cursor_x, 2);
    key(&mut e, p, Key::Char('x'));
    assert_eq!(text(&e, 0), "éx!");
    assert!(e.line_draw_fails(0));
}

#[test]
fn test_empty_text_panics_where_a_line_is_needed() {
    let e = editor(&[]);
    assert!(e.would_panic(EditorKind::Plain, KeyInput { key: Key::Right, plain: true }));
    assert!(e.would_panic(EditorKind::Chart, KeyInput { key: Key::Right, plain: true }));
    assert!(!e.would_panic(EditorKind::Plain, KeyInput { key: Key::Left, plain: true }));
}

#[test]
fn test_chart_editor() {
    let c = EditorKind::Chart;
    let mut e = editor(&["ab", "é"]);
    assert_eq!(e.line_lengths(), vec![2, 2]);
    assert_eq!(key(&mut e, c, Key::Char('l')), EditorAction::Redraw);
    assert_eq!(e.cursor_x, 0);
    key(&mut e, c, Key::Char(':'));
    key(&mut e, c, Key::Char('p'));
    assert_eq!(key(&mut e, c, Key::Enter), EditorAction::ShowChart);
    key(&mut e, c, Key::Char('i'));
    key(&mut e, c, Key::Char('q'));
    assert_eq!(text(&e, 0), "qab");
    key(&mut e, c, Key::Esc);
    let any = KeyInput { key: Key::Char('q'), plain: false };
    assert_eq!(e.handle_key(c, any), EditorAction::Quit);
}
