//! A small modal editor of text lines, in two flavours: the plain one
//! (`h j k l`, `x`, `y`/`p`, `:select phrase`, `:h`) and the chart one
//! (arrows only, `:p` prints a chart of line lengths). The cursor's column is
//! a byte offset into its line, as `String` indexes lines; the operations that
//! would not fall on a character boundary are ruled out by `requires`, and
//! `would_panic` lets a caller test for them first.
use vstd::prelude::*;
use crate::text::{trim, trimmed};
use crate::vim::{Key, KeyInput};

verus! {

/// The number of bytes of `c` in UTF-8.
pub open spec fn utf8_len(c: char) -> nat {
    if (c as u32) < 0x80 {
        1
    } else if (c as u32) < 0x800 {
        2
    } else if (c as u32) < 0x10000 {
        3
    } else {
        4
    }
}

/// The number of bytes of `s` in UTF-8.
pub open spec fn byte_len(s: Seq<char>) -> nat
    decreases s.len(),
{
    if s.len() == 0 {
        0
    } else {
        byte_len(s.drop_last()) + utf8_len(s.last())
    }
}

/// The index of the character that starts at byte `b` of `s` (`s.len()` for
/// the end), or -1 when `b` is not on a character boundary of `s`.
pub open spec fn char_at_byte(s: Seq<char>, b: int) -> int
    decreases s.len(),
{
    if b == 0 {
        0
    } else if s.len() == 0 || b < 0 {
        -1
    } else if utf8_len(s[0]) <= b {
        let r = char_at_byte(s.drop_first(), b - utf8_len(s[0]));
        if r < 0 {
            -1
        } else {
            r + 1
        }
    } else {
        -1
    }
}

/// The number of bytes of `c` in UTF-8.
fn utf8_len_of(c: char) -> (r: usize)
    ensures
        r == utf8_len(c),
{
    let v = c as u32;
    if v < 0x80 {
        1
    } else if v < 0x800 {
        2
    } else if v < 0x10000 {
        3
    } else {
        4
    }
}

/// `byte_len` adds up over a split.
proof fn lemma_byte_len_add(a: Seq<char>, b: Seq<char>)
    ensures
        byte_len(a + b) == byte_len(a) + byte_len(b),
    decreases b.len(),
{
    if b.len() == 0 {
        assert(a + b =~= a);
    } else {
        lemma_byte_len_add(a, b.drop_last());
        assert((a + b).drop_last() =~= a + b.drop_last());
    }
}

/// `byte_len` of one character more at the front.
proof fn lemma_byte_len_first(s: Seq<char>)
    requires
        s.len() > 0,
    ensures
        byte_len(s) == utf8_len(s[0]) + byte_len(s.drop_first()),
{
    let one = seq![s[0]];
    lemma_byte_len_add(one, s.drop_first());
    assert(one + s.drop_first() =~= s);
    assert(one.drop_last() =~= Seq::<char>::empty());
    assert(byte_len(Seq::<char>::empty()) == 0);
    assert(byte_len(one) == byte_len(one.drop_last()) + utf8_len(one.last()));
}

/// The number of bytes of `v` in UTF-8.
pub fn byte_len_of(v: &Vec<char>) -> (r: usize)
    requires
        byte_len(v@) <= usize::MAX,
    ensures
        r == byte_len(v@),
{
    let mut total: usize = 0;
    let mut i: usize = 0;
    while i < v.len()
        invariant
            i <= v@.len(),
            total == byte_len(v@.take(i as int)),
            byte_len(v@) <= usize::MAX,
        decreases v@.len() - i,
    {
        proof {
            assert(v@.take(i + 1).drop_last() =~= v@.take(i as int));
            lemma_byte_len_add(v@.take(i + 1), v@.skip(i + 1));
            assert(v@.take(i + 1) + v@.skip(i + 1) =~= v@);
        }
        total = total + utf8_len_of(v[i]);
        i = i + 1;
    }
    assert(v@.take(v@.len() as int) =~= v@);
    total
}

/// `char_at_byte` walks the characters from the start.
proof fn lemma_char_at_byte_step(s: Seq<char>, k: int, b: int)
    requires
        0 <= k < s.len(),
        b > 0,
        utf8_len(s[k]) <= b,
    ensures
        char_at_byte(s.skip(k), b) == (if char_at_byte(s.skip(k + 1), b - utf8_len(s[k])) < 0 {
            -1
        } else {
            char_at_byte(s.skip(k + 1), b - utf8_len(s[k])) + 1
        }),
{
    assert(s.skip(k).drop_first() =~= s.skip(k + 1));
    assert(s.skip(k)[0] == s[k]);
}

/// The index of the character that starts at byte `b` of `v`, if `b` lies on
/// a character boundary.
pub fn char_index_of(v: &Vec<char>, b: usize) -> (r: Option<usize>)
    ensures
        r == (if char_at_byte(v@, b as int) < 0 { None::<usize> } else { Some(char_at_byte(v@, b as int) as usize) }),
{
    let mut k: usize = 0;
    let mut rest: usize = b;
    assert(v@.skip(0) =~= v@);
    while rest > 0 && k < v.len() && utf8_len_of(v[k]) <= rest
        invariant
            k <= v@.len(),
            rest <= b,
            char_at_byte(v@, b as int) == (if char_at_byte(v@.skip(k as int), rest as int) < 0 {
                -1
            } else {
                char_at_byte(v@.skip(k as int), rest as int) + k
            }),
        decreases rest,
    {
        proof {
            lemma_char_at_byte_step(v@, k as int, rest as int);
        }
        rest = rest - utf8_len_of(v[k]);
        k = k + 1;
    }
    if rest == 0 {
        Some(k)
    } else {
        proof {
            if k < v@.len() {
                assert(v@.skip(k as int)[0] == v@[k as int]);
            } else {
                assert(v@.skip(k as int).len() == 0);
            }
        }
        None
    }
}


/// Which of the two editors runs.
#[derive(Debug, Clone, Copy, PartialEq, Eq, Structural)]
pub enum EditorKind {
    /// `h j k l` and arrows, `x`, `yy` and `p`, `:select phrase`, `:h`.
    Plain,
    /// Arrows only, `:p` prints a chart of the line lengths, `:h`.
    Chart,
}

/// What the caller shows after a key.
#[derive(Debug, Clone, Copy, PartialEq, Eq, Structural)]
pub enum EditorAction {
    /// Nothing changes on screen.
    Nothing,
    /// The lines are drawn again.
    Redraw,
    /// A `:` is shown and a command is typed, unseen, until `Enter`.
    Prompt,
    /// The help screen is drawn.
    ShowHelp,
    /// The chart of line lengths is printed.
    ShowChart,
    /// The editor ends.
    Quit,
}

/// The editor: the lines, the cursor (byte offset `cursor_x` in line
/// `cursor_y`), the mode, the copied line, the command being typed after
/// `:` and the phrase to highlight.
pub struct LineEditor {
    pub lines: Vec<Vec<char>>,
    pub cursor_x: usize,
    pub cursor_y: usize,
    pub insert_mode: bool,
    pub help_mode: bool,
    pub clipboard: Option<Vec<char>>,
    pub command: Option<Vec<char>>,
    pub selected_text: Option<Vec<char>>,
    /// A `y` was pressed in normal mode and waits for a second one.
    pub yank_pending: bool,
}

/// The text of each line.
pub open spec fn texts(lines: Seq<Vec<char>>) -> Seq<Seq<char>> {
    lines.map_values(|v: Vec<char>| v@)
}

/// The text held in `o`, if any.
pub open spec fn text_of(o: Option<Vec<char>>) -> Option<Seq<char>> {
    match o {
        Some(v) => Some(v@),
        None => None,
    }
}

/// The index of the last line, in `usize` arithmetic that wraps around.
pub open spec fn last_index(n: nat) -> int {
    if n == 0 {
        usize::MAX as int
    } else {
        n - 1
    }
}

impl LineEditor {
    /// An editor on `lines`, cursor at the start, in normal mode.
    pub fn new(lines: Vec<Vec<char>>) -> (e: Self)
        ensures
            e.lines@ == lines@,
            e.cursor_x == 0 && e.cursor_y == 0,
            !e.insert_mode && !e.help_mode,
            e.clipboard is None && e.command is None && e.selected_text is None,
            !e.yank_pending,
    {
        LineEditor {
            lines,
            cursor_x: 0,
            cursor_y: 0,
            insert_mode: false,
            help_mode: false,
            clipboard: None,
            command: None,
            selected_text: None,
            yank_pending: false,
        }
    }

    /// Every line (and the copied one) is a string's worth of bytes, and
    /// there are fewer lines than a vector can count.
    pub open spec fn wf(&self) -> bool {
        &&& self.lines@.len() < isize::MAX
        &&& forall|j: int| 0 <= j < self.lines@.len() ==> byte_len(#[trigger] self.lines@[j]@) <= isize::MAX
        &&& self.clipboard matches Some(c) ==> byte_len(c@) <= isize::MAX
    }

    /// The text of line `y`.
    pub open spec fn line(&self, y: int) -> Seq<char> {
        self.lines@[y]@
    }

    /// Whether the key would make the editor fail: a line indexed that does
    /// not exist, a byte offset off a character boundary or past the line,
    /// a line grown past `isize::MAX` bytes, or a line pasted past the end
    /// or beyond what a vector can count.
    pub open spec fn panics(&self, kind: EditorKind, k: KeyInput) -> bool {
        let key = k.key;
        let ins = self.insert_mode;
        let x = self.cursor_x as int;
        let y = self.cursor_y as int;
        let n = self.lines@.len();
        let bad_y = y >= n;
        let line = self.line(y);
        if self.command is Some || self.help_mode {
            false
        } else if kind == EditorKind::Plain {
            ||| key == Key::Char('l') && !ins && bad_y
            ||| key == Key::Right && bad_y
            ||| key == Key::Char('x') && !ins && (bad_y || x < byte_len(line) && char_at_byte(line, x) < 0)
            ||| key == Key::Backspace && ins && x > 0 && (bad_y || x - 1 >= byte_len(line) || char_at_byte(line, x - 1) < 0)
            ||| (key matches Key::Char(c) && ins && (bad_y || char_at_byte(line, x) < 0 || byte_len(line) + utf8_len(c) > isize::MAX))
            ||| key == Key::Char('y') && !ins && self.yank_pending && bad_y
            ||| key == Key::Char('p') && !ins && self.clipboard is Some && (y + 1 > n || n + 1 >= isize::MAX)
        } else {
            ||| key == Key::Right && bad_y
            ||| (key matches Key::Char(c) && ins && (bad_y || char_at_byte(line, x) < 0 || byte_len(line) + utf8_len(c) > isize::MAX))
            ||| key == Key::Backspace && ins && x > 0 && (bad_y || x - 1 >= byte_len(line) || char_at_byte(line, x - 1) < 0)
        }
    }
}

/// `e2` is `e` with the cursor at column `x`.
pub open spec fn moved_x(e: LineEditor, e2: LineEditor, x: int) -> bool {
    e2 == LineEditor { cursor_x: x as usize, ..e }
}

/// `e2` is `e` with the cursor on line `y`.
pub open spec fn moved_y(e: LineEditor, e2: LineEditor, y: int) -> bool {
    e2 == LineEditor { cursor_y: y as usize, ..e }
}

/// `e2` is `e` with line `y` now `t` and the cursor at column `x`.
pub open spec fn edited(e: LineEditor, e2: LineEditor, y: int, t: Seq<char>, x: int) -> bool {
    &&& e2 == LineEditor { lines: e2.lines, cursor_x: x as usize, ..e }
    &&& texts(e2.lines@) == texts(e.lines@).update(y, t)
}

/// The editor after a key while a command is typed after `:`: `Enter` ends
/// it (`select phrase` sets the phrase to highlight in the plain editor;
/// `h` opens the help, and `p` prints the chart in the chart editor).
pub open spec fn command_step(kind: EditorKind, e: LineEditor, k: KeyInput, e2: LineEditor, a: EditorAction) -> bool {
    let buf = e.command->0@;
    match k.key {
        Key::Enter => {
            let sel = if kind == EditorKind::Plain && crate::vim::starts(buf, "select "@) {
                Some(buf.skip(7))
            } else {
                text_of(e.selected_text)
            };
            &&& e2 == LineEditor {
                command: None,
                help_mode: trim(buf) == "h"@,
                selected_text: e2.selected_text,
                ..e
            }
            &&& text_of(e2.selected_text) == sel
            &&& a == (if trim(buf) == "h"@ {
                EditorAction::ShowHelp
            } else if kind == EditorKind::Chart && trim(buf) == "p"@ {
                EditorAction::ShowChart
            } else {
                EditorAction::Redraw
            })
        },
        Key::Backspace => {
            &&& e2 == LineEditor { command: e2.command, ..e }
            &&& text_of(e2.command) == Some(if buf.len() > 0 { buf.drop_last() } else { buf })
            &&& a == EditorAction::Nothing
        },
        Key::Char(c) => {
            &&& e2 == LineEditor { command: e2.command, ..e }
            &&& text_of(e2.command) == Some(buf.push(c))
            &&& a == EditorAction::Nothing
        },
        _ => e2 == e && a == EditorAction::Nothing,
    }
}

/// The editor after a key in the plain editor, the first rule that applies
/// deciding: `i` and `Esc` switch insert mode; `h`/`Left`, `l`/`Right`,
/// `k`/`Up`, `j`/`Down` move within the text (the letters in normal mode
/// only); `x` deletes the character under the cursor; in insert mode
/// `Backspace` deletes the one before it and any other character is typed;
/// `y` twice in a row copies the line (a first `y` only waits for the
/// second; any other key drops it), `p` pastes it below; `:` starts a
/// command; `q` with no modifier quits; anything else just redraws.
pub open spec fn plain_step(e: LineEditor, k: KeyInput, e2: LineEditor, a: EditorAction) -> bool {
    let key = k.key;
    let ins = e.insert_mode;
    let x = e.cursor_x as int;
    let y = e.cursor_y as int;
    let n = e.lines@.len();
    let line = e.line(y);
    let e0 = LineEditor { yank_pending: false, ..e };
    if key == Key::Char('i') && !ins {
        e2 == LineEditor { insert_mode: true, ..e0 } && a == EditorAction::Redraw
    } else if key == Key::Esc && ins {
        e2 == LineEditor { insert_mode: false, ..e0 } && a == EditorAction::Redraw
    } else if (key == Key::Char('h') && !ins || key == Key::Left) && x > 0 {
        moved_x(e0, e2, x - 1) && a == EditorAction::Redraw
    } else if (key == Key::Char('l') && !ins || key == Key::Right) && x < byte_len(line) {
        moved_x(e0, e2, x + 1) && a == EditorAction::Redraw
    } else if (key == Key::Char('k') && !ins || key == Key::Up) && y > 0 {
        moved_y(e0, e2, y - 1) && a == EditorAction::Redraw
    } else if (key == Key::Char('j') && !ins || key == Key::Down) && y < last_index(n) {
        moved_y(e0, e2, y + 1) && a == EditorAction::Redraw
    } else if key == Key::Char('x') && !ins && x < byte_len(line) {
        edited(e0, e2, y, line.remove(char_at_byte(line, x)), x) && a == EditorAction::Redraw
    } else if key == Key::Backspace && ins && x > 0 {
        edited(e0, e2, y, line.remove(char_at_byte(line, x - 1)), x - 1) && a == EditorAction::Redraw
    } else if key is Char && ins {
        edited(e0, e2, y, line.insert(char_at_byte(line, x), key->Char_0), x + 1) && a == EditorAction::Redraw
    } else if key == Key::Char('y') && !ins && e.yank_pending {
        &&& e2 == LineEditor { clipboard: e2.clipboard, ..e0 }
        &&& text_of(e2.clipboard) == Some(line)
        &&& a == EditorAction::Redraw
    } else if key == Key::Char('y') && !ins {
        e2 == LineEditor { yank_pending: true, ..e } && a == EditorAction::Nothing
    } else if key == Key::Char('p') && !ins && e.clipboard is Some {
        &&& e2 == LineEditor { lines: e2.lines, ..e0 }
        &&& texts(e2.lines@) == texts(e.lines@).insert(y + 1, e.clipboard->0@)
        &&& a == EditorAction::Redraw
    } else if key == Key::Char(':') && !ins {
        &&& e2 == LineEditor { command: e2.command, ..e0 }
        &&& text_of(e2.command) == Some(Seq::<char>::empty())
        &&& a == EditorAction::Prompt
    } else if key == Key::Char('q') && k.plain {
        e2 == e0 && a == EditorAction::Quit
    } else {
        e2 == e0 && a == EditorAction::Redraw
    }
}

/// The editor after a key in the chart editor, the first rule that applies
/// deciding: `i` and `Esc` switch insert mode; the arrows move within the
/// text; in insert mode characters are typed and `Backspace` deletes the
/// one before the cursor; `:` starts a command; `q` quits; anything else just
/// redraws.
pub open spec fn chart_step(e: LineEditor, k: KeyInput, e2: LineEditor, a: EditorAction) -> bool {
    let key = k.key;
    let ins = e.insert_mode;
    let x = e.cursor_x as int;
    let y = e.cursor_y as int;
    let n = e.lines@.len();
    let line = e.line(y);
    if key == Key::Char('i') && !ins {
        e2 == LineEditor { insert_mode: true, ..e } && a == EditorAction::Redraw
    } else if key == Key::Esc && ins {
        e2 == LineEditor { insert_mode: false, ..e } && a == EditorAction::Redraw
    } else if key == Key::Left && x > 0 {
        moved_x(e, e2, x - 1) && a == EditorAction::Redraw
    } else if key == Key::Right && x < byte_len(line) {
        moved_x(e, e2, x + 1) && a == EditorAction::Redraw
    } else if key == Key::Up && y > 0 {
        moved_y(e, e2, y - 1) && a == EditorAction::Redraw
    } else if key == Key::Down && y < last_index(n) {
        moved_y(e, e2, y + 1) && a == EditorAction::Redraw
    } else if key is Char && ins {
        edited(e, e2, y, line.insert(char_at_byte(line, x), key->Char_0), x + 1) && a == EditorAction::Redraw
    } else if key == Key::Backspace && ins && x > 0 {
        edited(e, e2, y, line.remove(char_at_byte(line, x - 1)), x - 1) && a == EditorAction::Redraw
    } else if key == Key::Char(':') && !ins {
        &&& e2 == LineEditor { command: e2.command, ..e }
        &&& text_of(e2.command) == Some(Seq::<char>::empty())
        &&& a == EditorAction::Prompt
    } else if key == Key::Char('q') {
        e2 == e && a == EditorAction::Quit
    } else {
        e2 == e && a == EditorAction::Redraw
    }
}

/// The editor after a key: a command being typed takes it first, then the
/// help screen (only `Esc` leaves it), then the editor's own rules.
pub open spec fn key_step(kind: EditorKind, e: LineEditor, k: KeyInput, e2: LineEditor, a: EditorAction) -> bool {
    if e.command is Some {
        command_step(kind, e, k, e2, a)
    } else if e.help_mode {
        if k.key == Key::Esc {
            e2 == LineEditor { help_mode: false, ..e } && a == EditorAction::Redraw
        } else {
            e2 == e && a == EditorAction::Nothing
        }
    } else if kind == EditorKind::Plain {
        plain_step(e, k, e2, a)
    } else {
        chart_step(e, k, e2, a)
    }
}

/// Taking a character out of a text takes its bytes out.
proof fn lemma_byte_len_remove(s: Seq<char>, k: int)
    requires
        0 <= k < s.len(),
    ensures
        byte_len(s.remove(k)) + utf8_len(s[k]) == byte_len(s),
{
    lemma_byte_len_add(s.take(k), s.skip(k));
    assert(s.take(k) + s.skip(k) =~= s);
    lemma_byte_len_first(s.skip(k));
    assert(s.skip(k).drop_first() =~= s.skip(k + 1));
    lemma_byte_len_add(s.take(k), s.skip(k + 1));
    assert(s.take(k) + s.skip(k + 1) =~= s.remove(k));
}

/// Putting a character into a text adds its bytes.
proof fn lemma_byte_len_insert(s: Seq<char>, k: int, c: char)
    requires
        0 <= k <= s.len(),
    ensures
        byte_len(s.insert(k, c)) == byte_len(s) + utf8_len(c),
{
    lemma_byte_len_remove(s.insert(k, c), k);
    assert(s.insert(k, c).remove(k) =~= s);
}

/// The characters before `char_at_byte(s, b)` take `b` bytes.
proof fn lemma_char_at_byte_spans(s: Seq<char>, b: int)
    ensures
        char_at_byte(s, b) >= 0 ==> byte_len(s.take(char_at_byte(s, b))) == b,
    decreases s.len(),
{
    if b == 0 {
        assert(s.take(0) =~= Seq::<char>::empty());
    } else if s.len() > 0 && b >= 0 && utf8_len(s[0]) <= b {
        let rest = s.drop_first();
        let r = char_at_byte(rest, b - utf8_len(s[0]));
        lemma_char_at_byte_spans(rest, b - utf8_len(s[0]));
        if r >= 0 {
            lemma_char_at_byte_range(rest, b - utf8_len(s[0]));
            let t = s.take(r + 1);
            lemma_byte_len_first(t);
            assert(t.drop_first() =~= rest.take(r));
        }
    }
}

/// `char_at_byte` gives a character index of the text, or its end.
proof fn lemma_char_at_byte_range(s: Seq<char>, b: int)
    ensures
        char_at_byte(s, b) <= s.len(),
    decreases s.len(),
{
    if b != 0 && s.len() > 0 && b >= 0 && utf8_len(s[0]) <= b {
        lemma_char_at_byte_range(s.drop_first(), b - utf8_len(s[0]));
    }
}

/// A copy of `v`.
fn copy_chars(v: &Vec<char>) -> (r: Vec<char>)
    ensures
        r@ == v@,
{
    let len = v.len();
    crate::vim::slice_of(v, 0, len)
}

impl LineEditor {
    /// Whether the key would make the editor fail (see `panics`).
    pub fn would_panic(&self, kind: EditorKind, k: KeyInput) -> (r: bool)
        requires
            self.wf(),
        ensures
            r == self.panics(kind, k),
    {
        if self.command.is_some() || self.help_mode {
            return false;
        }
        let ins = self.insert_mode;
        let x = self.cursor_x;
        let y = self.cursor_y;
        let n = self.lines.len();
        let bad_y = y >= n;
        let key = k.key;
        let insert_bad = match key {
            Key::Char(c) => ins && (bad_y || {
                let line = &self.lines[y];
                char_index_of(line, x).is_none() || {
                    let len = byte_len_of(line);
                    len > (isize::MAX as usize) - utf8_len_of(c)
                }
            }),
            _ => false,
        };
        let back_bad = key == Key::Backspace && ins && x > 0 && (bad_y || {
            let line = &self.lines[y];
            let len = byte_len_of(line);
            x - 1 >= len || char_index_of(line, x - 1).is_none()
        });
        if kind == EditorKind::Plain {
            let x_bad = key == Key::Char('x') && !ins && (bad_y || {
                let line = &self.lines[y];
                let len = byte_len_of(line);
                x < len && char_index_of(line, x).is_none()
            });
            (key == Key::Char('l') && !ins && bad_y) || (key == Key::Right && bad_y) || x_bad || back_bad || insert_bad
                || (key == Key::Char('y') && !ins && self.yank_pending && bad_y) || (key == Key::Char('p') && !ins && self.clipboard.is_some() && (
            y >= n || n + 1 >= isize::MAX as usize))
        } else {
            (key == Key::Right && bad_y) || insert_bad || back_bad
        }
    }
}

impl LineEditor {
    /// The number of bytes of line `y`.
    fn line_len(&self, y: usize) -> (r: usize)
        requires
            self.wf(),
            y < self.lines@.len(),
        ensures
            r == byte_len(self.line(y as int)),
    {
        byte_len_of(&self.lines[y])
    }

    /// Makes line `y` the text `t`.
    fn replace_line(&mut self, y: usize, t: Vec<char>)
        requires
            y < old(self).lines@.len(),
        ensures
            *final(self) == (LineEditor { lines: final(self).lines, ..*old(self) }),
            texts(final(self).lines@) == texts(old(self).lines@).update(y as int, t@),
            final(self).lines@.len() == old(self).lines@.len(),
            final(self).lines@[y as int]@ == t@,
            forall|j: int| 0 <= j < old(self).lines@.len() && j != y ==> final(self).lines@[j] == old(self).lines@[j],
    {
        let ghost before = self.lines@;
        self.lines.set(y, t);
        assert(texts(self.lines@) =~= texts(before).update(y as int, t@));
    }

    /// Handles a key while a command is typed after `:`.
    fn command_key(&mut self, kind: EditorKind, k: KeyInput) -> (a: EditorAction)
        requires
            old(self).wf(),
            old(self).command is Some,
        ensures
            final(self).wf(),
            command_step(kind, *old(self), k, *final(self), a),
    {
        let buf = match &self.command {
            Some(b) => copy_chars(b),
            None => Vec::new(),
        };
        match k.key {
            Key::Enter => {
                let t = trimmed(&buf);
                if kind == EditorKind::Plain && crate::vim::starts_with_text(&buf, "select ") {
                    proof {
                        reveal_strlit("select ");
                    }
                    let len = buf.len();
                    let phrase = crate::vim::slice_of(&buf, 7, len);
                    assert(phrase@ =~= buf@.skip(7));
                    self.selected_text = Some(phrase);
                }
                let help = crate::vim::text_is(&t, "h");
                self.help_mode = help;
                self.command = None;
                if help {
                    EditorAction::ShowHelp
                } else if kind == EditorKind::Chart && crate::vim::text_is(&t, "p") {
                    EditorAction::ShowChart
                } else {
                    EditorAction::Redraw
                }
            },
            Key::Backspace => {
                let mut b = buf;
                b.pop();
                self.command = Some(b);
                EditorAction::Nothing
            },
            Key::Char(c) => {
                let mut b = buf;
                b.push(c);
                self.command = Some(b);
                EditorAction::Nothing
            },
            _ => EditorAction::Nothing,
        }
    }

    /// Types `c` at the cursor.
    fn type_char(&mut self, c: char)
        requires
            old(self).wf(),
            old(self).cursor_y < old(self).lines@.len(),
            char_at_byte(old(self).line(old(self).cursor_y as int), old(self).cursor_x as int) >= 0,
            byte_len(old(self).line(old(self).cursor_y as int)) + utf8_len(c) <= isize::MAX,
        ensures
            final(self).wf(),
            ({
                let y = old(self).cursor_y as int;
                let line = old(self).line(y);
                edited(*old(self), *final(self), y, line.insert(char_at_byte(line, old(self).cursor_x as int), c), old(self).cursor_x + 1)
            }),
    {
        let y = self.cursor_y;
        let x = self.cursor_x;
        let ghost line = self.line(y as int);
        let _len = self.lines[y].len();
        let kc = match char_index_of(&self.lines[y], x) {
            Some(kc) => kc,
            None => 0,
        };
        proof {
            lemma_char_at_byte_range(line, x as int);
            lemma_char_at_byte_spans(line, x as int);
            lemma_byte_len_add(line.take(kc as int), line.skip(kc as int));
            assert(line.take(kc as int) + line.skip(kc as int) =~= line);
            lemma_byte_len_insert(line, kc as int, c);
            assert(kc as int == char_at_byte(line, x as int));
            assert(byte_len(line.take(kc as int)) == x);
            assert(byte_len(line) >= x);
            assert(utf8_len(c) >= 1);
            assert(x < isize::MAX);
        }
        let mut t = copy_chars(&self.lines[y]);
        t.insert(kc, c);
        assert(t@ == line.insert(kc as int, c));
        self.replace_line(y, t);
        assert(x < isize::MAX);
        self.cursor_x = x + 1;
    }

    /// Deletes the character that starts at byte `b` of the cursor's line,
    /// putting the cursor at `nx`.
    fn delete_at(&mut self, b: usize, nx: usize)
        requires
            old(self).wf(),
            old(self).cursor_y < old(self).lines@.len(),
            b < byte_len(old(self).line(old(self).cursor_y as int)),
            char_at_byte(old(self).line(old(self).cursor_y as int), b as int) >= 0,
        ensures
            final(self).wf(),
            ({
                let y = old(self).cursor_y as int;
                let line = old(self).line(y);
                edited(*old(self), *final(self), y, line.remove(char_at_byte(line, b as int)), nx as int)
            }),
    {
        let y = self.cursor_y;
        let ghost line = self.line(y as int);
        let _len = self.lines[y].len();
        let kc = match char_index_of(&self.lines[y], b) {
            Some(kc) => kc,
            None => 0,
        };
        proof {
            lemma_char_at_byte_range(line, b as int);
            lemma_char_at_byte_spans(line, b as int);
            assert(line.take(line.len() as int) =~= line);
        }
        proof {
            lemma_byte_len_remove(line, kc as int);
        }
        let mut t = copy_chars(&self.lines[y]);
        t.remove(kc);
        assert(t@ == line.remove(kc as int));
        self.replace_line(y, t);
        self.cursor_x = nx;
    }
}

impl LineEditor {
    /// Handles a key (see `key_step`); `panics` rules out the keys the editor
    /// cannot take.
    pub fn handle_key(&mut self, kind: EditorKind, k: KeyInput) -> (a: EditorAction)
        requires
            old(self).wf(),
            !old(self).panics(kind, k),
        ensures
            final(self).wf(),
            key_step(kind, *old(self), k, *final(self), a),
    {
        if self.command.is_some() {
            return self.command_key(kind, k);
        }
        if self.help_mode {
            if k.key == Key::Esc {
                self.help_mode = false;
                return EditorAction::Redraw;
            }
            return EditorAction::Nothing;
        }
        match kind {
            EditorKind::Plain => self.plain_key(k),
            EditorKind::Chart => self.chart_key(k),
        }
    }

    /// Handles a key in the plain editor.
    #[verifier::rlimit(40)]
    fn plain_key(&mut self, k: KeyInput) -> (a: EditorAction)
        requires
            old(self).wf(),
            old(self).command is None,
            !old(self).help_mode,
            !old(self).panics(EditorKind::Plain, k),
        ensures
            final(self).wf(),
            plain_step(*old(self), k, *final(self), a),
    {
        let key = k.key;
        let ins = self.insert_mode;
        let x = self.cursor_x;
        let y = self.cursor_y;
        let n = self.lines.len();
        let waiting = self.yank_pending;
        self.yank_pending = false;
        if key == Key::Char('i') && !ins {
            self.insert_mode = true;
            return EditorAction::Redraw;
        }
        if key == Key::Esc && ins {
            self.insert_mode = false;
            return EditorAction::Redraw;
        }
        if (key == Key::Char('h') && !ins || key == Key::Left) && x > 0 {
            self.cursor_x = x - 1;
            return EditorAction::Redraw;
        }
        if key == Key::Char('l') && !ins || key == Key::Right {
            let len = self.line_len(y);
            if x < len {
                self.cursor_x = x + 1;
                return EditorAction::Redraw;
            }
        }
        if (key == Key::Char('k') && !ins || key == Key::Up) && y > 0 {
            self.cursor_y = y - 1;
            return EditorAction::Redraw;
        }
        let last = if n == 0 { usize::MAX } else { n - 1 };
        if (key == Key::Char('j') && !ins || key == Key::Down) && y < last {
            self.cursor_y = y + 1;
            return EditorAction::Redraw;
        }
        if key == Key::Char('x') && !ins {
            let len = self.line_len(y);
            if x < len {
                self.delete_at(x, x);
                return EditorAction::Redraw;
            }
        }
        if key == Key::Backspace && ins && x > 0 {
            self.delete_at(x - 1, x - 1);
            return EditorAction::Redraw;
        }
        if let Key::Char(c) = key {
            if ins {
                self.type_char(c);
                return EditorAction::Redraw;
            }
        }
        if key == Key::Char('y') && !ins {
            if waiting {
                self.clipboard = Some(copy_chars(&self.lines[y]));
                return EditorAction::Redraw;
            }
            self.yank_pending = true;
            return EditorAction::Nothing;
        }
        if key == Key::Char('p') && !ins && self.clipboard.is_some() {
            let clip = match &self.clipboard {
                Some(c) => copy_chars(c),
                None => Vec::new(),
            };
            let ghost before = self.lines@;
            self.lines.insert(y + 1, clip);
            proof {
                assert(texts(self.lines@) =~= texts(before).insert(y + 1, self.clipboard->0@));
                assert forall|j: int| 0 <= j < self.lines@.len() implies byte_len(#[trigger] self.lines@[j]@) <= isize::MAX by {
                    if j < y + 1 {
                        assert(self.lines@[j] == before[j]);
                    } else if j > y + 1 {
                        assert(self.lines@[j] == before[j - 1]);
                    }
                }
            }
            return EditorAction::Redraw;
        }
        if key == Key::Char(':') && !ins {
            self.command = Some(Vec::new());
            return EditorAction::Prompt;
        }
        if key == Key::Char('q') && k.plain {
            return EditorAction::Quit;
        }
        EditorAction::Redraw
    }

    /// Handles a key in the chart editor.
    #[verifier::rlimit(40)]
    fn chart_key(&mut self, k: KeyInput) -> (a: EditorAction)
        requires
            old(self).wf(),
            old(self).command is None,
            !old(self).help_mode,
            !old(self).panics(EditorKind::Chart, k),
        ensures
            final(self).wf(),
            chart_step(*old(self), k, *final(self), a),
    {
        let key = k.key;
        let ins = self.insert_mode;
        let x = self.cursor_x;
        let y = self.cursor_y;
        let n = self.lines.len();
        if key == Key::Char('i') && !ins {
            self.insert_mode = true;
            return EditorAction::Redraw;
        }
        if key == Key::Esc && ins {
            self.insert_mode = false;
            return EditorAction::Redraw;
        }
        if key == Key::Left && x > 0 {
            self.cursor_x = x - 1;
            return EditorAction::Redraw;
        }
        if key == Key::Right {
            let len = self.line_len(y);
            if x < len {
                self.cursor_x = x + 1;
                return EditorAction::Redraw;
            }
        }
        if key == Key::Up && y > 0 {
            self.cursor_y = y - 1;
            return EditorAction::Redraw;
        }
        let last = if n == 0 { usize::MAX } else { n - 1 };
        if key == Key::Down && y < last {
            self.cursor_y = y + 1;
            return EditorAction::Redraw;
        }
        if let Key::Char(c) = key {
            if ins {
                self.type_char(c);
                return EditorAction::Redraw;
            }
        }
        if key == Key::Backspace && ins && x > 0 {
            self.delete_at(x - 1, x - 1);
            return EditorAction::Redraw;
        }
        if key == Key::Char(':') && !ins {
            self.command = Some(Vec::new());
            return EditorAction::Prompt;
        }
        if key == Key::Char('q') {
            return EditorAction::Quit;
        }
        EditorAction::Redraw
    }
}

/// A piece of a line as the plain editor draws it: its text, whether it is
/// the highlighted phrase, and whether the cursor is on its first byte.
#[derive(Debug)]
pub struct Piece {
    pub text: Vec<char>,
    pub highlight: bool,
    pub cursor: bool,
}

/// A line as the plain editor draws it: its pieces, and whether the cursor
/// stands just past its end.
#[derive(Debug)]
pub struct LineView {
    pub pieces: Vec<Piece>,
    pub end_cursor: bool,
}

/// `s` begins at character `k` of `line`.
pub open spec fn found_at(line: Seq<char>, k: int, s: Seq<char>) -> bool {
    k + s.len() <= line.len() && line.subrange(k, k + s.len()) == s
}

/// The phrase `search` (nonempty) begins at character `k` of `line`.
pub open spec fn hit(line: Seq<char>, k: int, search: Option<Seq<char>>) -> bool {
    match search {
        Some(s) => s.len() > 0 && found_at(line, k, s),
        None => false,
    }
}

/// The pieces of `line` from character `k` on: the phrase `search` wherever
/// it starts (highlighted), else one character at a time; `cur` is the
/// cursor's byte offset on this line, if the cursor is on it.
pub open spec fn pieces_from(line: Seq<char>, k: int, search: Option<Seq<char>>, cur: Option<int>) -> Seq<(Seq<char>, bool, bool)>
    decreases line.len() - k,
{
    if k < 0 || k >= line.len() {
        Seq::empty()
    } else {
        let at = cur == Some(byte_len(line.take(k)) as int);
        if hit(line, k, search) {
            seq![(search->0, true, at)] + pieces_from(line, k + search->0.len(), search, cur)
        } else {
            seq![(seq![line[k]], false, at)] + pieces_from(line, k + 1, search, cur)
        }
    }
}

/// Drawing `line` from character `k` on fails: it meets, outside the
/// highlighted phrase, a character of more than one byte, which cannot be
/// drawn a byte at a time.
pub open spec fn draw_fails(line: Seq<char>, k: int, search: Option<Seq<char>>) -> bool
    decreases line.len() - k,
{
    if k < 0 || k >= line.len() {
        false
    } else if hit(line, k, search) {
        draw_fails(line, k + search->0.len(), search)
    } else {
        utf8_len(line[k]) != 1 || draw_fails(line, k + 1, search)
    }
}

/// The pieces as tuples.
pub open spec fn pieces_view(p: Seq<Piece>) -> Seq<(Seq<char>, bool, bool)> {
    p.map_values(|q: Piece| (q.text@, q.highlight, q.cursor))
}

impl LineEditor {
    /// The cursor's byte offset on line `y`, if the cursor is on it.
    pub open spec fn cursor_on(&self, y: int) -> Option<int> {
        if y == self.cursor_y {
            Some(self.cursor_x as int)
        } else {
            None
        }
    }

    /// The byte length of each line, the bar length of the chart.
    pub fn line_lengths(&self) -> (r: Vec<usize>)
        requires
            self.wf(),
        ensures
            r@.len() == self.lines@.len(),
            forall|j: int| 0 <= j < r@.len() ==> #[trigger] r@[j] == byte_len(self.line(j)),
    {
        let mut r: Vec<usize> = Vec::new();
        let mut j: usize = 0;
        while j < self.lines.len()
            invariant
                self.wf(),
                j <= self.lines@.len(),
                r@.len() == j,
                forall|t: int| 0 <= t < j ==> #[trigger] r@[t] == byte_len(self.line(t)),
            decreases self.lines@.len() - j,
        {
            r.push(byte_len_of(&self.lines[j]));
            j = j + 1;
        }
        r
    }

    /// Whether drawing line `y` fails (see `draw_fails`).
    pub fn line_draw_fails(&self, y: usize) -> (r: bool)
        requires
            y < self.lines@.len(),
        ensures
            r == draw_fails(self.line(y as int), 0, text_of(self.selected_text)),
    {
        let line = &self.lines[y];
        let n = line.len();
        let mut k: usize = 0;
        while k < n
            invariant
                n == line@.len(),
                line@ == self.line(y as int),
                k <= n,
                draw_fails(line@, 0, text_of(self.selected_text)) == draw_fails(line@, k as int, text_of(self.selected_text)),
            decreases n - k,
        {
            let m = self.phrase_at(line, k);
            if m > 0 {
                k = k + m;
            } else {
                if utf8_len_of(line[k]) != 1 {
                    return true;
                }
                k = k + 1;
            }
        }
        false
    }

    /// The length of the highlighted phrase if it starts at character `k`
    /// of `line`, else 0.
    fn phrase_at(&self, line: &Vec<char>, k: usize) -> (m: usize)
        requires
            k < line@.len(),
        ensures
            m == (if hit(line@, k as int, text_of(self.selected_text)) {
                text_of(self.selected_text)->0.len()
            } else {
                0
            }),
            m <= line@.len() - k,
    {
        match &self.selected_text {
            None => 0,
            Some(s) => {
                let sl = s.len();
                if sl == 0 || sl > line.len() - k {
                    return 0;
                }
                let mut j: usize = 0;
                while j < sl
                    invariant
                        sl == s@.len(),
                        text_of(self.selected_text) == Some(s@),
                        k + sl <= line@.len(),
                        k + sl <= usize::MAX,
                        j <= sl,
                        forall|t: int| 0 <= t < j ==> line@[k + t] == s@[t],
                    decreases sl - j,
                {
                    if line[k + j] != s[j] {
                        assert(line@.subrange(k as int, k + sl)[j as int] == line@[k + j]);
                        assert(line@.subrange(k as int, k + sl) != s@);
                        return 0;
                    }
                    j = j + 1;
                }
                assert(line@.subrange(k as int, k + sl) =~= s@);
                sl
            },
        }
    }

    /// Line `y` as the plain editor draws it.
    pub fn line_view(&self, y: usize) -> (v: LineView)
        requires
            self.wf(),
            y < self.lines@.len(),
            !draw_fails(self.line(y as int), 0, text_of(self.selected_text)),
        ensures
            pieces_view(v.pieces@) == pieces_from(self.line(y as int), 0, text_of(self.selected_text), self.cursor_on(y as int)),
            v.end_cursor == (y == self.cursor_y && self.cursor_x == byte_len(self.line(y as int))),
    {
        let line = &self.lines[y];
        let n = line.len();
        let ghost search = text_of(self.selected_text);
        let ghost cur = self.cursor_on(y as int);
        let mut pieces: Vec<Piece> = Vec::new();
        let mut k: usize = 0;
        let mut b: usize = 0;
        let total = byte_len_of(line);
        while k < n
            invariant
                self.wf(),
                n == line@.len(),
                line@ == self.line(y as int),
                y < self.lines@.len(),
                search == text_of(self.selected_text),
                cur == self.cursor_on(y as int),
                k <= n,
                b == byte_len(line@.take(k as int)),
                b <= total,
                total == byte_len(line@),
                !draw_fails(line@, k as int, search),
                pieces_view(pieces@) + pieces_from(line@, k as int, search, cur) == pieces_from(line@, 0, search, cur),
            decreases n - k,
        {
            let at = y == self.cursor_y && b == self.cursor_x;
            let m = self.phrase_at(line, k);
            let ghost before = pieces@;
            if m > 0 {
                let text = crate::vim::slice_of(line, k, k + m);
                proof {
                    assert(text@ =~= search->0);
                    lemma_byte_len_add(line@.take(k as int), line@.subrange(k as int, k + m));
                    assert(line@.take(k as int) + line@.subrange(k as int, k + m) =~= line@.take(k + m));
                    lemma_byte_len_add(line@.take(k + m), line@.skip(k + m));
                    assert(line@.take(k + m) + line@.skip(k + m) =~= line@);
                }
                let bm = byte_len_of(&text);
                pieces.push(Piece { text, highlight: true, cursor: at });
                proof {
                    assert(pieces_view(pieces@) =~= pieces_view(before).push((search->0, true, at)));
                    assert(pieces_view(pieces@) + pieces_from(line@, k + m, search, cur) =~= pieces_view(before)
                        + pieces_from(line@, k as int, search, cur));
                }
                b = b + bm;
                k = k + m;
            } else {
                let c = line[k];
                let mut text: Vec<char> = Vec::new();
                text.push(c);
                proof {
                    assert(line@.take(k + 1).drop_last() =~= line@.take(k as int));
                    lemma_byte_len_add(line@.take(k + 1), line@.skip(k + 1));
                    assert(line@.take(k + 1) + line@.skip(k + 1) =~= line@);
                }
                pieces.push(Piece { text, highlight: false, cursor: at });
                proof {
                    assert(pieces_view(pieces@) =~= pieces_view(before).push((seq![c], false, at)));
                    assert(pieces_view(pieces@) + pieces_from(line@, k + 1, search, cur) =~= pieces_view(before)
                        + pieces_from(line@, k as int, search, cur));
                }
                b = b + 1;
                k = k + 1;
            }
        }
        proof {
            assert(pieces_from(line@, k as int, search, cur) =~= Seq::<(Seq<char>, bool, bool)>::empty());
            assert(pieces_view(pieces@) =~= pieces_view(pieces@) + pieces_from(line@, k as int, search, cur));
            assert(line@.take(k as int) =~= line@);
        }
        LineView { pieces, end_cursor: y == self.cursor_y && self.cursor_x == total }
    }
}

} // verus!
