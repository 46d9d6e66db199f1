//! The vim-style editor: a cursor over the sheet, modes for moving, typing
//! an expression into a cell and giving commands, and per-cell text formats.
//! Keys come in as plain values and the screen goes out as plain values;
//! drawing on a terminal is left to the caller.
use vstd::prelude::*;
use crate::convert::{alpha_to_num_at, cell_name, cell_name_text, col_fold, is_col_name};
use crate::formulas::{binary_op, lemma_cell_bound};
use crate::info::CellInfo;
use crate::parser::{CharClass, dec, first_where, lemma_first_where, lemma_first_where_props};
use crate::sheet::Sheet;
use crate::status::StatusCode;
use crate::text::{all_digits, i32_of, is_digit, is_letter, parse_i32_at, parse_usize_at, trim, trimmed, usize_of};

verus! {

/// The editor's modes.
#[derive(Debug, Clone, Copy, PartialEq, Eq, Structural)]
pub enum VimMode {
    /// Moving the cursor.
    Normal,
    /// Typing an expression for the cell under the cursor.
    Insert,
    /// Typing a command after `:`.
    Command,
    /// Showing the help screen.
    Help,
}

/// The text colours a cell can be given.
#[derive(Debug, Clone, Copy, PartialEq, Eq, Structural)]
pub enum TextColor {
    Red,
    Green,
    Blue,
    Yellow,
    Cyan,
    Magenta,
    White,
    Black,
}

/// How a cell's text is drawn.
#[derive(Debug, Clone, Copy)]
pub struct CellFormat {
    pub bold: bool,
    pub italic: bool,
    pub underline: bool,
    pub color: Option<TextColor>,
}

impl CellFormat {
    /// Plain text in the terminal's own colour.
    pub open spec fn plain() -> CellFormat {
        CellFormat { bold: false, italic: false, underline: false, color: None }
    }
}

impl Default for CellFormat {
    fn default() -> (r: Self)
        ensures
            r == CellFormat::plain(),
    {
        CellFormat { bold: false, italic: false, underline: false, color: None }
    }
}

/// Why an expression typed into a cell has no value.
#[derive(Debug, Clone, Copy, PartialEq, Eq, Structural)]
pub enum ExprError {
    InvalidLeftOperand,
    InvalidRightOperand,
    DivisionByZero,
    InvalidFormat,
    InvalidColumn,
    InvalidRow,
    OutOfBounds,
    CellError,
    InvalidReference,
    InvalidReferenceFormat,
    InvalidNumber,
}

impl ExprError {
    /// The text that describes the error.
    pub fn message(self) -> (r: &'static str)
        ensures
            r@ == expr_error_text(self),
    {
        proof {
            reveal_strlit("Invalid left operand");
            reveal_strlit("Invalid right operand");
            reveal_strlit("Division by zero");
            reveal_strlit("Invalid expression format");
            reveal_strlit("Invalid column reference");
            reveal_strlit("Invalid row reference");
            reveal_strlit("Cell reference out of bounds");
            reveal_strlit("Referenced cell contains an error");
            reveal_strlit("Invalid cell reference");
            reveal_strlit("Invalid cell reference format");
            reveal_strlit("Invalid number");
        }
        match self {
            ExprError::InvalidLeftOperand => "Invalid left operand",
            ExprError::InvalidRightOperand => "Invalid right operand",
            ExprError::DivisionByZero => "Division by zero",
            ExprError::InvalidFormat => "Invalid expression format",
            ExprError::InvalidColumn => "Invalid column reference",
            ExprError::InvalidRow => "Invalid row reference",
            ExprError::OutOfBounds => "Cell reference out of bounds",
            ExprError::CellError => "Referenced cell contains an error",
            ExprError::InvalidReference => "Invalid cell reference",
            ExprError::InvalidReferenceFormat => "Invalid cell reference format",
            ExprError::InvalidNumber => "Invalid number",
        }
    }
}

/// The text of each error.
pub open spec fn expr_error_text(e: ExprError) -> Seq<char> {
    match e {
        ExprError::InvalidLeftOperand => "Invalid left operand"@,
        ExprError::InvalidRightOperand => "Invalid right operand"@,
        ExprError::DivisionByZero => "Division by zero"@,
        ExprError::InvalidFormat => "Invalid expression format"@,
        ExprError::InvalidColumn => "Invalid column reference"@,
        ExprError::InvalidRow => "Invalid row reference"@,
        ExprError::OutOfBounds => "Cell reference out of bounds"@,
        ExprError::CellError => "Referenced cell contains an error"@,
        ExprError::InvalidReference => "Invalid cell reference"@,
        ExprError::InvalidReferenceFormat => "Invalid cell reference format"@,
        ExprError::InvalidNumber => "Invalid number"@,
    }
}

/// The number of ASCII letters at the start of `s`.
pub open spec fn letters_len(s: Seq<char>) -> int {
    let k = first_where(s, CharClass::NonLetter);
    if k < 0 {
        s.len() as int
    } else {
        k
    }
}

/// The value of the cell of a sheet (`data`, `n` rows, `m` columns) at row
/// `r`, column `c` (both from 0), or the error when there is none.
pub open spec fn value_at(data: Seq<CellInfo>, n: int, m: int, r: usize, c: usize, outside: ExprError) -> Result<i32, ExprError> {
    if !(r < n && c < m) {
        Err(outside)
    } else if data[r * m + c].info.invalid {
        Err(ExprError::CellError)
    } else {
        Ok(data[r * m + c].value)
    }
}

/// The value a reference such as `B12` reads: the letters name the column,
/// the rest is the row number (both from 1).
pub open spec fn cell_value(s: Seq<char>, data: Seq<CellInfo>, n: int, m: int) -> Result<i32, ExprError> {
    let k = letters_len(s);
    if !is_col_name(s.take(k)) {
        Err(ExprError::InvalidColumn)
    } else {
        match usize_of(s.skip(k)) {
            None => Err(ExprError::InvalidRow),
            Some(row) => value_at(data, n, m, dec(row), dec(col_fold(s.take(k))), ExprError::OutOfBounds),
        }
    }
}

/// The value a token reads: a cell reference when it starts with a letter,
/// else a number, white space around it allowed.
pub open spec fn token_value(s: Seq<char>, data: Seq<CellInfo>, n: int, m: int) -> Result<i32, ExprError> {
    if s.len() > 0 && is_letter(s[0]) {
        let k = letters_len(s);
        if is_col_name(s.take(k)) && usize_of(s.skip(k)) is Some {
            value_at(data, n, m, dec(usize_of(s.skip(k))->0), dec(col_fold(s.take(k))), ExprError::InvalidReference)
        } else {
            Err(ExprError::InvalidReferenceFormat)
        }
    } else {
        match i32_of(trim(s)) {
            Some(v) => Ok(v),
            None => Err(ExprError::InvalidNumber),
        }
    }
}

/// `s` is a reference in its simplest form: a letter, then digits.
pub open spec fn plain_reference(s: Seq<char>) -> bool {
    s.len() > 0 && is_letter(s[0]) && all_digits(s.drop_first())
}

/// The value of one side of `a op b`: a cell when it starts with a letter,
/// else a number; `bad` when it is neither.
pub open spec fn operand_value(s: Seq<char>, data: Seq<CellInfo>, n: int, m: int, bad: ExprError) -> Result<i32, ExprError> {
    if s.len() > 0 && is_letter(s[0]) {
        cell_value(s, data, n, m)
    } else {
        match i32_of(s) {
            Some(v) => Ok(v),
            None => Err(bad),
        }
    }
}

/// The function number of the operator `op` (2 to 5 for `+ - * /`).
pub open spec fn op_code(op: char) -> u8 {
    if op == '+' {
        2
    } else if op == '-' {
        3
    } else if op == '*' {
        4
    } else {
        5
    }
}

/// The value of `s` split at position `p` around the operator `op`.
pub open spec fn split_value(s: Seq<char>, op: char, p: int, data: Seq<CellInfo>, n: int, m: int) -> Result<i32, ExprError> {
    match operand_value(s.take(p), data, n, m, ExprError::InvalidLeftOperand) {
        Err(e) => Err(e),
        Ok(a) => match operand_value(s.skip(p + 1), data, n, m, ExprError::InvalidRightOperand) {
            Err(e) => Err(e),
            Ok(b) => if op == '/' && b == 0 {
                Err(ExprError::DivisionByZero)
            } else {
                Ok(binary_op(op_code(op), a, b))
            },
        },
    }
}

/// The position of the first `c` in `s`, or -1.
pub open spec fn find(s: Seq<char>, c: char) -> int {
    first_where(s, CharClass::Exactly(c))
}

/// The value of an expression typed into a cell: a number, a reference, or
/// `a op b` split at the first `+`, else the first `-`, `*`, `/` (in that order).
pub open spec fn eval_expr(s: Seq<char>, data: Seq<CellInfo>, n: int, m: int) -> Result<i32, ExprError> {
    if i32_of(s) is Some {
        Ok(i32_of(s)->0)
    } else if plain_reference(s) {
        cell_value(s, data, n, m)
    } else if find(s, '+') >= 0 {
        split_value(s, '+', find(s, '+'), data, n, m)
    } else if find(s, '-') >= 0 {
        split_value(s, '-', find(s, '-'), data, n, m)
    } else if find(s, '*') >= 0 {
        split_value(s, '*', find(s, '*'), data, n, m)
    } else if find(s, '/') >= 0 {
        split_value(s, '/', find(s, '/'), data, n, m)
    } else {
        Err(ExprError::InvalidFormat)
    }
}

/// The characters `v[a..b]`.
pub(crate) fn slice_of(v: &Vec<char>, a: usize, b: usize) -> (r: Vec<char>)
    requires
        a <= b <= v@.len(),
    ensures
        r@ == v@.subrange(a as int, b as int),
{
    let mut r: Vec<char> = Vec::new();
    let mut k = a;
    while k < b
        invariant
            a <= k <= b <= v@.len(),
            r@ == v@.subrange(a as int, k as int),
        decreases b - k,
    {
        r.push(v[k]);
        assert(r@ =~= v@.subrange(a as int, k + 1));
        k = k + 1;
    }
    r
}

/// The number of ASCII letters at the start of `v`.
fn letters_end(v: &Vec<char>) -> (k: usize)
    ensures
        k == letters_len(v@),
        k <= v@.len(),
{
    let ghost p = CharClass::NonLetter;
    let mut i: usize = 0;
    while i < v.len()
        invariant
            i <= v@.len(),
            p == CharClass::NonLetter,
            forall|j: int| 0 <= j < i ==> !crate::parser::in_class(p, #[trigger] v@[j]),
        decreases v@.len() - i,
    {
        let c = v[i];
        if !(('a' <= c && c <= 'z') || ('A' <= c && c <= 'Z')) {
            proof {
                lemma_first_where(v@, p, i as int);
            }
            return i;
        }
        i = i + 1;
    }
    proof {
        lemma_first_where(v@, p, i as int);
    }
    i
}

/// The position of the first `c` in `v`.
fn find_char(v: &Vec<char>, c: char) -> (r: Option<usize>)
    ensures
        r == (if find(v@, c) < 0 { None::<usize> } else { Some(find(v@, c) as usize) }),
{
    let r = crate::parser::first_char_at(v, 0, v.len(), c);
    assert(v@.subrange(0, v@.len() as int) =~= v@);
    r
}

impl Sheet {
    /// The value at row `r`, column `c`, as the editor reads it.
    fn value_at(&self, r: usize, c: usize, outside: ExprError) -> (v: Result<i32, ExprError>)
        requires
            self.wf(),
        ensures
            v == value_at(self.data@, self.n as int, self.m as int, r, c, outside),
    {
        if !self.is_valid_cell(r, c) {
            return Err(outside);
        }
        let _total = self.data.len();
        proof {
            lemma_cell_bound(r as int, c as int, self.n as int, self.m as int);
        }
        let idx = self.get_cell(r, c);
        let cell = self.get(idx);
        if cell.info.invalid {
            Err(ExprError::CellError)
        } else {
            Ok(cell.value)
        }
    }

    /// The value the reference `cell_ref` reads.
    pub fn get_cell_value(&self, cell_ref: &Vec<char>) -> (r: Result<i32, ExprError>)
        requires
            self.wf(),
        ensures
            r == cell_value(cell_ref@, self.data@, self.n as int, self.m as int),
    {
        let k = letters_end(cell_ref);
        assert(cell_ref@.take(k as int) =~= cell_ref@.subrange(0, k as int));
        assert(cell_ref@.skip(k as int) =~= cell_ref@.subrange(k as int, cell_ref@.len() as int));
        let col = match alpha_to_num_at(cell_ref, 0, k) {
            Some(c) => c,
            None => return Err(ExprError::InvalidColumn),
        };
        let row = match parse_usize_at(cell_ref, k, cell_ref.len()) {
            Some(r) => r,
            None => return Err(ExprError::InvalidRow),
        };
        self.value_at(row.wrapping_sub(1), col.wrapping_sub(1), ExprError::OutOfBounds)
    }

    /// The value the token `token` reads.
    pub fn parse_token(&self, token: &Vec<char>) -> (r: Result<i32, ExprError>)
        requires
            self.wf(),
        ensures
            r == token_value(token@, self.data@, self.n as int, self.m as int),
    {
        if token.len() > 0 && (('a' <= token[0] && token[0] <= 'z') || ('A' <= token[0] && token[0] <= 'Z')) {
            let k = letters_end(token);
            assert(token@.take(k as int) =~= token@.subrange(0, k as int));
            assert(token@.skip(k as int) =~= token@.subrange(k as int, token@.len() as int));
            if let Some(col) = alpha_to_num_at(token, 0, k) {
                if let Some(row) = parse_usize_at(token, k, token.len()) {
                    return self.value_at(row.wrapping_sub(1), col.wrapping_sub(1), ExprError::InvalidReference);
                }
            }
            return Err(ExprError::InvalidReferenceFormat);
        }
        let t = trimmed(token);
        assert(t@.subrange(0, t@.len() as int) =~= t@);
        match parse_i32_at(&t, 0, t.len()) {
            Some(v) => Ok(v),
            None => Err(ExprError::InvalidNumber),
        }
    }

    /// The value of one side of `a op b`.
    fn operand_value(&self, s: &Vec<char>, bad: ExprError) -> (r: Result<i32, ExprError>)
        requires
            self.wf(),
        ensures
            r == operand_value(s@, self.data@, self.n as int, self.m as int, bad),
    {
        if s.len() > 0 && (('a' <= s[0] && s[0] <= 'z') || ('A' <= s[0] && s[0] <= 'Z')) {
            self.get_cell_value(s)
        } else {
            assert(s@.subrange(0, s@.len() as int) =~= s@);
            match parse_i32_at(s, 0, s.len()) {
                Some(v) => Ok(v),
                None => Err(bad),
            }
        }
    }

    /// The value of `v` split at position `p` around the operator `op`.
    fn split_value(&self, v: &Vec<char>, op: char, p: usize) -> (r: Result<i32, ExprError>)
        requires
            self.wf(),
            p < v@.len(),
            op == '+' || op == '-' || op == '*' || op == '/',
        ensures
            r == split_value(v@, op, p as int, self.data@, self.n as int, self.m as int),
    {
        let len = v.len();
        let left = slice_of(v, 0, p);
        let right = slice_of(v, p + 1, len);
        assert(left@ =~= v@.take(p as int));
        assert(right@ =~= v@.skip(p + 1));
        let a = match self.operand_value(&left, ExprError::InvalidLeftOperand) {
            Ok(a) => a,
            Err(e) => return Err(e),
        };
        let b = match self.operand_value(&right, ExprError::InvalidRightOperand) {
            Ok(b) => b,
            Err(e) => return Err(e),
        };
        if op == '+' {
            Ok(a.wrapping_add(b))
        } else if op == '-' {
            Ok(a.wrapping_sub(b))
        } else if op == '*' {
            Ok(a.wrapping_mul(b))
        } else if b == 0 {
            Err(ExprError::DivisionByZero)
        } else if a == i32::MIN && b == -1 {
            Ok(i32::MIN)
        } else {
            Ok(a / b)
        }
    }

    /// The value of the expression `expr`, as the editor computes it.
    pub fn evaluate_expression(&self, expr: &Vec<char>) -> (r: Result<i32, ExprError>)
        requires
            self.wf(),
        ensures
            r == eval_expr(expr@, self.data@, self.n as int, self.m as int),
    {
        assert(expr@.subrange(0, expr@.len() as int) =~= expr@);
        if let Some(v) = parse_i32_at(expr, 0, expr.len()) {
            return Ok(v);
        }
        if expr.len() > 0 && (('a' <= expr[0] && expr[0] <= 'z') || ('A' <= expr[0] && expr[0] <= 'Z')) {
            let mut all = true;
            let mut i: usize = 1;
            while i < expr.len()
                invariant
                    1 <= i <= expr@.len(),
                    all == (forall|j: int| 1 <= j < i ==> is_digit(#[trigger] expr@[j])),
                decreases expr@.len() - i,
            {
                if !('0' <= expr[i] && expr[i] <= '9') {
                    all = false;
                }
                i = i + 1;
            }
            assert(all == all_digits(expr@.drop_first())) by {
                if all {
                    assert forall|j: int| 0 <= j < expr@.drop_first().len() implies is_digit(#[trigger] expr@.drop_first()[j]) by {
                        assert(expr@.drop_first()[j] == expr@[j + 1]);
                    }
                } else {
                    let j = choose|j: int| 1 <= j < expr@.len() && !is_digit(#[trigger] expr@[j]);
                    assert(expr@.drop_first()[j - 1] == expr@[j]);
                }
            }
            if all {
                return self.get_cell_value(expr);
            }
        }
        proof {
            lemma_first_where_props(expr@, CharClass::Exactly('+'));
            lemma_first_where_props(expr@, CharClass::Exactly('-'));
            lemma_first_where_props(expr@, CharClass::Exactly('*'));
            lemma_first_where_props(expr@, CharClass::Exactly('/'));
        }
        if let Some(p) = find_char(expr, '+') {
            return self.split_value(expr, '+', p);
        }
        if let Some(p) = find_char(expr, '-') {
            return self.split_value(expr, '-', p);
        }
        if let Some(p) = find_char(expr, '*') {
            return self.split_value(expr, '*', p);
        }
        if let Some(p) = find_char(expr, '/') {
            return self.split_value(expr, '/', p);
        }
        Err(ExprError::InvalidFormat)
    }
}


/// An expression typed into a cell, kept so that the cell can be computed
/// again when a cell it mentions changes.
#[derive(Debug)]
pub struct ExprEntry {
    /// The cell's index.
    pub cell: usize,
    /// The expression as typed.
    pub text: Vec<char>,
}

/// `needle` occurs in `hay`.
pub open spec fn contains(hay: Seq<char>, needle: Seq<char>) -> bool {
    exists|i: int| 0 <= i && i + needle.len() <= hay.len() && #[trigger] hay.subrange(i, i + needle.len()) == needle
}

/// The position of the entry for `cell` in `es`, or -1.
pub open spec fn entry_index(es: Seq<ExprEntry>, cell: usize) -> int
    decreases es.len(),
{
    if es.len() == 0 {
        -1
    } else if es.last().cell == cell {
        let k = entry_index(es.drop_last(), cell);
        if k < 0 {
            es.len() - 1
        } else {
            k
        }
    } else {
        entry_index(es.drop_last(), cell)
    }
}

/// The expression stored for `cell` (empty when there is none).
pub open spec fn stored_text(es: Seq<ExprEntry>, cell: usize) -> Seq<char> {
    let k = entry_index(es, cell);
    if k < 0 {
        Seq::empty()
    } else {
        es[k].text@
    }
}

/// The cells, other than `changed`, whose expressions mention `name`, in
/// the order their entries are stored.
pub open spec fn dependents(es: Seq<ExprEntry>, changed: usize, name: Seq<char>) -> Seq<usize>
    decreases es.len(),
{
    if es.len() == 0 {
        Seq::empty()
    } else {
        let rest = dependents(es.drop_last(), changed, name);
        if es.last().cell != changed && contains(es.last().text@, name) {
            rest.push(es.last().cell)
        } else {
            rest
        }
    }
}

/// The sheet after cell `d` is given the outcome `r` of its expression: the
/// value with the error flag cleared, or the error flag set and the value kept.
pub open spec fn refreshed(data: Seq<CellInfo>, d: usize, r: Result<i32, ExprError>) -> Seq<CellInfo> {
    let c = data[d as int];
    match r {
        Ok(v) => data.update(
            d as int,
            CellInfo { info: crate::info::Info { invalid: false, ..c.info }, value: v, literal_mode: c.literal_mode },
        ),
        Err(_) => data.update(
            d as int,
            CellInfo { info: crate::info::Info { invalid: true, ..c.info }, value: c.value, literal_mode: c.literal_mode },
        ),
    }
}

/// The sheet after the cells that mention cell `changed` are computed again,
/// and, for each that got a value, the cells that mention it, and so on,
/// `fuel` levels deep.
pub open spec fn propagate(data: Seq<CellInfo>, es: Seq<ExprEntry>, changed: usize, n: int, m: int, fuel: nat) -> Seq<CellInfo>
    decreases fuel, 0int, 0int,
{
    if fuel == 0 {
        data
    } else {
        let name = cell_name(changed as int / m, changed as int % m);
        propagate_each(data, es, dependents(es, changed, name), n, m, (fuel - 1) as nat)
    }
}

/// The sheet after each cell of `deps` in turn is computed again, and what
/// depends on it with it.
pub open spec fn propagate_each(data: Seq<CellInfo>, es: Seq<ExprEntry>, deps: Seq<usize>, n: int, m: int, fuel: nat) -> Seq<CellInfo>
    decreases fuel, 1int, deps.len() as int,
{
    if deps.len() == 0 {
        data
    } else {
        let d = deps[0];
        let r = eval_expr(stored_text(es, d), data, n, m);
        let data1 = refreshed(data, d, r);
        let data2 = if r is Ok {
            propagate(data1, es, d, n, m, fuel)
        } else {
            data1
        };
        propagate_each(data2, es, deps.drop_first(), n, m, fuel)
    }
}

/// Whether `needle` occurs in `hay`.
fn contains_text(hay: &Vec<char>, needle: &Vec<char>) -> (r: bool)
    ensures
        r == contains(hay@, needle@),
{
    let hl = hay.len();
    let nl = needle.len();
    if nl > hl {
        return false;
    }
    let mut i: usize = 0;
    while i <= hl - nl
        invariant
            hl == hay@.len(),
            nl == needle@.len(),
            nl <= hl,
            i <= hl - nl + 1,
            forall|j: int| 0 <= j < i ==> #[trigger] hay@.subrange(j, j + nl) != needle@,
        decreases hl - i,
    {
        let mut same = true;
        let mut k: usize = 0;
        while k < nl
            invariant
                hl == hay@.len(),
                nl == needle@.len(),
                i + nl <= hl,
                k <= nl,
                same == (forall|t: int| 0 <= t < k ==> hay@[i + t] == #[trigger] needle@[t]),
            decreases nl - k,
        {
            if hay[i + k] != needle[k] {
                same = false;
            }
            k = k + 1;
        }
        if same {
            assert(hay@.subrange(i as int, i + nl) =~= needle@);
            return true;
        }
        let ghost t = choose|t: int| 0 <= t < nl && hay@[i + t] != #[trigger] needle@[t];
        assert(hay@.subrange(i as int, i + nl)[t] == hay@[i + t]);
        i = i + 1;
    }
    assert forall|j: int| 0 <= j && j + nl <= hl implies #[trigger] hay@.subrange(j, j + nl) != needle@ by {
        assert(j < i);
    }
    false
}

/// `entry_index` is -1 or the first entry for `cell`.
proof fn lemma_entry_index(es: Seq<ExprEntry>, cell: usize)
    ensures
        -1 <= entry_index(es, cell) < es.len(),
        entry_index(es, cell) >= 0 ==> es[entry_index(es, cell)].cell == cell,
        entry_index(es, cell) < 0 ==> forall|j: int| 0 <= j < es.len() ==> (#[trigger] es[j]).cell != cell,
        entry_index(es, cell) >= 0 ==> forall|j: int| 0 <= j < entry_index(es, cell) ==> (#[trigger] es[j]).cell != cell,
    decreases es.len(),
{
    if es.len() > 0 {
        lemma_entry_index(es.drop_last(), cell);
        assert forall|j: int| 0 <= j < es.len() - 1 implies #[trigger] es[j] == es.drop_last()[j] by {}
    }
}

/// Every entry of `es` names a cell below `total`.
pub open spec fn entries_in(es: Seq<ExprEntry>, total: int) -> bool {
    forall|i: int| 0 <= i < es.len() ==> (#[trigger] es[i]).cell < total
}

/// No two entries of `es` name the same cell.
pub open spec fn entries_distinct(es: Seq<ExprEntry>) -> bool {
    forall|i: int, j: int| 0 <= i < es.len() && 0 <= j < es.len() && i != j ==> (#[trigger] es[i]).cell != (#[trigger] es[j]).cell
}

/// The cells `dependents` lists come from the entries.
proof fn lemma_dependents_in(es: Seq<ExprEntry>, changed: usize, name: Seq<char>, total: int)
    requires
        entries_in(es, total),
    ensures
        forall|i: int| 0 <= i < dependents(es, changed, name).len() ==> #[trigger] dependents(es, changed, name)[i] < total,
    decreases es.len(),
{
    if es.len() > 0 {
        assert(entries_in(es.drop_last(), total)) by {
            assert forall|i: int| 0 <= i < es.drop_last().len() implies (#[trigger] es.drop_last()[i]).cell < total by {
                assert(es.drop_last()[i] == es[i]);
            }
        }
        lemma_dependents_in(es.drop_last(), changed, name, total);
        assert(es[es.len() - 1].cell < total);
        let rest = dependents(es.drop_last(), changed, name);
        let d = dependents(es, changed, name);
        assert forall|i: int| 0 <= i < d.len() implies #[trigger] d[i] < total by {
            if i < rest.len() {
                assert(d[i] == rest[i]);
            }
        }
    }
}


/// The editor: the sheet, the cursor, the mode, what is being typed, the
/// expressions typed into cells and each cell's text format.
pub struct VimEditor {
    /// The cells.
    pub sheet: Sheet,
    /// The cursor's column.
    pub cursor_x: usize,
    /// The cursor's row.
    pub cursor_y: usize,
    /// The current mode.
    pub mode: VimMode,
    /// The command typed after `:`.
    pub command_buffer: Vec<char>,
    /// The outcome of the last command.
    pub last_status: StatusCode,
    /// The error to show, if any.
    pub error_message: Option<Vec<char>>,
    /// Each cell's format, row by row (`cursor_y * m + cursor_x`).
    pub cell_formats: Vec<CellFormat>,
    /// The expression typed in insert mode.
    pub current_input: Vec<char>,
    /// The expressions typed into cells, one entry per cell, oldest first.
    /// A change of a cell recomputes the cells whose expressions mention it
    /// in the order of this list; a list keeps that order definite, where a
    /// hash map would walk its entries in an order seeded anew by each
    /// process.
    pub cell_expressions: Vec<ExprEntry>,
    /// The first row on screen.
    pub start_row: usize,
    /// The first column on screen.
    pub start_col: usize,
    /// How many rows the screen shows.
    pub display_rows: usize,
    /// How many columns the screen shows.
    pub display_cols: usize,
    /// The width of a column on screen.
    pub col_width: usize,
}

impl VimEditor {
    /// The number of cells.
    pub open spec fn size(&self) -> int {
        self.sheet.n * self.sheet.m
    }

    /// The index of the cell under the cursor.
    pub open spec fn cursor_cell(&self) -> int {
        self.cursor_y * self.sheet.m + self.cursor_x
    }

    /// The sheet is nonempty and small enough for `i32` cell indices, the
    /// cursor and the view's corner are on it, every cell has a format and the expression entries
    /// name distinct cells of the sheet.
    pub open spec fn wf(&self) -> bool {
        &&& self.sheet.wf()
        &&& 0 < self.sheet.n
        &&& 0 < self.sheet.m
        &&& self.sheet.n * self.sheet.m <= i32::MAX
        &&& self.cursor_y < self.sheet.n
        &&& self.cursor_x < self.sheet.m
        &&& self.start_row < self.sheet.n
        &&& self.start_col < self.sheet.m
        &&& self.cell_formats@.len() == self.size()
        &&& entries_in(self.cell_expressions@, self.size())
        &&& entries_distinct(self.cell_expressions@)
    }

    /// An editor on `sheet`: cursor and view at the top left, normal mode,
    /// nothing typed, every cell plain, no expressions, a 20 by 20 view of
    /// columns 10 wide. Any sheet is taken; the keys can be handled once it
    /// has at least one row and one column.
    pub fn new(sheet: Sheet) -> (e: Self)
        requires
            sheet.wf(),
            sheet.n * sheet.m <= i32::MAX,
        ensures
            0 < sheet.n && 0 < sheet.m ==> e.wf(),
            e.cell_formats@.len() == sheet.n * sheet.m,
            e.sheet == sheet,
            e.cursor_x == 0 && e.cursor_y == 0,
            e.mode == VimMode::Normal,
            e.command_buffer@.len() == 0,
            e.last_status == StatusCode::Success,
            e.error_message is None,
            forall|i: int| 0 <= i < e.cell_formats@.len() ==> #[trigger] e.cell_formats@[i] == CellFormat::plain(),
            e.current_input@.len() == 0,
            e.cell_expressions@.len() == 0,
            e.start_row == 0 && e.start_col == 0,
            e.display_rows == 20 && e.display_cols == 20,
            e.col_width == 10,
    {
        let total = sheet.n * sheet.m;
        let mut formats: Vec<CellFormat> = Vec::new();
        while formats.len() < total
            invariant
                formats@.len() <= total,
                forall|i: int| 0 <= i < formats@.len() ==> #[trigger] formats@[i] == CellFormat::plain(),
            decreases total - formats@.len(),
        {
            formats.push(CellFormat::default());
        }
        VimEditor {
            sheet,
            cursor_x: 0,
            cursor_y: 0,
            mode: VimMode::Normal,
            command_buffer: Vec::new(),
            last_status: StatusCode::Success,
            error_message: None,
            cell_formats: formats,
            current_input: Vec::new(),
            cell_expressions: Vec::new(),
            start_row: 0,
            start_col: 0,
            display_rows: 20,
            display_cols: 20,
            col_width: 10,
        }
    }

    /// Recomputes the cells whose expressions mention cell `changed`, and in
    /// turn the cells that mention those. A chain of recomputations is never
    /// longer than the number of stored expressions unless the expressions
    /// mention each other in a cycle; the propagation stops at that depth.
    fn update_dependent_cells(&mut self, changed: usize)
        requires
            old(self).wf(),
            changed < old(self).size(),
        ensures
            final(self).wf(),
            final(self).sheet.data@ == propagate(
                old(self).sheet.data@,
                old(self).cell_expressions@,
                changed,
                old(self).sheet.n as int,
                old(self).sheet.m as int,
                old(self).cell_expressions@.len(),
            ),
            final(self).sheet.n == old(self).sheet.n,
            final(self).sheet.m == old(self).sheet.m,
            final(self).sheet.px == old(self).sheet.px,
            final(self).sheet.py == old(self).sheet.py,
            *final(self) == (VimEditor { sheet: final(self).sheet, ..*old(self) }),
    {
        let fuel = self.cell_expressions.len();
        refresh_dependents(&mut self.sheet, &self.cell_expressions, changed, fuel);
    }
}

/// The cells, other than `changed`, whose expressions mention `name`.
fn dependents_of(es: &Vec<ExprEntry>, changed: usize, name: &Vec<char>) -> (d: Vec<usize>)
    ensures
        d@ == dependents(es@, changed, name@),
{
    let mut d: Vec<usize> = Vec::new();
    let mut i: usize = 0;
    while i < es.len()
        invariant
            i <= es@.len(),
            d@ == dependents(es@.take(i as int), changed, name@),
        decreases es@.len() - i,
    {
        assert(es@.take(i + 1).drop_last() =~= es@.take(i as int));
        assert(es@.take(i + 1).last() == es@[i as int]);
        if es[i].cell != changed && contains_text(&es[i].text, name) {
            d.push(es[i].cell);
        }
        i = i + 1;
    }
    assert(es@.take(es@.len() as int) =~= es@);
    d
}

/// A copy of the expression stored for `cell` (empty when there is none).
fn stored_text_of(es: &Vec<ExprEntry>, cell: usize) -> (t: Vec<char>)
    ensures
        t@ == stored_text(es@, cell),
{
    proof {
        lemma_entry_index(es@, cell);
    }
    let mut i: usize = 0;
    while i < es.len()
        invariant
            i <= es@.len(),
            forall|j: int| 0 <= j < i ==> (#[trigger] es@[j]).cell != cell,
        decreases es@.len() - i,
    {
        if es[i].cell == cell {
            proof {
                lemma_entry_index(es@, cell);
                let k = entry_index(es@, cell);
                assert(es@[i as int].cell == cell);
                if k >= 0 {
                    assert(es@[k].cell == cell);
                }
                assert(k == i);
            }
            let len = es[i].text.len();
            return slice_of(&es[i].text, 0, len);
        }
        i = i + 1;
    }
    proof {
        let k = entry_index(es@, cell);
        if k >= 0 {
            assert(es@[k].cell == cell);
        }
    }
    Vec::new()
}

/// Recomputes, `fuel` levels deep, the cells that depend on cell `changed`.
#[verifier::rlimit(40)]
#[verifier::spinoff_prover]
fn refresh_dependents(sheet: &mut Sheet, es: &Vec<ExprEntry>, changed: usize, fuel: usize)
    requires
        old(sheet).wf(),
        0 < old(sheet).m,
        old(sheet).n * old(sheet).m <= i32::MAX,
        entries_in(es@, old(sheet).n * old(sheet).m),
        changed < old(sheet).n * old(sheet).m,
    ensures
        final(sheet).wf(),
        final(sheet).n == old(sheet).n,
        final(sheet).m == old(sheet).m,
        final(sheet).px == old(sheet).px,
        final(sheet).py == old(sheet).py,
        final(sheet).data@ == propagate(old(sheet).data@, es@, changed, old(sheet).n as int, old(sheet).m as int, fuel as nat),
    decreases fuel,
{
    if fuel == 0 {
        return;
    }
    let ghost n = sheet.n as int;
    let ghost m = sheet.m as int;
    let (row, col) = sheet.get_row_and_column(changed);
    proof {
        assert(row < sheet.n && sheet.m <= sheet.n * sheet.m) by (nonlinear_arith)
            requires
                row == changed / sheet.m,
                changed < sheet.n * sheet.m,
                0 < sheet.m,
        ;
    }
    let name = cell_name_text(row, col);
    let deps = dependents_of(es, changed, &name);
    proof {
        lemma_dependents_in(es@, changed, name@, n * m);
    }
    let ghost total = propagate_each(sheet.data@, es@, deps@, n, m, (fuel - 1) as nat);
    assert(deps@.skip(0) =~= deps@);
    let mut i: usize = 0;
    while i < deps.len()
        invariant
            i <= deps@.len(),
            sheet.wf(),
            sheet.n == n,
            sheet.m == m,
            sheet.px == old(sheet).px,
            sheet.py == old(sheet).py,
            0 < m,
            n * m <= i32::MAX,
            fuel > 0,
            entries_in(es@, n * m),
            forall|j: int| 0 <= j < deps@.len() ==> #[trigger] deps@[j] < n * m,
            propagate_each(sheet.data@, es@, deps@.skip(i as int), n, m, (fuel - 1) as nat) == total,
        decreases deps@.len() - i,
    {
        let d = deps[i];
        let text = stored_text_of(es, d);
        let r = sheet.evaluate_expression(&text);
        let ghost data0 = sheet.data@;
        proof {
            assert(deps@.skip(i as int)[0] == d);
            assert(deps@.skip(i as int).drop_first() =~= deps@.skip(i + 1));
        }
        let mut c = sheet.get(d);
        match r {
            Ok(v) => {
                c.value = v;
                c.info.invalid = false;
                sheet.set(d, c);
                assert(sheet.data@ == refreshed(data0, d, r));
                refresh_dependents(sheet, es, d, fuel - 1);
            },
            Err(_) => {
                c.info.invalid = true;
                sheet.set(d, c);
                assert(sheet.data@ == refreshed(data0, d, r));
            },
        }
        i = i + 1;
    }
    assert(deps@.skip(i as int) =~= Seq::<usize>::empty());
}


/// A key, as the editor tells keys apart.
#[derive(Debug, Clone, Copy, PartialEq, Eq, Structural)]
pub enum Key {
    Char(char),
    Left,
    Right,
    Up,
    Down,
    Enter,
    Esc,
    Backspace,
    Other,
}

/// A key press: the key, and whether no modifier key was held with it.
#[derive(Debug, Clone, Copy)]
pub struct KeyInput {
    pub key: Key,
    pub plain: bool,
}

/// What the caller does after a key: go on, leave the editor (restoring the
/// terminal), or end the program at once.
#[derive(Debug, Clone, Copy, PartialEq, Eq, Structural)]
pub enum VimAction {
    Stay,
    Leave,
    Exit,
}

/// What `char::is_alphanumeric` says of `c`.
pub uninterp spec fn alphanumeric(c: char) -> bool;

/// Whether `c` is a letter or a number in any script.
/// Calls `char::is_alphanumeric`, which holds for the characters with the
/// Unicode `Alphabetic` or `Numeric` property; ASCII letters and digits are
/// among them. The rest of the Unicode tables is not restated here.
#[verifier::external_body]
fn is_alphanumeric_char(c: char) -> (r: bool)
    ensures
        r == alphanumeric(c),
        ('a' <= c && c <= 'z') || ('A' <= c && c <= 'Z') || ('0' <= c && c <= '9') ==> r,
{
    c.is_alphanumeric()
}

/// What `str::to_lowercase` gives for the text `s`.
pub uninterp spec fn lowercase(s: Seq<char>) -> Seq<char>;

/// The text `s` in lower case.
/// Calls `str::to_lowercase`, which maps each character by Unicode's
/// lowercase mapping; the mapping itself is not restated here.
#[verifier::external_body]
fn lowercase_of(s: &Vec<char>) -> (r: Vec<char>)
    ensures
        r@ == lowercase(s@),
{
    let text: String = s.iter().collect();
    text.to_lowercase().chars().collect()
}

/// The colour named by the (lower-case) word `name`.
pub open spec fn color_of(name: Seq<char>) -> Option<TextColor> {
    if name == "red"@ {
        Some(TextColor::Red)
    } else if name == "green"@ {
        Some(TextColor::Green)
    } else if name == "blue"@ {
        Some(TextColor::Blue)
    } else if name == "yellow"@ {
        Some(TextColor::Yellow)
    } else if name == "cyan"@ {
        Some(TextColor::Cyan)
    } else if name == "magenta"@ {
        Some(TextColor::Magenta)
    } else if name == "white"@ {
        Some(TextColor::White)
    } else if name == "black"@ {
        Some(TextColor::Black)
    } else {
        None
    }
}

/// Whether `v` spells `s`.
pub(crate) fn text_is(v: &Vec<char>, s: &str) -> (r: bool)
    ensures
        r == (v@ == s@),
{
    let p = crate::text::chars_of(s);
    if v.len() != p.len() {
        assert(v@.len() != s@.len());
        return false;
    }
    let mut i: usize = 0;
    while i < v.len()
        invariant
            i <= v@.len(),
            v@.len() == p@.len(),
            p@ == s@,
            forall|j: int| 0 <= j < i ==> v@[j] == p@[j],
        decreases v@.len() - i,
    {
        if v[i] != p[i] {
            assert(v@[i as int] != p@[i as int]);
            assert(v@ != p@);
            return false;
        }
        i = i + 1;
    }
    assert(v@ =~= p@);
    true
}

/// `v` begins with `p`.
pub open spec fn starts(v: Seq<char>, p: Seq<char>) -> bool {
    p.len() <= v.len() && v.take(p.len() as int) == p
}

/// Whether `v` begins with `s`.
pub(crate) fn starts_with_text(v: &Vec<char>, s: &str) -> (r: bool)
    ensures
        r == starts(v@, s@),
{
    let p = crate::text::chars_of(s);
    if p.len() > v.len() {
        assert(s@.len() > v@.len());
        return false;
    }
    let mut i: usize = 0;
    while i < p.len()
        invariant
            i <= p@.len() <= v@.len(),
            p@ == s@,
            forall|j: int| 0 <= j < i ==> v@[j] == p@[j],
        decreases p@.len() - i,
    {
        if v[i] != p[i] {
            assert(v@.take(p@.len() as int)[i as int] == v@[i as int]);
            assert(v@.take(p@.len() as int) != p@);
            return false;
        }
        i = i + 1;
    }
    assert(v@.take(p@.len() as int) =~= p@);
    true
}

/// The characters of `a`, then `b`, then `c`.
fn joined(a: &str, b: &Vec<char>, c: &str) -> (r: Vec<char>)
    ensures
        r@ == a@ + b@ + c@,
{
    let mut r = crate::text::chars_of(a);
    let tail = crate::text::chars_of(c);
    let ghost r0 = r@;
    let mut k: usize = 0;
    while k < b.len()
        invariant
            k <= b@.len(),
            r@ == r0 + b@.take(k as int),
        decreases b@.len() - k,
    {
        r.push(b[k]);
        assert(b@.take(k + 1) =~= b@.take(k as int).push(b@[k as int]));
        k = k + 1;
    }
    assert(b@.take(b@.len() as int) =~= b@);
    let ghost r1 = r@;
    let mut k: usize = 0;
    while k < tail.len()
        invariant
            k <= tail@.len(),
            r@ == r1 + tail@.take(k as int),
        decreases tail@.len() - k,
    {
        r.push(tail[k]);
        assert(tail@.take(k + 1) =~= tail@.take(k as int).push(tail@[k as int]));
        k = k + 1;
    }
    assert(tail@.take(tail@.len() as int) =~= tail@);
    r
}

/// The colour that the word `lower` names, if any.
pub fn color_named(lower: &Vec<char>) -> (r: Option<TextColor>)
    ensures
        r == color_of(lower@),
{
    if text_is(lower, "red") {
        Some(TextColor::Red)
    } else if text_is(lower, "green") {
        Some(TextColor::Green)
    } else if text_is(lower, "blue") {
        Some(TextColor::Blue)
    } else if text_is(lower, "yellow") {
        Some(TextColor::Yellow)
    } else if text_is(lower, "cyan") {
        Some(TextColor::Cyan)
    } else if text_is(lower, "magenta") {
        Some(TextColor::Magenta)
    } else if text_is(lower, "white") {
        Some(TextColor::White)
    } else if text_is(lower, "black") {
        Some(TextColor::Black)
    } else {
        None
    }
}

/// The cell that `:goto` names, as (row, column) from 0 before any bounds
/// check: an upper-case letter for the column, then the row number.
pub open spec fn goto_target(r: Seq<char>) -> Option<(usize, usize)> {
    if r.len() > 0 && crate::text::is_upper(r[0]) && usize_of(r.drop_first()) is Some {
        Some((dec(usize_of(r.drop_first())->0), (r[0] as int - 'A' as int) as usize))
    } else {
        None
    }
}

/// The editor shows the error `msg`.
pub open spec fn shows_error(e: VimEditor, msg: Seq<char>) -> bool {
    e.error_message matches Some(v) && v@ == msg
}

/// The result of the command typed after `:` (the text trimmed): `q` or
/// `quit` ends the program; `w` or `write` succeeds; `goto A1` moves the
/// cursor and view; `b`, `i`, `u` toggle bold, italic, underline and `reset`
/// clears the format of the cursor's cell; `color name` colours it; anything
/// else is an error (`maxcols ...` is accepted and changes nothing).
pub open spec fn command_outcome(e: VimEditor, e2: VimEditor, r: VimAction) -> bool {
    let cmd = trim(e.command_buffer@);
    let cc = e.cursor_cell();
    let f = e.cell_formats@[cc];
    if cmd == "q"@ || cmd == "quit"@ {
        r == VimAction::Exit && e2 == e
    } else {
        &&& r == VimAction::Stay
        &&& if cmd == "w"@ || cmd == "write"@ {
            e2 == VimEditor { last_status: StatusCode::Success, ..e }
        } else if starts(cmd, "maxcols "@) {
            e2 == e
        } else if starts(cmd, "goto "@) {
            match goto_target(cmd.skip(5)) {
                Some((row, col)) => if row < e.sheet.n && col < e.sheet.m {
                    e2 == VimEditor {
                        cursor_x: col,
                        cursor_y: row,
                        start_col: col,
                        start_row: row,
                        last_status: StatusCode::Success,
                        ..e
                    }
                } else {
                    e2 == VimEditor { last_status: StatusCode::InvalidCell, ..e }
                },
                None => e2 == VimEditor { last_status: StatusCode::InvalidCell, ..e },
            }
        } else if cmd == "b"@ || cmd == "i"@ || cmd == "u"@ || cmd == "reset"@ {
            let f2 = if cmd == "b"@ {
                CellFormat { bold: !f.bold, ..f }
            } else if cmd == "i"@ {
                CellFormat { italic: !f.italic, ..f }
            } else if cmd == "u"@ {
                CellFormat { underline: !f.underline, ..f }
            } else {
                CellFormat::plain()
            };
            &&& e2 == VimEditor { last_status: StatusCode::Success, cell_formats: e2.cell_formats, ..e }
            &&& e2.cell_formats@ == e.cell_formats@.update(cc, f2)
        } else if starts(cmd, "color "@) {
            let name = cmd.skip(6);
            match color_of(lowercase(trim(name))) {
                Some(c) => {
                    &&& e2 == VimEditor { last_status: StatusCode::Success, cell_formats: e2.cell_formats, ..e }
                    &&& e2.cell_formats@ == e.cell_formats@.update(cc, CellFormat { color: Some(c), ..f })
                },
                None => {
                    &&& e2 == VimEditor { last_status: StatusCode::InvalidCmd, error_message: e2.error_message, ..e }
                    &&& shows_error(e2, "Invalid color: "@ + name)
                },
            }
        } else {
            &&& e2 == VimEditor { last_status: StatusCode::InvalidCmd, error_message: e2.error_message, ..e }
            &&& shows_error(e2, "Invalid command: "@ + cmd + ", type ':h' for list of commands."@)
        }
    }
}

impl VimEditor {
    /// Carries out the command typed after `:`.
    fn execute_command(&mut self) -> (r: VimAction)
        requires
            old(self).wf(),
        ensures
            final(self).wf(),
            command_outcome(*old(self), *final(self), r),
    {
        let cmd = trimmed(&self.command_buffer);
        proof {
            lemma_cell_bound(self.cursor_y as int, self.cursor_x as int, self.sheet.n as int, self.sheet.m as int);
            reveal_strlit("goto ");
            reveal_strlit("color ");
        }
        let cc = self.cursor_y * self.sheet.m + self.cursor_x;
        if text_is(&cmd, "q") || text_is(&cmd, "quit") {
            return VimAction::Exit;
        }
        if text_is(&cmd, "w") || text_is(&cmd, "write") {
            self.last_status = StatusCode::Success;
        } else if starts_with_text(&cmd, "maxcols ") {
        } else if starts_with_text(&cmd, "goto ") {
            let len = cmd.len();
            let cell_ref = slice_of(&cmd, 5, len);
            assert(cell_ref@ =~= cmd@.skip(5));
            if cell_ref.len() > 0 && 'A' <= cell_ref[0] && cell_ref[0] <= 'Z' {
                let col = (cell_ref[0] as u32 - 'A' as u32) as usize;
                let rl = cell_ref.len();
                assert(cell_ref@.subrange(1, rl as int) =~= cell_ref@.drop_first());
                if let Some(r1) = parse_usize_at(&cell_ref, 1, rl) {
                    let row = r1.wrapping_sub(1);
                    if col < self.sheet.m && row < self.sheet.n {
                        self.cursor_x = col;
                        self.cursor_y = row;
                        self.start_col = col;
                        self.start_row = row;
                        self.last_status = StatusCode::Success;
                        return VimAction::Stay;
                    }
                }
            }
            self.last_status = StatusCode::InvalidCell;
        } else if text_is(&cmd, "b") || text_is(&cmd, "i") || text_is(&cmd, "u") || text_is(&cmd, "reset") {
            let f = self.cell_formats[cc];
            let f2 = if text_is(&cmd, "b") {
                CellFormat { bold: !f.bold, ..f }
            } else if text_is(&cmd, "i") {
                CellFormat { italic: !f.italic, ..f }
            } else if text_is(&cmd, "u") {
                CellFormat { underline: !f.underline, ..f }
            } else {
                CellFormat::default()
            };
            self.cell_formats.set(cc, f2);
            self.last_status = StatusCode::Success;
        } else if starts_with_text(&cmd, "color ") {
            let len = cmd.len();
            let name = slice_of(&cmd, 6, len);
            assert(name@ =~= cmd@.skip(6));
            let lower = lowercase_of(&trimmed(&name));
            match color_named(&lower) {
                Some(c) => {
                    let f = self.cell_formats[cc];
                    self.cell_formats.set(cc, CellFormat { color: Some(c), ..f });
                    self.last_status = StatusCode::Success;
                },
                None => {
                    self.error_message = Some(joined("Invalid color: ", &name, ""));
                    proof {
                        reveal_strlit("");
                        assert(""@ =~= Seq::<char>::empty());
                        assert("Invalid color: "@ + name@ + ""@ =~= "Invalid color: "@ + name@);
                    }
                    self.last_status = StatusCode::InvalidCmd;
                },
            }
        } else {
            self.error_message = Some(joined("Invalid command: ", &cmd, ", type ':h' for list of commands."));
            self.last_status = StatusCode::InvalidCmd;
        }
        VimAction::Stay
    }
}


/// `es2` is `es` with `text` stored for `cell`: the cell's entry replaced
/// where it has one, else a new entry at the end.
pub open spec fn stored(es: Seq<ExprEntry>, cell: usize, text: Seq<char>, es2: Seq<ExprEntry>) -> bool {
    let k = entry_index(es, cell);
    if k >= 0 {
        &&& es2.len() == es.len()
        &&& forall|j: int| 0 <= j < es.len() && j != k ==> #[trigger] es2[j] == es[j]
        &&& es2[k].cell == cell
        &&& es2[k].text@ == text
    } else {
        &&& es2.len() == es.len() + 1
        &&& forall|j: int| 0 <= j < es.len() ==> #[trigger] es2[j] == es[j]
        &&& es2[es.len() as int].cell == cell
        &&& es2[es.len() as int].text@ == text
    }
}

/// Stores `text` as the expression of `cell`.
fn store_expression(es: &mut Vec<ExprEntry>, cell: usize, text: Vec<char>, Ghost(total): Ghost<int>)
    requires
        entries_in(old(es)@, total),
        entries_distinct(old(es)@),
        cell < total,
    ensures
        stored(old(es)@, cell, text@, final(es)@),
        entries_in(final(es)@, total),
        entries_distinct(final(es)@),
{
    proof {
        lemma_entry_index(es@, cell);
    }
    let ghost es0 = es@;
    let mut i: usize = 0;
    while i < es.len()
        invariant
            es@ == es0,
            es0 == old(es)@,
            i <= es@.len(),
            entries_in(es0, total),
            entries_distinct(es0),
            cell < total,
            forall|j: int| 0 <= j < i ==> (#[trigger] es@[j]).cell != cell,
        decreases es@.len() - i,
    {
        if es[i].cell == cell {
            proof {
                lemma_entry_index(es@, cell);
                let k = entry_index(es@, cell);
                assert(es@[i as int].cell == cell);
                if k >= 0 {
                    assert(es@[k].cell == cell);
                }
                assert(k == i);
            }
            es.set(i, ExprEntry { cell, text });
            proof {
                assert forall|a: int, b: int| 0 <= a < es@.len() && 0 <= b < es@.len() && a != b implies (#[trigger] es@[a]).cell != (#[trigger] es@[b]).cell by {
                    if a != i && b != i {
                        assert(es@[a] == es0[a] && es@[b] == es0[b]);
                    } else if a == i {
                        assert(es@[b] == es0[b]);
                        assert(es0[a].cell == cell);
                    } else {
                        assert(es@[a] == es0[a]);
                        assert(es0[b].cell == cell);
                    }
                }
                assert forall|j: int| 0 <= j < es@.len() implies (#[trigger] es@[j]).cell < total by {
                    if j != i {
                        assert(es@[j] == es0[j]);
                    }
                }
            }
            return;
        }
        i = i + 1;
    }
    proof {
        let k = entry_index(es@, cell);
        if k >= 0 {
            assert(es@[k].cell == cell);
        }
    }
    es.push(ExprEntry { cell, text });
    proof {
        assert forall|a: int, b: int| 0 <= a < es@.len() && 0 <= b < es@.len() && a != b implies (#[trigger] es@[a]).cell != (#[trigger] es@[b]).cell by {
            if a < es0.len() && b < es0.len() {
                assert(es@[a] == es0[a] && es@[b] == es0[b]);
            } else if a < es0.len() {
                assert(es@[a] == es0[a]);
            } else {
                assert(es@[b] == es0[b]);
            }
        }
        assert forall|j: int| 0 <= j < es@.len() implies (#[trigger] es@[j]).cell < total by {
            if j < es0.len() {
                assert(es@[j] == es0[j]);
            }
        }
    }
}

/// The editor after `ev` in normal mode: `q` (no modifier) leaves; `h j k l`
/// and the arrows move the cursor within the sheet; `i` starts insert mode
/// and `:` command mode with an empty command.
pub open spec fn normal_outcome(e: VimEditor, ev: KeyInput, e2: VimEditor, r: VimAction) -> bool {
    if ev.key == Key::Char('q') && ev.plain {
        r == VimAction::Leave && e2 == e
    } else {
        &&& r == VimAction::Stay
        &&& if ev.key == Key::Char('h') || ev.key == Key::Left {
            e2 == VimEditor { cursor_x: if e.cursor_x > 0 { (e.cursor_x - 1) as usize } else { e.cursor_x }, ..e }
        } else if ev.key == Key::Char('j') || ev.key == Key::Down {
            e2 == VimEditor { cursor_y: if e.cursor_y + 1 < e.sheet.n { (e.cursor_y + 1) as usize } else { e.cursor_y }, ..e }
        } else if ev.key == Key::Char('k') || ev.key == Key::Up {
            e2 == VimEditor { cursor_y: if e.cursor_y > 0 { (e.cursor_y - 1) as usize } else { e.cursor_y }, ..e }
        } else if ev.key == Key::Char('l') || ev.key == Key::Right {
            e2 == VimEditor { cursor_x: if e.cursor_x + 1 < e.sheet.m { (e.cursor_x + 1) as usize } else { e.cursor_x }, ..e }
        } else if ev.key == Key::Char('i') {
            e2 == VimEditor { mode: VimMode::Insert, ..e }
        } else if ev.key == Key::Char(':') {
            &&& e2 == VimEditor { mode: VimMode::Command, command_buffer: e2.command_buffer, ..e }
            &&& e2.command_buffer@.len() == 0
        } else {
            e2 == e
        }
    }
}

/// The characters that insert mode takes: letters, numbers and `+ - * /`.
pub open spec fn accepted_char(c: char) -> bool {
    alphanumeric(c) || c == '+' || c == '-' || c == '*' || c == '/'
}

/// The editor after `ev` in insert mode: `Esc` drops the input and goes back
/// to normal mode; `Enter` with some input evaluates it for the cursor's
/// cell, storing the value and the expression and recomputing the cells that
/// mention it, or showing an error, and goes back to normal mode; accepted
/// characters are typed and `Backspace` deletes the last one.
pub open spec fn insert_outcome(e: VimEditor, ev: KeyInput, e2: VimEditor) -> bool {
    let n = e.sheet.n as int;
    let m = e.sheet.m as int;
    let cc = e.cursor_cell();
    let input = e.current_input@;
    match ev.key {
        Key::Esc => {
            &&& e2 == VimEditor { mode: VimMode::Normal, current_input: e2.current_input, ..e }
            &&& e2.current_input@.len() == 0
        },
        Key::Enter => if input.len() == 0 {
            e2 == e
        } else {
            match eval_expr(input, e.sheet.data@, n, m) {
                Ok(v) => {
                    let c = e.sheet.data@[cc];
                    let data1 = e.sheet.data@.update(
                        cc,
                        CellInfo { info: crate::info::Info { invalid: false, ..c.info }, value: v, literal_mode: false },
                    );
                    &&& e2 == VimEditor {
                        mode: VimMode::Normal,
                        current_input: e2.current_input,
                        sheet: e2.sheet,
                        cell_expressions: e2.cell_expressions,
                        ..e
                    }
                    &&& e2.current_input@.len() == 0
                    &&& e2.sheet == Sheet { data: e2.sheet.data, ..e.sheet }
                    &&& stored(e.cell_expressions@, cc as usize, input, e2.cell_expressions@)
                    &&& e2.sheet.data@ == propagate(data1, e2.cell_expressions@, cc as usize, n, m, e2.cell_expressions@.len())
                },
                Err(_) => {
                    &&& e2 == VimEditor {
                        mode: VimMode::Normal,
                        current_input: e2.current_input,
                        error_message: e2.error_message,
                        ..e
                    }
                    &&& e2.current_input@.len() == 0
                    &&& shows_error(e2, "Invalid expression: "@ + input)
                },
            }
        },
        Key::Char(c) => if accepted_char(c) {
            &&& e2 == VimEditor { current_input: e2.current_input, ..e }
            &&& e2.current_input@ == input.push(c)
        } else {
            e2 == e
        },
        Key::Backspace => {
            &&& e2 == VimEditor { current_input: e2.current_input, ..e }
            &&& e2.current_input@ == (if input.len() > 0 { input.drop_last() } else { input })
        },
        _ => e2 == e,
    }
}

/// The editor after `ev` in command mode: `Esc` drops the command and goes
/// back to normal mode; `Enter` opens the help screen for `h` or `help`, and
/// otherwise carries out the command and (unless it ends the program) goes
/// back to normal mode, the command cleared; other characters are typed and
/// `Backspace` deletes the last one.
pub open spec fn command_key_outcome(e: VimEditor, ev: KeyInput, e2: VimEditor, r: VimAction) -> bool {
    let buf = e.command_buffer@;
    match ev.key {
        Key::Esc => {
            &&& r == VimAction::Stay
            &&& e2 == VimEditor { mode: VimMode::Normal, command_buffer: e2.command_buffer, ..e }
            &&& e2.command_buffer@.len() == 0
        },
        Key::Enter => if trim(buf) == "h"@ || trim(buf) == "help"@ {
            &&& r == VimAction::Stay
            &&& e2 == VimEditor { mode: VimMode::Help, command_buffer: e2.command_buffer, ..e }
            &&& e2.command_buffer@.len() == 0
        } else if r == VimAction::Exit {
            command_outcome(e, e2, r)
        } else {
            &&& r == VimAction::Stay
            &&& command_outcome(e, VimEditor { mode: e.mode, command_buffer: e.command_buffer, ..e2 }, r)
            &&& e2.mode == VimMode::Normal
            &&& e2.command_buffer@.len() == 0
        },
        Key::Char(c) => {
            &&& r == VimAction::Stay
            &&& e2 == VimEditor { command_buffer: e2.command_buffer, ..e }
            &&& e2.command_buffer@ == buf.push(c)
        },
        Key::Backspace => {
            &&& r == VimAction::Stay
            &&& e2 == VimEditor { command_buffer: e2.command_buffer, ..e }
            &&& e2.command_buffer@ == (if buf.len() > 0 { buf.drop_last() } else { buf })
        },
        _ => r == VimAction::Stay && e2 == e,
    }
}

/// The editor after `ev` on the help screen: `Esc` goes back to normal mode.
pub open spec fn help_outcome(e: VimEditor, ev: KeyInput, e2: VimEditor) -> bool {
    if ev.key == Key::Esc {
        e2 == VimEditor { mode: VimMode::Normal, ..e }
    } else {
        e2 == e
    }
}

/// The editor after the key `ev`, by the mode it was in.
pub open spec fn key_outcome(e: VimEditor, ev: KeyInput, e2: VimEditor, r: VimAction) -> bool {
    match e.mode {
        VimMode::Normal => normal_outcome(e, ev, e2, r),
        VimMode::Insert => r == VimAction::Stay && insert_outcome(e, ev, e2),
        VimMode::Command => command_key_outcome(e, ev, e2, r),
        VimMode::Help => r == VimAction::Stay && help_outcome(e, ev, e2),
    }
}

impl VimEditor {
    /// Handles a key in the current mode and says what the caller does next.
    pub fn handle_key_event(&mut self, ev: KeyInput) -> (r: VimAction)
        requires
            old(self).wf(),
        ensures
            final(self).wf(),
            key_outcome(*old(self), ev, *final(self), r),
    {
        match self.mode {
            VimMode::Normal => self.handle_normal_mode(ev),
            VimMode::Insert => {
                self.handle_insert_mode(ev);
                VimAction::Stay
            },
            VimMode::Command => self.handle_command_mode(ev),
            VimMode::Help => {
                self.handle_help_mode(ev);
                VimAction::Stay
            },
        }
    }

    /// Handles a key in normal mode.
    fn handle_normal_mode(&mut self, ev: KeyInput) -> (r: VimAction)
        requires
            old(self).wf(),
        ensures
            final(self).wf(),
            normal_outcome(*old(self), ev, *final(self), r),
    {
        match ev.key {
            Key::Char('q') if ev.plain => {
                return VimAction::Leave;
            },
            Key::Char('h') | Key::Left => {
                if self.cursor_x > 0 {
                    self.cursor_x = self.cursor_x - 1;
                }
            },
            Key::Char('j') | Key::Down => {
                if self.cursor_y < self.sheet.n - 1 {
                    self.cursor_y = self.cursor_y + 1;
                }
            },
            Key::Char('k') | Key::Up => {
                if self.cursor_y > 0 {
                    self.cursor_y = self.cursor_y - 1;
                }
            },
            Key::Char('l') | Key::Right => {
                if self.cursor_x < self.sheet.m - 1 {
                    self.cursor_x = self.cursor_x + 1;
                }
            },
            Key::Char('i') => {
                self.mode = VimMode::Insert;
            },
            Key::Char(':') => {
                self.mode = VimMode::Command;
                self.command_buffer.clear();
            },
            _ => {},
        }
        VimAction::Stay
    }

    /// Handles a key in insert mode.
    fn handle_insert_mode(&mut self, ev: KeyInput)
        requires
            old(self).wf(),
        ensures
            final(self).wf(),
            insert_outcome(*old(self), ev, *final(self)),
    {
        match ev.key {
            Key::Esc => {
                self.mode = VimMode::Normal;
                self.current_input.clear();
            },
            Key::Enter => {
                if self.current_input.len() > 0 {
                    self.commit_input();
                }
            },
            Key::Char(c) => {
                if is_alphanumeric_char(c) || c == '+' || c == '-' || c == '*' || c == '/' {
                    self.current_input.push(c);
                }
            },
            Key::Backspace => {
                self.current_input.pop();
            },
            _ => {},
        }
    }

    /// Evaluates the typed expression for the cursor's cell (see `insert_outcome`).
    #[verifier::rlimit(40)]
    fn commit_input(&mut self)
        requires
            old(self).wf(),
            old(self).current_input@.len() > 0,
        ensures
            final(self).wf(),
            insert_outcome(*old(self), KeyInput { key: Key::Enter, plain: true }, *final(self)),
    {
        proof {
            lemma_cell_bound(self.cursor_y as int, self.cursor_x as int, self.sheet.n as int, self.sheet.m as int);
        }
        let cc = self.cursor_y * self.sheet.m + self.cursor_x;
        match self.sheet.evaluate_expression(&self.current_input) {
            Ok(v) => {
                let mut c = self.sheet.get(cc);
                c.value = v;
                c.info.invalid = false;
                c.literal_mode = false;
                self.sheet.set(cc, c);
                let len = self.current_input.len();
                let text = slice_of(&self.current_input, 0, len);
                assert(text@ =~= self.current_input@);
                let ghost total = self.size();
                store_expression(&mut self.cell_expressions, cc, text, Ghost(total));
                self.update_dependent_cells(cc);
            },
            Err(_) => {
                self.error_message = Some(joined("Invalid expression: ", &self.current_input, ""));
                proof {
                    reveal_strlit("");
                    assert("Invalid expression: "@ + self.current_input@ + ""@ =~= "Invalid expression: "@
                        + self.current_input@);
                }
            },
        }
        self.current_input.clear();
        self.mode = VimMode::Normal;
    }

    /// Handles a key in command mode.
    fn handle_command_mode(&mut self, ev: KeyInput) -> (r: VimAction)
        requires
            old(self).wf(),
        ensures
            final(self).wf(),
            command_key_outcome(*old(self), ev, *final(self), r),
    {
        match ev.key {
            Key::Esc => {
                self.mode = VimMode::Normal;
                self.command_buffer.clear();
            },
            Key::Enter => {
                let t = trimmed(&self.command_buffer);
                if text_is(&t, "h") || text_is(&t, "help") {
                    self.mode = VimMode::Help;
                } else {
                    if self.execute_command() == VimAction::Exit {
                        return VimAction::Exit;
                    }
                    self.mode = VimMode::Normal;
                }
                self.command_buffer.clear();
            },
            Key::Char(c) => {
                self.command_buffer.push(c);
            },
            Key::Backspace => {
                self.command_buffer.pop();
            },
            _ => {},
        }
        VimAction::Stay
    }

    /// Handles a key on the help screen.
    fn handle_help_mode(&mut self, ev: KeyInput)
        requires
            old(self).wf(),
        ensures
            final(self).wf(),
            help_outcome(*old(self), ev, *final(self)),
    {
        if ev.key == Key::Esc {
            self.mode = VimMode::Normal;
        }
    }

    /// Drops the error shown.
    pub fn clear_error(&mut self)
        ensures
            *final(self) == (VimEditor { error_message: None, ..*old(self) }),
    {
        self.error_message = None;
    }
}


/// One cell as the editor draws it: its value (`None` for an error), whether
/// the cursor is on it, and its format.
#[derive(Debug, Clone, Copy)]
pub struct ScreenCell {
    pub value: Option<i32>,
    pub cursor: bool,
    pub format: CellFormat,
}

/// One row of the editor's view: its number (from 1) and its cells.
#[derive(Debug)]
pub struct ScreenRow {
    pub number: usize,
    pub cells: Vec<ScreenCell>,
}

/// What the editor's screen shows of the sheet: the column names, the rows
/// of the view, and the expression typed into the cursor's cell, if any.
#[derive(Debug)]
pub struct VimScreen {
    pub columns: Vec<String>,
    pub rows: Vec<ScreenRow>,
    pub cursor_expression: Option<Vec<char>>,
}

/// How many of `count` lines from `start` fit below `limit` (`start < limit`).
pub open spec fn span(start: usize, count: usize, limit: usize) -> int {
    if count < limit - start {
        count as int
    } else {
        limit - start
    }
}

impl VimEditor {
    /// The expression typed into `cell`, if any.
    pub fn expression_at(&self, cell: usize) -> (r: Option<Vec<char>>)
        ensures
            entry_index(self.cell_expressions@, cell) < 0 ==> r is None,
            entry_index(self.cell_expressions@, cell) >= 0 ==> (r matches Some(t) && t@ == stored_text(
                self.cell_expressions@,
                cell,
            )),
    {
        proof {
            lemma_entry_index(self.cell_expressions@, cell);
        }
        let es = &self.cell_expressions;
        let mut i: usize = 0;
        while i < es.len()
            invariant
                es@ == self.cell_expressions@,
                i <= es@.len(),
                forall|j: int| 0 <= j < i ==> (#[trigger] es@[j]).cell != cell,
            decreases es@.len() - i,
        {
            if es[i].cell == cell {
                proof {
                    lemma_entry_index(es@, cell);
                    let k = entry_index(es@, cell);
                    assert(es@[i as int].cell == cell);
                    if k >= 0 {
                        assert(es@[k].cell == cell);
                    }
                }
                return Some(stored_text_of(es, cell));
            }
            i = i + 1;
        }
        proof {
            lemma_entry_index(es@, cell);
            let k = entry_index(es@, cell);
            if k >= 0 {
                assert(es@[k].cell == cell);
            }
        }
        None
    }

    /// What the screen shows: columns and rows from the view's corner, as
    /// many as the view holds and the sheet has.
    pub fn screen(&self) -> (g: VimScreen)
        requires
            self.wf(),
        ensures
            ({
                let n = self.sheet.n;
                let m = self.sheet.m;
                let r0 = self.start_row;
                let c0 = self.start_col;
                &&& g.columns@.len() == span(c0, self.display_cols, m)
                &&& forall|k: int| 0 <= k < g.columns@.len() ==> #[trigger] g.columns@[k]@ == crate::convert::col_name(
                    ((c0 + k + 1) as u32) as nat,
                )
                &&& g.rows@.len() == span(r0, self.display_rows, n)
                &&& forall|i: int| 0 <= i < g.rows@.len() ==> {
                    &&& (#[trigger] g.rows@[i]).number == r0 + i + 1
                    &&& g.rows@[i].cells@.len() == g.columns@.len()
                    &&& forall|j: int| 0 <= j < g.rows@[i].cells@.len() ==> #[trigger] g.rows@[i].cells@[j] == (ScreenCell {
                        value: crate::sheet::shown(self.sheet.data@[(r0 + i) * m + c0 + j]),
                        cursor: r0 + i == self.cursor_y && c0 + j == self.cursor_x,
                        format: self.cell_formats@[(r0 + i) * m + c0 + j],
                    })
                }
                &&& (entry_index(self.cell_expressions@, self.cursor_cell() as usize) < 0 ==> g.cursor_expression is None)
                &&& (entry_index(self.cell_expressions@, self.cursor_cell() as usize) >= 0 ==> (
                g.cursor_expression matches Some(t) && t@ == stored_text(self.cell_expressions@, self.cursor_cell() as usize)))
            }),
    {
        let n = self.sheet.n;
        let m = self.sheet.m;
        let c0 = self.start_col;
        let r0 = self.start_row;
        let col_end = if self.display_cols < m - c0 { c0 + self.display_cols } else { m };
        let row_end = if self.display_rows < n - r0 { r0 + self.display_rows } else { n };
        assert(m <= n * m) by (nonlinear_arith)
            requires
                0 < n,
        ;
        let mut columns: Vec<String> = Vec::new();
        let mut j = c0;
        while j < col_end
            invariant
                c0 <= j <= col_end <= m,
                m <= i32::MAX,
                columns@.len() == j - c0,
                forall|k: int| 0 <= k < columns@.len() ==> #[trigger] columns@[k]@ == crate::convert::col_name(((c0 + k + 1) as u32) as nat),
            decreases col_end - j,
        {
            columns.push(crate::convert::num_to_alpha((j + 1) as u32));
            j = j + 1;
        }
        let mut rows: Vec<ScreenRow> = Vec::new();
        let mut i = r0;
        while i < row_end
            invariant
                self.wf(),
                n == self.sheet.n,
                m == self.sheet.m,
                r0 == self.start_row,
                c0 == self.start_col,
                r0 <= i <= row_end <= n,
                c0 <= col_end <= m,
                columns@.len() == col_end - c0,
                rows@.len() == i - r0,
                forall|r: int| 0 <= r < rows@.len() ==> {
                    &&& (#[trigger] rows@[r]).number == r0 + r + 1
                    &&& rows@[r].cells@.len() == columns@.len()
                    &&& forall|c: int| 0 <= c < rows@[r].cells@.len() ==> #[trigger] rows@[r].cells@[c] == (ScreenCell {
                        value: crate::sheet::shown(self.sheet.data@[(r0 + r) * m + c0 + c]),
                        cursor: r0 + r == self.cursor_y && c0 + c == self.cursor_x,
                        format: self.cell_formats@[(r0 + r) * m + c0 + c],
                    })
                },
            decreases row_end - i,
        {
            let mut cells: Vec<ScreenCell> = Vec::new();
            let mut j = c0;
            while j < col_end
                invariant
                    self.wf(),
                    n == self.sheet.n,
                    m == self.sheet.m,
                    i < row_end <= n,
                    c0 <= j <= col_end <= m,
                    cells@.len() == j - c0,
                    forall|c: int| 0 <= c < cells@.len() ==> #[trigger] cells@[c] == (ScreenCell {
                        value: crate::sheet::shown(self.sheet.data@[i * m + c0 + c]),
                        cursor: i == self.cursor_y && c0 + c == self.cursor_x,
                        format: self.cell_formats@[i * m + c0 + c],
                    }),
                decreases col_end - j,
            {
                proof {
                    lemma_cell_bound(i as int, j as int, n as int, m as int);
                }
                let idx = i * m + j;
                let cell = self.sheet.get(idx);
                cells.push(ScreenCell {
                    value: if cell.info.invalid { None } else { Some(cell.value) },
                    cursor: i == self.cursor_y && j == self.cursor_x,
                    format: self.cell_formats[idx],
                });
                j = j + 1;
            }
            rows.push(ScreenRow { number: i + 1, cells });
            i = i + 1;
        }
        proof {
            lemma_cell_bound(self.cursor_y as int, self.cursor_x as int, n as int, m as int);
        }
        let cc = self.cursor_y * m + self.cursor_x;
        VimScreen { columns, rows, cursor_expression: self.expression_at(cc) }
    }
}


/// In normal mode `h`, `j`, `k`, `l` do what the left, down, up and right
/// arrows do; `h` moves the cursor one column left when it is not in the
/// first column, changing nothing else, and `l` one column right when it is
/// not in the last.
pub proof fn lemma_h_moves_left(e: VimEditor, plain: bool, e2: VimEditor, r: VimAction)
    ensures
        normal_outcome(e, KeyInput { key: Key::Char('j'), plain }, e2, r) == normal_outcome(
            e,
            KeyInput { key: Key::Down, plain },
            e2,
            r,
        ),
        normal_outcome(e, KeyInput { key: Key::Char('k'), plain }, e2, r) == normal_outcome(
            e,
            KeyInput { key: Key::Up, plain },
            e2,
            r,
        ),
        normal_outcome(e, KeyInput { key: Key::Char('l'), plain }, e2, r) == normal_outcome(
            e,
            KeyInput { key: Key::Right, plain },
            e2,
            r,
        ),
        normal_outcome(e, KeyInput { key: Key::Char('l'), plain }, e2, r) ==> {
            &&& r == VimAction::Stay
            &&& e2.cursor_x == (if e.cursor_x + 1 < e.sheet.m { e.cursor_x + 1 } else { e.cursor_x as int })
            &&& e2 == VimEditor { cursor_x: e2.cursor_x, ..e }
        },
        normal_outcome(e, KeyInput { key: Key::Char('h'), plain }, e2, r) == normal_outcome(
            e,
            KeyInput { key: Key::Left, plain },
            e2,
            r,
        ),
        normal_outcome(e, KeyInput { key: Key::Char('h'), plain }, e2, r) ==> {
            &&& r == VimAction::Stay
            &&& e2.cursor_x == (if e.cursor_x > 0 { e.cursor_x - 1 } else { e.cursor_x as int })
            &&& e2 == VimEditor { cursor_x: e2.cursor_x, ..e }
        },
{
}

/// The formatting commands flip one flag of the cursor's cell each: `:b`
/// bold, `:i` italic, `:u` underline; the other flags, the colour and the
/// other cells stay as they were.
pub proof fn lemma_format_flags(e: VimEditor, e2: VimEditor, r: VimAction)
    requires
        e.wf(),
        command_outcome(e, e2, r),
    ensures
        ({
            let cmd = trim(e.command_buffer@);
            let cc = e.cursor_cell();
            let f = e.cell_formats@[cc];
            let g = e2.cell_formats@[cc];
            (cmd == seq!['b'] || cmd == seq!['i'] || cmd == seq!['u']) ==> {
                &&& r == VimAction::Stay
                &&& e2.cell_formats@.len() == e.cell_formats@.len()
                &&& forall|c: int| 0 <= c < e.cell_formats@.len() && c != cc ==> #[trigger] e2.cell_formats@[c] == e.cell_formats@[c]
                &&& g.bold == (if cmd == seq!['b'] { !f.bold } else { f.bold })
                &&& g.italic == (if cmd == seq!['i'] { !f.italic } else { f.italic })
                &&& g.underline == (if cmd == seq!['u'] { !f.underline } else { f.underline })
                &&& g.color == f.color
            }
        }),
{
    let cmd = trim(e.command_buffer@);
    if cmd == seq!['b'] || cmd == seq!['i'] || cmd == seq!['u'] {
        reveal_strlit("q");
        reveal_strlit("quit");
        reveal_strlit("w");
        reveal_strlit("write");
        reveal_strlit("maxcols ");
        reveal_strlit("goto ");
        reveal_strlit("b");
        reveal_strlit("i");
        reveal_strlit("u");
        assert("q"@ =~= seq!['q']);
        assert("w"@ =~= seq!['w']);
        assert("b"@ =~= seq!['b']);
        assert("i"@ =~= seq!['i']);
        assert("u"@ =~= seq!['u']);
        assert(cmd.len() == 1);
        assert(cmd[0] != 'q' && cmd[0] != 'w');
        assert(cmd != "q"@ && cmd != "w"@);
        assert(cmd.len() != "quit"@.len() && cmd.len() != "write"@.len());
        assert(!starts(cmd, "maxcols "@) && !starts(cmd, "goto "@));
        lemma_cell_bound(e.cursor_y as int, e.cursor_x as int, e.sheet.n as int, e.sheet.m as int);
        let cc = e.cursor_cell();
        assert(0 <= cc < e.cell_formats@.len());
        assert(cmd == "b"@ || cmd == "i"@ || cmd == "u"@);
    }
}

/// Division of two operands fails with `DivisionByZero` exactly when the
/// divisor is 0; otherwise it gives the quotient rounded toward zero
/// (whatever the dividend, 0 included), wrapping only for `i32::MIN / -1`.
pub proof fn lemma_division(s: Seq<char>, p: int, data: Seq<CellInfo>, n: int, m: int, a: i32, b: i32)
    requires
        operand_value(s.take(p), data, n, m, ExprError::InvalidLeftOperand) == Ok::<i32, ExprError>(a),
        operand_value(s.skip(p + 1), data, n, m, ExprError::InvalidRightOperand) == Ok::<i32, ExprError>(b),
    ensures
        b == 0 ==> split_value(s, '/', p, data, n, m) == Err::<i32, ExprError>(ExprError::DivisionByZero),
        b != 0 && !(a == i32::MIN && b == -1) ==> split_value(s, '/', p, data, n, m) == Ok::<i32, ExprError>(
            crate::formulas::trunc_div(a as int, b as int) as i32,
        ),
        b == -1 && a == i32::MIN ==> split_value(s, '/', p, data, n, m) == Ok::<i32, ExprError>(i32::MIN),
{
}

/// An expression `x/y` of two unsigned decimal numbers evaluates to their
/// quotient rounded toward zero, and fails with `DivisionByZero` exactly
/// when `y` is 0.
pub proof fn lemma_divide_numbers(x: Seq<char>, y: Seq<char>, data: Seq<CellInfo>, n: int, m: int)
    requires
        x.len() > 0,
        y.len() > 0,
        all_digits(x),
        all_digits(y),
        crate::text::digits_value(x) <= i32::MAX,
        crate::text::digits_value(y) <= i32::MAX,
    ensures
        ({
            let a = crate::text::digits_value(x) as int;
            let b = crate::text::digits_value(y) as int;
            let r = eval_expr(x + seq!['/'] + y, data, n, m);
            &&& b == 0 ==> r == Err::<i32, ExprError>(ExprError::DivisionByZero)
            &&& b != 0 ==> r == Ok::<i32, ExprError>((a / b) as i32)
        }),
{
    let s = x + seq!['/'] + y;
    let k = x.len() as int;
    assert(is_digit(x[0]));
    assert(is_digit(y[0]));
    assert forall|j: int| 0 <= j < s.len() implies s[j] != '+' && s[j] != '-' && s[j] != '*' && (s[j] == '/' <==> j == k) by {
        if j < k {
            assert(s[j] == x[j]);
            assert(is_digit(x[j]));
        } else if j > k {
            assert(s[j] == y[j - k - 1]);
            assert(is_digit(y[j - k - 1]));
        }
    }
    lemma_first_where(s, CharClass::Exactly('+'), s.len() as int);
    lemma_first_where(s, CharClass::Exactly('-'), s.len() as int);
    lemma_first_where(s, CharClass::Exactly('*'), s.len() as int);
    lemma_first_where(s, CharClass::Exactly('/'), k);
    assert(s[0] == x[0]);
    assert(crate::text::signed_body(s) == s);
    assert(!all_digits(s)) by {
        assert(!is_digit(s[k]));
    }
    assert(i32_of(s) is None);
    assert(!plain_reference(s));
    assert(s.take(k) =~= x);
    assert(s.skip(k + 1) =~= y);
    assert(crate::text::signed_body(x) == x);
    assert(crate::text::signed_body(y) == y);
    assert(i32_of(x) == Some(crate::text::digits_value(x) as i32));
    assert(i32_of(y) == Some(crate::text::digits_value(y) as i32));
    lemma_division(s, k, data, n, m, crate::text::digits_value(x) as i32, crate::text::digits_value(y) as i32);
}

} // verus!
