//! A small command language in spreadsheet notation: `A1 = 42`, `A1 = B2`,
//! `A1 = B2 + 3`, `A1 = 6 * 7`, `print`, `print A1`, `exit`.
//!
//! Cell names are column letters (either case, `A` = 1, `Z` = 26, `AA` = 27)
//! followed by a 1-based row number; a cell's index counts ten cells a row.
use vstd::prelude::*;
use crate::formulas::trunc_div;
use crate::text::{
    chars_of, i32_of, is_digit, is_letter, is_space, is_space_char, parse_i32_at, parse_usize_at, trim, trimmed,
    usize_of,
};

verus! {

/// What a command asks for.
#[derive(Debug, Clone, Copy, PartialEq, Eq, Structural)]
pub enum Operation {
    /// Row, column, value.
    SetValue(usize, usize, i32),
    /// Row, column, function id, first and second argument.
    SetFormula(usize, usize, usize, usize, usize),
    /// Row, column.
    PrintCell(usize, usize),
    /// The whole sheet.
    PrintSheet,
    /// Leave.
    Exit,
}

/// Position of the first `c` in `s`, or -1.
pub open spec fn index_of(s: Seq<char>, c: char) -> int
    decreases s.len(),
{
    if s.len() == 0 {
        -1
    } else if s[0] == c {
        0
    } else if index_of(s.drop_first(), c) < 0 {
        -1
    } else {
        index_of(s.drop_first(), c) + 1
    }
}

/// Position of the first white space in `s`, or -1.
pub open spec fn space_at(s: Seq<char>) -> int
    decreases s.len(),
{
    if s.len() == 0 {
        -1
    } else if is_space(s[0]) {
        0
    } else if space_at(s.drop_first()) < 0 {
        -1
    } else {
        space_at(s.drop_first()) + 1
    }
}

/// The number of letters that `s` starts with.
pub open spec fn letters_end(s: Seq<char>) -> nat
    decreases s.len(),
{
    if s.len() > 0 && is_letter(s[0]) {
        1 + letters_end(s.drop_first())
    } else {
        0
    }
}

/// The rank of a letter in the alphabet, either case: `A` = 1, `Z` = 26.
pub open spec fn letter_rank(c: char) -> int {
    if 'a' <= c && c <= 'z' {
        c as int - 'a' as int + 1
    } else {
        c as int - 'A' as int + 1
    }
}

/// The column number that a run of letters spells: `A` = 1, `Z` = 26, `AA` = 27.
pub open spec fn letters_value(s: Seq<char>) -> int
    decreases s.len(),
{
    if s.len() == 0 {
        0
    } else {
        letters_value(s.drop_last()) * 26 + letter_rank(s.last())
    }
}

/// The 0-based row and column of the cell named `s`: letters, then a row
/// number from 1, with nothing else; or what is wrong with it.
pub open spec fn cell_ref(s: Seq<char>) -> Result<(usize, usize), &'static str> {
    let k = letters_end(s) as int;
    if s.len() == 0 {
        Err("Empty cell reference")
    } else if k == s.len() {
        Err("Invalid cell reference — missing row number")
    } else if !is_digit(s[k]) {
        Err("Invalid character in cell reference")
    } else if k == 0 {
        Err("Invalid cell reference — missing row number")
    } else {
        match usize_of(s.skip(k)) {
            None => Err("Invalid row number"),
            Some(row) => Ok(((row - 1) as usize, (letters_value(s.take(k)) - 1) as usize)),
        }
    }
}

/// Reading `s` as a cell name overflows a machine word: its letters spell a
/// column past `usize::MAX`, or its row number is 0.
pub open spec fn cell_overflows(s: Seq<char>) -> bool {
    let k = letters_end(s) as int;
    ||| letters_value(s.take(k)) > usize::MAX
    ||| (0 < k < s.len() && is_digit(s[k]) && usize_of(s.skip(k)) == Some(0usize))
}

/// The index of the cell named `s`, ten cells a row.
pub open spec fn cell_index(s: Seq<char>) -> Result<usize, &'static str> {
    match cell_ref(s) {
        Ok((r, c)) => Ok((r * 10 + c) as usize),
        Err(e) => Err(e),
    }
}

/// Computing the index of the cell named `s` overflows a machine word.
pub open spec fn index_overflows(s: Seq<char>) -> bool {
    ||| cell_overflows(s)
    ||| (cell_ref(s) matches Ok((r, c)) && r * 10 + c > usize::MAX)
}

/// The first of `+`, `-`, `*`, `/` that occurs in `s`, with its function id
/// (1 to 4).
pub open spec fn arith_op(s: Seq<char>) -> Option<(usize, char)> {
    if index_of(s, '+') >= 0 {
        Some((1usize, '+'))
    } else if index_of(s, '-') >= 0 {
        Some((2usize, '-'))
    } else if index_of(s, '*') >= 0 {
        Some((3usize, '*'))
    } else if index_of(s, '/') >= 0 {
        Some((4usize, '/'))
    } else {
        None
    }
}

/// `a op b` on integers (division rounds toward zero).
pub open spec fn const_value(op: char, a: i32, b: i32) -> int {
    if op == '+' {
        a + b
    } else if op == '-' {
        a - b
    } else if op == '*' {
        a * b
    } else {
        trunc_div(a as int, b as int)
    }
}

/// An operand: a number (taken as a machine word, bit for bit), or a cell's index.
pub open spec fn arg_value(p: Seq<char>) -> Result<usize, &'static str> {
    match i32_of(p) {
        Some(v) => Ok(v as usize),
        None => cell_index(p),
    }
}

/// Reading the operand `p` overflows a machine word.
pub open spec fn arg_overflows(p: Seq<char>) -> bool {
    i32_of(p) is None && index_overflows(p)
}

/// The operator `op` of the right-hand side `rhs`, at `q`, occurs once; the
/// operands are what stands on either side.
pub open spec fn arith_command(row: usize, col: usize, rhs: Seq<char>, fid: usize, op: char) -> Result<Operation, &'static str> {
    let q = index_of(rhs, op);
    let p0 = trim(rhs.take(q));
    let p1 = trim(rhs.skip(q + 1));
    if index_of(rhs.skip(q + 1), op) >= 0 {
        Err("Invalid arithmetic formula format")
    } else if i32_of(p0) is Some && i32_of(p1) is Some {
        let a = i32_of(p0)->0;
        let b = i32_of(p1)->0;
        if op == '/' && b == 0 {
            Err("Division by zero")
        } else {
            Ok(Operation::SetValue(row, col, const_value(op, a, b) as i32))
        }
    } else {
        match arg_value(p0) {
            Err(e) => Err(e),
            Ok(x) => match arg_value(p1) {
                Err(e) => Err(e),
                Ok(y) => Ok(Operation::SetFormula(row, col, fid, x, y)),
            },
        }
    }
}

/// Evaluating the operator command overflows: a constant result out of
/// `i32`, or an operand that overflows as a cell name.
pub open spec fn arith_overflows(rhs: Seq<char>, op: char) -> bool {
    let q = index_of(rhs, op);
    let p0 = trim(rhs.take(q));
    let p1 = trim(rhs.skip(q + 1));
    &&& index_of(rhs.skip(q + 1), op) < 0
    &&& if i32_of(p0) is Some && i32_of(p1) is Some {
        let a = i32_of(p0)->0;
        let b = i32_of(p1)->0;
        !(op == '/' && b == 0) && !(i32::MIN <= const_value(op, a, b) <= i32::MAX)
    } else {
        arg_overflows(p0) || (arg_value(p0) is Ok && arg_overflows(p1))
    }
}

/// The command `cell = rhs` for the cell at `row`, `col`: a number, a cell,
/// or two operands around an operator.
pub open spec fn formula_command(row: usize, col: usize, rhs: Seq<char>) -> Result<Operation, &'static str> {
    if i32_of(rhs) is Some {
        Ok(Operation::SetValue(row, col, i32_of(rhs)->0))
    } else if cell_index(rhs) is Ok {
        Ok(Operation::SetFormula(row, col, 0, cell_index(rhs)->Ok_0, 0))
    } else {
        match arith_op(rhs) {
            None => Err("Unsupported formula format"),
            Some((fid, op)) => arith_command(row, col, rhs, fid, op),
        }
    }
}

/// Reading the right-hand side `rhs` overflows.
pub open spec fn formula_overflows(rhs: Seq<char>) -> bool {
    &&& i32_of(rhs) is None
    &&& (index_overflows(rhs) || (cell_index(rhs) is Err && match arith_op(rhs) {
        None => false,
        Some((fid, op)) => arith_overflows(rhs, op),
    }))
}

/// `t` starts with `print`, in either case.
pub open spec fn starts_print(t: Seq<char>) -> bool {
    &&& t.len() >= 5
    &&& (t[0] == 'p' || t[0] == 'P')
    &&& (t[1] == 'r' || t[1] == 'R')
    &&& (t[2] == 'i' || t[2] == 'I')
    &&& (t[3] == 'n' || t[3] == 'N')
    &&& (t[4] == 't' || t[4] == 'T')
}

/// `t` is `exit`, in either case.
pub open spec fn is_exit(t: Seq<char>) -> bool {
    &&& t.len() == 4
    &&& (t[0] == 'e' || t[0] == 'E')
    &&& (t[1] == 'x' || t[1] == 'X')
    &&& (t[2] == 'i' || t[2] == 'I')
    &&& (t[3] == 't' || t[3] == 'T')
}

/// A print command `t` (trimmed): one word prints the sheet, two words print
/// the cell the second names, more are refused.
pub open spec fn print_command(t: Seq<char>) -> Result<Operation, &'static str> {
    let w = space_at(t);
    let rest = trim(t.skip(w));
    if w < 0 {
        Ok(Operation::PrintSheet)
    } else if space_at(rest) >= 0 {
        Err("Invalid print format")
    } else {
        match cell_ref(rest) {
            Ok((r, c)) => Ok(Operation::PrintCell(r, c)),
            Err(e) => Err(e),
        }
    }
}

/// The command that the line `s` spells, or what is wrong with it. Around
/// its first `=` it sets a cell; otherwise it prints or exits.
pub open spec fn excel_op(s: Seq<char>) -> Result<Operation, &'static str> {
    let t = trim(s);
    let p = index_of(t, '=');
    if p >= 0 {
        match cell_ref(trim(t.take(p))) {
            Err(e) => Err(e),
            Ok((row, col)) => formula_command(row, col, trim(t.skip(p + 1))),
        }
    } else if starts_print(t) {
        print_command(t)
    } else if is_exit(t) {
        Ok(Operation::Exit)
    } else {
        Err("Unrecognized input format")
    }
}

/// Reading the line `s` overflows a machine integer somewhere.
pub open spec fn excel_overflows(s: Seq<char>) -> bool {
    let t = trim(s);
    let p = index_of(t, '=');
    if p >= 0 {
        let lhs = trim(t.take(p));
        cell_overflows(lhs) || (cell_ref(lhs) is Ok && formula_overflows(trim(t.skip(p + 1))))
    } else if starts_print(t) {
        let w = space_at(t);
        let rest = trim(t.skip(w));
        w >= 0 && space_at(rest) < 0 && cell_overflows(rest)
    } else {
        false
    }
}

/// The first `c` at or after no earlier `c` sits at `i`.
pub proof fn lemma_index_of(s: Seq<char>, c: char, i: int)
    requires
        0 <= i <= s.len(),
        forall|j: int| 0 <= j < i ==> s[j] != c,
        i == s.len() || s[i] == c,
    ensures
        index_of(s, c) == (if i == s.len() { -1 } else { i }),
    decreases i,
{
    if i > 0 {
        let t = s.drop_first();
        assert forall|j: int| 0 <= j < i - 1 implies t[j] != c by {
            assert(t[j] == s[j + 1]);
        }
        if i < s.len() {
            assert(t[i - 1] == s[i]);
        }
        lemma_index_of(t, c, i - 1);
    }
}

/// The first white space at or after no earlier one sits at `i`.
pub proof fn lemma_space_at(s: Seq<char>, i: int)
    requires
        0 <= i <= s.len(),
        forall|j: int| 0 <= j < i ==> !is_space(s[j]),
        i == s.len() || is_space(s[i]),
    ensures
        space_at(s) == (if i == s.len() { -1 } else { i }),
    decreases i,
{
    if i > 0 {
        let t = s.drop_first();
        assert forall|j: int| 0 <= j < i - 1 implies !is_space(t[j]) by {
            assert(t[j] == s[j + 1]);
        }
        if i < s.len() {
            assert(t[i - 1] == s[i]);
        }
        lemma_space_at(t, i - 1);
    }
}

/// `s` starts with exactly `i` letters.
pub proof fn lemma_letters_end(s: Seq<char>, i: int)
    requires
        0 <= i <= s.len(),
        forall|j: int| 0 <= j < i ==> is_letter(s[j]),
        i == s.len() || !is_letter(s[i]),
    ensures
        letters_end(s) == i,
    decreases i,
{
    if i > 0 {
        let t = s.drop_first();
        assert forall|j: int| 0 <= j < i - 1 implies is_letter(t[j]) by {
            assert(t[j] == s[j + 1]);
        }
        if i < s.len() {
            assert(t[i - 1] == s[i]);
        }
        lemma_letters_end(t, i - 1);
    }
}

/// A prefix of a run of letters spells no larger column than the whole run.
pub proof fn lemma_letters_prefix(s: Seq<char>, k: int)
    requires
        forall|j: int| 0 <= j < s.len() ==> is_letter(#[trigger] s[j]),
        0 <= k <= s.len(),
    ensures
        0 <= letters_value(s.take(k)) <= letters_value(s),
    decreases s.len(),
{
    if k < s.len() {
        let t = s.drop_last();
        assert(t.take(k) =~= s.take(k));
        lemma_letters_prefix(t, k);
        assert(is_letter(s[s.len() - 1]));
    } else {
        assert(s.take(k) =~= s);
        if s.len() > 0 {
            lemma_letters_prefix(s.drop_last(), 0);
            assert(is_letter(s[s.len() - 1]));
            assert(s.drop_last().take(s.len() - 1) =~= s.drop_last());
            lemma_letters_prefix(s.drop_last(), s.len() - 1);
        }
    }
}

/// The characters `v[a..b]`.
fn sub_chars(v: &Vec<char>, a: usize, b: usize) -> (r: Vec<char>)
    requires
        a <= b <= v@.len(),
    ensures
        r@ == v@.subrange(a as int, b as int),
{
    let mut r: Vec<char> = Vec::new();
    let mut k = a;
    while k < b
        invariant
            a <= k <= b <= v@.len(),
            r@ == v@.subrange(a as int, k as int),
        decreases b - k,
    {
        r.push(v[k]);
        assert(r@ =~= v@.subrange(a as int, k + 1));
        k = k + 1;
    }
    r
}

/// Where the first `c` in `v` sits.
fn find_char(v: &Vec<char>, c: char) -> (r: Option<usize>)
    ensures
        match r {
            Some(i) => i < v@.len() && index_of(v@, c) == i,
            None => index_of(v@, c) == -1,
        },
{
    let mut i: usize = 0;
    while i < v.len()
        invariant
            i <= v@.len(),
            forall|j: int| 0 <= j < i ==> v@[j] != c,
        decreases v@.len() - i,
    {
        if v[i] == c {
            proof {
                lemma_index_of(v@, c, i as int);
            }
            return Some(i);
        }
        i = i + 1;
    }
    proof {
        lemma_index_of(v@, c, i as int);
    }
    None
}

/// Where the first white space in `v` sits.
fn find_space(v: &Vec<char>) -> (r: Option<usize>)
    ensures
        match r {
            Some(i) => i < v@.len() && space_at(v@) == i,
            None => space_at(v@) == -1,
        },
{
    let mut i: usize = 0;
    while i < v.len()
        invariant
            i <= v@.len(),
            forall|j: int| 0 <= j < i ==> !is_space(v@[j]),
        decreases v@.len() - i,
    {
        if is_space_char(v[i]) {
            proof {
                lemma_space_at(v@, i as int);
            }
            return Some(i);
        }
        i = i + 1;
    }
    proof {
        lemma_space_at(v@, i as int);
    }
    None
}

/// Whether `c` is an ASCII letter.
fn is_letter_char(c: char) -> (r: bool)
    ensures
        r == is_letter(c),
{
    ('a' <= c && c <= 'z') || ('A' <= c && c <= 'Z')
}

/// Whether `c` is an ASCII digit.
fn is_digit_char(c: char) -> (r: bool)
    ensures
        r == is_digit(c),
{
    '0' <= c && c <= '9'
}

/// Reads the cell name `v`: its 0-based row and column.
fn parse_cell(v: &Vec<char>) -> (r: Result<(usize, usize), &'static str>)
    requires
        !cell_overflows(v@),
    ensures
        r == cell_ref(v@),
{
    if v.len() == 0 {
        return Err("Empty cell reference");
    }
    let mut e: usize = 0;
    while e < v.len() && is_letter_char(v[e])
        invariant
            e <= v@.len(),
            forall|j: int| 0 <= j < e ==> is_letter(v@[j]),
        decreases v@.len() - e,
    {
        e = e + 1;
    }
    proof {
        lemma_letters_end(v@, e as int);
    }
    let mut col: usize = 0;
    let mut i: usize = 0;
    while i < e
        invariant
            i <= e <= v@.len(),
            e == letters_end(v@),
            forall|j: int| 0 <= j < e ==> is_letter(v@[j]),
            col == letters_value(v@.take(i as int)),
            i > 0 ==> col >= 1,
            letters_value(v@.take(e as int)) <= usize::MAX,
        decreases e - i,
    {
        proof {
            let s = v@.take(e as int);
            assert forall|j: int| 0 <= j < s.len() implies is_letter(#[trigger] s[j]) by {}
            lemma_letters_prefix(s, i + 1);
            assert(s.take(i + 1) =~= v@.take(i + 1));
            assert(v@.take(i + 1).drop_last() =~= v@.take(i as int));
            assert(v@.take(i + 1).last() == v@[i as int]);
        }
        let c = v[i];
        let rank: u32 = if 'a' <= c && c <= 'z' {
            (c as u32) - ('a' as u32) + 1
        } else {
            (c as u32) - ('A' as u32) + 1
        };
        col = col * 26 + rank as usize;
        i = i + 1;
    }
    if e == v.len() {
        return Err("Invalid cell reference — missing row number");
    }
    if !is_digit_char(v[e]) {
        return Err("Invalid character in cell reference");
    }
    if e == 0 {
        return Err("Invalid cell reference — missing row number");
    }
    assert(v@.subrange(e as int, v@.len() as int) =~= v@.skip(e as int));
    match parse_usize_at(v, e, v.len()) {
        None => Err("Invalid row number"),
        Some(row) => Ok((row - 1, col - 1)),
    }
}

/// The index of the cell named `v`, ten cells a row.
fn cell_to_index(v: &Vec<char>) -> (r: Result<usize, &'static str>)
    requires
        !index_overflows(v@),
    ensures
        r == cell_index(v@),
{
    match parse_cell(v) {
        Ok((row, col)) => Ok(row * 10 + col),
        Err(e) => Err(e),
    }
}

/// The command `cell = x op y` for the first operator `op` of `rhs`, at `q`.
fn arith_cmd(row: usize, col: usize, rhs: &Vec<char>, fid: usize, op: char, q: usize) -> (r: Result<Operation, &'static str>)
    requires
        op == '+' || op == '-' || op == '*' || op == '/',
        q < rhs@.len(),
        index_of(rhs@, op) == q,
        !arith_overflows(rhs@, op),
    ensures
        r == arith_command(row, col, rhs@, fid, op),
{
    let n = rhs.len();
    let tail = sub_chars(rhs, q + 1, n);
    assert(tail@ =~= rhs@.skip(q + 1));
    if find_char(&tail, op).is_some() {
        return Err("Invalid arithmetic formula format");
    }
    let head = sub_chars(rhs, 0, q);
    assert(head@ =~= rhs@.take(q as int));
    let p0 = trimmed(&head);
    let p1 = trimmed(&tail);
    assert(p0@.subrange(0, p0@.len() as int) =~= p0@);
    assert(p1@.subrange(0, p1@.len() as int) =~= p1@);
    let a = parse_i32_at(&p0, 0, p0.len());
    let b = parse_i32_at(&p1, 0, p1.len());
    match (a, b) {
        (Some(a), Some(b)) => {
            if op == '/' && b == 0 {
                return Err("Division by zero");
            }
            let v: i32 = if op == '+' {
                a + b
            } else if op == '-' {
                a - b
            } else if op == '*' {
                a * b
            } else {
                proof {
                    if a == i32::MIN && b == -1 {
                        assert(2147483648int / -1int == -2147483648int);
                        assert(const_value(op, a, b) == 2147483648int);
                    }
                }
                a / b
            };
            Ok(Operation::SetValue(row, col, v))
        },
        _ => {
            let x: usize = match a {
                Some(val) => val as usize,
                None => match cell_to_index(&p0) {
                    Ok(i) => i,
                    Err(e) => {
                        return Err(e);
                    },
                },
            };
            let y: usize = match b {
                Some(val) => val as usize,
                None => match cell_to_index(&p1) {
                    Ok(i) => i,
                    Err(e) => {
                        return Err(e);
                    },
                },
            };
            Ok(Operation::SetFormula(row, col, fid, x, y))
        },
    }
}

/// The command `cell = rhs` for the cell at `row`, `col`.
fn formula_cmd(row: usize, col: usize, rhs: &Vec<char>) -> (r: Result<Operation, &'static str>)
    requires
        !formula_overflows(rhs@),
    ensures
        r == formula_command(row, col, rhs@),
{
    assert(rhs@.subrange(0, rhs@.len() as int) =~= rhs@);
    if let Some(val) = parse_i32_at(rhs, 0, rhs.len()) {
        return Ok(Operation::SetValue(row, col, val));
    }
    if let Ok(idx) = cell_to_index(rhs) {
        return Ok(Operation::SetFormula(row, col, 0, idx, 0));
    }
    if let Some(q) = find_char(rhs, '+') {
        return arith_cmd(row, col, rhs, 1, '+', q);
    }
    if let Some(q) = find_char(rhs, '-') {
        return arith_cmd(row, col, rhs, 2, '-', q);
    }
    if let Some(q) = find_char(rhs, '*') {
        return arith_cmd(row, col, rhs, 3, '*', q);
    }
    if let Some(q) = find_char(rhs, '/') {
        return arith_cmd(row, col, rhs, 4, '/', q);
    }
    Err("Unsupported formula format")
}

/// The print command `t`.
fn print_cmd(t: &Vec<char>) -> (r: Result<Operation, &'static str>)
    requires
        !(space_at(t@) >= 0 && space_at(trim(t@.skip(space_at(t@)))) < 0 && cell_overflows(trim(t@.skip(space_at(t@))))),
    ensures
        r == print_command(t@),
{
    match find_space(t) {
        None => Ok(Operation::PrintSheet),
        Some(w) => {
            let tail = sub_chars(t, w, t.len());
            assert(tail@ =~= t@.skip(w as int));
            let rest = trimmed(&tail);
            if find_space(&rest).is_some() {
                return Err("Invalid print format");
            }
            match parse_cell(&rest) {
                Ok((r, c)) => Ok(Operation::PrintCell(r, c)),
                Err(e) => Err(e),
            }
        },
    }
}

/// Reads one command line: around its first `=` it sets a cell (to a
/// number, to another cell, or to two operands around `+`, `-`, `*` or `/`,
/// constants being worked out at once); otherwise `print`, `print` and a
/// cell, or `exit`, in either case. Returns what is wrong with it otherwise.
pub fn parse_excel_style(input: &str) -> (r: Result<Operation, &'static str>)
    requires
        !excel_overflows(input@),
    ensures
        r == excel_op(input@),
{
    let raw = chars_of(input);
    let t = trimmed(&raw);
    match find_char(&t, '=') {
        Some(p) => {
            let n = t.len();
            let head = sub_chars(&t, 0, p);
            let tail = sub_chars(&t, p + 1, n);
            assert(head@ =~= t@.take(p as int));
            assert(tail@ =~= t@.skip(p + 1));
            let lhs = trimmed(&head);
            let rhs = trimmed(&tail);
            match parse_cell(&lhs) {
                Err(e) => Err(e),
                Ok((row, col)) => formula_cmd(row, col, &rhs),
            }
        },
        None => {
            let print = t.len() >= 5 && (t[0] == 'p' || t[0] == 'P') && (t[1] == 'r' || t[1] == 'R') && (t[2] == 'i'
                || t[2] == 'I') && (t[3] == 'n' || t[3] == 'N') && (t[4] == 't' || t[4] == 'T');
            let exit = t.len() == 4 && (t[0] == 'e' || t[0] == 'E') && (t[1] == 'x' || t[1] == 'X') && (t[2] == 'i'
                || t[2] == 'I') && (t[3] == 't' || t[3] == 'T');
            if print {
                print_cmd(&t)
            } else if exit {
                Ok(Operation::Exit)
            } else {
                Err("Unrecognized input format")
            }
        },
    }
}

} // verus!
