//! Parsing the commands typed at the prompt: cell references such as `B12`,
//! integer literals, formulas (`A1+2`, `SLEEP(3)`, `SUM(A1:B5)`), assignments
//! `C3=...` and the control commands.
//!
//! The grammar, in the notation of regular expressions:
//! - cell: `[A-Z]{1,3}[1-9][0-9]{0,2}`; integer: `[+-]?[0-9]+`; operand: cell or integer
//! - formula: `operand`, `SLEEP(operand)`, `operand op operand` with `op` one of
//!   `+ - * /`, `F(cell:cell)` with `F` one of `MAX MIN SUM AVG STDEV`, or
//!   `cell=formula` (the formula after the `=` is what counts)
//! - command: `cell=formula`, `undo`, `redo`, `disable_output`, `enable_output`,
//!   `scroll_to cell`, or one of the letters `w a s d` (`q` quits, which the
//!   program around the parser handles).
use vstd::prelude::*;
use crate::convert::{alpha_to_num_at, col_fold, is_col_name};
use crate::info::{CommandInfo, Info, ValueInfo};
use crate::text::{
    all_digits, chars_of, i32_of, is_digit, is_letter, is_upper, parse_i32_at, parse_usize_at, signed_body, usize_of,
};

verus! {

/// Represents different types of parsing errors.
#[derive(Debug, PartialEq, Eq, Structural, Clone, Copy)]
pub enum ParseError {
    /// Invalid command format.
    InvalidCommand,
    /// Invalid cell reference.
    InvalidCell,
    /// Invalid range reference.
    InvalidRange,
    /// Invalid value in an expression.
    InvalidValue,
    /// Failed to parse.
    ParseFailure,
}

/// Stores parser context information.
#[derive(Debug, Clone, Copy)]
pub struct ParserContext {
    /// Current row position in the sheet.
    pub px: usize,
    /// Current column position in the sheet.
    pub py: usize,
    /// Controls whether output is enabled.
    pub output_enabled: bool,
}

impl ParserContext {
    /// Creates a new parser context: top left corner, output on.
    pub fn new() -> (c: Self)
        ensures
            c == (ParserContext { px: 0, py: 0, output_enabled: true }),
    {
        ParserContext { px: 0, py: 0, output_enabled: true }
    }
}

/// A digit from 1 to 9.
pub open spec fn is_digit1(c: char) -> bool {
    '1' <= c && c <= '9'
}

/// `s` is a cell reference whose letters are its first `k` characters.
pub open spec fn cell_split(s: Seq<char>, k: int) -> bool {
    &&& 1 <= k <= 3
    &&& k < s.len() <= k + 3
    &&& forall|i: int| 0 <= i < k ==> is_upper(#[trigger] s[i])
    &&& is_digit1(s[k])
    &&& forall|i: int| k < i < s.len() ==> is_digit(#[trigger] s[i])
}

/// `s` is a cell reference: `[A-Z]{1,3}[1-9][0-9]{0,2}`.
pub open spec fn cell_text(s: Seq<char>) -> bool {
    exists|k: int| cell_split(s, k)
}

/// `s` is an integer literal: `[+-]?[0-9]+`.
pub open spec fn int_text(s: Seq<char>) -> bool {
    signed_body(s).len() > 0 && all_digits(signed_body(s))
}

/// `s` is an operand: a cell reference or an integer literal.
pub open spec fn operand_text(s: Seq<char>) -> bool {
    cell_text(s) || int_text(s)
}

/// A class of characters that the parser searches for.
pub enum CharClass {
    /// A decimal digit.
    Digit,
    /// One of the operators `+ - * /`.
    Operator,
    /// The given character.
    Exactly(char),
    /// Anything but an ASCII letter.
    NonLetter,
}

/// Whether `c` belongs to the class `p`.
pub open spec fn in_class(p: CharClass, c: char) -> bool {
    match p {
        CharClass::Digit => is_digit(c),
        CharClass::Operator => is_op(c),
        CharClass::Exactly(x) => c == x,
        CharClass::NonLetter => !is_letter(c),
    }
}

/// The position of the first character of `s` in class `p`, or -1.
pub open spec fn first_where(s: Seq<char>, p: CharClass) -> int
    decreases s.len(),
{
    if s.len() == 0 {
        -1
    } else if in_class(p, s[0]) {
        0
    } else {
        let k = first_where(s.drop_first(), p);
        if k < 0 {
            -1
        } else {
            k + 1
        }
    }
}

/// `first_where` is -1 or a position in class `p` with none before it.
pub proof fn lemma_first_where_props(s: Seq<char>, p: CharClass)
    ensures
        -1 <= first_where(s, p) < s.len(),
        first_where(s, p) >= 0 ==> in_class(p, s[first_where(s, p)]),
        forall|j: int| 0 <= j < s.len() && (first_where(s, p) < 0 || j < first_where(s, p)) ==> !in_class(p, #[trigger] s[j]),
    decreases s.len(),
{
    if s.len() > 0 {
        lemma_first_where_props(s.drop_first(), p);
        assert forall|j: int| 0 <= j < s.len() && (first_where(s, p) < 0 || j < first_where(s, p)) implies !in_class(p, #[trigger] s[j]) by {
            if j > 0 {
                assert(s[j] == s.drop_first()[j - 1]);
            }
        }
    }
}

/// The position of the first digit of `s`, or -1.
pub open spec fn first_digit(s: Seq<char>) -> int {
    first_where(s, CharClass::Digit)
}

/// `first_where` is the first position whose character satisfies `p`.
pub proof fn lemma_first_where(s: Seq<char>, p: CharClass, k: int)
    requires
        0 <= k <= s.len(),
        forall|j: int| 0 <= j < k ==> !in_class(p, #[trigger] s[j]),
    ensures
        k < s.len() && in_class(p, s[k]) ==> first_where(s, p) == k,
        k == s.len() ==> first_where(s, p) == -1,
    decreases k,
{
    if k > 0 {
        assert(!in_class(p, s[0]));
        assert forall|j: int| 0 <= j < k - 1 implies !in_class(p, #[trigger] s.drop_first()[j]) by {
            assert(s.drop_first()[j] == s[j + 1]);
        }
        lemma_first_where(s.drop_first(), p, k - 1);
    }
}

/// `x - 1` in `usize` arithmetic that wraps around.
pub open spec fn dec(x: usize) -> usize {
    if x == 0 {
        usize::MAX
    } else {
        (x - 1) as usize
    }
}

/// The linear index of the cell that `s` names in a sheet of `n` rows and
/// `m` columns: the letters before the first digit name the column, the rest
/// is the row number (from 1).
pub open spec fn cell_index(s: Seq<char>, n: int, m: int) -> Result<usize, ParseError> {
    let p = first_digit(s);
    if p < 0 || !is_col_name(s.take(p)) {
        Err(ParseError::InvalidCell)
    } else {
        match usize_of(s.skip(p)) {
            None => Err(ParseError::InvalidCell),
            Some(r) => {
                let row = dec(r);
                let col = dec(col_fold(s.take(p)));
                if row < n && col < m {
                    Ok((row * m + col) as usize)
                } else {
                    Err(ParseError::InvalidCell)
                }
            },
        }
    }
}

/// The operand that `s` (nonempty) denotes: a cell when it starts with an
/// upper-case letter, else an integer.
pub open spec fn value_of(s: Seq<char>, n: int, m: int) -> Result<ValueInfo, ParseError> {
    if is_upper(s[0]) {
        match cell_index(s, n, m) {
            Ok(c) => Ok(ValueInfo { is_cell: true, value: c as i32 }),
            Err(e) => Err(e),
        }
    } else {
        match i32_of(s) {
            Some(v) => Ok(ValueInfo { is_cell: false, value: v }),
            None => Err(ParseError::InvalidValue),
        }
    }
}

/// The position of the first `c` in `s`, or -1.
pub open spec fn first_of(s: Seq<char>, c: char) -> int {
    first_where(s, CharClass::Exactly(c))
}

/// One of the four operators `+ - * /`.
pub open spec fn is_op(c: char) -> bool {
    c == '+' || c == '-' || c == '*' || c == '/'
}

/// The position of the first operator after the first character, or -1.
pub open spec fn op_pos(s: Seq<char>) -> int {
    if s.len() == 0 {
        -1
    } else {
        let p = first_where(s.drop_first(), CharClass::Operator);
        if p < 0 {
            -1
        } else {
            p + 1
        }
    }
}

/// The index of the operator among `+ - * /`.
pub open spec fn op_index(c: char) -> int {
    if c == '+' {
        0
    } else if c == '-' {
        1
    } else if c == '*' {
        2
    } else {
        3
    }
}


/// `SLEEP(`, the start of a sleep formula.
pub open spec fn sleep_prefix() -> Seq<char> {
    seq!['S', 'L', 'E', 'E', 'P', '(']
}

/// `s` is `SLEEP(operand)`.
pub open spec fn sleep_form(s: Seq<char>) -> bool {
    &&& s.len() >= 8
    &&& s.take(6) == sleep_prefix()
    &&& s.last() == ')'
    &&& operand_text(s.subrange(6, s.len() - 1))
}

/// `s` is `operand op operand`, split at its first operator after the first character.
pub open spec fn arith_form(s: Seq<char>) -> bool {
    let i = op_pos(s);
    i >= 1 && operand_text(s.take(i)) && operand_text(s.skip(i + 1))
}

/// The name and opening bracket of range function `f` (0 to 4).
pub open spec fn range_head(f: int) -> Seq<char> {
    if f == 0 {
        seq!['M', 'A', 'X', '(']
    } else if f == 1 {
        seq!['M', 'I', 'N', '(']
    } else if f == 2 {
        seq!['S', 'U', 'M', '(']
    } else if f == 3 {
        seq!['A', 'V', 'G', '(']
    } else {
        seq!['S', 'T', 'D', 'E', 'V', '(']
    }
}

/// Which range function `s` starts with (0 `MAX`, 1 `MIN`, 2 `SUM`, 3 `AVG`,
/// 4 `STDEV`), or -1.
pub open spec fn range_fn(s: Seq<char>) -> int {
    if s.len() >= 4 && s.take(4) == range_head(0) {
        0
    } else if s.len() >= 4 && s.take(4) == range_head(1) {
        1
    } else if s.len() >= 4 && s.take(4) == range_head(2) {
        2
    } else if s.len() >= 4 && s.take(4) == range_head(3) {
        3
    } else if s.len() >= 6 && s.take(6) == range_head(4) {
        4
    } else {
        -1
    }
}

/// What lies between the brackets of a range formula `s`.
pub open spec fn range_body(s: Seq<char>) -> Seq<char> {
    s.subrange(range_head(range_fn(s)).len() as int, s.len() - 1)
}

/// `s` is `F(cell:cell)`.
pub open spec fn range_form(s: Seq<char>) -> bool {
    let f = range_fn(s);
    let body = range_body(s);
    let c = first_of(body, ':');
    &&& f >= 0
    &&& s.len() > range_head(f).len()
    &&& s.last() == ')'
    &&& c >= 0
    &&& cell_text(body.take(c))
    &&& cell_text(body.skip(c + 1))
}

/// `s` is `cell=formula`, with no line break in the formula.
pub open spec fn expr_form(s: Seq<char>) -> bool {
    let e = first_of(s, '=');
    &&& e >= 0
    &&& cell_text(s.take(e))
    &&& s.len() > e + 1
    &&& first_of(s.skip(e + 1), '\n') < 0
}

/// Storing operand `x` as the single argument of function `t` (0 assignment, 1 sleep).
pub open spec fn assign_step(x: Seq<char>, info: Info, t: u8, n: int, m: int) -> (Result<(), ParseError>, Info) {
    match value_of(x, n, m) {
        Err(e) => (Err(e), info),
        Ok(vi) => (Ok(()), Info { arg_mask: if vi.is_cell { 1u8 } else { 0u8 }, arg: [vi.value, info.arg[1]], function_id: t, ..info }),
    }
}

/// Storing `left op right`, split at position `i`: the function is set
/// first, then each operand in turn (an error stops there).
pub open spec fn arith_step(s: Seq<char>, i: int, info: Info, n: int, m: int) -> (Result<(), ParseError>, Info) {
    let info1 = Info { function_id: (2 + op_index(s[i])) as u8, ..info };
    match value_of(s.take(i), n, m) {
        Err(e) => (Err(e), info1),
        Ok(v0) => {
            let info2 = Info { arg_mask: info1.arg_mask | (if v0.is_cell { 1u8 } else { 0u8 }), arg: [v0.value, info1.arg[1]], ..info1 };
            match value_of(s.skip(i + 1), n, m) {
                Err(e) => (Err(e), info2),
                Ok(v1) => (Ok(()), Info { arg_mask: info2.arg_mask | (if v1.is_cell { 2u8 } else { 0u8 }), arg: [info2.arg[0], v1.value], ..info2 }),
            }
        },
    }
}

/// Storing a range formula: function and mask first, then each corner in
/// turn, then the check that the first corner is the top left one.
pub open spec fn range_step(s: Seq<char>, info: Info, n: int, m: int) -> (Result<(), ParseError>, Info) {
    let body = range_body(s);
    let c = first_of(body, ':');
    let info1 = Info { function_id: (6 + range_fn(s)) as u8, arg_mask: 3u8, ..info };
    match cell_index(body.take(c), n, m) {
        Err(e) => (Err(e), info1),
        Ok(a) => {
            let info2 = Info { arg: [a as i32, info1.arg[1]], ..info1 };
            match cell_index(body.skip(c + 1), n, m) {
                Err(e) => (Err(e), info2),
                Ok(b) => {
                    let info3 = Info { arg: [info2.arg[0], b as i32], ..info2 };
                    if crate::sheet::valid_range_spec(a as int, b as int, m) {
                        (Ok(()), info3)
                    } else {
                        (Err(ParseError::InvalidRange), info3)
                    }
                },
            }
        },
    }
}

/// The result of parsing the formula `s` into `info`, and what `info` becomes:
/// the first of the forms above that `s` has decides.
pub open spec fn parse_expr(s: Seq<char>, info: Info, n: int, m: int) -> (Result<(), ParseError>, Info)
    decreases s.len(),
{
    if operand_text(s) {
        assign_step(s, info, 0, n, m)
    } else if sleep_form(s) {
        assign_step(s.subrange(6, s.len() - 1), info, 1, n, m)
    } else if arith_form(s) {
        arith_step(s, op_pos(s), info, n, m)
    } else if range_form(s) {
        range_step(s, info, n, m)
    } else if expr_form(s) {
        parse_expr(s.skip(first_of(s, '=') + 1), info, n, m)
    } else {
        (Err(ParseError::InvalidCommand), info)
    }
}


/// The position in `v[a..b]` of its first digit.
fn first_digit_at(v: &Vec<char>, a: usize, b: usize) -> (r: Option<usize>)
    requires
        a <= b <= v@.len(),
    ensures
        ({
            let k = first_digit(v@.subrange(a as int, b as int));
            r == (if k < 0 { None::<usize> } else { Some(k as usize) })
        }),
{
    let ghost t = v@.subrange(a as int, b as int);
    let ghost p = CharClass::Digit;
    let mut i = a;
    while i < b
        invariant
            a <= i <= b <= v@.len(),
            t == v@.subrange(a as int, b as int),
            p == CharClass::Digit,
            forall|j: int| 0 <= j < i - a ==> !in_class(p, #[trigger] t[j]),
        decreases b - i,
    {
        if '0' <= v[i] && v[i] <= '9' {
            proof {
                assert(t[i - a] == v@[i as int]);
                lemma_first_where(t, p, i - a);
            }
            return Some(i - a);
        }
        assert(t[i - a] == v@[i as int]);
        i = i + 1;
    }
    proof {
        lemma_first_where(t, p, t.len() as int);
    }
    None
}

/// The position in `v[a..b]` of its first character `c`.
pub(crate) fn first_char_at(v: &Vec<char>, a: usize, b: usize, c: char) -> (r: Option<usize>)
    requires
        a <= b <= v@.len(),
    ensures
        ({
            let k = first_of(v@.subrange(a as int, b as int), c);
            r == (if k < 0 { None::<usize> } else { Some(k as usize) })
        }),
{
    let ghost t = v@.subrange(a as int, b as int);
    let ghost p = CharClass::Exactly(c);
    let mut i = a;
    while i < b
        invariant
            a <= i <= b <= v@.len(),
            t == v@.subrange(a as int, b as int),
            p == CharClass::Exactly(c),
            forall|j: int| 0 <= j < i - a ==> !in_class(p, #[trigger] t[j]),
        decreases b - i,
    {
        if v[i] == c {
            proof {
                assert(t[i - a] == v@[i as int]);
                lemma_first_where(t, p, i - a);
            }
            return Some(i - a);
        }
        assert(t[i - a] == v@[i as int]);
        i = i + 1;
    }
    proof {
        lemma_first_where(t, p, t.len() as int);
    }
    None
}

/// The position in `v[a..b]` of its first operator after its first character.
fn op_pos_at(v: &Vec<char>, a: usize, b: usize) -> (r: Option<usize>)
    requires
        a <= b <= v@.len(),
    ensures
        ({
            let k = op_pos(v@.subrange(a as int, b as int));
            r == (if k < 0 { None::<usize> } else { Some(k as usize) })
        }),
{
    let ghost t = v@.subrange(a as int, b as int);
    if a == b {
        return None;
    }
    let ghost u = t.drop_first();
    let ghost p = CharClass::Operator;
    let mut i = a + 1;
    while i < b
        invariant
            a + 1 <= i <= b <= v@.len(),
            t == v@.subrange(a as int, b as int),
            u == t.drop_first(),
            p == CharClass::Operator,
            forall|j: int| 0 <= j < i - a - 1 ==> !in_class(p, #[trigger] u[j]),
        decreases b - i,
    {
        let c = v[i];
        if c == '+' || c == '-' || c == '*' || c == '/' {
            proof {
                assert(u[i - a - 1] == v@[i as int]);
                lemma_first_where(u, p, i - a - 1);
            }
            return Some(i - a);
        }
        assert(u[i - a - 1] == v@[i as int]);
        i = i + 1;
    }
    proof {
        lemma_first_where(u, p, u.len() as int);
    }
    None
}

/// Whether `v[a..b]` is a cell reference.
fn cell_text_at(v: &Vec<char>, a: usize, b: usize) -> (r: bool)
    requires
        a <= b <= v@.len(),
    ensures
        r == cell_text(v@.subrange(a as int, b as int)),
{
    let ghost t = v@.subrange(a as int, b as int);
    let mut i = a;
    while i < b && 'A' <= v[i] && v[i] <= 'Z'
        invariant
            a <= i <= b <= v@.len(),
            t == v@.subrange(a as int, b as int),
            forall|j: int| 0 <= j < i - a ==> is_upper(#[trigger] t[j]),
        decreases b - i,
    {
        assert(t[i - a] == v@[i as int]);
        i = i + 1;
    }
    let k = i - a;
    proof {
        if i < b {
            assert(t[k as int] == v@[i as int]);
        }
        assert forall|k2: int| cell_split(t, k2) implies k2 == k by {
            if k2 < k {
                assert(is_upper(t[k2]));
            } else if k2 > k {
                assert(is_upper(t[k as int]));
            }
        }
    }
    if k < 1 || k > 3 || i >= b || b - i > 3 || !('1' <= v[i] && v[i] <= '9') {
        proof {
            if i < b {
                assert(t[k as int] == v@[i as int]);
            }
            assert(!cell_split(t, k as int));
            assert(!cell_text(t)) by {
                if cell_text(t) {
                    let k2 = choose|k2: int| cell_split(t, k2);
                    if k2 < k {
                        assert(is_upper(t[k2]));
                    } else if k2 > k {
                        assert(is_upper(t[k as int]));
                    }
                }
            }
        }
        return false;
    }
    assert(t[k as int] == v@[i as int]);
    let mut j = i + 1;
    while j < b
        invariant
            i < j <= b <= v@.len(),
            t == v@.subrange(a as int, b as int),
            k == i - a,
            1 <= k <= 3,
            b - i <= 3,
            is_digit1(t[k as int]),
            forall|x: int| 0 <= x < k ==> is_upper(#[trigger] t[x]),
            forall|k2: int| cell_split(t, k2) ==> k2 == k,
            forall|x: int| k < x < j - a ==> is_digit(#[trigger] t[x]),
        decreases b - j,
    {
        if !('0' <= v[j] && v[j] <= '9') {
            proof {
                assert(t[j - a] == v@[j as int]);
                assert(!cell_split(t, k as int));
                assert(!cell_text(t)) by {
                    if cell_text(t) {
                    }
                }
            }
            return false;
        }
        assert(t[j - a] == v@[j as int]);
        j = j + 1;
    }
    assert(cell_split(t, k as int));
    true
}

/// Whether `v[a..b]` is an integer literal.
fn int_text_at(v: &Vec<char>, a: usize, b: usize) -> (r: bool)
    requires
        a <= b <= v@.len(),
    ensures
        r == int_text(v@.subrange(a as int, b as int)),
{
    let ghost t = v@.subrange(a as int, b as int);
    let body: usize = if a < b && (v[a] == '+' || v[a] == '-') { a + 1 } else { a };
    assert(v@.subrange(body as int, b as int) =~= signed_body(t));
    if body == b {
        return false;
    }
    let mut j = body;
    while j < b
        invariant
            body <= j <= b <= v@.len(),
            t == v@.subrange(a as int, b as int),
            v@.subrange(body as int, b as int) == signed_body(t),
            forall|x: int| body <= x < j ==> is_digit(#[trigger] v@[x]),
        decreases b - j,
    {
        if !('0' <= v[j] && v[j] <= '9') {
            assert(signed_body(t)[j - body] == v@[j as int]);
            return false;
        }
        j = j + 1;
    }
    assert forall|x: int| 0 <= x < signed_body(t).len() implies is_digit(#[trigger] signed_body(t)[x]) by {
        assert(signed_body(t)[x] == v@[body + x]);
    }
    true
}


/// The cell that `v[a..b]` names, as `cell_parser` reads it.
fn cell_parser_at(v: &Vec<char>, a: usize, b: usize, n: usize, m: usize) -> (r: Result<usize, ParseError>)
    requires
        a <= b <= v@.len(),
        n * m <= i32::MAX,
    ensures
        r == cell_index(v@.subrange(a as int, b as int), n as int, m as int),
        r matches Ok(c) ==> c < n * m,
{
    let ghost t = v@.subrange(a as int, b as int);
    proof {
        lemma_first_where_props(t, CharClass::Digit);
    }
    let p = match first_digit_at(v, a, b) {
        Some(p) => p,
        None => return Err(ParseError::InvalidCell),
    };
    assert(t.take(p as int) =~= v@.subrange(a as int, (a + p) as int));
    assert(t.skip(p as int) =~= v@.subrange((a + p) as int, b as int));
    let col = match alpha_to_num_at(v, a, a + p) {
        Some(c) => c,
        None => return Err(ParseError::InvalidCell),
    };
    let row1 = match parse_usize_at(v, a + p, b) {
        Some(r) => r,
        None => return Err(ParseError::InvalidCell),
    };
    let row = row1.wrapping_sub(1);
    let col0 = col.wrapping_sub(1);
    if !crate::sheet::is_valid_cell(row, col0, n, m) {
        return Err(ParseError::InvalidCell);
    }
    proof {
        crate::formulas::lemma_cell_bound(row as int, col0 as int, n as int, m as int);
    }
    Ok(crate::sheet::get_cell(row, col0, m))
}

/// The operand that `v[a..b]` (nonempty) denotes, as `value_parser` reads it.
fn value_parser_at(v: &Vec<char>, a: usize, b: usize, n: usize, m: usize) -> (r: Result<ValueInfo, ParseError>)
    requires
        a < b <= v@.len(),
        n * m <= i32::MAX,
    ensures
        r == value_of(v@.subrange(a as int, b as int), n as int, m as int),
        r matches Ok(vi) ==> (vi.is_cell ==> 0 <= vi.value < n * m),
{
    let ghost t = v@.subrange(a as int, b as int);
    assert(t[0] == v@[a as int]);
    if 'A' <= v[a] && v[a] <= 'Z' {
        match cell_parser_at(v, a, b, n, m) {
            Ok(c) => Ok(ValueInfo { is_cell: true, value: c as i32 }),
            Err(e) => Err(e),
        }
    } else {
        match parse_i32_at(v, a, b) {
            Some(x) => Ok(ValueInfo { is_cell: false, value: x }),
            None => Err(ParseError::InvalidValue),
        }
    }
}

/// Whether `v[a..b]` starts with `p`.
fn has_prefix(v: &Vec<char>, a: usize, b: usize, p: &Vec<char>) -> (r: bool)
    requires
        a <= b <= v@.len(),
    ensures
        r == (b - a >= p@.len() && v@.subrange(a as int, a + p@.len()) == p@),
{
    if b - a < p.len() {
        return false;
    }
    let mut i: usize = 0;
    while i < p.len()
        invariant
            a + p@.len() <= b <= v@.len(),
            i <= p@.len(),
            forall|j: int| 0 <= j < i ==> v@[a + j] == #[trigger] p@[j],
        decreases p@.len() - i,
    {
        if v[a + i] != p[i] {
            assert(v@.subrange(a as int, a + p@.len())[i as int] == v@[a + i]);
            return false;
        }
        i = i + 1;
    }
    assert(v@.subrange(a as int, a + p@.len()) =~= p@);
    true
}

/// Whether `v[a..b]` is an operand.
fn operand_at(v: &Vec<char>, a: usize, b: usize) -> (r: bool)
    requires
        a <= b <= v@.len(),
    ensures
        r == operand_text(v@.subrange(a as int, b as int)),
{
    cell_text_at(v, a, b) || int_text_at(v, a, b)
}

/// An operand is never empty.
proof fn lemma_operand_nonempty(s: Seq<char>)
    requires
        operand_text(s),
    ensures
        s.len() > 0,
{
    if cell_text(s) {
    }
}

/// Stores operand `v[a..b]` as the single argument of function `t`.
fn handle_assignment_at(v: &Vec<char>, a: usize, b: usize, info: &mut Info, t: u8, n: usize, m: usize) -> (r: Result<(), ParseError>)
    requires
        a < b <= v@.len(),
        n * m <= i32::MAX,
    ensures
        (r, *final(info)) == assign_step(v@.subrange(a as int, b as int), *old(info), t, n as int, m as int),
{
    let vi = value_parser_at(v, a, b, n, m)?;
    info.arg_mask = if vi.is_cell { 1 } else { 0 };
    info.arg = [vi.value, info.arg[1]];
    info.function_id = t;
    Ok(())
}

/// Stores `v[a..a+i] op v[a+i+1..b]` (both operands nonempty).
fn handle_arithmetic_at(v: &Vec<char>, a: usize, b: usize, i: usize, info: &mut Info, n: usize, m: usize) -> (r: Result<(), ParseError>)
    requires
        0 < i,
        a + i + 1 < b <= v@.len(),
        is_op(v@[a + i]),
        n * m <= i32::MAX,
    ensures
        (r, *final(info)) == arith_step(v@.subrange(a as int, b as int), i as int, *old(info), n as int, m as int),
{
    let ghost s = v@.subrange(a as int, b as int);
    assert(s[i as int] == v@[a + i]);
    assert(s.take(i as int) =~= v@.subrange(a as int, (a + i) as int));
    assert(s.skip(i + 1) =~= v@.subrange((a + i + 1) as int, b as int));
    let op = v[a + i];
    let op_index: u8 = if op == '+' {
        0
    } else if op == '-' {
        1
    } else if op == '*' {
        2
    } else {
        3
    };
    info.function_id = 2 + op_index;
    let v0 = value_parser_at(v, a, a + i, n, m)?;
    info.arg_mask = info.arg_mask | (if v0.is_cell { 1u8 } else { 0u8 });
    info.arg = [v0.value, info.arg[1]];
    let v1 = value_parser_at(v, a + i + 1, b, n, m)?;
    info.arg_mask = info.arg_mask | (if v1.is_cell { 2u8 } else { 0u8 });
    info.arg = [info.arg[0], v1.value];
    Ok(())
}


/// The name and opening bracket of range function `f` (0 to 4), as characters.
fn range_head_vec(f: u8) -> (p: Vec<char>)
    requires
        f <= 4,
    ensures
        p@ == range_head(f as int),
{
    let p = if f == 0 {
        vec!['M', 'A', 'X', '(']
    } else if f == 1 {
        vec!['M', 'I', 'N', '(']
    } else if f == 2 {
        vec!['S', 'U', 'M', '(']
    } else if f == 3 {
        vec!['A', 'V', 'G', '(']
    } else {
        vec!['S', 'T', 'D', 'E', 'V', '(']
    };
    assert(p@ =~= range_head(f as int));
    p
}

/// Which range function `v[a..b]` starts with (see `range_fn`).
fn range_fn_at(v: &Vec<char>, a: usize, b: usize) -> (r: Option<u8>)
    requires
        a <= b <= v@.len(),
    ensures
        ({
            let f = range_fn(v@.subrange(a as int, b as int));
            r == (if f < 0 { None::<u8> } else { Some(f as u8) })
        }),
{
    let ghost s = v@.subrange(a as int, b as int);
    let mut f: u8 = 0;
    while f < 5
        invariant
            f <= 5,
            a <= b <= v@.len(),
            s == v@.subrange(a as int, b as int),
            forall|g: int| 0 <= g < f ==> !(s.len() >= range_head(g).len() && #[trigger] s.take(range_head(g).len() as int) == range_head(g)),
        decreases 5 - f,
    {
        let p = range_head_vec(f);
        if has_prefix(v, a, b, &p) {
            assert(s.take(p@.len() as int) =~= v@.subrange(a as int, a + p@.len()));
            return Some(f);
        }
        proof {
            if s.len() >= p@.len() {
                assert(s.take(p@.len() as int) =~= v@.subrange(a as int, a + p@.len()));
            }
        }
        f = f + 1;
    }
    assert(range_head(0).len() == 4 && range_head(1).len() == 4 && range_head(2).len() == 4 && range_head(3).len() == 4);
    assert(range_head(4).len() == 6);
    None
}

/// Stores the range formula `v[a..b]`, whose brackets hold `v[l..l+c]`, a
/// colon, and `v[l+c+1..b-1]`.
fn handle_range_at(v: &Vec<char>, a: usize, b: usize, f: u8, l: usize, c: usize, info: &mut Info, n: usize, m: usize) -> (r: Result<(), ParseError>)
    requires
        a <= l,
        l + c + 1 <= b - 1,
        0 < b <= v@.len(),
        f <= 4,
        range_fn(v@.subrange(a as int, b as int)) == f,
        l == a + range_head(f as int).len(),
        first_of(range_body(v@.subrange(a as int, b as int)), ':') == c,
        n * m <= i32::MAX,
    ensures
        (r, *final(info)) == range_step(v@.subrange(a as int, b as int), *old(info), n as int, m as int),
{
    let ghost s = v@.subrange(a as int, b as int);
    let ghost body = range_body(s);
    assert(body =~= v@.subrange(l as int, (b - 1) as int));
    assert(body.take(c as int) =~= v@.subrange(l as int, (l + c) as int));
    assert(body.skip(c + 1) =~= v@.subrange((l + c + 1) as int, (b - 1) as int));
    info.function_id = 6 + f;
    info.arg_mask = 0b11;
    let c1 = cell_parser_at(v, l, l + c, n, m)?;
    info.arg = [c1 as i32, info.arg[1]];
    let c2 = cell_parser_at(v, l + c + 1, b - 1, n, m)?;
    info.arg = [info.arg[0], c2 as i32];
    proof {
        assert(m > 0) by {
            if m == 0 {
                assert(n * m == 0) by (nonlinear_arith)
                    requires
                        m == 0,
                ;
            }
        }
    }
    if !crate::sheet::is_valid_range(info.arg[0] as usize, info.arg[1] as usize, m) {
        Err(ParseError::InvalidRange)
    } else {
        Ok(())
    }
}

/// Whether `v[a..b]` is `SLEEP(operand)`.
fn sleep_at(v: &Vec<char>, a: usize, b: usize) -> (r: bool)
    requires
        a <= b <= v@.len(),
    ensures
        r == sleep_form(v@.subrange(a as int, b as int)),
{
    let ghost s = v@.subrange(a as int, b as int);
    let sleep = vec!['S', 'L', 'E', 'E', 'P', '('];
    assert(sleep@ =~= sleep_prefix());
    if b - a < 8 {
        return false;
    }
    assert(s.take(6) =~= v@.subrange(a as int, a + 6));
    assert(s.last() == v@[b - 1]);
    assert(s.subrange(6, s.len() - 1) =~= v@.subrange(a + 6, b - 1));
    has_prefix(v, a, b, &sleep) && v[b - 1] == ')' && operand_at(v, a + 6, b - 1)
}

/// Where `v[a..b]` splits as `operand op operand`, if it does.
fn arith_at(v: &Vec<char>, a: usize, b: usize) -> (r: Option<usize>)
    requires
        a <= b <= v@.len(),
    ensures
        ({
            let s = v@.subrange(a as int, b as int);
            &&& r is Some <==> arith_form(s)
            &&& r matches Some(i) ==> i == op_pos(s) && a + i + 1 < b && 0 < i && is_op(v@[a + i])
        }),
{
    let ghost s = v@.subrange(a as int, b as int);
    match op_pos_at(v, a, b) {
        Some(i) => {
            proof {
                lemma_first_where_props(s.drop_first(), CharClass::Operator);
                assert(s.take(i as int) =~= v@.subrange(a as int, (a + i) as int));
                assert(s.skip(i + 1) =~= v@.subrange((a + i + 1) as int, b as int));
                assert(s[i as int] == s.drop_first()[i - 1]);
                assert(s[i as int] == v@[a + i]);
            }
            if operand_at(v, a, a + i) && operand_at(v, a + i + 1, b) {
                proof {
                    lemma_operand_nonempty(s.skip(i + 1));
                }
                Some(i)
            } else {
                None
            }
        },
        None => None,
    }
}

/// The function, the start of the bracketed part and the colon position of
/// the range formula `v[a..b]`, if it is one.
fn range_at(v: &Vec<char>, a: usize, b: usize) -> (r: Option<(u8, usize, usize)>)
    requires
        a <= b <= v@.len(),
    ensures
        ({
            let s = v@.subrange(a as int, b as int);
            &&& r is Some <==> range_form(s)
            &&& r matches Some((f, l, c)) ==> {
                &&& f <= 4
                &&& range_fn(s) == f
                &&& l == a + range_head(f as int).len()
                &&& first_of(range_body(s), ':') == c
                &&& a <= l
                &&& l + c + 1 <= b - 1
                &&& 0 < b
            }
        }),
{
    let ghost s = v@.subrange(a as int, b as int);
    let f = match range_fn_at(v, a, b) {
        Some(f) => f,
        None => return None,
    };
    let l = a + if f == 4 { 6 } else { 4 };
    assert(range_head(f as int).len() == (if f == 4 { 6int } else { 4int }));
    if !(b - a > l - a) {
        return None;
    }
    assert(s.last() == v@[b - 1]);
    if v[b - 1] != ')' {
        return None;
    }
    let ghost body = range_body(s);
    assert(body =~= v@.subrange(l as int, (b - 1) as int));
    proof {
        lemma_first_where_props(body, CharClass::Exactly(':'));
    }
    let c = match first_char_at(v, l, b - 1, ':') {
        Some(c) => c,
        None => return None,
    };
    assert(body.take(c as int) =~= v@.subrange(l as int, (l + c) as int));
    assert(body.skip(c + 1) =~= v@.subrange((l + c + 1) as int, (b - 1) as int));
    if cell_text_at(v, l, l + c) && cell_text_at(v, l + c + 1, b - 1) {
        Some((f, l, c))
    } else {
        None
    }
}

/// Where the `=` of `cell=formula` in `v[a..b]` stands, if it has that form.
fn expr_at(v: &Vec<char>, a: usize, b: usize) -> (r: Option<usize>)
    requires
        a <= b <= v@.len(),
    ensures
        ({
            let s = v@.subrange(a as int, b as int);
            &&& r is Some <==> expr_form(s)
            &&& r matches Some(e) ==> e == first_of(s, '=') && a + e + 1 < b
        }),
{
    let ghost s = v@.subrange(a as int, b as int);
    proof {
        lemma_first_where_props(s, CharClass::Exactly('='));
    }
    let e = match first_char_at(v, a, b, '=') {
        Some(e) => e,
        None => return None,
    };
    assert(s.take(e as int) =~= v@.subrange(a as int, (a + e) as int));
    assert(s.skip(e + 1) =~= v@.subrange((a + e + 1) as int, b as int));
    if cell_text_at(v, a, a + e) && b > a + e + 1 && first_char_at(v, a + e + 1, b, '\n').is_none() {
        Some(e)
    } else {
        None
    }
}

/// Parses the formula `v[a..b]` into `info` (see `parse_expr`).
fn expression_parser_at(v: &Vec<char>, a: usize, b: usize, info: &mut Info, n: usize, m: usize) -> (r: Result<(), ParseError>)
    requires
        a <= b <= v@.len(),
        n * m <= i32::MAX,
    ensures
        (r, *final(info)) == parse_expr(v@.subrange(a as int, b as int), *old(info), n as int, m as int),
    decreases b - a,
{
    let ghost s = v@.subrange(a as int, b as int);
    if operand_at(v, a, b) {
        proof {
            lemma_operand_nonempty(s);
        }
        return handle_assignment_at(v, a, b, info, 0, n, m);
    }
    if sleep_at(v, a, b) {
        proof {
            assert(s.subrange(6, s.len() - 1) =~= v@.subrange(a + 6, b - 1));
            lemma_operand_nonempty(s.subrange(6, s.len() - 1));
        }
        return handle_assignment_at(v, a + 6, b - 1, info, 1, n, m);
    }
    if let Some(i) = arith_at(v, a, b) {
        return handle_arithmetic_at(v, a, b, i, info, n, m);
    }
    if let Some((f, l, c)) = range_at(v, a, b) {
        return handle_range_at(v, a, b, f, l, c, info, n, m);
    }
    if let Some(e) = expr_at(v, a, b) {
        assert(s.skip(e + 1) =~= v@.subrange((a + e + 1) as int, b as int));
        return expression_parser_at(v, a + e + 1, b, info, n, m);
    }
    Err(ParseError::InvalidCommand)
}


/// The command with target code `code` (-1 nothing to assign, -2 undo,
/// -3 redo) and a blank formula.
pub open spec fn code_command(code: i32) -> CommandInfo {
    CommandInfo { lhs_cell: code, info: Info::blank() }
}

/// `scroll_to `, the start of a scroll command.
pub open spec fn scroll_prefix() -> Seq<char> {
    seq!['s', 'c', 'r', 'o', 'l', 'l', '_', 't', 'o', ' ']
}

/// `a - b`, or 0 when `b` is larger.
pub open spec fn sat_sub(a: usize, b: usize) -> usize {
    if a >= b {
        (a - b) as usize
    } else {
        0
    }
}

/// `a + b`, or `usize::MAX` when that does not fit.
pub open spec fn sat_add(a: usize, b: usize) -> usize {
    if a + b > usize::MAX {
        usize::MAX
    } else {
        (a + b) as usize
    }
}

/// What a one-letter command does to the view of a sheet of `n` rows and
/// `m` columns: `w`/`s` move it up/down and `a`/`d` left/right by ten, never
/// past the top left corner nor more than ten short of the far edge.
pub open spec fn control_step(s: Seq<char>, ctx: ParserContext, n: usize, m: usize) -> (Result<(), ParseError>, ParserContext) {
    if s == seq!['w'] {
        (Ok(()), ParserContext { px: sat_sub(ctx.px, 10), ..ctx })
    } else if s == seq!['s'] {
        let x = sat_add(ctx.px, 10);
        let lim = sat_sub(n, 10);
        (Ok(()), ParserContext { px: if x < lim { x } else { lim }, ..ctx })
    } else if s == seq!['a'] {
        (Ok(()), ParserContext { py: sat_sub(ctx.py, 10), ..ctx })
    } else if s == seq!['d'] {
        let y = sat_add(ctx.py, 10);
        let lim = sat_sub(m, 10);
        (Ok(()), ParserContext { py: if y < lim { y } else { lim }, ..ctx })
    } else {
        (Err(ParseError::InvalidCommand), ctx)
    }
}

/// The commands other than assignments and one-letter moves.
pub open spec fn other_step(s: Seq<char>, ctx: ParserContext, n: usize, m: usize) -> (Result<CommandInfo, ParseError>, ParserContext) {
    if s == seq!['u', 'n', 'd', 'o'] {
        (Ok(code_command(-2i32)), ctx)
    } else if s == seq!['r', 'e', 'd', 'o'] {
        (Ok(code_command(-3i32)), ctx)
    } else if s == seq!['d', 'i', 's', 'a', 'b', 'l', 'e', '_', 'o', 'u', 't', 'p', 'u', 't'] {
        (Ok(code_command(-1i32)), ParserContext { output_enabled: false, ..ctx })
    } else if s == seq!['e', 'n', 'a', 'b', 'l', 'e', '_', 'o', 'u', 't', 'p', 'u', 't'] {
        (Ok(code_command(-1i32)), ParserContext { output_enabled: true, ..ctx })
    } else if s.len() >= 10 && s.take(10) == scroll_prefix() && cell_text(s.skip(10)) {
        match cell_index(s.skip(10), n as int, m as int) {
            Ok(c) => (Ok(code_command(-1i32)), ParserContext { px: (c / m) as usize, py: (c % m) as usize, ..ctx }),
            Err(e) => (Err(e), ctx),
        }
    } else {
        (Err(ParseError::InvalidCommand), ctx)
    }
}

/// The result of parsing the command line `s`, and the context it leaves.
pub open spec fn parse_command(s: Seq<char>, ctx: ParserContext, n: usize, m: usize) -> (Result<CommandInfo, ParseError>, ParserContext) {
    if s.len() == 0 {
        (Err(ParseError::InvalidCommand), ctx)
    } else if s.len() == 1 {
        let (r, ctx2) = control_step(s, ctx, n, m);
        (
            match r {
                Ok(_) => Ok(code_command(-1i32)),
                Err(e) => Err(e),
            },
            ctx2,
        )
    } else {
        let (r, ctx2) = other_step(s, ctx, n, m);
        if r is Ok {
            (r, ctx2)
        } else if expr_form(s) {
            let e = first_of(s, '=');
            match cell_index(s.take(e), n as int, m as int) {
                Err(err) => (Err(err), ctx2),
                Ok(c) => {
                    let (r2, info) = parse_expr(s.skip(e + 1), Info::blank(), n as int, m as int);
                    match r2 {
                        Ok(_) => (Ok(CommandInfo { lhs_cell: c as i32, info }), ctx2),
                        Err(err) => (Err(err), ctx2),
                    }
                },
            }
        } else {
            (Err(ParseError::InvalidCommand), ctx2)
        }
    }
}

/// Parses a spreadsheet-style cell reference like "A1" into its linear index
/// in a sheet of `n` rows and `m` columns.
pub fn cell_parser(cell_str: &str, n: usize, m: usize) -> (r: Result<usize, ParseError>)
    requires
        n * m <= i32::MAX,
    ensures
        r == cell_index(cell_str@, n as int, m as int),
{
    let v = chars_of(cell_str);
    assert(v@.subrange(0, v@.len() as int) =~= cell_str@);
    cell_parser_at(&v, 0, v.len(), n, m)
}

/// Parses a nonempty string as either a cell reference (when it starts with
/// an upper-case letter) or an integer literal.
pub fn value_parser(value_str: &str, value_info: &mut ValueInfo, n: usize, m: usize) -> (r: Result<(), ParseError>)
    requires
        value_str@.len() > 0,
        n * m <= i32::MAX,
    ensures
        match value_of(value_str@, n as int, m as int) {
            Ok(vi) => r is Ok && *final(value_info) == vi,
            Err(e) => r == Err::<(), ParseError>(e) && *final(value_info) == (ValueInfo {
                is_cell: is_upper(value_str@[0]),
                ..*old(value_info)
            }),
        },
{
    let v = chars_of(value_str);
    assert(v@.subrange(0, v@.len() as int) =~= value_str@);
    value_info.is_cell = 'A' <= v[0] && v[0] <= 'Z';
    let vi = value_parser_at(&v, 0, v.len(), n, m)?;
    value_info.value = vi.value;
    Ok(())
}

/// Parses the formula `expr` into `info` (see `parse_expr` for the grammar
/// and for what `info` holds afterwards, also on an error).
pub fn expression_parser(expr: &str, info: &mut Info, n: usize, m: usize) -> (r: Result<(), ParseError>)
    requires
        n * m <= i32::MAX,
    ensures
        (r, *final(info)) == parse_expr(expr@, *old(info), n as int, m as int),
{
    let v = chars_of(expr);
    assert(v@.subrange(0, v@.len() as int) =~= expr@);
    expression_parser_at(&v, 0, v.len(), info, n, m)
}

/// Parses the sheet dimensions: both counts must be numbers from 1 up to
/// `n_max` rows and `m_max` columns.
pub fn parse_sheet_dimensions(n_str: &str, m_str: &str, n_max: usize, m_max: usize) -> (r: Result<(usize, usize), ParseError>)
    ensures
        ({
            let n = usize_of(n_str@);
            let m = usize_of(m_str@);
            if n is Some && m is Some && 0 < n->0 <= n_max && 0 < m->0 <= m_max {
                r == Ok::<(usize, usize), ParseError>((n->0, m->0))
            } else {
                r == Err::<(usize, usize), ParseError>(ParseError::InvalidValue)
            }
        }),
{
    let n = match crate::text::parse_usize(n_str) {
        Some(n) => n,
        None => return Err(ParseError::InvalidValue),
    };
    let m = match crate::text::parse_usize(m_str) {
        Some(m) => m,
        None => return Err(ParseError::InvalidValue),
    };
    if n > n_max || m > m_max || n == 0 || m == 0 {
        Err(ParseError::InvalidValue)
    } else {
        Ok((n, m))
    }
}

/// Whether `v` is exactly `p`.
fn equals(v: &Vec<char>, p: &Vec<char>) -> (r: bool)
    ensures
        r == (v@ == p@),
{
    if v.len() != p.len() {
        return false;
    }
    let r = has_prefix(v, 0, v.len(), p);
    assert(v@.subrange(0, p@.len() as int) =~= v@);
    r
}

/// Moves the view for a one-letter command (`w a s d`).
fn control_parser(v: &Vec<char>, context: &mut ParserContext, n: usize, m: usize) -> (r: Result<(), ParseError>)
    requires
        v@ != seq!['q'],
    ensures
        (r, *final(context)) == control_step(v@, *old(context), n, m),
{
    if v.len() != 1 {
        return Err(ParseError::InvalidCommand);
    }
    let c = v[0];
    assert(v@ =~= seq![c]);
    let viewport_size: usize = 10;
    let max_px = n.saturating_sub(viewport_size);
    let max_py = m.saturating_sub(viewport_size);
    if c == 'w' {
        context.px = context.px.saturating_sub(10);
        Ok(())
    } else if c == 's' {
        let x = context.px.saturating_add(10);
        context.px = if x < max_px { x } else { max_px };
        Ok(())
    } else if c == 'a' {
        context.py = context.py.saturating_sub(10);
        Ok(())
    } else if c == 'd' {
        let y = context.py.saturating_add(10);
        context.py = if y < max_py { y } else { max_py };
        Ok(())
    } else {
        Err(ParseError::InvalidCommand)
    }
}

/// Handles `undo`, `redo`, `disable_output`, `enable_output` and `scroll_to cell`.
fn handle_other_commands(v: &Vec<char>, context: &mut ParserContext, n: usize, m: usize) -> (r: Result<CommandInfo, ParseError>)
    requires
        n * m <= i32::MAX,
    ensures
        (r, *final(context)) == other_step(v@, *old(context), n, m),
{
    let mut cmd_info = CommandInfo::default();
    if equals(v, &vec!['u', 'n', 'd', 'o']) {
        cmd_info.lhs_cell = -2;
        return Ok(cmd_info);
    }
    if equals(v, &vec!['r', 'e', 'd', 'o']) {
        cmd_info.lhs_cell = -3;
        return Ok(cmd_info);
    }
    if equals(v, &vec!['d', 'i', 's', 'a', 'b', 'l', 'e', '_', 'o', 'u', 't', 'p', 'u', 't']) {
        context.output_enabled = false;
        cmd_info.lhs_cell = -1;
        return Ok(cmd_info);
    }
    if equals(v, &vec!['e', 'n', 'a', 'b', 'l', 'e', '_', 'o', 'u', 't', 'p', 'u', 't']) {
        context.output_enabled = true;
        cmd_info.lhs_cell = -1;
        return Ok(cmd_info);
    }
    let scroll = vec!['s', 'c', 'r', 'o', 'l', 'l', '_', 't', 'o', ' '];
    assert(scroll@ =~= scroll_prefix());
    if has_prefix(v, 0, v.len(), &scroll) && cell_text_at(v, 10, v.len()) {
        proof {
            assert(v@.take(10) =~= v@.subrange(0, 10));
            assert(v@.skip(10) =~= v@.subrange(10, v@.len() as int));
        }
        let cell = cell_parser_at(v, 10, v.len(), n, m)?;
        proof {
            assert(m > 0) by {
                if m == 0 {
                    assert(n * m == 0) by (nonlinear_arith)
                        requires
                            m == 0,
                    ;
                }
            }
        }
        let (row, col) = crate::sheet::get_row_and_column(cell, m);
        context.px = row;
        context.py = col;
        cmd_info.lhs_cell = -1;
        return Ok(cmd_info);
    }
    proof {
        if v@.len() >= 10 && v@.take(10) == scroll_prefix() {
            assert(v@.take(10) =~= v@.subrange(0, 10));
            assert(v@.skip(10) =~= v@.subrange(10, v@.len() as int));
        }
    }
    Err(ParseError::InvalidCommand)
}

/// Parses a command line: a one-letter move, one of the other commands, or
/// `cell=formula`. The result's `lhs_cell` is the target cell, or -1 for a
/// command that assigns nothing, -2 for `undo` and -3 for `redo`. The line
/// `q` (quit) is handled by the caller.
pub fn parse(input: &str, context: &mut ParserContext, n: usize, m: usize) -> (r: Result<CommandInfo, ParseError>)
    requires
        input@ != seq!['q'],
        n * m <= i32::MAX,
    ensures
        (r, *final(context)) == parse_command(input@, *old(context), n, m),
{
    let v = chars_of(input);
    if v.len() == 0 {
        return Err(ParseError::InvalidCommand);
    }
    if v.len() == 1 {
        control_parser(&v, context, n, m)?;
        return Ok(CommandInfo { lhs_cell: -1, ..CommandInfo::default() });
    }
    let result = handle_other_commands(&v, context, n, m);
    if result.is_ok() {
        return result;
    }
    assert(v@.subrange(0, v@.len() as int) =~= v@);
    if let Some(e) = expr_at(&v, 0, v.len()) {
        proof {
            assert(v@.take(e as int) =~= v@.subrange(0, e as int));
            assert(v@.skip(e + 1) =~= v@.subrange(e + 1, v@.len() as int));
        }
        let cell = cell_parser_at(&v, 0, e, n, m)?;
        let mut cmd_info = CommandInfo::default();
        cmd_info.lhs_cell = cell as i32;
        expression_parser_at(&v, e + 1, v.len(), &mut cmd_info.info, n, m)?;
        Ok(cmd_info)
    } else {
        Err(ParseError::InvalidCommand)
    }
}


/// The characters of a cell reference are upper-case letters and digits.
proof fn lemma_cell_chars(c: Seq<char>)
    requires
        cell_text(c),
    ensures
        c.len() >= 2,
        forall|i: int| 0 <= i < c.len() ==> is_upper(#[trigger] c[i]) || is_digit(c[i]),
{
    let k = choose|k: int| cell_split(c, k);
    assert forall|i: int| 0 <= i < c.len() implies is_upper(#[trigger] c[i]) || is_digit(c[i]) by {
        if i < k {
        } else if i == k {
        } else {
        }
    }
}

/// A range formula `h(c1:c2)` over two cell references, whose name `h` the
/// range test recognises, is read as that range function: its function is
/// set to `6 + range_fn` whatever the cells turn out to be.
proof fn lemma_range_formula(h: Seq<char>, c1: Seq<char>, c2: Seq<char>, info: Info, n: int, m: int)
    requires
        h.len() >= 4,
        h.last() == '(',
        h[1] != 'L',
        forall|i: int| 0 <= i < h.len() - 1 ==> is_upper(#[trigger] h[i]),
        cell_text(c1),
        cell_text(c2),
        range_fn(h + c1 + seq![':'] + c2 + seq![')']) >= 0,
        range_head(range_fn(h + c1 + seq![':'] + c2 + seq![')'])) == h,
    ensures
        parse_expr(h + c1 + seq![':'] + c2 + seq![')'], info, n, m).1.function_id
            == 6 + range_fn(h + c1 + seq![':'] + c2 + seq![')']),
{
    let s = h + c1 + seq![':'] + c2 + seq![')'];
    let f = range_fn(s);
    let a = h.len() as int;
    let b = a + c1.len();
    lemma_cell_chars(c1);
    lemma_cell_chars(c2);
    assert forall|j: int| 0 <= j < s.len() implies !is_op(#[trigger] s[j]) && (s[j] == ':' <==> j == b) by {
        if j < a - 1 {
            assert(s[j] == h[j]);
        } else if j == a - 1 {
            assert(s[j] == h[j]);
        } else if j < b {
            assert(s[j] == c1[j - a]);
        } else if j == b {
        } else if j < s.len() - 1 {
            assert(s[j] == c2[j - b - 1]);
        }
    }
    // not an operand
    assert(s[0] == h[0] && s[1] == h[1] && s[2] == h[2] && s[3] == h[3]);
    assert forall|k: int| !cell_split(s, k) by {
        if 1 <= k <= 3 {
            assert(!is_digit1(s[k]));
        }
    }
    assert(!cell_text(s));
    assert(signed_body(s) == s);
    assert(!all_digits(s)) by {
        assert(!is_digit(s[0]));
    }
    assert(!operand_text(s));
    // not a sleep formula
    assert(s.take(6) != sleep_prefix()) by {
        if s.len() >= 6 {
            assert(s.take(6)[1] != sleep_prefix()[1]);
        }
    }
    assert(!sleep_form(s));
    // no operator
    let t = s.drop_first();
    assert forall|j: int| 0 <= j < t.len() implies !in_class(CharClass::Operator, #[trigger] t[j]) by {
        assert(t[j] == s[j + 1]);
    }
    lemma_first_where(t, CharClass::Operator, t.len() as int);
    assert(!arith_form(s));
    // a range formula with cells `c1` and `c2`
    let body = range_body(s);
    assert(body =~= c1 + seq![':'] + c2);
    assert forall|j: int| 0 <= j < c1.len() implies !in_class(CharClass::Exactly(':'), #[trigger] body[j]) by {
        assert(body[j] == c1[j]);
    }
    lemma_first_where(body, CharClass::Exactly(':'), c1.len() as int);
    assert(body.take(c1.len() as int) =~= c1);
    assert(body.skip(c1.len() as int + 1) =~= c2);
    assert(range_form(s));
}

/// The name of a range formula chooses its function: over any two cell
/// references, `MAX(..)` is function 6, `MIN(..)` 7, `SUM(..)` 8, `AVG(..)` 9
/// and `STDEV(..)` 10 (the maximum, minimum, sum, average and standard
/// deviation that `eval_cell` computes).
#[verifier::spinoff_prover]
#[verifier::rlimit(60)]
pub proof fn lemma_range_names(c1: Seq<char>, c2: Seq<char>, info: Info, n: int, m: int)
    requires
        cell_text(c1),
        cell_text(c2),
    ensures
        parse_expr(seq!['M', 'A', 'X', '('] + c1 + seq![':'] + c2 + seq![')'], info, n, m).1.function_id == 6,
        parse_expr(seq!['M', 'I', 'N', '('] + c1 + seq![':'] + c2 + seq![')'], info, n, m).1.function_id == 7,
        parse_expr(seq!['S', 'U', 'M', '('] + c1 + seq![':'] + c2 + seq![')'], info, n, m).1.function_id == 8,
        parse_expr(seq!['A', 'V', 'G', '('] + c1 + seq![':'] + c2 + seq![')'], info, n, m).1.function_id == 9,
        parse_expr(seq!['S', 'T', 'D', 'E', 'V', '('] + c1 + seq![':'] + c2 + seq![')'], info, n, m).1.function_id == 10,
{
    let h0 = seq!['M', 'A', 'X', '('];
    let h1 = seq!['M', 'I', 'N', '('];
    let h2 = seq!['S', 'U', 'M', '('];
    let h3 = seq!['A', 'V', 'G', '('];
    let h4 = seq!['S', 'T', 'D', 'E', 'V', '('];
    assert(parse_expr(h0 + c1 + seq![':'] + c2 + seq![')'], info, n, m).1.function_id == 6) by {
        let s = h0 + c1 + seq![':'] + c2 + seq![')'];
        assert(s.take(4) =~= h0);
        assert(range_head(0) =~= h0);
        lemma_range_formula(h0, c1, c2, info, n, m);
    }
    assert(parse_expr(h1 + c1 + seq![':'] + c2 + seq![')'], info, n, m).1.function_id == 7) by {
        let s = h1 + c1 + seq![':'] + c2 + seq![')'];
        assert(s.take(4) =~= h1);
        assert(range_head(0)[1] != h1[1]);
        assert(range_head(1) =~= h1);
        lemma_range_formula(h1, c1, c2, info, n, m);
    }
    assert(parse_expr(h2 + c1 + seq![':'] + c2 + seq![')'], info, n, m).1.function_id == 8) by {
        let s = h2 + c1 + seq![':'] + c2 + seq![')'];
        assert(s.take(4) =~= h2);
        assert(range_head(0)[0] != h2[0] && range_head(1)[0] != h2[0]);
        assert(range_head(2) =~= h2);
        lemma_range_formula(h2, c1, c2, info, n, m);
    }
    assert(parse_expr(h3 + c1 + seq![':'] + c2 + seq![')'], info, n, m).1.function_id == 9) by {
        let s = h3 + c1 + seq![':'] + c2 + seq![')'];
        assert(s.take(4) =~= h3);
        assert(range_head(0)[0] != h3[0] && range_head(1)[0] != h3[0] && range_head(2)[0] != h3[0]);
        assert(range_head(3) =~= h3);
        lemma_range_formula(h3, c1, c2, info, n, m);
    }
    assert(parse_expr(h4 + c1 + seq![':'] + c2 + seq![')'], info, n, m).1.function_id == 10) by {
        let s = h4 + c1 + seq![':'] + c2 + seq![')'];
        assert(s.take(4)[1] == 'T');
        assert(range_head(0)[1] != 'T' && range_head(1)[1] != 'T' && range_head(2)[1] != 'T' && range_head(3)[1] != 'T');
        assert(s.take(6) =~= h4);
        assert(range_head(4) =~= h4);
        lemma_range_formula(h4, c1, c2, info, n, m);
    }
}

} // verus!
