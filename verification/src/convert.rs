//! Column names: `A`..`Z`, then `AA`..`ZZ`, `AAA`.. (bijective base 26).
use vstd::prelude::*;
use crate::text::{chars_of, decimal, decimal_text, is_upper};

verus! {

/// The number of the letter `c` (`A` is 1, `Z` is 26).
pub open spec fn letter_val(c: char) -> int {
    c as int - 'A' as int + 1
}

/// The column number that the letters `s` name.
pub open spec fn col_value(s: Seq<char>) -> nat
    decreases s.len(),
{
    if s.len() == 0 {
        0
    } else {
        (col_value(s.drop_last()) * 26 + letter_val(s.last())) as nat
    }
}

/// The column number the letters `s` name, computed in `usize` arithmetic
/// that wraps around (it equals `col_value(s)` whenever that fits).
pub open spec fn col_fold(s: Seq<char>) -> usize
    decreases s.len(),
{
    if s.len() == 0 {
        0
    } else {
        vstd::wrapping::usize_specs::wrapping_add(
            vstd::wrapping::usize_specs::wrapping_mul(col_fold(s.drop_last()), 26),
            letter_val(s.last()) as usize,
        )
    }
}

/// `s` is a column name: one or more upper-case ASCII letters.
pub open spec fn is_col_name(s: Seq<char>) -> bool {
    s.len() > 0 && forall|i: int| 0 <= i < s.len() ==> is_upper(#[trigger] s[i])
}

/// The letter with number `k + 1` (`k` from 0 to 25).
pub open spec fn letter_of(k: int) -> char {
    ('A' as int + k) as char
}

/// The name of column `num` (empty for 0).
pub open spec fn col_name(num: nat) -> Seq<char>
    decreases num,
{
    if num == 0 {
        Seq::empty()
    } else {
        col_name(((num - 1) / 26) as nat).push(letter_of((num - 1) % 26))
    }
}

/// Appends `c` to `s`.
/// Calls `String::push`, which appends one character to the end of the string.
#[verifier::external_body]
pub(crate) fn push_char(s: &mut String, c: char)
    ensures
        final(s)@ == old(s)@.push(c),
{
    s.push(c);
}

/// Converts a 1-based column number to Excel-style column letters
/// (e.g. 1 -> "A", 26 -> "Z", 27 -> "AA"); 0 gives the empty string.
pub fn num_to_alpha(num: u32) -> (r: String)
    ensures
        r@ == col_name(num as nat),
{
    let mut n = num;
    let mut rev: Vec<char> = Vec::new();
    while n > 0
        invariant
            col_name(num as nat) == col_name(n as nat) + rev@.reverse(),
        decreases n,
    {
        n = n - 1;
        let c = ((('A' as u8) + ((n % 26) as u8)) as char);
        proof {
            assert(c == letter_of(n as int % 26));
            let k = (n + 1) as nat;
            assert(col_name(k) == col_name(((k - 1) / 26) as nat).push(letter_of((k - 1) % 26)));
            assert(rev@.push(c).reverse() =~= seq![c] + rev@.reverse());
            assert(col_name(((k - 1) / 26) as nat).push(c) + rev@.reverse() =~= col_name(((k - 1) / 26) as nat) + (seq![c] + rev@.reverse()));
        }
        rev.push(c);
        n = n / 26;
    }
    let mut result = String::new();
    let mut i = rev.len();
    while i > 0
        invariant
            i <= rev@.len(),
            result@ == rev@.subrange(i as int, rev@.len() as int).reverse(),
        decreases i,
    {
        i = i - 1;
        proof {
            assert(rev@.subrange(i as int, rev@.len() as int).reverse() =~= rev@.subrange(i + 1, rev@.len() as int).reverse().push(rev@[i as int]));
        }
        push_char(&mut result, rev[i]);
    }
    proof {
        assert(col_name(0) =~= Seq::<char>::empty());
        assert(rev@.subrange(0, rev@.len() as int) =~= rev@);
    }
    result
}

/// Converts Excel-style column letters to a 1-based number: `None` unless
/// the text is one or more upper-case ASCII letters. The number is computed
/// in `usize` arithmetic that wraps around for names too long to fit.
pub fn alpha_to_num(letters: &str) -> (r: Option<usize>)
    ensures
        r == (if is_col_name(letters@) { Some(col_fold(letters@)) } else { None::<usize> }),
        is_col_name(letters@) && col_value(letters@) <= usize::MAX ==> r == Some(col_value(letters@) as usize),
{
    let v = chars_of(letters);
    assert(v@.subrange(0, v@.len() as int) =~= letters@);
    let r = alpha_to_num_at(&v, 0, v.len());
    proof {
        if is_col_name(letters@) && col_value(letters@) <= usize::MAX {
            lemma_fold_exact(letters@);
        }
    }
    r
}

/// The column number that the letters `v[start..end]` name, as `alpha_to_num` reads it.
pub fn alpha_to_num_at(v: &Vec<char>, start: usize, end: usize) -> (r: Option<usize>)
    requires
        start <= end <= v@.len(),
    ensures
        ({
            let s = v@.subrange(start as int, end as int);
            r == (if is_col_name(s) { Some(col_fold(s)) } else { None::<usize> })
        }),
{
    let ghost s = v@.subrange(start as int, end as int);
    if start == end {
        return None;
    }
    let mut res: usize = 0;
    let mut i: usize = start;
    while i < end
        invariant
            s == v@.subrange(start as int, end as int),
            start <= i <= end <= v@.len(),
            res == col_fold(s.take(i - start)),
            forall|j: int| 0 <= j < i - start ==> is_upper(#[trigger] s[j]),
        decreases end - i,
    {
        let c = v[i];
        if !('A' <= c && c <= 'Z') {
            assert(s[i - start] == c);
            return None;
        }
        proof {
            assert(s.take(i - start + 1).drop_last() =~= s.take(i - start));
            assert(s.take(i - start + 1).last() == c);
        }
        res = res.wrapping_mul(26).wrapping_add((c as u32 - 'A' as u32 + 1) as usize);
        i = i + 1;
    }
    assert(s.take(s.len() as int) =~= s);
    Some(res)
}

/// A column number that fits in a `usize` is computed without wrapping.
pub proof fn lemma_fold_exact(s: Seq<char>)
    requires
        forall|i: int| 0 <= i < s.len() ==> is_upper(#[trigger] s[i]),
        col_value(s) <= usize::MAX,
    ensures
        col_fold(s) == col_value(s),
    decreases s.len(),
{
    if s.len() > 0 {
        let t = s.drop_last();
        assert(is_upper(s[s.len() - 1]));
        assert(col_value(t) * 26 <= col_value(s));
        lemma_fold_exact(t);
        vstd::arithmetic::div_mod::lemma_small_mod((col_value(t) * 26) as nat, (usize::MAX - usize::MIN + 1) as nat);
        assert(vstd::wrapping::usize_specs::wrapping_mul(col_fold(t), 26) == col_value(t) * 26);
    }
}

/// Reading back the name of a column gives its number.
pub proof fn lemma_col_value_of_name(num: nat)
    ensures
        col_value(col_name(num)) == num,
        num > 0 ==> is_col_name(col_name(num)),
        forall|i: int| 0 <= i < col_name(num).len() ==> is_upper(#[trigger] col_name(num)[i]),
    decreases num,
{
    if num > 0 {
        let q = ((num - 1) / 26) as nat;
        lemma_col_value_of_name(q);
        let s = col_name(num);
        assert(s.drop_last() =~= col_name(q));
        assert(s.last() == letter_of((num - 1) % 26));
        assert(col_value(s) == col_value(col_name(q)) * 26 + ((num - 1) % 26) + 1);
        assert forall|i: int| 0 <= i < s.len() implies is_upper(#[trigger] s[i]) by {
            if i < s.len() - 1 {
                assert(s[i] == col_name(q)[i]);
            }
        }
    }
}

/// Naming the column that a name spells gives the name back.
pub proof fn lemma_col_name_of_value(s: Seq<char>)
    requires
        is_col_name(s),
    ensures
        col_name(col_value(s)) == s,
    decreases s.len(),
{
    let t = s.drop_last();
    let v = col_value(s);
    assert(is_upper(s[s.len() - 1]));
    assert(v == col_value(t) * 26 + letter_val(s.last()));
    assert((v - 1) / 26 == col_value(t) && (v - 1) % 26 == letter_val(s.last()) - 1) by {
        vstd::arithmetic::div_mod::lemma_fundamental_div_mod_converse(
            v - 1,
            26,
            col_value(t) as int,
            letter_val(s.last()) - 1,
        );
    }
    if t.len() > 0 {
        assert forall|i: int| 0 <= i < t.len() implies is_upper(#[trigger] t[i]) by {
            assert(t[i] == s[i]);
        }
        lemma_col_name_of_value(t);
    } else {
        assert(col_name(0) =~= Seq::<char>::empty());
    }
    assert(col_name(v) =~= s);
}

/// Every column number that fits in a `u32` comes back from its name:
/// `alpha_to_num(num_to_alpha(n)) == Some(n)` for `n >= 1`.
pub proof fn lemma_column_round_trip(num: u32)
    requires
        num >= 1,
    ensures
        is_col_name(col_name(num as nat)),
        col_value(col_name(num as nat)) == num,
        col_fold(col_name(num as nat)) == num,
{
    lemma_col_value_of_name(num as nat);
    lemma_fold_exact(col_name(num as nat));
}

/// The name of the cell at row `r`, column `c` (both from 0), such as `B12`.
pub open spec fn cell_name(r: int, c: int) -> Seq<char> {
    col_name(((c + 1) as u32) as nat) + decimal((r + 1) as nat)
}

/// The characters of the name of the cell at row `r`, column `c`.
pub fn cell_name_text(r: usize, c: usize) -> (t: Vec<char>)
    requires
        r < usize::MAX,
        c < usize::MAX,
    ensures
        t@ == cell_name(r as int, c as int),
{
    let letters = num_to_alpha((c + 1) as u32);
    let mut t = chars_of(letters.as_str());
    let digits = decimal_text(r + 1);
    let ghost t0 = t@;
    let mut k: usize = 0;
    while k < digits.len()
        invariant
            k <= digits@.len(),
            t@ == t0 + digits@.take(k as int),
        decreases digits@.len() - k,
    {
        t.push(digits[k]);
        assert(digits@.take(k + 1) =~= digits@.take(k as int).push(digits@[k as int]));
        k = k + 1;
    }
    assert(digits@.take(digits@.len() as int) =~= digits@);
    t
}

/// The name of cell `cell` of a sheet of `cols` columns, such as `B12`.
pub fn int_to_cell_ref(cell: usize, cols: usize) -> (r: String)
    requires
        0 < cols,
        cell / cols < usize::MAX,
    ensures
        r@ == cell_name((cell / cols) as int, (cell % cols) as int),
{
    let row = cell / cols;
    let col = cell % cols;
    let t = cell_name_text(row, col);
    let mut r = String::new();
    let mut k: usize = 0;
    while k < t.len()
        invariant
            k <= t@.len(),
            r@ == t@.take(k as int),
        decreases t@.len() - k,
    {
        push_char(&mut r, t[k]);
        assert(t@.take(k + 1) =~= t@.take(k as int).push(t@[k as int]));
        k = k + 1;
    }
    assert(t@.take(t@.len() as int) =~= t@);
    r
}

} // verus!
