//! Conversion of spreadsheet commands into input lines for `sc`: every cell
//! first gets `@FLOOR(0)`, then each command `cell=formula` becomes
//! `let cell=@FLOOR(formula))`, with `@` put before the first `SUM`, `AVG`,
//! `MIN` and `MAX` of the line.
use vstd::prelude::*;
use crate::convert::{cell_name, int_to_cell_ref, push_char};
use crate::parser::{first_of, lemma_first_where_props, CharClass};
use crate::text::{chars_of, i32_of, is_digit, trim, trimmed};

verus! {

/// The first position at or after `i` where `kw` occurs in `s`, or -1.
pub open spec fn find_from(s: Seq<char>, kw: Seq<char>, i: int) -> int
    decreases s.len() + 1 - i,
{
    if i < 0 || i + kw.len() > s.len() {
        -1
    } else if s.subrange(i, i + kw.len()) == kw {
        i
    } else {
        find_from(s, kw, i + 1)
    }
}

/// `find_from` gives -1 or a position at or after `i` where `kw` fits in `s`.
proof fn lemma_find_from(s: Seq<char>, kw: Seq<char>, i: int)
    ensures
        find_from(s, kw, i) >= -1,
        find_from(s, kw, i) >= 0 ==> i <= find_from(s, kw, i) && find_from(s, kw, i) + kw.len() <= s.len(),
    decreases s.len() + 1 - i,
{
    if !(i < 0 || i + kw.len() > s.len()) && s.subrange(i, i + kw.len()) != kw {
        lemma_find_from(s, kw, i + 1);
    }
}

/// `s` with `@` put before the first `kw` in it, if any.
pub open spec fn mark(s: Seq<char>, kw: Seq<char>) -> Seq<char> {
    let p = find_from(s, kw, 0);
    if p < 0 {
        s
    } else {
        s.take(p) + seq!['@'] + s.skip(p)
    }
}

/// `s` with `@` put before the first `SUM`, then the first `AVG`, `MIN` and `MAX`.
pub open spec fn marked(s: Seq<char>) -> Seq<char> {
    mark(mark(mark(mark(s, "SUM"@), "AVG"@), "MIN"@), "MAX"@)
}

/// `s` without the line breaks at its end.
pub open spec fn without_breaks(s: Seq<char>) -> Seq<char>
    decreases s.len(),
{
    if s.len() > 0 && s.last() == '\n' {
        without_breaks(s.drop_last())
    } else {
        s
    }
}

/// The `sc` line for the command `s`, if it has an `=`: its left side
/// trimmed, its right side (line breaks at the end dropped) in `@FLOOR(...))`,
/// and a line break where the right side ended with one.
pub open spec fn sc_line_of(s: Seq<char>) -> Option<Seq<char>> {
    let t = marked(s);
    let e = first_of(t, '=');
    if e < 0 {
        None
    } else {
        let left = trim(t.take(e));
        let right = t.skip(e + 1);
        let nl = right.len() > 0 && right.last() == '\n';
        Some(
            "let "@ + left + "=@FLOOR("@ + without_breaks(right) + "))"@ + (if nl {
                seq!['\n']
            } else {
                Seq::empty()
            }),
        )
    }
}

/// The first position at or after `from` where `kw` occurs in `v`.
fn find_text(v: &Vec<char>, kw: &Vec<char>) -> (r: Option<usize>)
    ensures
        r == (if find_from(v@, kw@, 0) < 0 { None::<usize> } else { Some(find_from(v@, kw@, 0) as usize) }),
{
    let n = v.len();
    let k = kw.len();
    let mut i: usize = 0;
    while i <= n && k <= n - i
        invariant
            n == v@.len(),
            k == kw@.len(),
            find_from(v@, kw@, 0) == find_from(v@, kw@, i as int),
        decreases n + 1 - i,
    {
        let mut same = true;
        let mut j: usize = 0;
        while j < k
            invariant
                n == v@.len(),
                k == kw@.len(),
                i + k <= n,
                j <= k,
                same == (forall|t: int| 0 <= t < j ==> v@[i + t] == #[trigger] kw@[t]),
            decreases k - j,
        {
            if v[i + j] != kw[j] {
                same = false;
            }
            j = j + 1;
        }
        if same {
            assert(v@.subrange(i as int, i + k) =~= kw@);
            return Some(i);
        }
        let ghost t = choose|t: int| 0 <= t < k && v@[i + t] != #[trigger] kw@[t];
        assert(v@.subrange(i as int, i + k)[t] == v@[i + t]);
        i = i + 1;
    }
    None
}

/// Puts `@` before the first `kw` in `v`, if any.
fn mark_text(v: &Vec<char>, kw: &str) -> (r: Vec<char>)
    ensures
        r@ == mark(v@, kw@),
{
    let k = chars_of(kw);
    proof {
        lemma_find_from(v@, kw@, 0);
    }
    match find_text(v, &k) {
        None => {
            let mut r: Vec<char> = Vec::new();
            let mut i: usize = 0;
            while i < v.len()
                invariant
                    i <= v@.len(),
                    r@ == v@.take(i as int),
                decreases v@.len() - i,
            {
                r.push(v[i]);
                assert(r@ =~= v@.take(i + 1));
                i = i + 1;
            }
            assert(v@.take(v@.len() as int) =~= v@);
            r
        },
        Some(p) => {
            let mut r: Vec<char> = Vec::new();
            let mut i: usize = 0;
            while i < v.len()
                invariant
                    p <= v@.len(),
                    i <= v@.len(),
                    r@ == (if i <= p { v@.take(i as int) } else { v@.take(p as int) + seq!['@'] + v@.subrange(
                        p as int,
                        i as int,
                    ) }),
                decreases v@.len() - i,
            {
                if i == p {
                    r.push('@');
                    assert(r@ =~= v@.take(p as int) + seq!['@'] + v@.subrange(p as int, i as int));
                }
                r.push(v[i]);
                if i < p {
                    assert(r@ =~= v@.take(i + 1));
                } else {
                    assert(r@ =~= v@.take(p as int) + seq!['@'] + v@.subrange(p as int, i + 1));
                }
                i = i + 1;
            }
            if p == v.len() {
                r.push('@');
            }
            assert(v@.subrange(p as int, v@.len() as int) =~= v@.skip(p as int));
            assert(r@ =~= v@.take(p as int) + seq!['@'] + v@.skip(p as int));
            r
        },
    }
}

/// Appends the characters of `t` to `r`.
fn push_all(r: &mut String, t: &Vec<char>)
    ensures
        final(r)@ == old(r)@ + t@,
{
    let mut k: usize = 0;
    while k < t.len()
        invariant
            k <= t@.len(),
            r@ == old(r)@ + t@.take(k as int),
        decreases t@.len() - k,
    {
        push_char(r, t[k]);
        assert(t@.take(k + 1) =~= t@.take(k as int).push(t@[k as int]));
        k = k + 1;
    }
    assert(t@.take(t@.len() as int) =~= t@);
}

/// The `sc` line that the command `line` becomes, or `None` for a line
/// without `=`.
pub fn sc_line(line: &str) -> (r: Option<String>)
    ensures
        match sc_line_of(line@) {
            None => r is None,
            Some(t) => r matches Some(s) && s@ == t,
        },
{
    let v = chars_of(line);
    let v1 = mark_text(&v, "SUM");
    let v2 = mark_text(&v1, "AVG");
    let v3 = mark_text(&v2, "MIN");
    let t = mark_text(&v3, "MAX");
    assert(t@ == marked(line@));
    proof {
        lemma_first_where_props(t@, CharClass::Exactly('='));
    }
    let n = t.len();
    let e = match crate::parser::first_char_at(&t, 0, n, '=') {
        None => {
            assert(t@.subrange(0, n as int) =~= t@);
            return None;
        },
        Some(e) => e,
    };
    assert(t@.subrange(0, n as int) =~= t@);
    let mut head: Vec<char> = Vec::new();
    let mut i: usize = 0;
    while i < e
        invariant
            e < n == t@.len(),
            i <= e,
            head@ == t@.take(i as int),
        decreases e - i,
    {
        head.push(t[i]);
        assert(head@ =~= t@.take(i + 1));
        i = i + 1;
    }
    let left = trimmed(&head);
    let ghost right = t@.skip(e + 1);
    let nl = n > e + 1 && t[n - 1] == '\n';
    let mut end = n;
    while end > e + 1 && t[end - 1] == '\n'
        invariant
            e + 1 <= end <= n == t@.len(),
            right == t@.skip(e + 1),
            without_breaks(right) == without_breaks(t@.subrange(e + 1, end as int)),
        decreases end,
    {
        assert(t@.subrange(e + 1, end as int).drop_last() =~= t@.subrange(e + 1, end - 1));
        end = end - 1;
    }
    let mut body: Vec<char> = Vec::new();
    let mut k = e + 1;
    while k < end
        invariant
            e + 1 <= k <= end <= n == t@.len(),
            body@ == t@.subrange(e + 1, k as int),
        decreases end - k,
    {
        body.push(t[k]);
        assert(body@ =~= t@.subrange(e + 1, k + 1));
        k = k + 1;
    }
    assert(without_breaks(body@) == body@);
    let mut r = String::new();
    push_all(&mut r, &chars_of("let "));
    push_all(&mut r, &left);
    push_all(&mut r, &chars_of("=@FLOOR("));
    push_all(&mut r, &body);
    push_all(&mut r, &chars_of("))"));
    if nl {
        push_char(&mut r, '\n');
    }
    proof {
        assert(t@.subrange(e + 1, n as int) =~= right);
        assert(nl == (right.len() > 0 && right.last() == '\n'));
    }
    Some(r)
}

/// The line that first gives cell `cell` (of a sheet of `cols` columns) `@FLOOR(0)`.
pub fn initial_line(cell: usize, cols: usize) -> (r: String)
    requires
        0 < cols,
        cell / cols < usize::MAX,
    ensures
        r@ == "let "@ + cell_name((cell / cols) as int, (cell % cols) as int) + "=@FLOOR(0)"@,
{
    let name = int_to_cell_ref(cell, cols);
    let mut r = String::new();
    push_all(&mut r, &chars_of("let "));
    push_all(&mut r, &chars_of(name.as_str()));
    push_all(&mut r, &chars_of("=@FLOOR(0)"));
    r
}

/// The decimal digits of `s`, in order.
pub open spec fn digits_in(s: Seq<char>) -> Seq<char>
    decreases s.len(),
{
    if s.len() == 0 {
        Seq::empty()
    } else if is_digit(s.last()) {
        digits_in(s.drop_last()).push(s.last())
    } else {
        digits_in(s.drop_last())
    }
}

/// The characters of `s` that are not decimal digits, in order.
pub open spec fn non_digits_in(s: Seq<char>) -> Seq<char>
    decreases s.len(),
{
    if s.len() == 0 {
        Seq::empty()
    } else if is_digit(s.last()) {
        non_digits_in(s.drop_last())
    } else {
        non_digits_in(s.drop_last()).push(s.last())
    }
}

/// Splits a reference such as `AB12` into its letters, appended to
/// `letters`, and its number, returned (0 when the digits are missing or
/// their number does not fit in an `i32`).
pub fn separate_parts(input: &str, letters: &mut String) -> (num: i32)
    ensures
        final(letters)@ == old(letters)@ + non_digits_in(input@),
        num == (match i32_of(digits_in(input@)) {
            Some(v) => v,
            None => 0,
        }),
{
    let v = chars_of(input);
    let mut num_str: Vec<char> = Vec::new();
    let mut i: usize = 0;
    while i < v.len()
        invariant
            i <= v@.len(),
            v@ == input@,
            num_str@ == digits_in(v@.take(i as int)),
            letters@ == old(letters)@ + non_digits_in(v@.take(i as int)),
        decreases v@.len() - i,
    {
        let ch = v[i];
        proof {
            assert(v@.take(i + 1).drop_last() =~= v@.take(i as int));
            assert(v@.take(i + 1).last() == ch);
        }
        if '0' <= ch && ch <= '9' {
            num_str.push(ch);
        } else {
            push_char(letters, ch);
        }
        i = i + 1;
    }
    assert(v@.take(v@.len() as int) =~= v@);
    if num_str.len() > 0 {
        assert(num_str@.subrange(0, num_str@.len() as int) =~= num_str@);
        match crate::text::parse_i32_at(&num_str, 0, num_str.len()) {
            Some(n) => n,
            None => 0,
        }
    } else {
        0
    }
}


/// `w` occurs in `s` at position `i`.
pub open spec fn occurs_at(s: Seq<char>, w: Seq<char>, i: int) -> bool {
    0 <= i && i + w.len() <= s.len() && s.subrange(i, i + w.len()) == w
}

/// `w` occurs somewhere in `s`.
pub open spec fn occurs(s: Seq<char>, w: Seq<char>) -> bool {
    exists|i: int| occurs_at(s, w, i)
}

/// From its position `d` on, `w` agrees with the start of `kw`: an
/// occurrence of `kw` could begin `d` characters into one of `w`.
pub open spec fn clash(w: Seq<char>, kw: Seq<char>, d: int) -> bool {
    forall|i: int| 0 <= i < kw.len() && d + i < w.len() ==> w[d + i] == kw[i]
}

/// `s` with `@` put at position `p`.
pub open spec fn with_at(s: Seq<char>, p: int) -> Seq<char> {
    s.take(p) + seq!['@'] + s.skip(p)
}

/// A search that returns a position finds `kw` there.
proof fn lemma_find_hit(s: Seq<char>, kw: Seq<char>, i: int)
    ensures
        find_from(s, kw, i) >= 0 ==> occurs_at(s, kw, find_from(s, kw, i)),
    decreases s.len() + 1 - i,
{
    if !(i < 0 || i + kw.len() > s.len()) && s.subrange(i, i + kw.len()) != kw {
        lemma_find_hit(s, kw, i + 1);
    }
}

/// A search from `i` finds something when `kw` occurs at or after `i`.
proof fn lemma_find_some(s: Seq<char>, kw: Seq<char>, i: int, q: int)
    requires
        0 <= i <= q,
        occurs_at(s, kw, q),
    ensures
        find_from(s, kw, i) >= 0,
    decreases q - i,
{
    if s.subrange(i, i + kw.len()) != kw {
        lemma_find_some(s, kw, i + 1, q);
    }
}

/// Putting `@` before or after an occurrence of `w` keeps it, shifted by one
/// when `@` comes before it.
proof fn lemma_insert_keeps(s: Seq<char>, p: int, w: Seq<char>, q: int)
    requires
        occurs_at(s, w, q),
        0 <= p <= s.len(),
        p <= q || p >= q + w.len(),
    ensures
        occurs_at(with_at(s, p), w, if p <= q { q + 1 } else { q }),
{
    let r = with_at(s, p);
    let q2 = if p <= q { q + 1 } else { q };
    assert(r.subrange(q2, q2 + w.len()) =~= s.subrange(q, q + w.len()));
}

/// An occurrence of a text without `@` after `@` was put in was there before.
proof fn lemma_insert_back(s: Seq<char>, p: int, w: Seq<char>, q: int)
    requires
        occurs_at(with_at(s, p), w, q),
        0 <= p <= s.len(),
        forall|j: int| 0 <= j < w.len() ==> w[j] != '@',
    ensures
        occurs_at(s, w, if q > p { q - 1 } else { q }),
{
    let r = with_at(s, p);
    if q <= p && p < q + w.len() {
        assert(r[p] == '@');
        assert(r.subrange(q, q + w.len())[p - q] == r[p]);
        assert(w[p - q] == '@');
    }
    let q2 = if q > p { q - 1 } else { q };
    assert(s.subrange(q2, q2 + w.len()) =~= r.subrange(q, q + w.len()));
}

/// Marking puts `@` at the first occurrence of `kw`, or changes nothing.
proof fn lemma_mark_shape(s: Seq<char>, kw: Seq<char>)
    ensures
        find_from(s, kw, 0) < 0 ==> mark(s, kw) == s,
        find_from(s, kw, 0) >= 0 ==> mark(s, kw) == with_at(s, find_from(s, kw, 0)) && occurs_at(
            s,
            kw,
            find_from(s, kw, 0),
        ),
{
    lemma_find_hit(s, kw, 0);
}

/// Marking creates no text without `@` that was not there.
proof fn lemma_mark_absent(s: Seq<char>, kw: Seq<char>, w: Seq<char>)
    requires
        !occurs(s, w),
        forall|j: int| 0 <= j < w.len() ==> w[j] != '@',
    ensures
        !occurs(mark(s, kw), w),
{
    lemma_mark_shape(s, kw);
    if occurs(mark(s, kw), w) && find_from(s, kw, 0) >= 0 {
        let q = choose|i: int| occurs_at(mark(s, kw), w, i);
        lemma_insert_back(s, find_from(s, kw, 0), w, q);
    }
}

/// Marking `kw` keeps an occurrence of `w` inside which no `kw` starts.
proof fn lemma_mark_keeps(s: Seq<char>, kw: Seq<char>, w: Seq<char>, q: int) -> (q2: int)
    requires
        occurs_at(s, w, q),
        forall|j: int| q < j < q + w.len() ==> !occurs_at(s, kw, j),
    ensures
        occurs_at(mark(s, kw), w, q2),
{
    lemma_mark_shape(s, kw);
    let p = find_from(s, kw, 0);
    if p < 0 {
        q
    } else {
        lemma_insert_keeps(s, p, w, q);
        if p <= q { q + 1 } else { q }
    }
}

/// No `kw` starts inside an occurrence of `w` that it cannot overlap.
proof fn lemma_no_start_inside(s: Seq<char>, w: Seq<char>, q: int, kw: Seq<char>)
    requires
        occurs_at(s, w, q),
        forall|d: int| 0 < d < w.len() ==> !clash(w, kw, d),
    ensures
        forall|j: int| q < j < q + w.len() ==> !occurs_at(s, kw, j),
{
    assert forall|j: int| q < j < q + w.len() implies !occurs_at(s, kw, j) by {
        if occurs_at(s, kw, j) {
            let d = j - q;
            assert forall|i: int| 0 <= i < kw.len() && d + i < w.len() implies w[d + i] == kw[i] by {
                assert(w[d + i] == s.subrange(q, q + w.len())[d + i]);
                assert(kw[i] == s.subrange(j, j + kw.len())[i]);
            }
            assert(clash(w, kw, d));
        }
    }
}

/// Marking `kw` puts `@` before an occurrence of it.
proof fn lemma_mark_hits(s: Seq<char>, kw: Seq<char>, q: int) -> (p: int)
    requires
        occurs_at(s, kw, q),
    ensures
        occurs_at(mark(s, kw), seq!['@'] + kw, p),
{
    lemma_find_some(s, kw, 0, q);
    lemma_mark_shape(s, kw);
    let p = find_from(s, kw, 0);
    let r = with_at(s, p);
    assert(r.subrange(p, p + kw.len() + 1) =~= seq!['@'] + kw);
    p
}

/// Marking `MIN` or `MAX` keeps `@SUM`, unless its `M` starts that name.
proof fn lemma_keep_at_sum(s: Seq<char>, kw: Seq<char>, q: int) -> (q2: int)
    requires
        occurs_at(s, seq!['@', 'S', 'U', 'M'], q),
        kw.len() == 3,
        kw[0] == 'M',
        !occurs(s, seq!['S', 'U', 'M'] + kw.skip(1)),
    ensures
        occurs_at(mark(s, kw), seq!['@', 'S', 'U', 'M'], q2),
{
    let w = seq!['@', 'S', 'U', 'M'];
    assert forall|j: int| q < j < q + w.len() implies !occurs_at(s, kw, j) by {
        assert(s[q + 1] == w[1] && s[q + 2] == w[2] && s[q + 3] == w[3]) by {
            assert(s.subrange(q, q + 4)[1] == s[q + 1]);
            assert(s.subrange(q, q + 4)[2] == s[q + 2]);
            assert(s.subrange(q, q + 4)[3] == s[q + 3]);
        }
        if occurs_at(s, kw, j) {
            assert(s[j] == kw[0]) by {
                assert(s.subrange(j, j + 3)[0] == s[j]);
            }
            assert(j == q + 3);
            let five = seq!['S', 'U', 'M'] + kw.skip(1);
            assert(s.subrange(q + 1, q + 6) =~= five) by {
                assert forall|i: int| 0 <= i < 5 implies s.subrange(q + 1, q + 6)[i] == five[i] by {
                    if i < 3 {
                        assert(s.subrange(q, q + 4)[i + 1] == s[q + 1 + i]);
                    } else {
                        assert(s.subrange(j, j + 3)[i - 2] == s[q + 1 + i]);
                    }
                }
            }
            assert(occurs_at(s, five, q + 1));
        }
    }
    lemma_mark_keeps(s, kw, w, q)
}

/// Each of `SUM`, `AVG`, `MIN`, `MAX` that occurs in a line occurs in the
/// marked line with `@` before it (as `sc` wants its functions), unless the
/// `M` of a `SUM` in the line starts a `MIN` or `MAX` there.
pub proof fn lemma_marked_functions(s: Seq<char>, kw: Seq<char>)
    requires
        kw == seq!['S', 'U', 'M'] || kw == seq!['A', 'V', 'G'] || kw == seq!['M', 'I', 'N'] || kw == seq!['M', 'A', 'X'],
        occurs(s, kw),
        !occurs(s, seq!['S', 'U', 'M', 'I', 'N']),
        !occurs(s, seq!['S', 'U', 'M', 'A', 'X']),
    ensures
        occurs(marked(s), seq!['@'] + kw),
{
    let k1 = seq!['S', 'U', 'M'];
    let k2 = seq!['A', 'V', 'G'];
    let k3 = seq!['M', 'I', 'N'];
    let k4 = seq!['M', 'A', 'X'];
    reveal_strlit("SUM");
    reveal_strlit("AVG");
    reveal_strlit("MIN");
    reveal_strlit("MAX");
    assert("SUM"@ =~= k1);
    assert("AVG"@ =~= k2);
    assert("MIN"@ =~= k3);
    assert("MAX"@ =~= k4);
    let s1 = mark(s, k1);
    let s2 = mark(s1, k2);
    let s3 = mark(s2, k3);
    let s4 = mark(s3, k4);
    assert(marked(s) == s4);
    let x1 = seq!['S', 'U', 'M', 'I', 'N'];
    let x2 = seq!['S', 'U', 'M', 'A', 'X'];
    assert(k3.skip(1) =~= seq!['I', 'N']);
    assert(k4.skip(1) =~= seq!['A', 'X']);
    assert(k1 + k3.skip(1) =~= x1);
    assert(k1 + k4.skip(1) =~= x2);
    assert forall|j: int| 0 <= j < x1.len() implies x1[j] != '@' by {}
    assert forall|j: int| 0 <= j < x2.len() implies x2[j] != '@' by {}
    lemma_mark_absent(s, k1, x1);
    lemma_mark_absent(s, k1, x2);
    lemma_mark_absent(s1, k2, x1);
    lemma_mark_absent(s1, k2, x2);
    lemma_mark_absent(s2, k3, x2);
    let q0 = choose|i: int| occurs_at(s, kw, i);
    let a1 = seq!['@'] + k1;
    let a2 = seq!['@'] + k2;
    let a3 = seq!['@'] + k3;
    let a4 = seq!['@'] + k4;
    assert(a1 =~= seq!['@', 'S', 'U', 'M']);
    if kw == k1 {
        let p1 = lemma_mark_hits(s, k1, q0);
        assert forall|d: int| 0 < d < a1.len() implies !clash(a1, k2, d) by {
            assert(a1[d] != k2[0]);
        }
        lemma_no_start_inside(s1, a1, p1, k2);
        let p2 = lemma_mark_keeps(s1, k2, a1, p1);
        let p3 = lemma_keep_at_sum(s2, k3, p2);
        let p4 = lemma_keep_at_sum(s3, k4, p3);
        assert(occurs_at(s4, seq!['@'] + kw, p4));
    } else if kw == k2 {
        assert forall|d: int| 0 < d < k2.len() implies !clash(k2, k1, d) by {
            assert(k2[d] != k1[0]);
        }
        lemma_no_start_inside(s, k2, q0, k1);
        let q1 = lemma_mark_keeps(s, k1, k2, q0);
        let p2 = lemma_mark_hits(s1, k2, q1);
        assert forall|d: int| 0 < d < a2.len() implies !clash(a2, k3, d) && !clash(a2, k4, d) by {
            assert(a2[d] != k3[0]);
        }
        lemma_no_start_inside(s2, a2, p2, k3);
        let p3 = lemma_mark_keeps(s2, k3, a2, p2);
        lemma_no_start_inside(s3, a2, p3, k4);
        let p4 = lemma_mark_keeps(s3, k4, a2, p3);
        assert(occurs_at(s4, seq!['@'] + kw, p4));
    } else if kw == k3 {
        assert forall|d: int| 0 < d < k3.len() implies !clash(k3, k1, d) && !clash(k3, k2, d) by {
            assert(k3[d] != k1[0] && k3[d] != k2[0]);
        }
        lemma_no_start_inside(s, k3, q0, k1);
        let q1 = lemma_mark_keeps(s, k1, k3, q0);
        lemma_no_start_inside(s1, k3, q1, k2);
        let q2 = lemma_mark_keeps(s1, k2, k3, q1);
        let p3 = lemma_mark_hits(s2, k3, q2);
        assert forall|d: int| 0 < d < a3.len() implies !clash(a3, k4, d) by {
            if d == 1 {
                assert(a3[2] != k4[1]);
            } else {
                assert(a3[d] != k4[0]);
            }
        }
        lemma_no_start_inside(s3, a3, p3, k4);
        let p4 = lemma_mark_keeps(s3, k4, a3, p3);
        assert(occurs_at(s4, seq!['@'] + kw, p4));
    } else {
        assert forall|d: int| 0 < d < k4.len() implies !clash(k4, k1, d) && !clash(k4, k2, d) && !clash(k4, k3, d) by {
            if d == 1 {
                assert(k4[2] != k2[1]);
                assert(k4[1] != k1[0] && k4[1] != k3[0]);
            } else {
                assert(k4[d] != k1[0] && k4[d] != k2[0] && k4[d] != k3[0]);
            }
        }
        lemma_no_start_inside(s, k4, q0, k1);
        let q1 = lemma_mark_keeps(s, k1, k4, q0);
        lemma_no_start_inside(s1, k4, q1, k2);
        let q2 = lemma_mark_keeps(s1, k2, k4, q1);
        lemma_no_start_inside(s2, k4, q2, k3);
        let q3 = lemma_mark_keeps(s2, k3, k4, q2);
        let p4 = lemma_mark_hits(s3, k4, q3);
        assert(occurs_at(s4, seq!['@'] + kw, p4));
    }
}

} // verus!
