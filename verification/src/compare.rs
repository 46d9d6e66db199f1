//! Line-by-line comparison of two files. A line is the text up to each
//! newline (a newline at the very end closes the last line rather than
//! opening an empty one), however long it is; each line is decoded as UTF-8
//! on its own, invalid sequences replaced. The report lists the lines whose
//! texts differ and the lines that only one file has.
use vstd::prelude::*;

verus! {

/// What `String::from_utf8_lossy` gives for the bytes `b`.
pub uninterp spec fn utf8_lossy(b: Seq<u8>) -> Seq<char>;

/// The bytes `b` decoded as UTF-8, each invalid sequence replaced.
/// Calls `String::from_utf8_lossy`, which decodes valid UTF-8 as it is and
/// puts U+FFFD in place of each invalid sequence; only the case of ASCII
/// bytes, which decode to the characters with the same codes, is restated.
#[verifier::external_body]
fn lossy_text(b: &Vec<u8>) -> (r: Vec<char>)
    ensures
        r@ == utf8_lossy(b@),
        (forall|i: int| 0 <= i < b@.len() ==> b@[i] < 128) ==> r@ == b@.map_values(|x: u8| x as char),
{
    String::from_utf8_lossy(b).chars().collect()
}

/// How a line differs.
#[derive(Debug, Clone, Copy, PartialEq, Eq, Structural)]
pub enum DiffKind {
    /// The first file has this line, the second has ended.
    ExtraInFirst,
    /// The second file has this line, the first has ended.
    ExtraInSecond,
    /// Both files have the line, with different text.
    Mismatch,
}

/// One line that differs: its number (from 1), how it differs and the text
/// of each file at that line (empty where the file has ended).
#[derive(Debug)]
pub struct DiffLine {
    pub line: i32,
    pub kind: DiffKind,
    pub first: Vec<char>,
    pub second: Vec<char>,
}

/// The lines that differ, in order, and how many there are.
#[derive(Debug)]
pub struct CompareReport {
    pub diffs: i32,
    pub lines: Vec<DiffLine>,
}

/// The pieces of `b` between newlines, the last piece after the last newline
/// (empty when `b` ends with one): one more piece than there are newlines.
pub open spec fn split_nl(b: Seq<u8>) -> Seq<Seq<u8>>
    decreases b.len(),
{
    if b.len() == 0 {
        seq![Seq::<u8>::empty()]
    } else {
        let p = split_nl(b.drop_last());
        if b.last() == 10 {
            p.push(Seq::<u8>::empty())
        } else {
            p.update(p.len() - 1, p.last().push(b.last()))
        }
    }
}

/// The lines of `b`: the pieces between newlines, where a newline at the very
/// end closes the last line; an empty file has no line.
pub open spec fn lines_of(b: Seq<u8>) -> Seq<Seq<u8>> {
    if b.len() == 0 {
        Seq::empty()
    } else if b.last() == 10 {
        split_nl(b).drop_last()
    } else {
        split_nl(b)
    }
}

/// The text of the line `l`: for ASCII bytes the characters with the same
/// codes, otherwise what `String::from_utf8_lossy` gives.
pub open spec fn decoded(l: Seq<u8>) -> Seq<char> {
    if forall|i: int| 0 <= i < l.len() ==> l[i] < 128 {
        l.map_values(|x: u8| x as char)
    } else {
        utf8_lossy(l)
    }
}

/// The texts of the lines of `b`, each decoded on its own.
pub open spec fn line_texts_of(b: Seq<u8>) -> Seq<Seq<char>> {
    lines_of(b).map_values(|l: Seq<u8>| decoded(l))
}

/// A line that differs, as a tuple: number, kind, first text, second text.
pub type DiffSpec = (int, DiffKind, Seq<char>, Seq<char>);

/// The lines among the first `k` of both files whose texts differ.
pub open spec fn mismatches(t1: Seq<Seq<char>>, t2: Seq<Seq<char>>, k: nat) -> Seq<DiffSpec>
    decreases k,
{
    if k == 0 {
        Seq::empty()
    } else {
        let prev = mismatches(t1, t2, (k - 1) as nat);
        let i = k - 1;
        if t1[i] != t2[i] {
            prev.push((k as int, DiffKind::Mismatch, t1[i], t2[i]))
        } else {
            prev
        }
    }
}

/// Lines `from` to `from + k - 1` (from 0) of `t`, which the other file lacks.
pub open spec fn extras(t: Seq<Seq<char>>, from: int, k: nat, in_first: bool) -> Seq<DiffSpec>
    decreases k,
{
    if k == 0 {
        Seq::empty()
    } else {
        let i = from + k - 1;
        extras(t, from, (k - 1) as nat, in_first).push(
            if in_first {
                (i + 1, DiffKind::ExtraInFirst, t[i], Seq::empty())
            } else {
                (i + 1, DiffKind::ExtraInSecond, Seq::empty(), t[i])
            },
        )
    }
}

/// The lines that differ between files whose lines have the texts `t1` and
/// `t2`: the common lines that differ, then the lines only one file has.
pub open spec fn differences(t1: Seq<Seq<char>>, t2: Seq<Seq<char>>) -> Seq<DiffSpec> {
    if t1.len() <= t2.len() {
        mismatches(t1, t2, t1.len()) + extras(t2, t1.len() as int, (t2.len() - t1.len()) as nat, false)
    } else {
        mismatches(t1, t2, t2.len()) + extras(t1, t2.len() as int, (t1.len() - t2.len()) as nat, true)
    }
}

/// `r` lists the lines `d`.
pub open spec fn reports(r: CompareReport, d: Seq<DiffSpec>) -> bool {
    &&& r.diffs == d.len()
    &&& r.lines@.len() == d.len()
    &&& forall|i: int| 0 <= i < d.len() ==> {
        &&& (#[trigger] r.lines@[i]).line == d[i].0
        &&& r.lines@[i].kind == d[i].1
        &&& r.lines@[i].first@ == d[i].2
        &&& r.lines@[i].second@ == d[i].3
    }
}

/// A file has one more piece than newlines, so no more than one piece per
/// byte, and no more lines than bytes.
proof fn lemma_lines_len(b: Seq<u8>)
    ensures
        split_nl(b).len() >= 1,
        split_nl(b).len() <= b.len() + 1,
        lines_of(b).len() <= b.len(),
    decreases b.len(),
{
    if b.len() > 0 {
        lemma_lines_len(b.drop_last());
    }
}

/// Splits `bytes` into its lines.
pub fn split_lines(bytes: &Vec<u8>) -> (r: Vec<Vec<u8>>)
    ensures
        r@.map_values(|l: Vec<u8>| l@) == lines_of(bytes@),
{
    let mut done: Vec<Vec<u8>> = Vec::new();
    let mut cur: Vec<u8> = Vec::new();
    let mut i: usize = 0;
    assert(bytes@.take(0) =~= Seq::<u8>::empty());
    assert(done@.map_values(|l: Vec<u8>| l@).push(cur@) =~= split_nl(bytes@.take(0)));
    while i < bytes.len()
        invariant
            i <= bytes@.len(),
            done@.map_values(|l: Vec<u8>| l@).push(cur@) == split_nl(bytes@.take(i as int)),
        decreases bytes@.len() - i,
    {
        let ghost t = bytes@.take(i + 1);
        assert(t.drop_last() =~= bytes@.take(i as int));
        assert(t.last() == bytes@[i as int]);
        let ghost before = done@.map_values(|l: Vec<u8>| l@);
        if bytes[i] == 10 {
            done.push(cur);
            cur = Vec::new();
            assert(done@.map_values(|l: Vec<u8>| l@) =~= before.push(done@.last()@));
            assert(done@.map_values(|l: Vec<u8>| l@).push(cur@) =~= split_nl(t));
        } else {
            let ghost old_cur = cur@;
            cur.push(bytes[i]);
            assert(done@.map_values(|l: Vec<u8>| l@).push(cur@) =~= before.push(old_cur).update(before.len() as int, old_cur.push(bytes@[i as int])));
        }
        i = i + 1;
    }
    assert(bytes@.take(bytes@.len() as int) =~= bytes@);
    let ghost whole = done@.map_values(|l: Vec<u8>| l@);
    let ghost b = bytes@;
    proof {
        let full = split_nl(b);
        assert(full == whole.push(cur@));
        assert(full.last() == cur@);
        if b.len() == 0 {
            assert(cur@.len() == 0);
            assert(whole.len() == 0);
            assert(whole =~= Seq::<Seq<u8>>::empty());
        } else if b.last() == 10 {
            assert(cur@.len() == 0);
        } else {
            lemma_lines_len(b.drop_last());
            let p = split_nl(b.drop_last());
            assert(full.last() == p.last().push(b.last()));
            assert(cur@.len() > 0);
        }
    }
    if cur.len() > 0 {
        done.push(cur);
        assert(done@.map_values(|l: Vec<u8>| l@) =~= whole.push(done@.last()@));
    } else {
        assert(whole =~= whole.push(cur@).drop_last());
    }
    done
}

/// The text of each line.
pub fn line_texts(lines: &Vec<Vec<u8>>) -> (t: Vec<Vec<char>>)
    ensures
        t@.map_values(|v: Vec<char>| v@) == lines@.map_values(|l: Vec<u8>| l@).map_values(|l: Seq<u8>| decoded(l)),
{
    let mut t: Vec<Vec<char>> = Vec::new();
    let mut i: usize = 0;
    while i < lines.len()
        invariant
            i <= lines@.len(),
            t@.len() == i,
            forall|j: int| 0 <= j < i ==> (#[trigger] t@[j])@ == decoded(lines@[j]@),
        decreases lines@.len() - i,
    {
        t.push(lossy_text(&lines[i]));
        i = i + 1;
    }
    assert(t@.map_values(|v: Vec<char>| v@) =~= lines@.map_values(|l: Vec<u8>| l@).map_values(|l: Seq<u8>| decoded(l)));
    t
}

/// Whether two texts are the same.
fn same_text(a: &Vec<char>, b: &Vec<char>) -> (r: bool)
    ensures
        r == (a@ == b@),
{
    if a.len() != b.len() {
        return false;
    }
    let mut i: usize = 0;
    while i < a.len()
        invariant
            i <= a@.len() == b@.len(),
            forall|j: int| 0 <= j < i ==> a@[j] == b@[j],
        decreases a@.len() - i,
    {
        if a[i] != b[i] {
            assert(a@[i as int] != b@[i as int]);
            return false;
        }
        i = i + 1;
    }
    assert(a@ =~= b@);
    true
}

/// A copy of `v`.
fn copy_text(v: &Vec<char>) -> (r: Vec<char>)
    ensures
        r@ == v@,
{
    let mut r: Vec<char> = Vec::new();
    let mut i: usize = 0;
    while i < v.len()
        invariant
            i <= v@.len(),
            r@ == v@.take(i as int),
        decreases v@.len() - i,
    {
        r.push(v[i]);
        assert(r@ =~= v@.take(i + 1));
        i = i + 1;
    }
    assert(v@.take(v@.len() as int) =~= v@);
    r
}

/// Compares two files given by the texts of their lines.
pub fn compare_texts(t1: &Vec<Vec<char>>, t2: &Vec<Vec<char>>) -> (r: CompareReport)
    requires
        t1@.len() < i32::MAX,
        t2@.len() < i32::MAX,
    ensures
        reports(r, differences(t1@.map_values(|v: Vec<char>| v@), t2@.map_values(|v: Vec<char>| v@))),
{
    let ghost s1 = t1@.map_values(|v: Vec<char>| v@);
    let ghost s2 = t2@.map_values(|v: Vec<char>| v@);
    let common = if t1.len() <= t2.len() { t1.len() } else { t2.len() };
    let mut lines: Vec<DiffLine> = Vec::new();
    let mut i: usize = 0;
    while i < common
        invariant
            s1 == t1@.map_values(|v: Vec<char>| v@),
            s2 == t2@.map_values(|v: Vec<char>| v@),
            common <= t1@.len(),
            common <= t2@.len(),
            t1@.len() < i32::MAX,
            t2@.len() < i32::MAX,
            i <= common,
            lines@.len() == mismatches(s1, s2, i as nat).len(),
            lines@.len() <= i,
            forall|j: int| 0 <= j < lines@.len() ==> {
                let d = mismatches(s1, s2, i as nat)[j];
                &&& (#[trigger] lines@[j]).line == d.0
                &&& lines@[j].kind == d.1
                &&& lines@[j].first@ == d.2
                &&& lines@[j].second@ == d.3
            },
        decreases common - i,
    {
        let ghost prev = mismatches(s1, s2, i as nat);
        assert(s1[i as int] == t1@[i as int]@ && s2[i as int] == t2@[i as int]@);
        if !same_text(&t1[i], &t2[i]) {
            lines.push(DiffLine { line: (i + 1) as i32, kind: DiffKind::Mismatch, first: copy_text(&t1[i]), second: copy_text(&t2[i]) });
            assert(mismatches(s1, s2, (i + 1) as nat) == prev.push(((i + 1) as int, DiffKind::Mismatch, s1[i as int], s2[i as int])));
        }
        i = i + 1;
    }
    let ghost base = mismatches(s1, s2, common as nat);
    let in_first = t1.len() > t2.len();
    let longer = if in_first { t1 } else { t2 };
    let ghost sl = if in_first { s1 } else { s2 };
    let mut k: usize = common;
    while k < longer.len()
        invariant
            s1 == t1@.map_values(|v: Vec<char>| v@),
            s2 == t2@.map_values(|v: Vec<char>| v@),
            sl == longer@.map_values(|v: Vec<char>| v@),
            longer@.len() < i32::MAX,
            common <= k <= longer@.len(),
            lines@.len() == base.len() + extras(sl, common as int, (k - common) as nat, in_first).len(),
            lines@.len() <= k,
            forall|j: int| 0 <= j < lines@.len() ==> {
                let d = (base + extras(sl, common as int, (k - common) as nat, in_first))[j];
                &&& (#[trigger] lines@[j]).line == d.0
                &&& lines@[j].kind == d.1
                &&& lines@[j].first@ == d.2
                &&& lines@[j].second@ == d.3
            },
        decreases longer@.len() - k,
    {
        let ghost before = base + extras(sl, common as int, (k - common) as nat, in_first);
        assert(sl[k as int] == longer@[k as int]@);
        let text = copy_text(&longer[k]);
        let entry = if in_first {
            DiffLine { line: (k + 1) as i32, kind: DiffKind::ExtraInFirst, first: text, second: Vec::new() }
        } else {
            DiffLine { line: (k + 1) as i32, kind: DiffKind::ExtraInSecond, first: Vec::new(), second: text }
        };
        lines.push(entry);
        proof {
            let i = common + (k + 1 - common) - 1;
            assert(i == k);
            assert(base + extras(sl, common as int, (k + 1 - common) as nat, in_first) =~= before.push(
                if in_first {
                    ((k + 1) as int, DiffKind::ExtraInFirst, sl[k as int], Seq::<char>::empty())
                } else {
                    ((k + 1) as int, DiffKind::ExtraInSecond, Seq::<char>::empty(), sl[k as int])
                },
            ));
        }
        k = k + 1;
    }
    let diffs = lines.len() as i32;
    CompareReport { diffs, lines }
}

/// Compares two files given by their contents: the report lists each line
/// whose text differs between the files and each line that only one of them
/// has.
pub fn compare(c1: &Vec<u8>, c2: &Vec<u8>) -> (r: CompareReport)
    requires
        c1@.len() < i32::MAX,
        c2@.len() < i32::MAX,
    ensures
        reports(r, differences(line_texts_of(c1@), line_texts_of(c2@))),
{
    let l1 = split_lines(c1);
    let l2 = split_lines(c2);
    proof {
        lemma_lines_len(c1@);
        lemma_lines_len(c2@);
        assert(l1@.len() == l1@.map_values(|l: Vec<u8>| l@).len());
        assert(l2@.len() == l2@.map_values(|l: Vec<u8>| l@).len());
    }
    let t1 = line_texts(&l1);
    let t2 = line_texts(&l2);
    proof {
        assert(t1@.len() == t1@.map_values(|v: Vec<char>| v@).len());
        assert(t2@.len() == t2@.map_values(|v: Vec<char>| v@).len());
    }
    compare_texts(&t1, &t2)
}

/// Swapping the files finds the same number of differing common lines.
proof fn lemma_mismatches_swap(t1: Seq<Seq<char>>, t2: Seq<Seq<char>>, k: nat)
    ensures
        mismatches(t1, t2, k).len() == mismatches(t2, t1, k).len(),
    decreases k,
{
    if k > 0 {
        lemma_mismatches_swap(t1, t2, (k - 1) as nat);
    }
}

/// A file has no differing common lines with itself.
proof fn lemma_mismatches_self(t: Seq<Seq<char>>, k: nat)
    ensures
        mismatches(t, t, k).len() == 0,
    decreases k,
{
    if k > 0 {
        lemma_mismatches_self(t, (k - 1) as nat);
    }
}

/// `k` lines that only one file has are `k` differences.
proof fn lemma_extras_len(t: Seq<Seq<char>>, from: int, k: nat, in_first: bool)
    ensures
        extras(t, from, k, in_first).len() == k,
    decreases k,
{
    if k > 0 {
        lemma_extras_len(t, from, (k - 1) as nat, in_first);
    }
}

/// A file compared with itself has no differences, and comparing the files
/// the other way round finds as many differences.
pub proof fn lemma_compare_laws(t1: Seq<Seq<char>>, t2: Seq<Seq<char>>)
    ensures
        differences(t1, t1).len() == 0,
        differences(t1, t2).len() == differences(t2, t1).len(),
{
    lemma_mismatches_self(t1, t1.len());
    lemma_extras_len(t1, t1.len() as int, 0, false);
    if t1.len() <= t2.len() {
        lemma_mismatches_swap(t1, t2, t1.len());
        lemma_extras_len(t2, t1.len() as int, (t2.len() - t1.len()) as nat, false);
        if t2.len() <= t1.len() {
            lemma_extras_len(t1, t2.len() as int, (t1.len() - t2.len()) as nat, false);
        } else {
            lemma_extras_len(t2, t1.len() as int, (t2.len() - t1.len()) as nat, true);
        }
    } else {
        lemma_mismatches_swap(t1, t2, t2.len());
        lemma_extras_len(t1, t2.len() as int, (t1.len() - t2.len()) as nat, true);
        lemma_extras_len(t1, t2.len() as int, (t1.len() - t2.len()) as nat, false);
    }
}

} // verus!
