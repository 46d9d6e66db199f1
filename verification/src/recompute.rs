//! Recomputing cells one after another, and why an order in which every cell
//! comes after the cells it reads leaves each cell equal to its formula's
//! value on the final sheet.
use vstd::prelude::*;
use crate::formulas::{args_in_bounds, eval_cell, sleep_secs};
use crate::evaluation::{agree_on_reads, lemma_eval_frame, range_ordered, same_result};
use crate::graph::dep_count;
use crate::info::CellInfo;
use crate::deps::same_formulas;

verus! {

/// The sheet after the cells `order` are evaluated one after another, each
/// against the sheet as the cells before it left it.
pub open spec fn recompute(data: Seq<CellInfo>, order: Seq<i32>, m: int) -> Seq<CellInfo>
    decreases order.len(),
{
    if order.len() == 0 {
        data
    } else {
        let d = recompute(data, order.drop_last(), m);
        let c = order.last() as int;
        d.update(c, eval_cell(d[c], d, m))
    }
}

/// The seconds of sleep that those evaluations ask for, in all.
pub open spec fn recompute_sleep(data: Seq<CellInfo>, order: Seq<i32>, m: int) -> nat
    decreases order.len(),
{
    if order.len() == 0 {
        0
    } else {
        let d = recompute(data, order.drop_last(), m);
        recompute_sleep(data, order.drop_last(), m) + sleep_secs(d[order.last() as int], d, m) as nat
    }
}

/// Two sheets carry the same traversal marks.
pub open spec fn same_marks(d1: Seq<CellInfo>, d2: Seq<CellInfo>) -> bool {
    &&& d1.len() == d2.len()
    &&& forall|c: int| 0 <= c < d1.len() ==> (#[trigger] d1[c]).info.visit == d2[c].info.visit
}

/// Evaluating a cell keeps its formula, its mark and its literal mode.
pub proof fn lemma_eval_keeps(c: CellInfo, d: Seq<CellInfo>, m: int)
    ensures
        eval_cell(c, d, m).info.function_id == c.info.function_id,
        eval_cell(c, d, m).info.arg == c.info.arg,
        eval_cell(c, d, m).info.arg_mask == c.info.arg_mask,
        eval_cell(c, d, m).info.visit == c.info.visit,
        eval_cell(c, d, m).literal_mode == c.literal_mode,
{
}

/// Recomputing keeps the size of the sheet, its formulas and its marks.
pub proof fn lemma_recompute_keeps(d: Seq<CellInfo>, o: Seq<i32>, m: int)
    requires
        forall|k: int| 0 <= k < o.len() ==> 0 <= #[trigger] o[k] < d.len(),
    ensures
        same_formulas(recompute(d, o, m), d),
        same_marks(recompute(d, o, m), d),
    decreases o.len(),
{
    if o.len() > 0 {
        let o1 = o.drop_last();
        assert forall|k: int| 0 <= k < o1.len() implies 0 <= #[trigger] o1[k] < d.len() by {
            assert(o1[k] == o[k]);
        }
        lemma_recompute_keeps(d, o1, m);
        let r = recompute(d, o1, m);
        let c = o.last() as int;
        lemma_eval_keeps(r[c], r, m);
        assert(0 <= o[o.len() - 1] < d.len());
    }
}

/// A cell that the order does not name keeps its contents.
pub proof fn lemma_recompute_untouched(d: Seq<CellInfo>, o: Seq<i32>, m: int, c: int)
    requires
        forall|k: int| 0 <= k < o.len() ==> 0 <= #[trigger] o[k] < d.len(),
        forall|k: int| 0 <= k < o.len() ==> #[trigger] o[k] != c,
        0 <= c < d.len(),
    ensures
        recompute(d, o, m)[c] == d[c],
    decreases o.len(),
{
    if o.len() > 0 {
        let o1 = o.drop_last();
        assert forall|k: int| 0 <= k < o1.len() implies 0 <= #[trigger] o1[k] < d.len() && o1[k] != c by {
            assert(o1[k] == o[k]);
        }
        lemma_recompute_untouched(d, o1, m, c);
        lemma_recompute_keeps(d, o1, m);
        assert(o[o.len() - 1] != c);
    }
}


/// The steps `i..j` of an order that never name `w` leave it as it was.
pub proof fn lemma_recompute_steps_untouched(d: Seq<CellInfo>, o: Seq<i32>, m: int, i: int, j: int, w: int)
    requires
        0 <= i <= j <= o.len(),
        forall|k: int| 0 <= k < o.len() ==> 0 <= #[trigger] o[k] < d.len(),
        forall|k: int| i <= k < j ==> #[trigger] o[k] != w,
        0 <= w < d.len(),
    ensures
        recompute(d, o.subrange(0, j), m)[w] == recompute(d, o.subrange(0, i), m)[w],
    decreases j - i,
{
    if j > i {
        lemma_recompute_steps_untouched(d, o, m, i, j - 1, w);
        let p = o.subrange(0, j);
        assert(p.drop_last() =~= o.subrange(0, j - 1));
        assert(p.last() == o[j - 1]);
        assert forall|k: int| 0 <= k < p.drop_last().len() implies 0 <= #[trigger] p.drop_last()[k] < d.len() by {
            assert(p.drop_last()[k] == o[k]);
        }
        lemma_recompute_keeps(d, p.drop_last(), m);
    }
}

/// In an order that names each cell once and puts every cell after the
/// cells its formula reads, each cell of the order ends equal to what its
/// formula gives on the final sheet.
pub proof fn lemma_recompute_fixpoint(d: Seq<CellInfo>, o: Seq<i32>, n: int, m: int, k: int)
    requires
        d.len() == n * m,
        m > 0,
        forall|j: int| 0 <= j < o.len() ==> 0 <= #[trigger] o[j] < d.len(),
        forall|j1: int, j2: int| 0 <= j1 < j2 < o.len() ==> #[trigger] o[j1] != #[trigger] o[j2],
        forall|c: int| 0 <= c < d.len() ==> args_in_bounds(#[trigger] d[c].info, n * m) && range_ordered(d[c].info, m),
        forall|j1: int, j2: int|
            0 <= j1 < o.len() && 0 <= j2 < o.len() && dep_count(d[#[trigger] o[j2] as int].info, #[trigger] o[j1] as int, m) > 0 ==> j1 < j2,
        0 <= k < o.len(),
    ensures
        recompute(d, o, m)[o[k] as int] == eval_cell(d[o[k] as int], recompute(d, o, m), m),
{
    let c = o[k] as int;
    let len = o.len() as int;
    let rk = recompute(d, o.subrange(0, k), m);
    let rk1 = recompute(d, o.subrange(0, k + 1), m);
    let r = recompute(d, o, m);
    assert(o.subrange(0, len) =~= o);
    // before step k the cell is as it was
    assert forall|j: int| 0 <= j < o.subrange(0, k).len() implies 0 <= #[trigger] o.subrange(0, k)[j] < d.len() by {
        assert(o.subrange(0, k)[j] == o[j]);
    }
    assert forall|j: int| 0 <= j < o.subrange(0, k).len() implies #[trigger] o.subrange(0, k)[j] != c by {
        assert(o.subrange(0, k)[j] == o[j]);
        assert(o[j] != o[k]);
    }
    lemma_recompute_untouched(d, o.subrange(0, k), m, c);
    lemma_recompute_keeps(d, o.subrange(0, k), m);
    lemma_recompute_keeps(d, o, m);
    // step k evaluates it
    assert(o.subrange(0, k + 1).drop_last() =~= o.subrange(0, k));
    assert(o.subrange(0, k + 1).last() == o[k]);
    assert(rk1[c] == eval_cell(d[c], rk, m));
    // later steps leave it
    assert forall|j: int| k + 1 <= j < len implies #[trigger] o[j] != c by {
        assert(o[k] != o[j]);
    }
    lemma_recompute_steps_untouched(d, o, m, k + 1, len, c);
    // the cells it reads are final before step k
    assert forall|w: int| 0 <= w < rk.len() && dep_count(d[c].info, w, m) > 0 implies #[trigger] same_result(rk[w], r[w]) by {
        assert forall|j: int| k <= j < len implies #[trigger] o[j] != w by {
            if o[j] == w {
                assert(dep_count(d[o[k] as int].info, o[j] as int, m) > 0);
            }
        }
        lemma_recompute_steps_untouched(d, o, m, k, len, w);
    }
    assert(agree_on_reads(d[c].info, rk, r, m));
    lemma_eval_frame(d[c], rk, r, n, m);
}

} // verus!
