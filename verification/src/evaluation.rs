//! What evaluating a formula depends on: only the values and error flags of
//! the cells the formula reads, never the traversal marks; and evaluating a
//! cell twice against the same sheet changes nothing more.
use vstd::prelude::*;
use crate::dfs::set_visit;
use crate::formulas::{
    args_in_bounds, assign_result, arith_result, eval_cell, is_range_id, range_bounds, range_cells,
    range_result, rect_rest, scan_values, with_result,
};
use crate::graph::{dep_count, in_rect, lemma_row_col};
use crate::info::{CellInfo, Info};
use crate::sheet::valid_range_spec;

verus! {

/// The range of a range formula runs from its first argument (top left) to
/// its second (bottom right); other formulas have no range.
pub open spec fn range_ordered(info: Info, m: int) -> bool {
    is_range_id(info.function_id) ==> valid_range_spec(info.arg[0] as int, info.arg[1] as int, m)
}

/// Two cells show the same value and error flag.
pub open spec fn same_result(a: CellInfo, b: CellInfo) -> bool {
    a.value == b.value && a.info.invalid == b.info.invalid
}

/// `d1` and `d2` show the same result at every cell that the formula `info` reads.
pub open spec fn agree_on_reads(info: Info, d1: Seq<CellInfo>, d2: Seq<CellInfo>, m: int) -> bool {
    forall|w: int| 0 <= w < d1.len() && dep_count(info, w, m) > 0 ==> #[trigger] same_result(d1[w], d2[w])
}

/// Every cell of the rectangle rest from row `i`, column `j` lies in rows
/// `i..=xmax` and columns `ymin..=ymax`: the row and column of cell `k`.
pub proof fn lemma_rect_members(i: int, j: int, xmax: int, ymin: int, ymax: int, m: int, k: int) -> (rc: (int, int))
    requires
        0 <= k < rect_rest(i, j, xmax, ymin, ymax, m).len(),
        ymin <= j,
    ensures
        i <= rc.0 <= xmax,
        ymin <= rc.1 <= ymax,
        rect_rest(i, j, xmax, ymin, ymax, m)[k] == rc.0 * m + rc.1,
    decreases xmax - i + 1, ymax - j + 1,
{
    if i > xmax {
        (0, 0)
    } else if j > ymax {
        lemma_rect_members(i + 1, ymin, xmax, ymin, ymax, m, k)
    } else {
        let rest = rect_rest(i, j + 1, xmax, ymin, ymax, m);
        assert(rect_rest(i, j, xmax, ymin, ymax, m) == seq![i * m + j] + rest);
        if k == 0 {
            (i, j)
        } else {
            let rc = lemma_rect_members(i, j + 1, xmax, ymin, ymax, m, k - 1);
            assert(rect_rest(i, j, xmax, ymin, ymax, m)[k] == rest[k - 1]);
            rc
        }
    }
}

/// Every cell of an ordered range is read by the formula.
pub proof fn lemma_range_cells_read(info: Info, m: int, n: int, k: int)
    requires
        is_range_id(info.function_id),
        range_ordered(info, m),
        m > 0,
        0 <= info.arg[0] < n * m,
        0 <= info.arg[1] < n * m,
        0 <= k < range_cells(info, m).len(),
    ensures
        0 <= range_cells(info, m)[k] < n * m,
        dep_count(info, range_cells(info, m)[k], m) > 0,
{
    let (xmin, xmax, ymin, ymax) = range_bounds(info, m);
    let a0 = info.arg[0] as int;
    let a1 = info.arg[1] as int;
    vstd::arithmetic::div_mod::lemma_mod_pos_bound(a1, m);
    crate::formulas::lemma_row_bound(a1, n, m);
    crate::formulas::lemma_row_bound(a0, n, m);
    let (r, c) = lemma_rect_members(xmin, ymin, xmax, ymin, ymax, m, k);
    lemma_row_col(r, c, m);
    crate::formulas::lemma_cell_bound(r, c, n, m);
    assert(in_rect(info, r * m + c, m));
}

/// A scan over cells on which two sheets show the same results gives the same.
pub proof fn lemma_scan_frame(d1: Seq<CellInfo>, d2: Seq<CellInfo>, s: Seq<int>)
    requires
        forall|k: int| 0 <= k < s.len() ==> same_result(d1[#[trigger] s[k]], d2[s[k]]),
    ensures
        scan_values(d1, s) == scan_values(d2, s),
    decreases s.len(),
{
    if s.len() > 0 {
        assert(same_result(d1[s[0]], d2[s[0]]));
        assert forall|k: int| 0 <= k < s.drop_first().len() implies same_result(d1[#[trigger] s.drop_first()[k]], d2[s.drop_first()[k]]) by {
            assert(s.drop_first()[k] == s[k + 1]);
        }
        lemma_scan_frame(d1, d2, s.drop_first());
    }
}

/// Evaluating a formula reads only the values and error flags of the cells
/// it depends on.
pub proof fn lemma_eval_frame(c: CellInfo, d1: Seq<CellInfo>, d2: Seq<CellInfo>, n: int, m: int)
    requires
        d1.len() == n * m,
        d2.len() == n * m,
        m > 0,
        args_in_bounds(c.info, n * m),
        range_ordered(c.info, m),
        agree_on_reads(c.info, d1, d2, m),
    ensures
        eval_cell(c, d1, m) == eval_cell(c, d2, m),
{
    let f = c.info.function_id;
    if c.literal_mode {
    } else if f <= 5 {
        if crate::formulas::arg_is_cell(c.info, 0) {
            assert(dep_count(c.info, c.info.arg[0] as int, m) > 0);
            assert(same_result(d1[c.info.arg[0] as int], d2[c.info.arg[0] as int]));
        }
        if f >= 2 && crate::formulas::arg_is_cell(c.info, 1) {
            assert(dep_count(c.info, c.info.arg[1] as int, m) > 0);
            assert(same_result(d1[c.info.arg[1] as int], d2[c.info.arg[1] as int]));
        }
    } else if f <= 10 {
        let s = range_cells(c.info, m);
        assert forall|k: int| 0 <= k < s.len() implies same_result(d1[#[trigger] s[k]], d2[s[k]]) by {
            lemma_range_cells_read(c.info, m, n, k);
        }
        lemma_scan_frame(d1, d2, s);
    }
}

/// Evaluation ignores the traversal mark of the evaluated cell and keeps it.
pub proof fn lemma_eval_set_visit(c: CellInfo, v: u8, d: Seq<CellInfo>, m: int)
    ensures
        eval_cell(set_visit(c, v), d, m) == set_visit(eval_cell(c, d, m), v),
{
}

/// Evaluating a cell a second time against the same sheet gives the same cell.
pub proof fn lemma_eval_idempotent(c: CellInfo, d: Seq<CellInfo>, m: int)
    ensures
        eval_cell(eval_cell(c, d, m), d, m) == eval_cell(c, d, m),
{
}

} // verus!
