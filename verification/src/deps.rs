//! Which cells depend on which: walks along the "is read by" relation of the
//! formulas in a sheet, and what a cycle among them is.
use vstd::prelude::*;
use crate::graph::{dep_count, lemma_reads_cell, reads_cell, targets_in_bounds};
use crate::info::{CellInfo, Info};

verus! {

/// Cell `v`'s formula reads cell `u`, so `v` depends on `u`.
pub open spec fn reads(data: Seq<CellInfo>, m: int, v: int, u: int) -> bool {
    &&& 0 <= v < data.len()
    &&& 0 <= u < data.len()
    &&& dep_count(data[v].info, u, m) > 0
}

/// The dependencies that the formulas of `data` give: `(u, v)` is an edge
/// when `v` reads `u`.
pub open spec fn formula_edges(data: Seq<CellInfo>, m: int) -> spec_fn(int, int) -> bool {
    |u: int, v: int| reads(data, m, v, u)
}

/// `p` is a walk through the cells `0..n` along edges of `e`, each cell a
/// dependent of the one before.
pub open spec fn is_walk(e: spec_fn(int, int) -> bool, n: int, p: Seq<int>) -> bool {
    &&& p.len() > 0
    &&& forall|k: int| 0 <= k < p.len() ==> 0 <= #[trigger] p[k] < n
    &&& forall|k: int| 0 <= k < p.len() - 1 ==> #[trigger] e(p[k], p[k + 1])
}

/// A change of cell `a` reaches cell `b`: a walk leads from `a` to `b`.
pub open spec fn reaches(e: spec_fn(int, int) -> bool, n: int, a: int, b: int) -> bool {
    exists|p: Seq<int>| #[trigger] is_walk(e, n, p) && p[0] == a && p.last() == b
}

/// Giving `cell` the formula `f` closes a cycle: `f` reads a cell that a
/// change of `cell` reaches (`cell` itself included).
pub open spec fn creates_cycle(e: spec_fn(int, int) -> bool, n: int, m: int, cell: int, f: Info) -> bool {
    exists|u: int| #[trigger] reaches(e, n, cell, u) && dep_count(f, u, m) > 0
}

/// The dependency search finds a cell that a change of `cell` reaches and
/// that `f` reads by its read test (`reads_cell`).
pub open spec fn reaches_read(e: spec_fn(int, int) -> bool, n: int, m: int, cell: int, f: Info) -> bool {
    exists|u: int| #[trigger] reaches(e, n, cell, u) && reads_cell(f, u, m)
}

/// For a formula that reads cells of the sheet only, the search's read test
/// finds a cycle exactly when the formula closes one.
pub proof fn lemma_reaches_read(e: spec_fn(int, int) -> bool, n: int, m: int, cell: int, f: Info)
    requires
        m > 0,
        n <= i32::MAX,
        targets_in_bounds(f, n),
    ensures
        reaches_read(e, n, m, cell, f) == creates_cycle(e, n, m, cell, f),
{
    assert forall|u: int| #[trigger] reaches(e, n, cell, u) implies reads_cell(f, u, m) == (dep_count(f, u, m) > 0) by {
        let p = choose|p: Seq<int>| #[trigger] is_walk(e, n, p) && p[0] == cell && p.last() == u;
        assert(0 <= p[p.len() - 1] < n);
        lemma_reads_cell(f, u, m);
    }
    if reaches_read(e, n, m, cell, f) {
        let u = choose|u: int| #[trigger] reaches(e, n, cell, u) && reads_cell(f, u, m);
        assert(reaches(e, n, cell, u) && dep_count(f, u, m) > 0);
    }
    if creates_cycle(e, n, m, cell, f) {
        let u = choose|u: int| #[trigger] reaches(e, n, cell, u) && dep_count(f, u, m) > 0;
        assert(reaches(e, n, cell, u) && reads_cell(f, u, m));
    }
}

/// A cycle of dependencies that a change of `cell` reaches.
pub open spec fn cycle_reachable(e: spec_fn(int, int) -> bool, n: int, cell: int) -> bool {
    exists|p: Seq<int>|
        #[trigger] is_walk(e, n, p) && p.len() >= 2 && p[0] == p.last() && reaches(e, n, cell, p[0])
}

/// Two sheets with the same formulas have the same dependencies.
pub open spec fn same_formulas(d1: Seq<CellInfo>, d2: Seq<CellInfo>) -> bool {
    &&& d1.len() == d2.len()
    &&& forall|c: int|
        0 <= c < d1.len() ==> (#[trigger] d1[c]).info.function_id == d2[c].info.function_id
            && d1[c].info.arg == d2[c].info.arg && d1[c].info.arg_mask == d2[c].info.arg_mask
}

/// Every cell reaches itself.
pub proof fn lemma_reach_refl(e: spec_fn(int, int) -> bool, n: int, a: int)
    requires
        0 <= a < n,
    ensures
        reaches(e, n, a, a),
{
    let p = seq![a];
    assert(is_walk(e, n, p));
}

/// A dependent of a reached cell is reached.
pub proof fn lemma_reach_step(e: spec_fn(int, int) -> bool, n: int, a: int, u: int, v: int)
    requires
        reaches(e, n, a, u),
        e(u, v),
        0 <= v < n,
    ensures
        reaches(e, n, a, v),
{
    let p = choose|p: Seq<int>| #[trigger] is_walk(e, n, p) && p[0] == a && p.last() == u;
    let q = p.push(v);
    assert forall|k: int| 0 <= k < q.len() - 1 implies #[trigger] e(q[k], q[k + 1]) by {
        if k < p.len() - 1 {
            assert(q[k + 1] == p[k + 1] && q[k] == p[k]);
        }
    }
    assert(is_walk(e, n, q));
}

/// A set of cells that holds `a` and every dependent of its members holds
/// every cell that `a` reaches.
pub proof fn lemma_reach_closed(e: spec_fn(int, int) -> bool, n: int, a: int, b: int, s: spec_fn(int) -> bool)
    requires
        reaches(e, n, a, b),
        s(a),
        forall|u: int, v: int| s(u) && #[trigger] e(u, v) ==> s(v),
    ensures
        s(b),
{
    let p = choose|p: Seq<int>| #[trigger] is_walk(e, n, p) && p[0] == a && p.last() == b;
    lemma_walk_closed(e, n, p, s, p.len() - 1);
}

/// Every cell of a walk that starts in a set closed under dependents lies in it.
pub proof fn lemma_walk_closed(e: spec_fn(int, int) -> bool, n: int, p: Seq<int>, s: spec_fn(int) -> bool, k: int)
    requires
        is_walk(e, n, p),
        s(p[0]),
        0 <= k < p.len(),
        forall|u: int, v: int| s(u) && #[trigger] e(u, v) ==> s(v),
    ensures
        s(p[k]),
    decreases k,
{
    if k > 0 {
        lemma_walk_closed(e, n, p, s, k - 1);
        let j = k - 1;
        assert(e(p[j], p[j + 1]));
        assert(p[j + 1] == p[k]);
    }
}

/// Along a walk whose every step raises `rank`, the rank rises from start to end.
pub proof fn lemma_walk_rank(e: spec_fn(int, int) -> bool, n: int, p: Seq<int>, rank: spec_fn(int) -> int, k: int)
    requires
        is_walk(e, n, p),
        1 <= k < p.len(),
        forall|j: int| 0 <= j < p.len() - 1 ==> rank(p[j]) < rank(#[trigger] p[j + 1]),
    ensures
        rank(p[0]) < rank(p[k]),
    decreases k,
{
    if k > 1 {
        lemma_walk_rank(e, n, p, rank, k - 1);
        let j = k - 1;
        assert(rank(p[j]) < rank(p[j + 1]));
        assert(p[j + 1] == p[k]);
    } else {
        let j = 0int;
        assert(rank(p[j]) < rank(p[j + 1]));
    }
}

/// Sheets with the same formulas have the same walks.
pub proof fn lemma_same_formulas_reads(d1: Seq<CellInfo>, d2: Seq<CellInfo>, m: int)
    requires
        same_formulas(d1, d2),
    ensures
        forall|v: int, u: int| #[trigger] reads(d1, m, v, u) == reads(d2, m, v, u),
{
    assert forall|v: int, u: int| #[trigger] reads(d1, m, v, u) == reads(d2, m, v, u) by {
        if 0 <= v < d1.len() {
            assert(d1[v].info.function_id == d2[v].info.function_id);
            assert(d1[v].info.arg == d2[v].info.arg);
        }
    }
}

/// No cell depends on itself through the formulas of `data`: no walk of
/// two or more cells along them comes back to where it started.
pub open spec fn acyclic(data: Seq<CellInfo>, m: int) -> bool {
    forall|p: Seq<int>| #[trigger] is_walk(formula_edges(data, m), data.len() as int, p) && p.len() >= 2 ==> p[0] != p.last()
}

/// Giving `cell` the formula of `nc` keeps the formulas acyclic when that
/// formula reads no cell that a change of `cell` reaches.
pub proof fn lemma_acyclic_update(d0: Seq<CellInfo>, m: int, cell: int, nc: CellInfo)
    requires
        acyclic(d0, m),
        0 <= cell < d0.len(),
        !creates_cycle(formula_edges(d0, m), d0.len() as int, m, cell, nc.info),
    ensures
        acyclic(d0.update(cell, nc), m),
{
    let n = d0.len() as int;
    let d1 = d0.update(cell, nc);
    let e0 = formula_edges(d0, m);
    let e1 = formula_edges(d1, m);
    assert forall|p: Seq<int>| #[trigger] is_walk(e1, n, p) && p.len() >= 2 implies p[0] != p.last() by {
        if p[0] == p.last() {
            if exists|k: int| 0 <= k < p.len() - 1 && #[trigger] p[k + 1] == cell {
                let k = choose|k: int| 0 <= k < p.len() - 1 && #[trigger] p[k + 1] == cell;
                let q = p.subrange(k + 1, p.len() as int);
                assert forall|j: int| 0 <= j < q.len() - 1 implies #[trigger] e1(q[j], q[j + 1]) by {
                    assert(q[j] == p[k + 1 + j] && q[j + 1] == p[k + 1 + j + 1]);
                }
                assert forall|j: int| 0 <= j < q.len() implies 0 <= #[trigger] q[j] < n by {
                    assert(q[j] == p[k + 1 + j]);
                }
                assert(is_walk(e1, n, q));
                assert(q[0] == cell && q.last() == p[0]);
                assert(reaches(e1, n, cell, p[0]));
                let t = |x: int| reaches(e1, n, cell, x);
                assert forall|u: int, v: int| t(u) && #[trigger] e1(u, v) implies t(v) by {
                    lemma_reach_step(e1, n, cell, u, v);
                }
                lemma_walk_closed(e1, n, p, t, k);
                let s = |x: int| reaches(e0, n, cell, x);
                lemma_reach_refl(e0, n, cell);
                assert forall|u: int, v: int| s(u) && #[trigger] e1(u, v) implies s(v) by {
                    if v == cell {
                        lemma_reach_refl(e0, n, cell);
                    } else {
                        assert(d1[v] == d0[v]);
                        assert(e0(u, v));
                        lemma_reach_step(e0, n, cell, u, v);
                    }
                }
                lemma_reach_closed(e1, n, cell, p[k], s);
                assert(e1(p[k], p[k + 1]));
                assert(dep_count(nc.info, p[k], m) > 0);
                assert(reaches(e0, n, cell, p[k]) && dep_count(nc.info, p[k], m) > 0);
            } else {
                assert forall|j: int| 0 <= j < p.len() - 1 implies #[trigger] e0(p[j], p[j + 1]) by {
                    assert(e1(p[j], p[j + 1]));
                    assert(p[j + 1] != cell);
                    assert(d1[p[j + 1]] == d0[p[j + 1]]);
                }
                assert(is_walk(e0, n, p));
            }
        }
    }
}

/// Sheets with the same formulas are acyclic together.
pub proof fn lemma_acyclic_same_formulas(d1: Seq<CellInfo>, d2: Seq<CellInfo>, m: int)
    requires
        same_formulas(d1, d2),
        acyclic(d2, m),
    ensures
        acyclic(d1, m),
{
    lemma_same_formulas_reads(d1, d2, m);
    assert(formula_edges(d1, m) =~= formula_edges(d2, m)) by {
        assert forall|u: int, v: int| #[trigger] formula_edges(d1, m)(u, v) == formula_edges(d2, m)(u, v) by {
            assert(reads(d1, m, v, u) == reads(d2, m, v, u));
        }
    }
}

/// Along acyclic formulas a walk visits each cell at most once, so it is
/// no longer than the sheet.
pub proof fn lemma_acyclic_walk_len(data: Seq<CellInfo>, m: int, p: Seq<int>)
    requires
        acyclic(data, m),
        is_walk(formula_edges(data, m), data.len() as int, p),
    ensures
        p.len() <= data.len(),
{
    let n = data.len() as int;
    let e = formula_edges(data, m);
    if p.len() > n {
        if p.no_duplicates() {
            p.unique_seq_to_set();
            vstd::set_lib::lemma_int_range(0, n);
            assert(p.to_set().subset_of(vstd::set_lib::set_int_range(0, n))) by {
                assert forall|x: int| #[trigger] p.to_set().contains(x) implies vstd::set_lib::set_int_range(0, n).contains(x) by {
                    let k = choose|k: int| 0 <= k < p.len() && p[k] == x;
                    assert(0 <= p[k] < n);
                }
            }
            vstd::set_lib::lemma_len_subset(p.to_set(), vstd::set_lib::set_int_range(0, n));
        } else {
            let (i, j) = choose|i: int, j: int| 0 <= i < p.len() && 0 <= j < p.len() && i != j && p[i] == p[j];
            let a = if i < j { i } else { j };
            let b = if i < j { j } else { i };
            let q = p.subrange(a, b + 1);
            assert forall|k: int| 0 <= k < q.len() - 1 implies #[trigger] e(q[k], q[k + 1]) by {
                assert(q[k] == p[a + k] && q[k + 1] == p[a + k + 1]);
            }
            assert forall|k: int| 0 <= k < q.len() implies 0 <= #[trigger] q[k] < n by {
                assert(q[k] == p[a + k]);
            }
            assert(is_walk(e, n, q));
            assert(q[0] == q.last());
        }
    }
}

} // verus!
