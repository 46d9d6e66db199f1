//! A session at the prompt: the sheet with its dependency graph, and the
//! history of changes that `undo` and `redo` walk back and forth.
use vstd::prelude::*;
use crate::graph::{Graph, consistent, install_result, lemma_install_keeps, new_cell, ranges_ordered, targets_in_bounds};
use crate::evaluation::range_ordered;
use crate::deps::{
    acyclic, creates_cycle, cycle_reachable, formula_edges, is_walk, lemma_reach_closed, lemma_reach_refl, lemma_reach_step, reaches,
    reads, same_formulas,
};
use crate::graph::dep_count;
use crate::info::{CellInfo, CommandInfo, Info, mask_bit0, mask_bit1};
use crate::convert::col_fold;
use crate::parser::{
    ParserContext, arith_form, cell_index, dec, expr_form, first_digit, first_of, op_index, op_pos, operand_text, other_step,
    parse_command, parse_expr, range_body, range_form, sleep_form,
};
use crate::text::{is_upper, usize_of};
use crate::list::{ListMemPool, is_list};
use crate::sheet::Sheet;
use crate::status::StatusCode;

verus! {

/// A cell as it was before a change: where it is, its formula, its value
/// and whether it was in literal mode.
#[derive(Debug, Clone, Copy)]
pub struct HistoryEntry {
    /// The cell index where the change occurred.
    pub cell_idx: usize,
    /// The formula the cell had.
    pub info: Info,
    /// The value the cell had.
    pub value: i32,
    /// Whether the cell was in literal mode.
    pub literal_mode: bool,
}

/// The sheet, its dependency graph and the undo/redo history.
pub struct Session {
    /// The dependency graph, which owns the sheet.
    pub graph: Graph,
    /// Changes that `undo` reverts, most recent last.
    pub undo_stack: Vec<HistoryEntry>,
    /// Changes that `redo` applies again, most recent last.
    pub redo_stack: Vec<HistoryEntry>,
}

/// The cell that restoring the history entry `e` stores: the old formula and
/// value, kept as they are (literal mode).
pub open spec fn restored(e: HistoryEntry) -> CellInfo {
    CellInfo { info: e.info, value: e.value, literal_mode: true }
}

/// The history entry that records cell `c` of graph `g` as it is now.
pub open spec fn current_entry(g: Graph, c: int) -> HistoryEntry {
    HistoryEntry {
        cell_idx: c as usize,
        info: g.sheet.data@[c].info,
        value: g.sheet.data@[c].value,
        literal_mode: g.sheet.data@[c].literal_mode,
    }
}

/// What `Session::execute` does with `cmd` in session `s0`, leaving `s1`
/// and reporting `code`: nothing for -1; for -2 (undo) and -3 (redo), the
/// last history entry of the stack installed back, or `NothingToUndo` /
/// `NothingToRedo` on an empty stack; for a cell, its new formula installed,
/// with the cell as it was kept for undo. An install that would close a
/// cycle is refused with `CyclicDep` and changes nothing.
pub open spec fn executed(s0: Session, cmd: CommandInfo, s1: Session, code: StatusCode) -> bool {
    let g0 = s0.graph;
    let u = s0.undo_stack@;
    let rd = s0.redo_stack@;
    let g = s1.graph;
    &&& s1.wf()
    &&& cmd.lhs_cell == -1 ==> code == StatusCode::Success && s1 == s0
    &&& cmd.lhs_cell == -2 && u.len() == 0 ==> code == StatusCode::NothingToUndo && s1 == s0
    &&& cmd.lhs_cell == -2 && u.len() > 0 ==> {
        let e = u.last();
        &&& code == StatusCode::Success || code == StatusCode::CyclicDep
        &&& install_result(g0, g, e.cell_idx as int, restored(e), code == StatusCode::Success)
        &&& code == StatusCode::Success ==> s1.undo_stack@ == u.drop_last()
            && s1.redo_stack@ == rd.push(current_entry(g0, e.cell_idx as int))
        &&& code == StatusCode::CyclicDep ==> s1.undo_stack@ == u && s1.redo_stack@ == rd
    }
    &&& cmd.lhs_cell == -3 && rd.len() == 0 ==> code == StatusCode::NothingToRedo && s1 == s0
    &&& cmd.lhs_cell == -3 && rd.len() > 0 ==> {
        let e = rd.last();
        &&& code == StatusCode::Success || code == StatusCode::CyclicDep
        &&& install_result(g0, g, e.cell_idx as int, restored(e), code == StatusCode::Success)
        &&& code == StatusCode::Success ==> s1.redo_stack@ == rd.drop_last()
            && s1.undo_stack@ == u.push(current_entry(g0, e.cell_idx as int))
        &&& code == StatusCode::CyclicDep ==> s1.undo_stack@ == u && s1.redo_stack@ == rd
    }
    &&& cmd.lhs_cell >= 0 ==> {
        let c = cmd.lhs_cell as int;
        &&& code == StatusCode::Success || code == StatusCode::CyclicDep
        &&& install_result(g0, g, c, new_cell(cmd.info), code == StatusCode::Success)
        &&& code == StatusCode::Success ==> s1.undo_stack@ == u.push(current_entry(g0, c))
            && s1.redo_stack@.len() == 0
        &&& code == StatusCode::CyclicDep ==> s1.undo_stack@ == u && s1.redo_stack@ == rd
    }
}

impl Session {
    /// A history entry names a cell of the sheet, with a formula that reads
    /// cells of the sheet only and whose range, if any, is ordered.
    pub open spec fn entry_ok(&self, e: HistoryEntry) -> bool {
        &&& e.cell_idx < self.graph.size()
        &&& targets_in_bounds(e.info, self.graph.size())
        &&& range_ordered(e.info, self.graph.sheet.m as int)
    }

    /// The graph is ready for the next command, its dependency lists are in
    /// step with the formulas, every range runs from its top left to its
    /// bottom right cell, every cell holds what its formula gives, no cell
    /// depends on itself, and every history entry is usable.
    pub open spec fn wf(&self) -> bool {
        &&& self.graph.wf()
        &&& self.graph.edges_match(self.graph.infos())
        &&& ranges_ordered(self.graph.sheet.data@, self.graph.sheet.m as int)
        &&& consistent(self.graph.sheet.data@, self.graph.sheet.m as int)
        &&& acyclic(self.graph.sheet.data@, self.graph.sheet.m as int)
        &&& forall|i: int| 0 <= i < self.undo_stack@.len() ==> self.entry_ok(#[trigger] self.undo_stack@[i])
        &&& forall|i: int| 0 <= i < self.redo_stack@.len() ==> self.entry_ok(#[trigger] self.redo_stack@[i])
    }

    /// A session on a fresh sheet of `n` rows and `m` columns, with an empty history.
    pub fn new(n: usize, m: usize) -> (s: Self)
        requires
            n * m <= i32::MAX,
        ensures
            s.wf(),
            s.graph.sheet.n == n,
            s.graph.sheet.m == m,
            s.graph.edges_match(s.graph.infos()),
            crate::graph::consistent(s.graph.sheet.data@, m as int),
            forall|c: int| 0 <= c < s.graph.size() ==> #[trigger] s.graph.sheet.data@[c] == CellInfo::blank(),
            s.undo_stack@.len() == 0,
            s.redo_stack@.len() == 0,
    {
        let mut mem_pool = ListMemPool::new();
        mem_pool.add_block();
        proof {
            crate::graph_model::lemma_fresh_block_chain(Seq::<crate::list::Node>::empty());
            assert(mem_pool.nodes@ =~= Seq::<crate::list::Node>::empty() + crate::list::fresh_block(0, None));
            assert(is_list(mem_pool.nodes@, mem_pool.free_list));
        }
        let sheet = Sheet::new(n, m);
        let graph = Graph::new(n, m, sheet, mem_pool);
        assert(acyclic(graph.sheet.data@, m as int)) by {
            let d = graph.sheet.data@;
            assert forall|p: Seq<int>| #[trigger] is_walk(formula_edges(d, m as int), d.len() as int, p) && p.len() >= 2 implies p[0] != p.last() by {
                let k = 0int;
                assert(formula_edges(d, m as int)(p[k], p[k + 1]));
                assert(0 <= p[k + 1] < d.len());
                assert(d[p[k + 1]] == CellInfo::blank());
            }
        }
        assert(ranges_ordered(graph.sheet.data@, m as int)) by {
            assert forall|c: int| 0 <= c < graph.sheet.data@.len() implies range_ordered(#[trigger] graph.sheet.data@[c].info, m as int) by {
                assert(graph.sheet.data@[c] == CellInfo::blank());
            }
        }
        Session { graph, undo_stack: Vec::new(), redo_stack: Vec::new() }
    }

    /// Carries out a parsed command: nothing for code -1, `undo` for -2,
    /// `redo` for -3, and otherwise gives the cell `lhs_cell` the command's
    /// formula. Returns the status to show.
    pub fn execute(&mut self, cmd: &CommandInfo) -> (code: StatusCode)
        requires
            old(self).wf(),
            cmd.lhs_cell >= -3,
            cmd.lhs_cell >= 0 ==> cmd.lhs_cell < old(self).graph.size() && targets_in_bounds(cmd.info, old(self).graph.size())
                && range_ordered(cmd.info, old(self).graph.sheet.m as int),
            old(self).graph.room_for(old(self).graph.size() + 2),
        ensures
            executed(*old(self), *cmd, *final(self), code),
    {
        if cmd.lhs_cell == -1 {
            return StatusCode::Success;
        }
        if cmd.lhs_cell == -2 {
            return self.undo();
        }
        if cmd.lhs_cell == -3 {
            return self.redo();
        }
        let cell_idx = cmd.lhs_cell as usize;
        let current = self.graph.sheet.data[cell_idx];
        let ghost u = self.undo_stack@;
        self.undo_stack.push(
            HistoryEntry {
                cell_idx,
                info: current.info,
                value: current.value,
                literal_mode: current.literal_mode,
            },
        );
        let ghost g0 = self.graph;
        let r = crate::graph::update_expression(&mut self.graph, cell_idx, &cmd.info);
        proof {
            lemma_install_keeps(g0, self.graph, cell_idx as int, new_cell(cmd.info), r is Ok);
        }
        match r {
            Ok(_) => {
                self.redo_stack.clear();
                StatusCode::Success
            },
            Err(code) => {
                self.undo_stack.pop();
                assert(self.undo_stack@ =~= u);
                code
            },
        }
    }

    /// Reverts the most recent change still on the undo stack.
    fn undo(&mut self) -> (code: StatusCode)
        requires
            old(self).wf(),
            old(self).graph.room_for(old(self).graph.size() + 2),
        ensures
            final(self).wf(),
            ({
                let g0 = old(self).graph;
                let u = old(self).undo_stack@;
                let rd = old(self).redo_stack@;
                &&& u.len() == 0 ==> code == StatusCode::NothingToUndo && *final(self) == *old(self)
                &&& u.len() > 0 ==> {
                    let e = u.last();
                    &&& code == StatusCode::Success || code == StatusCode::CyclicDep
                    &&& install_result(g0, final(self).graph, e.cell_idx as int, restored(e), code == StatusCode::Success)
                    &&& code == StatusCode::Success ==> final(self).undo_stack@ == u.drop_last()
                        && final(self).redo_stack@ == rd.push(current_entry(g0, e.cell_idx as int))
                    &&& code == StatusCode::CyclicDep ==> final(self).undo_stack@ == u && final(self).redo_stack@ == rd
                }
            }),
    {
        let ghost u = self.undo_stack@;
        if self.undo_stack.len() == 0 {
            return StatusCode::NothingToUndo;
        }
        match self.undo_stack.pop() {
            None => StatusCode::NothingToUndo,
            Some(entry) => {
                assert(self.entry_ok(u[u.len() - 1]));
                let current = self.graph.sheet.data[entry.cell_idx];
                let nc = CellInfo { info: entry.info, value: entry.value, literal_mode: true };
                let ghost g0 = self.graph;
                let ok = self.graph.install(entry.cell_idx, nc);
                proof {
                    lemma_install_keeps(g0, self.graph, entry.cell_idx as int, nc, ok);
                }
                if !ok {
                    self.undo_stack.push(entry);
                    assert(self.undo_stack@ =~= u);
                    return StatusCode::CyclicDep;
                }
                self.redo_stack.push(
                    HistoryEntry {
                        cell_idx: entry.cell_idx,
                        info: current.info,
                        value: current.value,
                        literal_mode: current.literal_mode,
                    },
                );
                StatusCode::Success
            },
        }
    }

    /// Applies again the most recent change still on the redo stack.
    fn redo(&mut self) -> (code: StatusCode)
        requires
            old(self).wf(),
            old(self).graph.room_for(old(self).graph.size() + 2),
        ensures
            final(self).wf(),
            ({
                let g0 = old(self).graph;
                let u = old(self).undo_stack@;
                let rd = old(self).redo_stack@;
                &&& rd.len() == 0 ==> code == StatusCode::NothingToRedo && *final(self) == *old(self)
                &&& rd.len() > 0 ==> {
                    let e = rd.last();
                    &&& code == StatusCode::Success || code == StatusCode::CyclicDep
                    &&& install_result(g0, final(self).graph, e.cell_idx as int, restored(e), code == StatusCode::Success)
                    &&& code == StatusCode::Success ==> final(self).redo_stack@ == rd.drop_last()
                        && final(self).undo_stack@ == u.push(current_entry(g0, e.cell_idx as int))
                    &&& code == StatusCode::CyclicDep ==> final(self).undo_stack@ == u && final(self).redo_stack@ == rd
                }
            }),
    {
        let ghost rd = self.redo_stack@;
        if self.redo_stack.len() == 0 {
            return StatusCode::NothingToRedo;
        }
        match self.redo_stack.pop() {
            None => StatusCode::NothingToRedo,
            Some(entry) => {
                assert(self.entry_ok(rd[rd.len() - 1]));
                let current = self.graph.sheet.data[entry.cell_idx];
                let nc = CellInfo { info: entry.info, value: entry.value, literal_mode: true };
                let ghost g0 = self.graph;
                let ok = self.graph.install(entry.cell_idx, nc);
                proof {
                    lemma_install_keeps(g0, self.graph, entry.cell_idx as int, nc, ok);
                }
                if !ok {
                    self.redo_stack.push(entry);
                    assert(self.redo_stack@ =~= rd);
                    return StatusCode::CyclicDep;
                }
                self.undo_stack.push(
                    HistoryEntry {
                        cell_idx: entry.cell_idx,
                        info: current.info,
                        value: current.value,
                        literal_mode: current.literal_mode,
                    },
                );
                StatusCode::Success
            },
        }
    }
}

/// A cell name that parses names a cell of the sheet.
proof fn lemma_cell_index_fits(s: Seq<char>, n: int, m: int)
    requires
        n * m <= i32::MAX,
    ensures
        cell_index(s, n, m) matches Ok(c) ==> c < n * m,
{
    if let Ok(c) = cell_index(s, n, m) {
        let p = first_digit(s);
        let row = dec(usize_of(s.skip(p))->0);
        let col = dec(col_fold(s.take(p)));
        crate::formulas::lemma_cell_bound(row as int, col as int, n, m);
    }
}

/// The formula that `parse_expr` stores, when it succeeds from a formula with
/// no cell arguments, reads cells of the sheet only, and a range runs from
/// its top left to its bottom right cell.
proof fn lemma_parsed_formula_fits(s: Seq<char>, info: Info, n: int, m: int)
    requires
        n * m <= i32::MAX,
        info.arg_mask == 0,
    ensures
        parse_expr(s, info, n, m).0 is Ok ==> targets_in_bounds(parse_expr(s, info, n, m).1, n * m)
            && range_ordered(parse_expr(s, info, n, m).1, m),
    decreases s.len(),
{
    let r = parse_expr(s, info, n, m);
    if r.0 is Ok {
        if operand_text(s) || sleep_form(s) {
            let x = if operand_text(s) { s } else { s.subrange(6, s.len() - 1) };
            if is_upper(x[0]) {
                lemma_cell_index_fits(x, n, m);
            }
            assert(mask_bit0(1u8) && !mask_bit1(1u8) && !mask_bit0(0u8) && !mask_bit1(0u8));
        } else if arith_form(s) {
            let i = op_pos(s);
            assert(0 <= op_index(s[i]) <= 3);
            if is_upper(s.take(i)[0]) {
                lemma_cell_index_fits(s.take(i), n, m);
            }
            if is_upper(s.skip(i + 1)[0]) {
                lemma_cell_index_fits(s.skip(i + 1), n, m);
            }
            assert((0u8 | 0u8) | 0u8 == 0u8) by (bit_vector);
            assert((0u8 | 1u8) | 0u8 == 1u8) by (bit_vector);
            assert((0u8 | 0u8) | 2u8 == 2u8) by (bit_vector);
            assert((0u8 | 1u8) | 2u8 == 3u8) by (bit_vector);
            assert(mask_bit0(3u8) && mask_bit1(3u8) && mask_bit0(1u8) && !mask_bit1(1u8));
            assert(!mask_bit0(2u8) && mask_bit1(2u8) && !mask_bit0(0u8) && !mask_bit1(0u8));
        } else if range_form(s) {
            let body = range_body(s);
            let c = first_of(body, ':');
            lemma_cell_index_fits(body.take(c), n, m);
            lemma_cell_index_fits(body.skip(c + 1), n, m);
        } else if expr_form(s) {
            lemma_parsed_formula_fits(s.skip(first_of(s, '=') + 1), info, n, m);
        }
    }
}

/// Every command that `parse` accepts is one that `Session::execute` takes:
/// a code from -3 to -1, or an assignment to a cell of the sheet of a
/// formula that reads cells of the sheet only, with any range running from
/// its top left to its bottom right cell.
pub proof fn lemma_parsed_command_fits(s: Seq<char>, ctx: ParserContext, n: usize, m: usize)
    requires
        n * m <= i32::MAX,
    ensures
        parse_command(s, ctx, n, m).0 matches Ok(cmd) ==> {
            &&& cmd.lhs_cell >= -3
            &&& cmd.lhs_cell >= 0 ==> cmd.lhs_cell < n * m && targets_in_bounds(cmd.info, n * m)
                && range_ordered(cmd.info, m as int)
        },
{
    if s.len() > 1 && !(other_step(s, ctx, n, m).0 is Ok) && expr_form(s) {
        let e = first_of(s, '=');
        lemma_cell_index_fits(s.take(e), n as int, m as int);
        lemma_parsed_formula_fits(s.skip(e + 1), Info::blank(), n as int, m as int);
    }
}

/// Walks along formula dependencies from `c` that stay out of `c` after the
/// start are the same in two sheets whose formulas differ only at `c`: so a
/// cell reached from `c` in `d1` is reached from `c` in `d0`.
proof fn lemma_reach_from_changed(d0: Seq<CellInfo>, d1: Seq<CellInfo>, m: int, c: int, u: int)
    requires
        d0.len() == d1.len(),
        0 <= c < d0.len(),
        forall|y: int| 0 <= y < d0.len() && y != c ==> #[trigger] d1[y].info.function_id == d0[y].info.function_id
            && d1[y].info.arg == d0[y].info.arg && d1[y].info.arg_mask == d0[y].info.arg_mask,
        reaches(formula_edges(d1, m), d1.len() as int, c, u),
    ensures
        reaches(formula_edges(d0, m), d0.len() as int, c, u),
{
    let n = d0.len() as int;
    let e0 = formula_edges(d0, m);
    let e1 = formula_edges(d1, m);
    let s = |x: int| reaches(e0, n, c, x);
    lemma_reach_refl(e0, n, c);
    assert forall|x: int, y: int| s(x) && #[trigger] e1(x, y) implies s(y) by {
        if y == c {
            lemma_reach_refl(e0, n, c);
        } else {
            assert(reads(d1, m, y, x));
            assert(dep_count(d1[y].info, x, m) == dep_count(d0[y].info, x, m));
            assert(e0(x, y));
            lemma_reach_step(e0, n, c, x, y);
        }
    }
    lemma_reach_closed(e1, n, c, u, s);
}

/// Putting back into `g` the formula a cell `c` had in an acyclic sheet `d`
/// whose other formulas `g` shares closes no cycle.
proof fn lemma_put_back_no_cycle(d: Seq<CellInfo>, g: Graph, c: int)
    requires
        g.wf(),
        g.edges_match(g.infos()),
        acyclic(g.sheet.data@, g.sheet.m as int),
        acyclic(d, g.sheet.m as int),
        d.len() == g.size(),
        0 <= c < g.size(),
        forall|y: int| 0 <= y < d.len() && y != c ==> #[trigger] g.sheet.data@[y].info.function_id == d[y].info.function_id
            && g.sheet.data@[y].info.arg == d[y].info.arg && g.sheet.data@[y].info.arg_mask == d[y].info.arg_mask,
    ensures
        !creates_cycle(g.list_edges(), g.size(), g.sheet.m as int, c, d[c].info),
        !cycle_reachable(g.list_edges(), g.size(), c),
{
    let n = g.size();
    let m = g.sheet.m as int;
    let d1 = g.sheet.data@;
    crate::graph::lemma_lists_follow_formulas(g);
    let e1 = g.list_edges();
    assert(e1 == formula_edges(d1, m));
    assert(d1.len() == n);
    if cycle_reachable(e1, n, c) {
        let p = choose|p: Seq<int>| #[trigger] is_walk(e1, n, p) && p.len() >= 2 && p[0] == p.last() && reaches(e1, n, c, p[0]);
        assert(is_walk(formula_edges(d1, m), d1.len() as int, p));
        assert(false);
    }
    if creates_cycle(e1, n, m, c, d[c].info) {
        let u = choose|u: int| #[trigger] reaches(e1, n, c, u) && dep_count(d[c].info, u, m) > 0;
        lemma_reach_from_changed(d, d1, m, c, u);
        let e0 = formula_edges(d, m);
        let p = choose|p: Seq<int>| #[trigger] is_walk(e0, n, p) && p[0] == c && p.last() == u;
        let q = p.push(c);
        assert(0 <= u < n);
        assert(e0(u, c));
        assert forall|k: int| 0 <= k < q.len() - 1 implies #[trigger] e0(q[k], q[k + 1]) by {
            if k < p.len() - 1 {
                assert(q[k] == p[k] && q[k + 1] == p[k + 1]);
            }
        }
        assert(is_walk(e0, n, q));
        assert(is_walk(formula_edges(d, m), d.len() as int, q));
        assert(false);
    }
}

/// An undo right after a successful assignment is never refused: the cell
/// gets back the formula and value it had (kept as they are, in literal
/// mode), the undo stack is as it was before the assignment, and the
/// assignment waits on the redo stack.
pub proof fn lemma_undo_after_assignment(
    s0: Session,
    cmd: CommandInfo,
    s1: Session,
    undo: CommandInfo,
    s2: Session,
    code: StatusCode,
)
    requires
        s0.wf(),
        cmd.lhs_cell >= 0,
        executed(s0, cmd, s1, StatusCode::Success),
        undo.lhs_cell == -2,
        executed(s1, undo, s2, code),
    ensures
        code == StatusCode::Success,
        s2.graph.sheet.data@[cmd.lhs_cell as int] == crate::dfs::set_visit(
            restored(current_entry(s0.graph, cmd.lhs_cell as int)),
            0,
        ),
        s2.undo_stack@ == s0.undo_stack@,
        s2.redo_stack@ == seq![current_entry(s1.graph, cmd.lhs_cell as int)],
{
    let c = cmd.lhs_cell as int;
    let g0 = s0.graph;
    let g1 = s1.graph;
    let m = g0.sheet.m as int;
    let e = current_entry(g0, c);
    let d0 = g0.sheet.data@;
    let d1 = g1.sheet.data@;
    let target1 = d0.update(c, new_cell(cmd.info));
    assert(s1.undo_stack@.last() == e);
    assert(s1.undo_stack@.drop_last() =~= s0.undo_stack@);
    assert(same_formulas(d1, target1));
    assert forall|y: int| 0 <= y < d0.len() && y != c implies #[trigger] d1[y].info.function_id == d0[y].info.function_id
        && d1[y].info.arg == d0[y].info.arg && d1[y].info.arg_mask == d0[y].info.arg_mask by {
        assert(target1[y] == d0[y]);
    }
    lemma_put_back_no_cycle(d0, g1, c);
    let target2 = d1.update(c, restored(e));
    assert(ranges_ordered(target2, m)) by {
        assert forall|x: int| 0 <= x < target2.len() implies range_ordered(#[trigger] target2[x].info, m) by {
            if x != c {
                assert(target2[x] == d1[x]);
            } else {
                assert(range_ordered(d0[c].info, m));
            }
        }
    }
    lemma_reach_refl(g1.list_edges(), g1.size(), c);
}

/// A redo right after a successful undo is never refused: the cell gets back
/// the formula and value the undo took from it (in literal mode), the redo
/// stack is as it was before the undo, and the undo stack holds the change
/// again.
pub proof fn lemma_redo_after_undo(
    s1: Session,
    undo: CommandInfo,
    s2: Session,
    redo: CommandInfo,
    s3: Session,
    code: StatusCode,
)
    requires
        s1.wf(),
        undo.lhs_cell == -2,
        executed(s1, undo, s2, StatusCode::Success),
        redo.lhs_cell == -3,
        executed(s2, redo, s3, code),
    ensures
        s1.undo_stack@.len() > 0,
        code == StatusCode::Success,
        ({
            let c = s1.undo_stack@.last().cell_idx as int;
            &&& s3.graph.sheet.data@[c] == crate::dfs::set_visit(restored(current_entry(s1.graph, c)), 0)
            &&& s3.redo_stack@ == s1.redo_stack@
            &&& s3.undo_stack@ == s1.undo_stack@.drop_last().push(current_entry(s2.graph, c))
        }),
{
    let eu = s1.undo_stack@.last();
    let c = eu.cell_idx as int;
    let g1 = s1.graph;
    let g2 = s2.graph;
    let m = g1.sheet.m as int;
    let d1 = g1.sheet.data@;
    let d2 = g2.sheet.data@;
    let er = current_entry(g1, c);
    let target1 = d1.update(c, restored(eu));
    assert(s2.redo_stack@.last() == er);
    assert(s2.redo_stack@.drop_last() =~= s1.redo_stack@);
    assert(same_formulas(d2, target1));
    assert forall|y: int| 0 <= y < d1.len() && y != c implies #[trigger] d2[y].info.function_id == d1[y].info.function_id
        && d2[y].info.arg == d1[y].info.arg && d2[y].info.arg_mask == d1[y].info.arg_mask by {
        assert(target1[y] == d1[y]);
    }
    lemma_put_back_no_cycle(d1, g2, c);
    let target2 = d2.update(c, restored(er));
    assert(ranges_ordered(target2, m)) by {
        assert forall|x: int| 0 <= x < target2.len() implies range_ordered(#[trigger] target2[x].info, m) by {
            if x != c {
                assert(target2[x] == d2[x]);
            } else {
                assert(range_ordered(d1[c].info, m));
            }
        }
    }
    lemma_reach_refl(g2.list_edges(), g2.size(), c);
}

/// What a command does is determined: two sessions that both meet
/// `executed` for the same command from the same session report the same
/// code and hold the same cells and the same history.
pub proof fn lemma_executed_unique(s0: Session, cmd: CommandInfo, s1: Session, c1: StatusCode, s2: Session, c2: StatusCode)
    requires
        s0.wf(),
        cmd.lhs_cell >= -3,
        cmd.lhs_cell >= 0 ==> cmd.lhs_cell < s0.graph.size() && targets_in_bounds(cmd.info, s0.graph.size())
            && range_ordered(cmd.info, s0.graph.sheet.m as int),
        executed(s0, cmd, s1, c1),
        executed(s0, cmd, s2, c2),
    ensures
        c1 == c2,
        s1.graph.sheet.data@ == s2.graph.sheet.data@,
        s1.undo_stack@ == s2.undo_stack@,
        s1.redo_stack@ == s2.redo_stack@,
{
    let g0 = s0.graph;
    let u = s0.undo_stack@;
    let rd = s0.redo_stack@;
    if cmd.lhs_cell == -2 && u.len() > 0 {
        let e = u.last();
        assert(s0.entry_ok(u[u.len() - 1]));
        crate::graph::lemma_install_result_unique(
            g0, s1.graph, s2.graph, e.cell_idx as int, restored(e), c1 == StatusCode::Success, c2 == StatusCode::Success);
    } else if cmd.lhs_cell == -3 && rd.len() > 0 {
        let e = rd.last();
        assert(s0.entry_ok(rd[rd.len() - 1]));
        crate::graph::lemma_install_result_unique(
            g0, s1.graph, s2.graph, e.cell_idx as int, restored(e), c1 == StatusCode::Success, c2 == StatusCode::Success);
    } else if cmd.lhs_cell >= 0 {
        crate::graph::lemma_install_result_unique(
            g0, s1.graph, s2.graph, cmd.lhs_cell as int, new_cell(cmd.info), c1 == StatusCode::Success,
            c2 == StatusCode::Success);
    }
}

} // verus!
