//! Dependency graph of the sheet: for every cell, the list of cells whose
//! formulas read it. Updating a formula checks for cycles, rewires the graph
//! and recomputes the affected cells in dependency order.
use vstd::prelude::*;
use crate::chains::{count_in, lemma_count_prepend, lemma_count_remove, lemma_count_pos};
use crate::formulas::{
    apply_function, arg_is_cell, args_in_bounds, eval_cell, is_range_function, is_range_id,
    lemma_cell_bound, lemma_columns_positive, lemma_row_bound, sleep_secs,
};
use crate::graph_model::{
    lemma_erase_lists, lemma_push_lists, lemma_supply, lists_ok_raw, pool_links_ok, supply_chain,
    supply_owner,
};
use crate::info::{CellInfo, Info, lemma_mask_bits, mask_bit0, mask_bit1};
use crate::list::{
    BLOCK_SIZE, ListMemPool, chain_values, erase_list, first_pos, is_chain, is_list,
    lemma_first_pos_props, link_ok, push_front, supply,
};
use crate::sheet::Sheet;
use crate::deps::{
    acyclic, creates_cycle, cycle_reachable, formula_edges, is_walk, lemma_acyclic_same_formulas, lemma_acyclic_update,
    lemma_acyclic_walk_len, lemma_reach_step, lemma_reaches_read, reaches, reaches_read, same_formulas,
};
use crate::evaluation::{
    agree_on_reads, lemma_eval_frame, lemma_eval_idempotent, lemma_eval_set_visit, range_ordered, same_result,
};
use crate::recompute::{
    lemma_eval_keeps, lemma_recompute_fixpoint, lemma_recompute_keeps, lemma_recompute_untouched, recompute,
    recompute_sleep, same_marks,
};
use crate::dfs::{
    cursor_rest, lemma_cursor_rest, lemma_left_cursor, lemma_search_done, lemma_search_finish,
    lemma_search_found_cycle, lemma_search_found_read, lemma_search_left, lemma_search_push,
    lemma_search_room, lemma_search_skip, lemma_search_start, lemma_views_in_range, ptr_at,
    in_regions, occurs_in, set_visit,
};
use crate::status::StatusCode;

verus! {

/// The traversal mark of a cell during a depth-first search.
#[derive(PartialEq, Eq, Clone, Copy, Debug)]
pub enum VisitStatus {
    /// Node has not been visited.
    NotVisited,
    /// Node is in the current DFS call stack.
    InStack,
    /// Node has been fully visited.
    Visited,
}

impl VisitStatus {
    /// The number stored in a cell's `visit` field for this mark.
    pub open spec fn code_spec(self) -> u8 {
        match self {
            VisitStatus::NotVisited => 0,
            VisitStatus::InStack => 1,
            VisitStatus::Visited => 2,
        }
    }

    /// The number stored in a cell's `visit` field for this mark.
    pub fn code(self) -> (r: u8)
        ensures
            r == self.code_spec(),
    {
        match self {
            VisitStatus::NotVisited => 0,
            VisitStatus::InStack => 1,
            VisitStatus::Visited => 2,
        }
    }
}

/// The list of dependents of one cell, with the cursor used while the graph is walked.
#[derive(Debug, Clone, Copy)]
pub struct AdjList {
    /// First node of the list of dependents.
    pub head: Option<usize>,
    /// Next node to visit during a traversal.
    pub ptr: Option<usize>,
}

/// Which change `modify_graph` makes to the lists of a formula's inputs.
#[derive(Debug, Clone, Copy, PartialEq, Eq, Structural)]
pub enum ListEdit {
    /// Add the cell to the dependents of each input.
    Insert,
    /// Remove the cell from the dependents of each input.
    Erase,
}

/// Whether cell `x` lies in the rectangle spanned by the formula's two corner
/// cells (top-left first), in a sheet of `m` columns.
pub open spec fn in_rect(info: Info, x: int, m: int) -> bool {
    let a0 = info.arg[0] as int;
    let a1 = info.arg[1] as int;
    &&& x >= 0
    &&& a0 / m <= x / m <= a1 / m
    &&& a0 % m <= x % m <= a1 % m
}

/// How many times the formula reads cell `x`: once for each argument naming
/// it, or once if `x` lies in its range.
pub open spec fn dep_count(info: Info, x: int, m: int) -> nat {
    if is_range_id(info.function_id) {
        if in_rect(info, x, m) {
            1
        } else {
            0
        }
    } else {
        (if arg_is_cell(info, 0) && info.arg[0] == x {
            1nat
        } else {
            0nat
        }) + (if arg_is_cell(info, 1) && info.arg[1] == x {
            1nat
        } else {
            0nat
        })
    }
}

/// The test by which the dependency search decides that the formula reads
/// cell `x`, in a sheet of `m` columns: for a range, `x` lies between the two
/// corner cells in index order and its column between theirs (each index
/// taken as an unsigned machine word); otherwise, a cell argument names `x`.
/// For cells of the sheet and corners that are cells, this is `dep_count > 0`
/// (`lemma_reads_cell`).
pub open spec fn reads_cell(info: Info, x: int, m: int) -> bool {
    if is_range_id(info.function_id) {
        let a0 = info.arg[0];
        let a1 = info.arg[1];
        &&& a0 <= x <= a1
        &&& (a0 as usize) as int % m <= (x as usize) as int % m <= (a1 as usize) as int % m
    } else {
        (arg_is_cell(info, 0) && info.arg[0] == x) || (arg_is_cell(info, 1) && info.arg[1] == x)
    }
}

/// For a cell of the sheet and a formula whose range corners are cells, the
/// read test agrees with `dep_count`.
pub proof fn lemma_reads_cell(info: Info, x: int, m: int)
    requires
        m > 0,
        0 <= x <= i32::MAX,
        is_range_id(info.function_id) ==> info.arg[0] >= 0 && info.arg[1] >= 0,
    ensures
        reads_cell(info, x, m) == (dep_count(info, x, m) > 0),
{
    if is_range_id(info.function_id) {
        lemma_rect_test(x, info.arg[0] as int, info.arg[1] as int, m);
    }
}

/// The cells a formula reads all lie in a sheet of `size` cells.
pub open spec fn targets_in_bounds(info: Info, size: int) -> bool {
    if is_range_id(info.function_id) {
        0 <= info.arg[0] < size && 0 <= info.arg[1] < size
    } else {
        &&& arg_is_cell(info, 0) ==> 0 <= info.arg[0] < size
        &&& arg_is_cell(info, 1) ==> 0 <= info.arg[1] < size
    }
}

/// Represents the dependency graph of the spreadsheet.
pub struct Graph {
    /// For each cell, the list of cells whose formulas read it.
    pub adj_list: Vec<AdjList>,
    /// The DFS stack (bottom part) and the topological order (top part).
    pub stack: Vec<i32>,
    /// Start of the topological order in `stack`.
    pub order_ptr: usize,
    /// Number of cells on the DFS stack.
    pub stack_ptr: usize,
    /// Memory pool for the list nodes.
    pub mem_pool: ListMemPool,
    /// The sheet whose formulas the graph follows.
    pub sheet: Sheet,
    /// Seconds of sleep that `SLEEP` formulas asked for in the last recomputation.
    pub pending_sleep: u64,
    /// The node indices of each adjacency list.
    pub chains: Ghost<Seq<Seq<usize>>>,
    /// The node indices of the free list.
    pub free_chain: Ghost<Seq<usize>>,
    /// Which list holds each node (-1: the free list, -2: none).
    pub owner: Ghost<Seq<int>>,
}

impl Graph {
    /// Number of cells (and adjacency lists).
    pub open spec fn size(&self) -> int {
        self.adj_list@.len() as int
    }

    /// The heads of the adjacency lists.
    pub open spec fn heads(&self) -> Seq<Option<usize>> {
        Seq::new(self.adj_list@.len(), |x: int| self.adj_list@[x].head)
    }

    /// The adjacency lists are lists of the pool that share no node.
    pub open spec fn lists_ok(&self) -> bool {
        &&& pool_links_ok(self.mem_pool.nodes@, self.mem_pool.free_list)
        &&& lists_ok_raw(
            self.mem_pool.nodes@,
            self.heads(),
            self.mem_pool.free_list,
            self.chains@,
            self.free_chain@,
            self.owner@,
        )
    }

    /// The cells on the list of dependents of `x`.
    pub open spec fn view(&self, x: int) -> Seq<i32> {
        chain_values(self.mem_pool.nodes@, self.chains@[x])
    }

    /// Every list holds cells of the sheet only.
    pub open spec fn lists_in_range(&self) -> bool {
        forall|x: int, j: int|
            0 <= x < self.size() && 0 <= j < self.view(x).len() ==> 0 <= #[trigger] self.view(x)[j] < self.size()
    }

    /// The dependencies the lists record: `(u, v)` when cell `v` is on the list of cell `u`.
    pub open spec fn list_edges(&self) -> spec_fn(int, int) -> bool {
        |u: int, v: int| 0 <= u < self.size() && 0 <= v < self.size() && count_in(self.view(u), v as i32) > 0
    }

    /// The dependents lists hold each cell as often as its formula in `infos` reads the list's cell.
    pub open spec fn edges_match(&self, infos: Seq<Info>) -> bool {
        forall|x: int, v: i32|
            0 <= x < self.size() ==> #[trigger] count_in(self.view(x), v) == (if 0 <= v < self.size() {
                dep_count(infos[v as int], x, self.sheet.m as int)
            } else {
                0
            })
    }

    /// The formulas of the sheet.
    pub open spec fn infos(&self) -> Seq<Info> {
        self.sheet.data@.map_values(|c: CellInfo| c.info)
    }

    /// Every cursor rests at the head of its list.
    pub open spec fn ptrs_at_head(&self) -> bool {
        forall|x: int| 0 <= x < self.size() ==> #[trigger] self.adj_list@[x].ptr == self.adj_list@[x].head
    }

    /// The sheet and the graph have one cell per list.
    pub open spec fn shape_ok(&self) -> bool {
        &&& self.sheet.wf()
        &&& self.size() == self.sheet.n * self.sheet.m
        &&& self.size() <= i32::MAX
        &&& self.stack@.len() == self.size()
        &&& self.stack_ptr <= self.order_ptr <= self.size()
    }

    /// Creates the graph of a sheet of `n` rows and `m` columns, with the given
    /// pool of nodes: `n * m` empty lists, a stack of `n * m` zeros, an empty
    /// stack and order.
    pub fn new(n: usize, m: usize, sheet: Sheet, mem_pool: ListMemPool) -> (g: Self)
        requires
            n * m <= usize::MAX,
            mem_pool.wf(),
            is_list(mem_pool.nodes@, mem_pool.free_list),
        ensures
            g.lists_ok(),
            g.ptrs_at_head(),
            g.size() == n * m,
            forall|x: int| 0 <= x < g.size() ==> #[trigger] g.adj_list@[x] == (AdjList { head: None, ptr: None }),
            g.stack@.len() == n * m,
            forall|k: int| 0 <= k < g.stack@.len() ==> #[trigger] g.stack@[k] == 0,
            g.sheet == sheet,
            g.mem_pool == mem_pool,
            g.stack_ptr == 0,
            g.order_ptr == n * m,
            g.pending_sleep == 0,
            forall|x: int| 0 <= x < g.size() ==> #[trigger] g.view(x) == Seq::<i32>::empty(),
            sheet.wf() && sheet.n == n && sheet.m == m && n * m <= i32::MAX ==> g.shape_ok(),
            sheet.wf() && sheet.n == n && sheet.m == m && n * m <= i32::MAX
                && (forall|c: int| 0 <= c < n * m ==> #[trigger] sheet.data@[c] == CellInfo::blank()) ==> g.wf()
                && g.edges_match(g.infos()) && consistent(g.sheet.data@, m as int),
    {
        let total_cells = n * m;
        let mut adj_list: Vec<AdjList> = Vec::new();
        let mut stack: Vec<i32> = Vec::new();
        while adj_list.len() < total_cells
            invariant
                adj_list@.len() == stack@.len() <= total_cells,
                forall|x: int| 0 <= x < adj_list@.len() ==> adj_list@[x] == (AdjList { head: None, ptr: None }),
                forall|k: int| 0 <= k < stack@.len() ==> stack@[k] == 0,
            decreases total_cells - adj_list@.len(),
        {
            adj_list.push(AdjList { head: None, ptr: None });
            stack.push(0);
        }
        let ghost fc = choose|s: Seq<usize>| is_chain(mem_pool.nodes@, mem_pool.free_list, s);
        let ghost owner = Seq::new(
            mem_pool.nodes@.len(),
            |i: int| if fc.contains(i as usize) { -1int } else { -2int },
        );
        let g = Graph {
            adj_list,
            stack,
            order_ptr: total_cells,
            stack_ptr: 0,
            mem_pool,
            sheet,
            pending_sleep: 0,
            chains: Ghost(Seq::new(total_cells as nat, |x: int| Seq::<usize>::empty())),
            free_chain: Ghost(fc),
            owner: Ghost(owner),
        };
        proof {
            assert forall|x: int| 0 <= x < g.size() implies is_chain(g.mem_pool.nodes@, g.heads()[x], #[trigger] g.chains@[x]) by {}
            assert forall|i: int| 0 <= i < fc.len() implies g.owner@[#[trigger] fc[i] as int] == -1 by {
                assert(fc.contains(fc[i]));
            }
            assert forall|x: int| 0 <= x < g.size() implies #[trigger] g.view(x) == Seq::<i32>::empty() by {
                assert(g.view(x) =~= Seq::<i32>::empty());
            }
            if sheet.wf() && sheet.n == n && sheet.m == m && n * m <= i32::MAX
                && forall|c: int| 0 <= c < n * m ==> #[trigger] sheet.data@[c] == CellInfo::blank() {
                assert forall|c: int| 0 <= c < g.size() implies #[trigger] g.visit(c) == 0 by {
                    assert(sheet.data@[c] == CellInfo::blank());
                }
                assert forall|c: int| 0 <= c < g.size() implies targets_in_bounds(#[trigger] g.sheet.data@[c].info, g.size()) by {
                    assert(sheet.data@[c] == CellInfo::blank());
                }
                assert forall|x: int, v: i32| 0 <= x < g.size() implies #[trigger] count_in(g.view(x), v) == (if 0 <= v < g.size() {
                    dep_count(g.infos()[v as int], x, g.sheet.m as int)
                } else {
                    0
                }) by {
                    if 0 <= v < g.size() {
                        assert(sheet.data@[v as int] == CellInfo::blank());
                    }
                }
                assert forall|c: int| 0 <= c < g.sheet.data@.len() implies #[trigger] eval_cell(g.sheet.data@[c], g.sheet.data@, m as int) == g.sheet.data@[c] by {
                    assert(sheet.data@[c] == CellInfo::blank());
                }
            }
        }
        g
    }

    /// Checks if argument 1 is a reference to a cell.
    pub fn is_cell_arg1(&self, arg_mask: u8) -> (r: bool)
        ensures
            r == mask_bit0(arg_mask),
    {
        proof {
            lemma_mask_bits(arg_mask);
        }
        arg_mask & 0b1 != 0
    }

    /// Checks if argument 2 is a reference to a cell.
    pub fn is_cell_arg2(&self, arg_mask: u8) -> (r: bool)
        ensures
            r == mask_bit1(arg_mask),
    {
        proof {
            lemma_mask_bits(arg_mask);
        }
        arg_mask & 0b10 != 0
    }

    /// Checks if `cell` is read by the formula `info`: one of its cell
    /// arguments, or a cell of its range.
    pub fn in_dependency(&self, cell: i32, info: &CellInfo) -> (r: bool)
        requires
            is_range_id(info.info.function_id) ==> self.sheet.m > 0,
        ensures
            r == reads_cell(info.info, cell as int, self.sheet.m as int),
    {
        if is_range_function(info.info.function_id) {
            let col = self.sheet.get_column(cell as usize);
            return cell >= info.info.arg[0] && cell <= info.info.arg[1] && col >= self.sheet.get_column(
                info.info.arg[0] as usize,
            ) && col <= self.sheet.get_column(info.info.arg[1] as usize);
        }
        (self.is_cell_arg1(info.info.arg_mask) && info.info.arg[0] == cell) || (self.is_cell_arg2(
            info.info.arg_mask,
        ) && info.info.arg[1] == cell)
    }

    /// Walks the dependents of `cell` depth first, marking cells and recording
    /// them in finishing order, to check that giving `cell` the formula
    /// `new_info` closes no cycle. Returns `false` as soon as the formula reads
    /// (by `in_dependency`) a cell that `cell` reaches, or a cycle among the
    /// reached cells shows. Any formula is taken; for one that reads cells of
    /// the sheet only, the answer is whether it would close a cycle.
    pub fn iterative_dfs(&mut self, cell: i32, new_info: &CellInfo) -> (r: bool)
        requires
            old(self).search_ready(),
            0 <= cell < old(self).size(),
        ensures
            final(self).search_left(*old(self)),
            r == !(reaches_read(old(self).list_edges(), old(self).size(), old(self).sheet.m as int, cell as int, new_info.info)
                || cycle_reachable(old(self).list_edges(), old(self).size(), cell as int)),
            targets_in_bounds(new_info.info, old(self).size()) ==> r == !(creates_cycle(
                old(self).list_edges(),
                old(self).size(),
                old(self).sheet.m as int,
                cell as int,
                new_info.info,
            ) || cycle_reachable(old(self).list_edges(), old(self).size(), cell as int)),
            r ==> final(self).search_done(*old(self), cell as int),
    {
        let ghost g0 = *self;
        let ghost n = self.size();
        let ghost f = new_info.info;
        proof {
            lemma_columns_positive(cell as int, self.sheet.n as int, self.sheet.m as int);
            if targets_in_bounds(f, n) {
                lemma_reaches_read(g0.list_edges(), n, g0.sheet.m as int, cell as int, f);
            }
        }
        let cu = cell as usize;
        let mut c = self.sheet.data[cu];
        c.info.visit = VisitStatus::InStack.code();
        self.sheet.data.set(cu, c);
        self.stack.set(self.stack_ptr, cell);
        self.stack_ptr = self.stack_ptr + 1;
        let ghost mut pos = Seq::new(n as nat, |c: int| 0int);
        let ghost mut spos = Seq::new(n as nat, |c: int| 0int);
        let ghost mut opos = Seq::new(n as nat, |c: int| 0int);
        proof {
            lemma_search_start(*self, g0, cell as int, f);
            lemma_views_in_range(g0);
        }
        while self.stack_ptr > 0
            invariant
                self.search_inv(g0, cell as int, f, pos, spos, opos),
                targets_in_bounds(f, n) ==> (reaches_read(g0.list_edges(), n, g0.sheet.m as int, cell as int, f)
                    == creates_cycle(g0.list_edges(), n, g0.sheet.m as int, cell as int, f)),
                f == new_info.info,
                n == g0.size(),
                g0.sheet.m > 0,
                g0 == *old(self),
                forall|x: int, j: int|
                    0 <= x < g0.size() && 0 <= j < g0.view(x).len() ==> 0 <= #[trigger] g0.view(x)[j] < g0.size()
                        && g0.list_edges()(x, g0.view(x)[j] as int),
            decreases self.order_ptr - self.stack_ptr, cursor_rest(g0.chains@, pos, n), self.stack_ptr,
        {
            let u = self.stack[self.stack_ptr - 1];
            proof {
                assert(0 <= u < n);
            }
            if self.in_dependency(u, new_info) {
                proof {
                    lemma_search_found_read(*self, g0, cell as int, f, pos, spos, opos);
                    lemma_search_left(*self, g0, cell as int, f, pos, spos, opos);
                }
                return false;
            }
            let uu = u as usize;
            let ghost g = *self;
            match self.adj_list[uu].ptr {
                Some(p) => {
                    proof {
                        assert(is_chain(g0.mem_pool.nodes@, g0.heads()[u as int], g0.chains@[u as int]));
                        lemma_cursor_rest(g0.chains@, pos, n, u as int);
                    }
                    let v = self.mem_pool.nodes[p].data;
                    let next = self.mem_pool.nodes[p].next;
                    let head = self.adj_list[uu].head;
                    self.adj_list.set(uu, AdjList { head, ptr: next });
                    proof {
                        assert(v == g0.view(u as int)[pos[u as int]]);
                        assert(next == ptr_at(g0.chains@[u as int], pos[u as int] + 1));
                    }
                    let ghost g1 = *self;
                    let v_status = self.sheet.data[v as usize].info.visit;
                    if v_status == VisitStatus::InStack.code() {
                        proof {
                            lemma_search_found_cycle(g, g0, cell as int, f, pos, spos, opos, u as int, v as int);
                            lemma_search_left(g, g0, cell as int, f, pos, spos, opos);
                            lemma_left_cursor(*self, g, g0, u as int, AdjList { head, ptr: next });
                        }
                        return false;
                    }
                    if v_status == VisitStatus::NotVisited.code() {
                        let vu = v as usize;
                        let mut cv = self.sheet.data[vu];
                        cv.info.visit = VisitStatus::InStack.code();
                        self.sheet.data.set(vu, cv);
                        proof {
                            lemma_search_room(g, g0, cell as int, f, pos, spos, opos, v as int);
                        }
                        self.stack.set(self.stack_ptr, v);
                        self.stack_ptr = self.stack_ptr + 1;
                        proof {
                            lemma_search_push(*self, g1, g, g0, cell as int, f, pos, spos, opos, u as int, v as int);
                            spos = spos.update(v as int, g.stack_ptr as int);
                            pos = pos.update(u as int, pos[u as int] + 1);
                        }
                    } else {
                        proof {
                            lemma_search_skip(*self, g, g0, cell as int, f, pos, spos, opos, u as int);
                            pos = pos.update(u as int, pos[u as int] + 1);
                        }
                    }
                },
                None => {
                    let mut cu2 = self.sheet.data[uu];
                    cu2.info.visit = VisitStatus::Visited.code();
                    self.sheet.data.set(uu, cu2);
                    self.order_ptr = self.order_ptr - 1;
                    self.stack.set(self.order_ptr, u);
                    self.stack_ptr = self.stack_ptr - 1;
                    proof {
                        lemma_search_finish(*self, g, g0, cell as int, f, pos, spos, opos, u as int);
                        opos = opos.update(u as int, g.order_ptr - 1);
                    }
                },
            }
        }
        proof {
            lemma_search_done(*self, g0, cell as int, f, pos, spos, opos);
        }
        true
    }

    /// Clears the marks and rewinds the cursors of every cell on the stack
    /// (`stack[..stack_ptr]`) or in the order (`stack[order_ptr..]`), then
    /// empties both.
    pub fn reset(&mut self)
        requires
            old(self).sheet.wf(),
            old(self).adj_list@.len() == old(self).sheet.data@.len(),
            old(self).stack@.len() == old(self).sheet.data@.len(),
            old(self).stack_ptr <= old(self).stack@.len(),
            forall|k: int| 0 <= k < old(self).stack_ptr ==> 0 <= #[trigger] old(self).stack@[k] < old(self).stack@.len(),
            forall|k: int| old(self).order_ptr <= k < old(self).stack@.len() ==> 0 <= #[trigger] old(self).stack@[k] < old(self).stack@.len(),
        ensures
            ({
                let n = old(self).stack@.len() as int;
                let hit = |c: int| in_regions(old(self).stack@, old(self).stack_ptr as int, old(self).order_ptr as int, n, c);
                &&& final(self).stack_ptr == 0
                &&& final(self).order_ptr == n
                &&& final(self).sheet.data@.len() == n
                &&& final(self).adj_list@.len() == n
                &&& forall|c: int| 0 <= c < n ==> #[trigger] final(self).sheet.data@[c] == (if hit(c) {
                    set_visit(old(self).sheet.data@[c], 0)
                } else {
                    old(self).sheet.data@[c]
                })
                &&& forall|c: int| 0 <= c < n ==> #[trigger] final(self).adj_list@[c] == (if hit(c) {
                    AdjList { head: old(self).adj_list@[c].head, ptr: old(self).adj_list@[c].head }
                } else {
                    old(self).adj_list@[c]
                })
            }),
            final(self).sheet.n == old(self).sheet.n,
            final(self).sheet.m == old(self).sheet.m,
            final(self).sheet.px == old(self).sheet.px,
            final(self).sheet.py == old(self).sheet.py,
            final(self).stack@ == old(self).stack@,
            final(self).mem_pool == old(self).mem_pool,
            final(self).chains == old(self).chains,
            final(self).free_chain == old(self).free_chain,
            final(self).owner == old(self).owner,
            final(self).pending_sleep == old(self).pending_sleep,
    {
        let n_cells = self.sheet.data.len();
        let ghost s = self.stack@;
        let ghost sp = self.stack_ptr as int;
        let ghost op = self.order_ptr as int;
        let ghost d0 = self.sheet.data@;
        let ghost a0 = self.adj_list@;
        let mut i: usize = 0;
        while i < self.stack_ptr
            invariant
                self.stack@ == s,
                self.stack_ptr == sp,
                sp <= n_cells,
                n_cells == s.len(),
                self.sheet.data@.len() == n_cells,
                self.adj_list@.len() == n_cells,
                0 <= i <= sp,
                forall|k: int| 0 <= k < sp ==> 0 <= #[trigger] s[k] < n_cells,
                forall|c: int| 0 <= c < n_cells ==> #[trigger] self.sheet.data@[c] == (if occurs_in(s, 0, i as int, c) {
                    set_visit(d0[c], 0)
                } else {
                    d0[c]
                }),
                forall|c: int| 0 <= c < n_cells ==> #[trigger] self.adj_list@[c] == (if occurs_in(s, 0, i as int, c) {
                    AdjList { head: a0[c].head, ptr: a0[c].head }
                } else {
                    a0[c]
                }),
                self.sheet.n == old(self).sheet.n,
                self.sheet.m == old(self).sheet.m,
                self.sheet.px == old(self).sheet.px,
                self.sheet.py == old(self).sheet.py,
                self.order_ptr == op,
                self.mem_pool == old(self).mem_pool,
                self.chains == old(self).chains,
                self.free_chain == old(self).free_chain,
                self.owner == old(self).owner,
                self.pending_sleep == old(self).pending_sleep,
            decreases sp - i,
        {
            let node_idx = self.stack[i] as usize;
            let mut c = self.sheet.data[node_idx];
            c.info.visit = VisitStatus::NotVisited.code();
            self.sheet.data.set(node_idx, c);
            let head = self.adj_list[node_idx].head;
            self.adj_list.set(node_idx, AdjList { head, ptr: head });
            proof {
                assert forall|x: int| 0 <= x < n_cells implies occurs_in(s, 0, i + 1, x) == (occurs_in(s, 0, i as int, x) || x == node_idx) by {
                    if x == node_idx {
                        assert(s[i as int] == x);
                    }
                    if occurs_in(s, 0, i + 1, x) && x != node_idx {
                        let k = choose|k: int| 0 <= k < i + 1 && #[trigger] s[k] == x;
                        assert(k != i);
                    }
                }
            }
            i = i + 1;
        }
        let mut i: usize = self.order_ptr;
        while i < n_cells
            invariant
                self.stack@ == s,
                self.stack_ptr == sp,
                n_cells == s.len(),
                self.sheet.data@.len() == n_cells,
                self.adj_list@.len() == n_cells,
                op <= i,
                i <= n_cells || i == op,
                forall|k: int| op <= k < n_cells ==> 0 <= #[trigger] s[k] < n_cells,
                forall|c: int| 0 <= c < n_cells ==> #[trigger] self.sheet.data@[c] == (if occurs_in(s, 0, sp, c) || occurs_in(s, op, i as int, c) {
                    set_visit(d0[c], 0)
                } else {
                    d0[c]
                }),
                forall|c: int| 0 <= c < n_cells ==> #[trigger] self.adj_list@[c] == (if occurs_in(s, 0, sp, c) || occurs_in(s, op, i as int, c) {
                    AdjList { head: a0[c].head, ptr: a0[c].head }
                } else {
                    a0[c]
                }),
                self.sheet.n == old(self).sheet.n,
                self.sheet.m == old(self).sheet.m,
                self.sheet.px == old(self).sheet.px,
                self.sheet.py == old(self).sheet.py,
                self.order_ptr == op,
                self.mem_pool == old(self).mem_pool,
                self.chains == old(self).chains,
                self.free_chain == old(self).free_chain,
                self.owner == old(self).owner,
                self.pending_sleep == old(self).pending_sleep,
            decreases n_cells - i,
        {
            let node_idx = self.stack[i] as usize;
            let mut c = self.sheet.data[node_idx];
            c.info.visit = VisitStatus::NotVisited.code();
            self.sheet.data.set(node_idx, c);
            let head = self.adj_list[node_idx].head;
            self.adj_list.set(node_idx, AdjList { head, ptr: head });
            proof {
                assert forall|x: int| 0 <= x < n_cells implies occurs_in(s, op, i + 1, x) == (occurs_in(s, op, i as int, x) || x == node_idx) by {
                    if x == node_idx {
                        assert(s[i as int] == x);
                    }
                    if occurs_in(s, op, i + 1, x) && x != node_idx {
                        let k = choose|k: int| op <= k < i + 1 && #[trigger] s[k] == x;
                        assert(k != i);
                    }
                }
            }
            i = i + 1;
        }
        self.stack_ptr = 0;
        self.order_ptr = n_cells;
        proof {
            assert forall|c: int| 0 <= c < n_cells implies occurs_in(s, op, i as int, c) == occurs_in(s, op, n_cells as int, c) by {
                if i > n_cells {
                    assert(i == op);
                    if occurs_in(s, op, n_cells as int, c) {
                    }
                }
            }
        }
    }

    /// Evaluates again, in order, the cells `stack[order_ptr..]`, each against
    /// the sheet as the ones before it left it, and adds the seconds of sleep
    /// their `SLEEP` formulas ask for to `pending_sleep` (saturating).
    pub fn update_values(&mut self)
        requires
            old(self).sheet.wf(),
            old(self).stack@.len() == old(self).sheet.data@.len(),
            old(self).order_ptr <= old(self).stack@.len(),
            forall|k: int| old(self).order_ptr <= k < old(self).stack@.len() ==> 0 <= #[trigger] old(self).stack@[k] < old(self).stack@.len(),
            forall|k: int|
                old(self).order_ptr <= k < old(self).stack@.len() && !old(self).sheet.data@[#[trigger] old(self).stack@[k] as int].literal_mode
                    ==> args_in_bounds(old(self).sheet.data@[old(self).stack@[k] as int].info, old(self).sheet.data@.len() as int),
        ensures
            ({
                let order = old(self).stack@.subrange(old(self).order_ptr as int, old(self).stack@.len() as int);
                let d0 = old(self).sheet.data@;
                let m = old(self).sheet.m as int;
                let total = old(self).pending_sleep + recompute_sleep(d0, order, m);
                &&& final(self).sheet.data@ == recompute(d0, order, m)
                &&& same_formulas(final(self).sheet.data@, d0)
                &&& same_marks(final(self).sheet.data@, d0)
                &&& final(self).pending_sleep == (if total > u64::MAX { u64::MAX as int } else { total })
            }),
            final(self).sheet.n == old(self).sheet.n,
            final(self).sheet.m == old(self).sheet.m,
            final(self).sheet.px == old(self).sheet.px,
            final(self).sheet.py == old(self).sheet.py,
            final(self).adj_list@ == old(self).adj_list@,
            final(self).stack@ == old(self).stack@,
            final(self).stack_ptr == old(self).stack_ptr,
            final(self).order_ptr == old(self).order_ptr,
            final(self).mem_pool == old(self).mem_pool,
            final(self).chains == old(self).chains,
            final(self).free_chain == old(self).free_chain,
            final(self).owner == old(self).owner,
    {
        let n_cells = self.sheet.data.len();
        let ghost s = self.stack@;
        let ghost op = self.order_ptr as int;
        let ghost d0 = self.sheet.data@;
        let ghost m = self.sheet.m as int;
        let ghost p0 = self.pending_sleep as int;
        let mut i: usize = self.order_ptr;
        while i < n_cells
            invariant
                self.stack@ == s,
                n_cells == s.len(),
                n_cells == d0.len(),
                self.sheet.wf(),
                self.sheet.m == m,
                op <= i <= n_cells,
                forall|k: int| op <= k < n_cells ==> 0 <= #[trigger] s[k] < n_cells,
                forall|k: int| op <= k < n_cells && !d0[#[trigger] s[k] as int].literal_mode ==> args_in_bounds(d0[s[k] as int].info, n_cells as int),
                forall|c: int| 0 <= c < n_cells ==> (#[trigger] self.sheet.data@[c]).literal_mode == d0[c].literal_mode,
                self.sheet.data@ == recompute(d0, s.subrange(op, i as int), m),
                same_formulas(self.sheet.data@, d0),
                same_marks(self.sheet.data@, d0),
                ({
                    let total = p0 + recompute_sleep(d0, s.subrange(op, i as int), m);
                    self.pending_sleep == (if total > u64::MAX { u64::MAX as int } else { total })
                }),
                self.sheet.n == old(self).sheet.n,
                self.sheet.px == old(self).sheet.px,
                self.sheet.py == old(self).sheet.py,
                self.adj_list@ == old(self).adj_list@,
                self.stack_ptr == old(self).stack_ptr,
                self.order_ptr == op,
                self.mem_pool == old(self).mem_pool,
                self.chains == old(self).chains,
                self.free_chain == old(self).free_chain,
                self.owner == old(self).owner,
            decreases n_cells - i,
        {
            let cell_idx = self.stack[i] as usize;
            let mut cell_info = self.sheet.data[cell_idx];
            proof {
                assert(s[i as int] == cell_idx);
                if !cell_info.literal_mode {
                    assert(args_in_bounds(d0[cell_idx as int].info, n_cells as int));
                }
            }
            let mut secs: u64 = 0;
            if !cell_info.literal_mode {
                secs = apply_function(&mut cell_info, &self.sheet);
            }
            self.pending_sleep = self.pending_sleep.saturating_add(secs);
            let ghost before = self.sheet.data@;
            self.sheet.data.set(cell_idx, cell_info);
            proof {
                let o = s.subrange(op, i + 1);
                assert(o.drop_last() =~= s.subrange(op, i as int));
                assert(o.last() == s[i as int]);
                lemma_eval_keeps(before[cell_idx as int], before, m);
                assert(same_formulas(self.sheet.data@, d0)) by {
                    assert forall|c: int| 0 <= c < self.sheet.data@.len() implies (#[trigger] self.sheet.data@[c]).info.function_id == d0[c].info.function_id
                        && self.sheet.data@[c].info.arg == d0[c].info.arg && self.sheet.data@[c].info.arg_mask == d0[c].info.arg_mask by {
                        assert(before[c].info.function_id == d0[c].info.function_id);
                    }
                }
                assert(same_marks(self.sheet.data@, d0)) by {
                    assert forall|c: int| 0 <= c < self.sheet.data@.len() implies (#[trigger] self.sheet.data@[c]).info.visit == d0[c].info.visit by {
                        assert(before[c].info.visit == d0[c].info.visit);
                    }
                }
                assert forall|c: int| 0 <= c < n_cells implies (#[trigger] self.sheet.data@[c]).literal_mode == d0[c].literal_mode by {
                    assert(before[c].literal_mode == d0[c].literal_mode);
                }
            }
            i = i + 1;
        }
    }

    /// The graph is ready for the next update: consistent lists of cells of
    /// the sheet, clear marks, rewound cursors, empty stack and order, and
    /// formulas that read cells of the sheet only.
    pub open spec fn wf(&self) -> bool {
        &&& self.search_ready()
        &&& forall|c: int| 0 <= c < self.size() ==> targets_in_bounds(#[trigger] self.sheet.data@[c].info, self.size())
    }

    /// Removes `cell` from the lists of dependents of every cell that its
    /// current formula reads.
    pub fn delete_expression(&mut self, cell: i32)
        requires
            old(self).lists_ok(),
            old(self).shape_ok(),
            0 <= cell < old(self).size(),
            targets_in_bounds(old(self).sheet.data@[cell as int].info, old(self).size()),
        ensures
            final(self).lists_ok(),
            final(self).shape_ok(),
            final(self).same_but_lists(old(self)),
            old(self).lists_in_range() ==> final(self).lists_in_range(),
            final(self).mem_pool.nodes@.len() == old(self).mem_pool.nodes@.len(),
            forall|x: int, w: i32| 0 <= x < old(self).size() ==> #[trigger] count_in(final(self).view(x), w) == edited_count(
                ListEdit::Erase,
                count_in(old(self).view(x), w),
                w,
                cell,
                dep_count(old(self).sheet.data@[cell as int].info, x, old(self).sheet.m as int),
            ),
            forall|x: int| 0 <= x < old(self).size() ==> #[trigger] final(self).view(x) == edit_times(
                ListEdit::Erase,
                old(self).view(x),
                cell,
                dep_count(old(self).sheet.data@[cell as int].info, x, old(self).sheet.m as int),
            ),
            forall|x: int| 0 <= x < old(self).size() && dep_count(old(self).sheet.data@[cell as int].info, x, old(self).sheet.m as int) == 0
                ==> #[trigger] final(self).adj_list@[x] == old(self).adj_list@[x],
            forall|x: int| 0 <= x < old(self).size() && dep_count(old(self).sheet.data@[cell as int].info, x, old(self).sheet.m as int) > 0
                ==> #[trigger] final(self).adj_list@[x].ptr == final(self).adj_list@[x].head,
            final(self).mem_pool.nodes@.len() <= old(self).mem_pool.nodes@.len() + (old(self).size() + 2) * BLOCK_SIZE,
    {
        let cell_info = self.sheet.data[cell as usize];
        self.modify_graph(cell, &cell_info, ListEdit::Erase);
    }

    /// Adds `cell` to the lists of dependents of every cell that the formula
    /// `new_info` reads.
    pub fn add_expression(&mut self, cell: i32, new_info: &CellInfo)
        requires
            old(self).lists_ok(),
            old(self).shape_ok(),
            0 <= cell < old(self).size(),
            targets_in_bounds(new_info.info, old(self).size()),
            old(self).room_for(old(self).size() + 2),
        ensures
            final(self).lists_ok(),
            final(self).shape_ok(),
            final(self).same_but_lists(old(self)),
            old(self).lists_in_range() ==> final(self).lists_in_range(),
            forall|x: int, w: i32| 0 <= x < old(self).size() ==> #[trigger] count_in(final(self).view(x), w) == edited_count(
                ListEdit::Insert,
                count_in(old(self).view(x), w),
                w,
                cell,
                dep_count(new_info.info, x, old(self).sheet.m as int),
            ),
            forall|x: int| 0 <= x < old(self).size() ==> #[trigger] final(self).view(x) == Seq::new(
                dep_count(new_info.info, x, old(self).sheet.m as int),
                |k: int| cell,
            ) + old(self).view(x),
            forall|x: int| 0 <= x < old(self).size() && dep_count(new_info.info, x, old(self).sheet.m as int) == 0
                ==> #[trigger] final(self).adj_list@[x] == old(self).adj_list@[x],
            forall|x: int| 0 <= x < old(self).size() && dep_count(new_info.info, x, old(self).sheet.m as int) > 0
                ==> #[trigger] final(self).adj_list@[x].ptr == final(self).adj_list@[x].head,
            final(self).mem_pool.nodes@.len() <= old(self).mem_pool.nodes@.len() + (old(self).size() + 2) * BLOCK_SIZE,
    {
        self.modify_graph(cell, new_info, ListEdit::Insert);
        proof {
            assert forall|x: int| 0 <= x < old(self).size() implies #[trigger] self.view(x) == Seq::new(
                dep_count(new_info.info, x, old(self).sheet.m as int),
                |k: int| cell,
            ) + old(self).view(x) by {
                lemma_edit_times_insert(old(self).view(x), cell, dep_count(new_info.info, x, old(self).sheet.m as int));
            }
        }
    }

    /// Stores `nc` in `cell`, unless its formula would close a cycle of
    /// dependencies (`false`, nothing changed). On success the lists are
    /// rewired for the new formula, and `cell` and every cell that a change of
    /// it reaches are evaluated again, each after the cells it reads.
    pub fn install(&mut self, cell: usize, nc: CellInfo) -> (r: bool)
        requires
            old(self).wf(),
            cell < old(self).size(),
            targets_in_bounds(nc.info, old(self).size()),
            old(self).room_for(old(self).size() + 2),
        ensures
            install_result(*old(self), *final(self), cell as int, nc, r),
    {
        let new_info = nc;
        let ghost g0 = *self;
        let ghost n = self.size();
        if !self.iterative_dfs(cell as i32, &new_info) {
            let ghost g1 = *self;
            self.reset();
            proof {
                assert forall|c: int| 0 <= c < n implies #[trigger] self.sheet.data@[c] == g0.sheet.data@[c] by {
                    assert(g0.visit(c) == 0);
                    assert(g1.sheet.data@[c] == set_visit(g0.sheet.data@[c], g1.sheet.data@[c].info.visit));
                    if !in_regions(g1.stack@, g1.stack_ptr as int, g1.order_ptr as int, n, c) {
                        assert(g1.visit(c) == 0);
                    }
                }
                assert(self.sheet.data@ =~= g0.sheet.data@);
                assert forall|x: int| 0 <= x < n implies #[trigger] self.adj_list@[x].ptr == self.adj_list@[x].head by {
                    assert(g1.adj_list@[x].head == g0.adj_list@[x].head);
                }
                assert forall|x: int| 0 <= x < n implies #[trigger] self.view(x) == g0.view(x) by {}
                assert(self.heads() =~= g0.heads());
                assert(self.size() == n);
                assert(self.lists_ok());
                assert(self.shape_ok());
                assert(self.lists_in_range());
                assert(self.ptrs_at_head());
                assert forall|c: int| 0 <= c < n implies #[trigger] self.visit(c) == 0 by {
                    assert(g0.visit(c) == 0);
                }
                assert forall|c: int| 0 <= c < n implies targets_in_bounds(#[trigger] self.sheet.data@[c].info, n) by {
                    assert(targets_in_bounds(g0.sheet.data@[c].info, n));
                }
                assert(self.wf());
            }
            return false;
        }
        let ghost g1 = *self;
        let ghost m = g0.sheet.m as int;
        let ghost e = g0.list_edges();
        proof {
            lemma_columns_positive(cell as int, self.sheet.n as int, self.sheet.m as int);
            assert(g1.sheet.data@[cell as int].info.function_id == g0.sheet.data@[cell as int].info.function_id);
            assert(g1.sheet.data@[cell as int].info.arg == g0.sheet.data@[cell as int].info.arg);
            assert(g1.heads() =~= g0.heads());
            assert(g1.lists_ok());
            assert forall|x: int| 0 <= x < n implies #[trigger] g1.view(x) == g0.view(x) by {}
            assert(g1.lists_in_range());
            assert forall|x: int| 0 <= x < n implies (dep_count(g1.sheet.data@[cell as int].info, x, m) == dep_count(g0.sheet.data@[cell as int].info, x, m)) by {}
        }
        self.delete_expression(cell as i32);
        let ghost g2 = *self;
        self.add_expression(cell as i32, &new_info);
        let ghost g3 = *self;
        self.sheet.data.set(cell, new_info);
        let ghost g4 = *self;
        let ghost op = g1.order_ptr as int;
        let ghost s = g1.stack@;
        let ghost order = s.subrange(op, n);
        proof {
            assert forall|c: int| 0 <= c < n implies args_in_bounds(#[trigger] self.sheet.data@[c].info, n) by {
                if c != cell {
                    assert(self.sheet.data@[c].info.function_id == g0.sheet.data@[c].info.function_id);
                    assert(self.sheet.data@[c].info.arg == g0.sheet.data@[c].info.arg);
                    assert(targets_in_bounds(g0.sheet.data@[c].info, n));
                }
                lemma_targets_args(self.sheet.data@[c].info, n);
            }
            assert(reaches(e, n, cell as int, cell as int)) by {
                crate::deps::lemma_reach_refl(e, n, cell as int);
            }
            assert(g1.visit(cell as int) == 2);
            assert(occurs_in(s, op, n, cell as int)) by {
                assert(in_regions(s, 0, op, n, cell as int));
            }
            assert forall|k: int| 0 <= k < order.len() implies 0 <= #[trigger] order[k] < g4.sheet.data@.len() by {
                assert(order[k] == s[op + k]);
            }
            lemma_recompute_keeps(g4.sheet.data@, order, m);
        }
        self.update_values();
        let ghost g5 = *self;
        self.reset();
        proof {
            // the marked cells are exactly the cells of the order
            assert forall|c: int| 0 <= c < n implies (g1.visit(c) == 2) == #[trigger] occurs_in(s, op, n, c) by {
                if g1.visit(c) == 2 {
                    assert(in_regions(s, 0, op, n, c));
                }
                if occurs_in(s, op, n, c) {
                    let k = choose|k: int| op <= k < n && #[trigger] s[k] == c;
                    assert(g1.visit(s[k] as int) == 2);
                }
            }
            assert forall|c: int| 0 <= c < n implies #[trigger] in_regions(s, 0, op, n, c) == occurs_in(s, op, n, c) by {}
            // the lists
            assert(self.heads() =~= g3.heads());
            assert forall|x: int| 0 <= x < n implies #[trigger] self.view(x) == g3.view(x) by {}
            assert(self.lists_ok());
            assert(self.lists_in_range());
            assert forall|x: int| 0 <= x < n implies #[trigger] self.adj_list@[x].ptr == self.adj_list@[x].head by {
                if !occurs_in(s, op, n, x) {
                    assert(g1.visit(x) == 0);
                    assert(g1.adj_list@[x].ptr == g1.adj_list@[x].head);
                    assert(g2.adj_list@[x] == g1.adj_list@[x] || g2.adj_list@[x].ptr == g2.adj_list@[x].head);
                    assert(g3.adj_list@[x] == g2.adj_list@[x] || g3.adj_list@[x].ptr == g3.adj_list@[x].head);
                }
            }
            assert(self.ptrs_at_head());
            assert(self.shape_ok());
            // the cells
            assert forall|c: int| 0 <= c < n && !occurs_in(s, op, n, c) implies #[trigger] self.sheet.data@[c] == g0.sheet.data@[c] by {
                assert(g1.visit(c) == 0);
                assert(c != cell);
                assert forall|k: int| 0 <= k < order.len() implies #[trigger] order[k] != c by {
                    assert(order[k] == s[op + k]);
                }
                lemma_recompute_untouched(g4.sheet.data@, order, m, c);
                assert(g1.sheet.data@[c] == set_visit(g0.sheet.data@[c], g1.sheet.data@[c].info.visit));
                assert(g0.visit(c) == 0);
            }
            assert forall|c: int| 0 <= c < n implies #[trigger] self.visit(c) == 0 by {
                if !occurs_in(s, op, n, c) {
                    assert(g0.visit(c) == 0);
                }
            }
            let target = g0.sheet.data@.update(cell as int, nc);
            assert forall|c: int| 0 <= c < n implies (#[trigger] self.sheet.data@[c]).info.function_id == target[c].info.function_id
                && self.sheet.data@[c].info.arg == target[c].info.arg && self.sheet.data@[c].info.arg_mask == target[c].info.arg_mask by {
                assert(g5.sheet.data@[c].info.function_id == g4.sheet.data@[c].info.function_id);
                assert(g5.sheet.data@[c].info.arg == g4.sheet.data@[c].info.arg);
                assert(g5.sheet.data@[c].info.arg_mask == g4.sheet.data@[c].info.arg_mask);
                if c != cell {
                    assert(g1.sheet.data@[c] == set_visit(g0.sheet.data@[c], g1.sheet.data@[c].info.visit));
                }
            }
            assert(same_formulas(self.sheet.data@, target));
            // the seconds of sleep
            assert(reach_order(e, n, cell as int, order)) by {
                assert forall|k: int| 0 <= k < order.len() implies 0 <= #[trigger] order[k] < n && reaches(e, n, cell as int, order[k] as int) by {
                    assert(order[k] == s[op + k]);
                    assert(g1.visit(s[op + k] as int) == 2);
                }
                assert forall|c: int| 0 <= c < n && #[trigger] reaches(e, n, cell as int, c) implies occurs_in(order, 0, order.len() as int, c) by {
                    assert(g1.visit(c) == 2);
                    assert(occurs_in(s, op, n, c));
                    let k = choose|k: int| op <= k < n && #[trigger] s[k] == c;
                    assert(order[k - op] == c);
                }
                assert forall|k1: int, k2: int| 0 <= k1 < k2 < order.len() implies #[trigger] order[k1] != #[trigger] order[k2] by {
                    assert(order[k1] == s[op + k1] && order[k2] == s[op + k2]);
                }
                assert forall|k1: int, k2: int|
                    0 <= k1 < order.len() && 0 <= k2 < order.len() && #[trigger] e(order[k1] as int, order[k2] as int) implies k1 < k2 by {
                    assert(order[k1] == s[op + k1] && order[k2] == s[op + k2]);
                }
            }
            assert(same_but_marks(g4.sheet.data@, target)) by {
                assert forall|c: int| 0 <= c < n implies #[trigger] g4.sheet.data@[c] == set_visit(target[c], g4.sheet.data@[c].info.visit) by {
                    if c != cell {
                        assert(g1.sheet.data@[c] == set_visit(g0.sheet.data@[c], g1.sheet.data@[c].info.visit));
                    }
                }
            }
            assert(self.pending_sleep == saturated(g0.pending_sleep + recompute_sleep(g4.sheet.data@, order, m)));
            assert forall|c: int| 0 <= c < n implies targets_in_bounds(#[trigger] self.sheet.data@[c].info, n) by {
                if c != cell {
                    assert(targets_in_bounds(g0.sheet.data@[c].info, n));
                }
            }
            assert(self.wf());
            assert forall|x: int, w: i32| 0 <= x < n implies #[trigger] count_in(self.view(x), w) == edited_count(
                ListEdit::Insert,
                edited_count(
                    ListEdit::Erase,
                    count_in(g0.view(x), w),
                    w,
                    cell as i32,
                    dep_count(g0.sheet.data@[cell as int].info, x, m),
                ) as nat,
                w,
                cell as i32,
                dep_count(nc.info, x, m),
            ) by {
                assert(count_in(g2.view(x), w) == edited_count(ListEdit::Erase, count_in(g1.view(x), w), w, cell as i32,
                    dep_count(g1.sheet.data@[cell as int].info, x, m)));
                assert(count_in(g3.view(x), w) == edited_count(ListEdit::Insert, count_in(g2.view(x), w), w, cell as i32,
                    dep_count(new_info.info, x, m)));
            }
            assert forall|c: int| 0 <= c < n && !reaches(e, n, cell as int, c) implies #[trigger] self.sheet.data@[c] == g0.sheet.data@[c] by {
                assert(!occurs_in(s, op, n, c));
            }
            if g0.edges_match(g0.infos()) && ranges_ordered(target, m) {
                lemma_update_result(g0, g1, g4, g5, *self, cell as int, nc);
            }
        }
        true
    }

    /// Gives `cell` the formula `info`, unless that would close a cycle of
    /// dependencies (`CyclicDep`, nothing changed). On success the lists are
    /// rewired for the new formula, and `cell` and every cell that a change of
    /// it reaches are evaluated again, each after the cells it reads.
    pub fn update_expression(&mut self, cell: usize, info: &Info) -> (r: Result<(), StatusCode>)
        requires
            old(self).wf(),
            cell < old(self).size(),
            targets_in_bounds(*info, old(self).size()),
            old(self).room_for(old(self).size() + 2),
        ensures
            install_result(*old(self), *final(self), cell as int, new_cell(*info), r is Ok),
            r matches Err(code) ==> code == StatusCode::CyclicDep,
    {
        let new_info = CellInfo { info: *info, value: 0, literal_mode: false };
        if self.install(cell, new_info) {
            Ok(())
        } else {
            Err(StatusCode::CyclicDep)
        }
    }

    /// Puts `value` in front of the list of dependents of `x`.
    fn push_dependent(&mut self, x: usize, value: i32)
        requires
            old(self).lists_ok(),
            x < old(self).size(),
            old(self).mem_pool.has_room(),
        ensures
            final(self).lists_ok(),
            final(self).size() == old(self).size(),
            final(self).view(x as int) == seq![value] + old(self).view(x as int),
            forall|y: int| 0 <= y < old(self).size() && y != x ==> #[trigger] final(self).view(y) == old(self).view(y),
            final(self).adj_list@[x as int].ptr == final(self).adj_list@[x as int].head,
            forall|y: int| 0 <= y < old(self).size() && y != x ==> #[trigger] final(self).adj_list@[y] == old(self).adj_list@[y],
            final(self).mem_pool.nodes@.len() <= old(self).mem_pool.nodes@.len() + BLOCK_SIZE,
            final(self).mem_pool.nodes@.len() >= old(self).mem_pool.nodes@.len(),
            final(self).sheet == old(self).sheet,
            final(self).stack == old(self).stack,
            final(self).stack_ptr == old(self).stack_ptr,
            final(self).order_ptr == old(self).order_ptr,
            final(self).pending_sleep == old(self).pending_sleep,
    {
        let ghost nodes = self.mem_pool.nodes@;
        let ghost heads = self.heads();
        let ghost free = self.mem_pool.free_list;
        let ghost chains = self.chains@;
        let ghost fc = self.free_chain@;
        let ghost owner = self.owner@;
        proof {
            lemma_supply(nodes, heads, free, chains, fc, owner);
        }
        let ghost (nodes0, free0) = supply(nodes, free);
        let ghost fc0 = supply_chain(nodes, free, fc);
        let ghost owner0 = supply_owner(nodes, free, owner);
        let mut head = self.adj_list[x].head;
        assert(is_chain(nodes, heads[x as int], chains[x as int]));
        push_front(&mut head, value, &mut self.mem_pool);
        self.adj_list.set(x, AdjList { head, ptr: head });
        proof {
            lemma_push_lists(nodes0, heads, free0, chains, fc0, owner0, x as int, value);
            let f = fc0[0];
            self.chains = Ghost(chains.update(x as int, seq![f] + chains[x as int]));
            self.free_chain = Ghost(fc0.drop_first());
            self.owner = Ghost(owner0.update(f as int, x as int));
            assert(self.heads() =~= heads.update(x as int, Some(f)));
        }
    }

    /// Removes the first occurrence of `value` from the list of dependents of `x`.
    fn erase_dependent(&mut self, x: usize, value: i32)
        requires
            old(self).lists_ok(),
            x < old(self).size(),
        ensures
            final(self).lists_ok(),
            final(self).size() == old(self).size(),
            forall|v: i32| #[trigger] count_in(final(self).view(x as int), v) == (if v == value && count_in(old(self).view(x as int), v) > 0 {
                count_in(old(self).view(x as int), v) - 1
            } else {
                count_in(old(self).view(x as int), v) as int
            }),
            final(self).view(x as int) == edit_once(ListEdit::Erase, old(self).view(x as int), value),
            old(self).lists_in_range() ==> final(self).lists_in_range(),
            forall|y: int| 0 <= y < old(self).size() && y != x ==> #[trigger] final(self).view(y) == old(self).view(y),
            final(self).adj_list@[x as int].ptr == final(self).adj_list@[x as int].head,
            forall|y: int| 0 <= y < old(self).size() && y != x ==> #[trigger] final(self).adj_list@[y] == old(self).adj_list@[y],
            final(self).mem_pool.nodes@.len() == old(self).mem_pool.nodes@.len(),
            final(self).sheet == old(self).sheet,
            final(self).stack == old(self).stack,
            final(self).stack_ptr == old(self).stack_ptr,
            final(self).order_ptr == old(self).order_ptr,
            final(self).pending_sleep == old(self).pending_sleep,
    {
        let ghost nodes = self.mem_pool.nodes@;
        let ghost heads = self.heads();
        let ghost free = self.mem_pool.free_list;
        let ghost chains = self.chains@;
        let ghost fc = self.free_chain@;
        let ghost owner = self.owner@;
        let ghost s = chains[x as int];
        let ghost vals = chain_values(nodes, s);
        let ghost k = first_pos(vals, value);
        proof {
            assert(is_chain(nodes, heads[x as int], s));
            lemma_first_pos_props(vals, value);
            if k < 0 {
                assert forall|j: int| 0 <= j < vals.len() implies vals[j] != value by {}
                lemma_count_none(vals, value);
            }
        }
        let mut head = self.adj_list[x].head;
        erase_list(&mut head, value, &mut self.mem_pool);
        self.adj_list.set(x, AdjList { head, ptr: head });
        proof {
            assert(is_chain(nodes, heads[x as int], s));
            if k >= 0 {
                lemma_erase_lists(nodes, heads, free, chains, fc, owner, x as int, k);
                self.chains = Ghost(chains.update(x as int, s.remove(k)));
                self.free_chain = Ghost(seq![s[k]] + fc);
                self.owner = Ghost(owner.update(s[k] as int, -1));
                assert(self.heads() =~= heads.update(x as int, head));
                assert forall|v: i32| #[trigger] count_in(self.view(x as int), v) == (if v == value && count_in(old(self).view(x as int), v) > 0 {
                    count_in(old(self).view(x as int), v) - 1
                } else {
                    count_in(old(self).view(x as int), v) as int
                }) by {
                    lemma_count_remove(vals, k, v);
                }
                assert(self.view(x as int) == old(self).view(x as int).remove(k));
                assert forall|y: int, j: int|
                    0 <= y < self.size() && 0 <= j < self.view(y).len() && old(self).lists_in_range()
                        implies 0 <= #[trigger] self.view(y)[j] < self.size() by {
                    if y == x {
                        let j2 = if j < k { j } else { j + 1 };
                        assert(self.view(y)[j] == old(self).view(y)[j2]);
                    } else {
                        assert(self.view(y) == old(self).view(y));
                    }
                }
            } else {
                assert(self.heads() =~= heads);
                assert(self.mem_pool.nodes@ == nodes);
                assert forall|y: int| 0 <= y < self.size() implies #[trigger] self.view(y) == old(self).view(y) by {}
            }
        }
    }

    /// The frame kept by every edit of the lists.
    pub open spec fn same_but_lists(&self, other: &Graph) -> bool {
        &&& self.sheet == other.sheet
        &&& self.stack == other.stack
        &&& self.stack_ptr == other.stack_ptr
        &&& self.order_ptr == other.order_ptr
        &&& self.pending_sleep == other.pending_sleep
        &&& self.adj_list@.len() == other.adj_list@.len()
    }

    /// The pool can take `k` more blocks without its indices overflowing.
    pub open spec fn room_for(&self, k: int) -> bool {
        self.mem_pool.nodes@.len() + k * BLOCK_SIZE <= usize::MAX
    }

    /// Adds `value` to, or removes one `value` from, the list of dependents of `x`.
    fn edit_dependent(&mut self, x: usize, value: i32, edit: ListEdit)
        requires
            old(self).lists_ok(),
            x < old(self).size(),
            edit == ListEdit::Insert ==> old(self).room_for(1),
        ensures
            final(self).lists_ok(),
            final(self).same_but_lists(old(self)),
            old(self).lists_in_range() && (edit == ListEdit::Erase || 0 <= value < old(self).size()) ==> final(self).lists_in_range(),
            edit == ListEdit::Erase ==> final(self).mem_pool.nodes@.len() == old(self).mem_pool.nodes@.len(),
            forall|w: i32| #[trigger] count_in(final(self).view(x as int), w) == edited_count(edit, count_in(old(self).view(x as int), w), w, value, 1),
            final(self).view(x as int) == edit_once(edit, old(self).view(x as int), value),
            forall|y: int| 0 <= y < old(self).size() && y != x ==> #[trigger] final(self).view(y) == old(self).view(y),
            final(self).adj_list@[x as int].ptr == final(self).adj_list@[x as int].head,
            forall|y: int| 0 <= y < old(self).size() && y != x ==> #[trigger] final(self).adj_list@[y] == old(self).adj_list@[y],
            final(self).mem_pool.nodes@.len() <= old(self).mem_pool.nodes@.len() + BLOCK_SIZE,
            final(self).mem_pool.nodes@.len() >= old(self).mem_pool.nodes@.len(),
    {
        match edit {
            ListEdit::Insert => {
                self.push_dependent(x, value);
                proof {
                    assert forall|w: i32| #[trigger] count_in(self.view(x as int), w) == edited_count(edit, count_in(old(self).view(x as int), w), w, value, 1) by {
                        lemma_count_prepend(old(self).view(x as int), value, w);
                    }
                    assert forall|y: int, j: int|
                        0 <= y < self.size() && 0 <= j < self.view(y).len() && old(self).lists_in_range() && 0 <= value < old(self).size()
                            implies 0 <= #[trigger] self.view(y)[j] < self.size() by {
                        if y == x {
                            if j > 0 {
                                assert(self.view(y)[j] == old(self).view(y)[j - 1]);
                            }
                        } else {
                            assert(self.view(y) == old(self).view(y));
                        }
                    }
                }
            },
            ListEdit::Erase => {
                self.erase_dependent(x, value);
            },
        }
    }

    /// Adds (`Insert`) or removes (`Erase`) `cell` in the lists of dependents
    /// of every cell that the formula `info` reads: each cell of its range, or
    /// each argument that names a cell.
    pub fn modify_graph(&mut self, cell: i32, info: &CellInfo, edit: ListEdit)
        requires
            old(self).lists_ok(),
            old(self).shape_ok(),
            targets_in_bounds(info.info, old(self).size()),
            edit == ListEdit::Insert ==> old(self).room_for(old(self).size() + 2),
        ensures
            final(self).lists_ok(),
            final(self).shape_ok(),
            final(self).same_but_lists(old(self)),
            old(self).lists_in_range() && (edit == ListEdit::Erase || 0 <= cell < old(self).size()) ==> final(self).lists_in_range(),
            edit == ListEdit::Erase ==> final(self).mem_pool.nodes@.len() == old(self).mem_pool.nodes@.len(),
            forall|x: int, w: i32| 0 <= x < old(self).size() ==> #[trigger] count_in(final(self).view(x), w) == edited_count(
                edit,
                count_in(old(self).view(x), w),
                w,
                cell,
                dep_count(info.info, x, old(self).sheet.m as int),
            ),
            forall|x: int| 0 <= x < old(self).size() ==> #[trigger] final(self).view(x) == edit_times(
                edit,
                old(self).view(x),
                cell,
                dep_count(info.info, x, old(self).sheet.m as int),
            ),
            forall|x: int| 0 <= x < old(self).size() && dep_count(info.info, x, old(self).sheet.m as int) == 0
                ==> #[trigger] final(self).adj_list@[x] == old(self).adj_list@[x],
            forall|x: int| 0 <= x < old(self).size() && dep_count(info.info, x, old(self).sheet.m as int) > 0
                ==> #[trigger] final(self).adj_list@[x].ptr == final(self).adj_list@[x].head,
            final(self).mem_pool.nodes@.len() <= old(self).mem_pool.nodes@.len() + (old(self).size() + 2) * BLOCK_SIZE,
    {
        let ghost size = self.size();
        let ghost m = self.sheet.m as int;
        let ghost start = self.mem_pool.nodes@.len();
        let _len = self.adj_list.len();
        if is_range_function(info.info.function_id) {
            let mm = self.sheet.m;
            proof {
                lemma_columns_positive(info.info.arg[0] as int, self.sheet.n as int, m);
                lemma_row_bound(info.info.arg[0] as int, self.sheet.n as int, m);
                lemma_row_bound(info.info.arg[1] as int, self.sheet.n as int, m);
            }
            let (x1, y1) = crate::sheet::get_row_and_column(info.info.arg[0] as usize, mm);
            let (x2, y2) = crate::sheet::get_row_and_column(info.info.arg[1] as usize, mm);
            let mut i = x1;
            while i <= x2
                invariant
                    self.lists_ok(),
                    self.shape_ok(),
                    self.same_but_lists(old(self)),
                    size == self.size(),
                    size <= usize::MAX,
                    m == self.sheet.m,
                    mm == m,
                    m > 0,
                    x1 == info.info.arg[0] as int / m,
                    y1 == info.info.arg[0] as int % m,
                    x2 == info.info.arg[1] as int / m,
                    y2 == info.info.arg[1] as int % m,
                    x2 < self.sheet.n,
                    y2 < m,
                    x1 <= i,
                    i <= x2 + 1 || i == x1,
                    is_range_id(info.info.function_id),
                    0 <= info.info.arg[0] < size,
                    0 <= info.info.arg[1] < size,
                    edit == ListEdit::Insert ==> old(self).room_for(size + 2),
                    old(self).lists_in_range() && (edit == ListEdit::Erase || 0 <= cell < size) ==> self.lists_in_range(),
                    edit == ListEdit::Erase ==> self.mem_pool.nodes@.len() == start,
                    forall|x: int, w: i32| 0 <= x < size ==> #[trigger] count_in(self.view(x), w) == edited_count(
                        edit,
                        count_in(old(self).view(x), w),
                        w,
                        cell,
                        if rect_done(x, m, x1 as int, y1 as int, y2 as int, i as int, 0) { 1nat } else { 0nat },
                    ),
                    forall|x: int| 0 <= x < size ==> #[trigger] self.view(x) == edit_times(
                        edit,
                        old(self).view(x),
                        cell,
                        if rect_done(x, m, x1 as int, y1 as int, y2 as int, i as int, 0) { 1nat } else { 0nat },
                    ),
                    forall|x: int| 0 <= x < size && !rect_done(x, m, x1 as int, y1 as int, y2 as int, i as int, 0)
                        ==> #[trigger] self.adj_list@[x] == old(self).adj_list@[x],
                    forall|x: int| 0 <= x < size && rect_done(x, m, x1 as int, y1 as int, y2 as int, i as int, 0)
                        ==> #[trigger] self.adj_list@[x].ptr == self.adj_list@[x].head,
                    self.mem_pool.nodes@.len() <= start + (i - x1) * (y2 + 1) * BLOCK_SIZE,
                    self.mem_pool.nodes@.len() >= start,
                    start == old(self).mem_pool.nodes@.len(),
                decreases x2 + 1 - i,
            {
                let mut j = y1;
                while j <= y2
                    invariant
                        self.lists_ok(),
                        self.shape_ok(),
                        self.same_but_lists(old(self)),
                        size == self.size(),
                        size <= usize::MAX,
                        m == self.sheet.m,
                        mm == m,
                        m > 0,
                        x1 == info.info.arg[0] as int / m,
                        y1 == info.info.arg[0] as int % m,
                        x2 == info.info.arg[1] as int / m,
                        y2 == info.info.arg[1] as int % m,
                        x2 < self.sheet.n,
                        y2 < m,
                        x1 <= i <= x2,
                        y1 <= j,
                        j <= y2 + 1 || j == y1,
                        edit == ListEdit::Insert ==> old(self).room_for(size + 2),
                        old(self).lists_in_range() && (edit == ListEdit::Erase || 0 <= cell < size) ==> self.lists_in_range(),
                        edit == ListEdit::Erase ==> self.mem_pool.nodes@.len() == start,
                    edit == ListEdit::Erase ==> self.mem_pool.nodes@.len() == start,
                        is_range_id(info.info.function_id),
                        0 <= info.info.arg[0] < size,
                        0 <= info.info.arg[1] < size,
                        forall|x: int, w: i32| 0 <= x < size ==> #[trigger] count_in(self.view(x), w) == edited_count(
                            edit,
                            count_in(old(self).view(x), w),
                            w,
                            cell,
                            if rect_done(x, m, x1 as int, y1 as int, y2 as int, i as int, j as int) { 1nat } else { 0nat },
                        ),
                        forall|x: int| 0 <= x < size ==> #[trigger] self.view(x) == edit_times(
                            edit,
                            old(self).view(x),
                            cell,
                            if rect_done(x, m, x1 as int, y1 as int, y2 as int, i as int, j as int) { 1nat } else { 0nat },
                        ),
                        forall|x: int| 0 <= x < size && !rect_done(x, m, x1 as int, y1 as int, y2 as int, i as int, j as int)
                            ==> #[trigger] self.adj_list@[x] == old(self).adj_list@[x],
                        forall|x: int| 0 <= x < size && rect_done(x, m, x1 as int, y1 as int, y2 as int, i as int, j as int)
                            ==> #[trigger] self.adj_list@[x].ptr == self.adj_list@[x].head,
                        self.mem_pool.nodes@.len() <= start + ((i - x1) * (y2 + 1) + (j - y1)) * BLOCK_SIZE,
                        self.mem_pool.nodes@.len() >= start,
                        start == old(self).mem_pool.nodes@.len(),
                    decreases y2 + 1 - j,
                {
                    proof {
                        lemma_cell_bound(i as int, j as int, self.sheet.n as int, m);
                        lemma_row_col(i as int, j as int, m);
                        lemma_pushes_bound(i as int, j as int, x1 as int, y1 as int, x2 as int, y2 as int, self.sheet.n as int, m);
                    }
                    let x = crate::sheet::get_cell(i, j, mm);
                    let ghost before = *self;
                    self.edit_dependent(x, cell, edit);
                    proof {
                        assert forall|z: int, w: i32| 0 <= z < size implies #[trigger] count_in(self.view(z), w) == edited_count(
                            edit,
                            count_in(old(self).view(z), w),
                            w,
                            cell,
                            if rect_done(z, m, x1 as int, y1 as int, y2 as int, i as int, j + 1) { 1nat } else { 0nat },
                        ) by {
                            if z == x {
                                assert(count_in(self.view(z), w) == edited_count(edit, count_in(before.view(z), w), w, cell, 1));
                            } else {
                                assert(self.view(z) == before.view(z));
                                lemma_rect_step(z, m, x1 as int, y1 as int, y2 as int, i as int, j as int);
                            }
                        }
                        assert forall|z: int|
                            #![trigger self.view(z)]
                            #![trigger self.adj_list@[z]]
                            0 <= z < size implies self.view(z) == edit_times(
                            edit,
                            old(self).view(z),
                            cell,
                            if rect_done(z, m, x1 as int, y1 as int, y2 as int, i as int, j + 1) { 1nat } else { 0nat },
                        ) && (rect_done(z, m, x1 as int, y1 as int, y2 as int, i as int, j + 1) ==> self.adj_list@[z].ptr == self.adj_list@[z].head)
                          && (!rect_done(z, m, x1 as int, y1 as int, y2 as int, i as int, j + 1) ==> self.adj_list@[z] == old(self).adj_list@[z]) by {
                            if z == x {
                                assert(!rect_done(z, m, x1 as int, y1 as int, y2 as int, i as int, j as int));
                                assert(rect_done(z, m, x1 as int, y1 as int, y2 as int, i as int, j + 1));
                                assert(before.view(z) == old(self).view(z));
                                assert(edit_times(edit, old(self).view(z), cell, 1) == edit_once(edit, edit_times(edit, old(self).view(z), cell, 0), cell));
                            } else {
                                assert(self.view(z) == before.view(z));
                                assert(self.adj_list@[z] == before.adj_list@[z]);
                                lemma_rect_step(z, m, x1 as int, y1 as int, y2 as int, i as int, j as int);
                                if rect_done(z, m, x1 as int, y1 as int, y2 as int, i as int, j as int) {
                                    assert(before.adj_list@[z].ptr == before.adj_list@[z].head);
                                } else {
                                    assert(before.adj_list@[z] == old(self).adj_list@[z]);
                                }
                            }
                        }
                    }
                    j = j + 1;
                }
                proof {
                    assert forall|z: int| 0 <= z < size implies #[trigger] rect_done(z, m, x1 as int, y1 as int, y2 as int, i as int, j as int) == rect_done(z, m, x1 as int, y1 as int, y2 as int, i + 1, 0) by {
                        vstd::arithmetic::div_mod::lemma_mod_pos_bound(z, m);
                    }
                    assert((i - x1) * (y2 + 1) + (j - y1) <= (i + 1 - x1) * (y2 + 1)) by (nonlinear_arith)
                        requires
                            0 <= j - y1 <= y2 + 1,
                            y1 >= 0,
                            i >= x1,
                    ;
                }
                i = i + 1;
            }
            proof {
                assert forall|z: int| 0 <= z < size implies (if rect_done(z, m, x1 as int, y1 as int, y2 as int, i as int, 0) { 1nat } else { 0nat }) == dep_count(info.info, z, m) by {
                    vstd::arithmetic::div_mod::lemma_mod_pos_bound(z, m);
                }
                assert((i - x1) * (y2 + 1) <= size + 2) by {
                    lemma_pushes_total(x1 as int, i as int, y2 as int, self.sheet.n as int, m);
                }
            }
        } else {
            let ghost a0 = info.info.arg[0] as int;
            let ghost a1 = info.info.arg[1] as int;
            let ghost b0 = arg_is_cell(info.info, 0);
            let ghost b1 = arg_is_cell(info.info, 1);
            if self.is_cell_arg1(info.info.arg_mask) {
                let x = info.info.arg[0] as usize;
                let ghost before = *self;
                self.edit_dependent(x, cell, edit);
                proof {
                    assert forall|z: int, w: i32| 0 <= z < size && z != x implies #[trigger] count_in(self.view(z), w) == count_in(before.view(z), w) by {
                        assert(self.view(z) == before.view(z));
                    }
                }
            }
            let ghost g1 = *self;
            proof {
                assert forall|z: int| 0 <= z < size implies #[trigger] g1.view(z) == edit_times(
                    edit,
                    old(self).view(z),
                    cell,
                    if b0 && a0 == z { 1nat } else { 0nat },
                ) && (b0 && a0 == z ==> g1.adj_list@[z].ptr == g1.adj_list@[z].head)
                  && (!(b0 && a0 == z) ==> g1.adj_list@[z] == old(self).adj_list@[z]) by {
                    if b0 && a0 == z {
                        assert(edit_times(edit, old(self).view(z), cell, 1) == edit_once(edit, edit_times(edit, old(self).view(z), cell, 0), cell));
                    }
                }
            }
            if self.is_cell_arg2(info.info.arg_mask) {
                let x = info.info.arg[1] as usize;
                let ghost before = *self;
                self.edit_dependent(x, cell, edit);
                proof {
                    assert forall|z: int, w: i32| 0 <= z < size && z != x implies #[trigger] count_in(self.view(z), w) == count_in(before.view(z), w) by {
                        assert(self.view(z) == before.view(z));
                    }
                }
            }
            proof {
                assert forall|z: int|
                    #![trigger self.view(z)]
                    #![trigger self.adj_list@[z]]
                    0 <= z < size implies self.view(z) == edit_times(
                    edit,
                    old(self).view(z),
                    cell,
                    dep_count(info.info, z, m),
                ) && (dep_count(info.info, z, m) > 0 ==> self.adj_list@[z].ptr == self.adj_list@[z].head)
                  && (dep_count(info.info, z, m) == 0 ==> self.adj_list@[z] == old(self).adj_list@[z]) by {
                    let d0: nat = if b0 && a0 == z { 1nat } else { 0nat };
                    assert(g1.view(z) == edit_times(edit, old(self).view(z), cell, d0));
                    if b1 && a1 == z {
                        assert(edit_times(edit, old(self).view(z), cell, d0 + 1) == edit_once(edit, edit_times(edit, old(self).view(z), cell, d0), cell));
                    } else {
                        assert(self.view(z) == g1.view(z));
                        assert(self.adj_list@[z] == g1.adj_list@[z]);
                    }
                }
            }
        }
    }
}

/// Every cell of the sheet holds what its formula gives on the sheet.
pub open spec fn consistent(data: Seq<CellInfo>, m: int) -> bool {
    forall|c: int| 0 <= c < data.len() ==> #[trigger] eval_cell(data[c], data, m) == data[c]
}

/// Every range formula of the sheet runs from its top left to its bottom right cell.
pub open spec fn ranges_ordered(data: Seq<CellInfo>, m: int) -> bool {
    forall|c: int| 0 <= c < data.len() ==> range_ordered(#[trigger] data[c].info, m)
}

/// The values an update leaves: with lists in step with the formulas, every
/// cell a change of `cell` reaches holds what its formula gives on the final
/// sheet, the other cells keep theirs, and a sheet that agreed with its
/// formulas still does.
proof fn lemma_update_result(g0: Graph, g1: Graph, g4: Graph, g5: Graph, fin: Graph, cell: int, nc: CellInfo)
    requires
        g0.wf(),
        g0.edges_match(g0.infos()),
        0 <= cell < g0.size(),
        targets_in_bounds(nc.info, g0.size()),
        ranges_ordered(g0.sheet.data@.update(cell, nc), g0.sheet.m as int),
        !creates_cycle(g0.list_edges(), g0.size(), g0.sheet.m as int, cell, nc.info),
        g1.search_done(g0, cell),
        g4.sheet.data@ == g1.sheet.data@.update(cell, nc),
        g4.sheet.m == g0.sheet.m,
        g4.sheet.n == g0.sheet.n,
        g4.stack@ == g1.stack@,
        g4.order_ptr == g1.order_ptr,
        g5.sheet.data@ == recompute(g4.sheet.data@, g1.stack@.subrange(g1.order_ptr as int, g0.size()), g0.sheet.m as int),
        fin.sheet.data@.len() == g0.size(),
        forall|c: int| 0 <= c < g0.size() ==> #[trigger] fin.sheet.data@[c] == (if occurs_in(g1.stack@, g1.order_ptr as int, g0.size(), c) {
            set_visit(g5.sheet.data@[c], 0)
        } else {
            g5.sheet.data@[c]
        }),
        forall|c: int| 0 <= c < g0.size() && !reaches(g0.list_edges(), g0.size(), cell, c) ==> #[trigger] fin.sheet.data@[c] == g0.sheet.data@[c],
    ensures
        ({
            let e = g0.list_edges();
            let n = g0.size();
            let m = g0.sheet.m as int;
            let target = g0.sheet.data@.update(cell, nc);
            &&& forall|c: int| 0 <= c < n && reaches(e, n, cell, c) ==> #[trigger] fin.sheet.data@[c]
                == set_visit(eval_cell(target[c], fin.sheet.data@, m), 0)
            &&& consistent(g0.sheet.data@, m) ==> consistent(fin.sheet.data@, m)
        }),
{
    let e = g0.list_edges();
    let n = g0.size();
    let rows = g0.sheet.n as int;
    let m = g0.sheet.m as int;
    let d0 = g0.sheet.data@;
    let target = d0.update(cell, nc);
    let d = g4.sheet.data@;
    let s = g1.stack@;
    let op = g1.order_ptr as int;
    let o = s.subrange(op, n);
    let r = g5.sheet.data@;
    let f = fin.sheet.data@;
    lemma_columns_positive(cell, rows, m);
    assert forall|c: int| 0 <= c < n implies #[trigger] d[c] == set_visit(target[c], d[c].info.visit) by {
        if c != cell {
            assert(g1.sheet.data@[c] == set_visit(d0[c], g1.sheet.data@[c].info.visit));
        }
    }
    assert forall|c: int| 0 <= c < n implies args_in_bounds(#[trigger] d[c].info, rows * m) && range_ordered(d[c].info, m) by {
        if c != cell {
            assert(targets_in_bounds(d0[c].info, n));
        }
        lemma_targets_args(d[c].info, n);
        assert(range_ordered(target[c].info, m));
    }
    assert forall|j: int| 0 <= j < o.len() implies 0 <= #[trigger] o[j] < d.len() by {
        assert(o[j] == s[op + j]);
    }
    assert forall|j1: int, j2: int| 0 <= j1 < j2 < o.len() implies #[trigger] o[j1] != #[trigger] o[j2] by {
        assert(o[j1] == s[op + j1] && o[j2] == s[op + j2]);
    }
    // the order puts every cell after the cells it reads
    assert forall|j1: int, j2: int|
        0 <= j1 < o.len() && 0 <= j2 < o.len() && dep_count(d[#[trigger] o[j2] as int].info, #[trigger] o[j1] as int, m) > 0 implies j1 < j2 by {
        let c1 = o[j1] as int;
        let c2 = o[j2] as int;
        assert(o[j1] == s[op + j1] && o[j2] == s[op + j2]);
        assert(g1.visit(s[op + j1] as int) == 2);
        assert(reaches(e, n, cell, c1));
        if c2 == cell {
            assert(dep_count(nc.info, c1, m) > 0);
        } else {
            assert(dep_count(d0[c2].info, c1, m) > 0);
            assert(count_in(g0.view(c1), c2 as i32) == dep_count(g0.infos()[c2], c1, m));
            assert(e(s[op + j1] as int, s[op + j2] as int));
        }
    }
    assert(d.len() == rows * m);
    // each reached cell holds its formula's value on the final sheet
    assert forall|c: int| 0 <= c < n && reaches(e, n, cell, c) implies #[trigger] f[c] == set_visit(eval_cell(target[c], f, m), 0) by {
        assert(g1.visit(c) == 2);
        assert(in_regions(s, 0, op, n, c));
        let k = choose|k: int| op <= k < n && #[trigger] s[k] == c;
        assert(o[k - op] == c);
        lemma_recompute_fixpoint(d, o, rows, m, k - op);
        lemma_recompute_keeps(d, o, m);
        assert(f[c] == set_visit(r[c], 0));
        lemma_eval_set_visit(target[c], d[c].info.visit, r, m);
        assert(agree_on_reads(target[c].info, r, f, m)) by {
            assert forall|w: int| 0 <= w < r.len() && dep_count(target[c].info, w, m) > 0 implies #[trigger] same_result(r[w], f[w]) by {}
        }
        lemma_targets_args(target[c].info, n);
        lemma_eval_frame(target[c], r, f, rows, m);
    }
    // and every cell agrees with its formula, if it did before
    if consistent(d0, m) {
        assert forall|c: int| 0 <= c < f.len() implies #[trigger] eval_cell(f[c], f, m) == f[c] by {
            if reaches(e, n, cell, c) {
                lemma_eval_set_visit(eval_cell(target[c], f, m), 0, f, m);
                lemma_eval_idempotent(target[c], f, m);
            } else {
                assert(f[c] == d0[c]);
                assert(eval_cell(d0[c], d0, m) == d0[c]);
                assert(agree_on_reads(d0[c].info, d0, f, m)) by {
                    assert forall|w: int| 0 <= w < d0.len() && dep_count(d0[c].info, w, m) > 0 implies #[trigger] same_result(d0[w], f[w]) by {
                        assert(count_in(g0.view(w), c as i32) == dep_count(g0.infos()[c], w, m));
                        if reaches(e, n, cell, w) {
                            lemma_reach_step(e, n, cell, w, c);
                        }
                    }
                }
                crate::deps::lemma_reach_refl(e, n, cell);
                assert(c != cell);
                assert(targets_in_bounds(d0[c].info, n));
                lemma_targets_args(d0[c].info, n);
                assert(range_ordered(target[c].info, m));
                lemma_eval_frame(d0[c], d0, f, rows, m);
            }
        }
    }
}

/// `order` lists, once each, exactly the cells that a change of `cell`
/// reaches along `e`, each before its dependents.
pub open spec fn reach_order(e: spec_fn(int, int) -> bool, n: int, cell: int, order: Seq<i32>) -> bool {
    &&& forall|k: int| 0 <= k < order.len() ==> 0 <= #[trigger] order[k] < n && reaches(e, n, cell, order[k] as int)
    &&& forall|c: int| 0 <= c < n && #[trigger] reaches(e, n, cell, c) ==> occurs_in(order, 0, order.len() as int, c)
    &&& forall|k1: int, k2: int| 0 <= k1 < k2 < order.len() ==> #[trigger] order[k1] != #[trigger] order[k2]
    &&& forall|k1: int, k2: int|
        0 <= k1 < order.len() && 0 <= k2 < order.len() && #[trigger] e(order[k1] as int, order[k2] as int) ==> k1 < k2
}

/// `d` holds the cells of `target`, each with some traversal mark.
pub open spec fn same_but_marks(d: Seq<CellInfo>, target: Seq<CellInfo>) -> bool {
    &&& d.len() == target.len()
    &&& forall|c: int| 0 <= c < d.len() ==> #[trigger] d[c] == set_visit(target[c], d[c].info.visit)
}

/// `total`, capped at the largest `u64`.
pub open spec fn saturated(total: int) -> int {
    if total > u64::MAX {
        u64::MAX as int
    } else {
        total
    }
}

/// What storing `nc` in `cell` of graph `g0` leaves in `g` (`ok` false:
/// refused). It is refused exactly when the new formula reads a cell that a
/// change of `cell` reaches, or such a change runs into a cycle; then nothing
/// changes. Otherwise the lists are rewired for the new formula, the cells
/// that a change of `cell` does not reach keep their contents, and, with
/// lists in step with ordered formulas, each reached cell holds what its
/// formula gives on the final sheet, so a sheet that agreed with its
/// formulas still does.
/// The seconds of sleep that the reached cells' `SLEEP` formulas ask for, in
/// the order in which they are evaluated, are added to `pending_sleep`.
pub open spec fn install_result(g0: Graph, g: Graph, cell: int, nc: CellInfo, ok: bool) -> bool {
    let e = g0.list_edges();
    let n = g0.size();
    let m = g0.sheet.m as int;
    let cyc = creates_cycle(e, n, m, cell, nc.info) || cycle_reachable(e, n, cell);
    let target = g0.sheet.data@.update(cell, nc);
    let exact = ok && g0.edges_match(g0.infos()) && ranges_ordered(target, m);
    &&& !ok <==> cyc
    &&& g.wf()
    &&& g.size() == n
    &&& g.sheet.n == g0.sheet.n
    &&& g.sheet.m == g0.sheet.m
    &&& g.sheet.px == g0.sheet.px
    &&& g.sheet.py == g0.sheet.py
    &&& cyc ==> g.sheet.data@ == g0.sheet.data@ && (forall|x: int| 0 <= x < n ==> #[trigger] g.view(x) == g0.view(x))
        && g.pending_sleep == g0.pending_sleep
    &&& !cyc ==> forall|x: int, w: i32| 0 <= x < n ==> #[trigger] count_in(g.view(x), w) == edited_count(
        ListEdit::Insert,
        edited_count(ListEdit::Erase, count_in(g0.view(x), w), w, cell as i32, dep_count(g0.sheet.data@[cell].info, x, m)) as nat,
        w,
        cell as i32,
        dep_count(nc.info, x, m),
    )
    &&& !cyc ==> same_formulas(g.sheet.data@, target)
    &&& !cyc ==> exists|order: Seq<i32>, d: Seq<CellInfo>|
        #![trigger reach_order(e, n, cell, order), same_but_marks(d, target)]
        reach_order(e, n, cell, order) && same_but_marks(d, target)
            && g.pending_sleep == saturated(g0.pending_sleep + recompute_sleep(d, order, m))
    &&& !cyc ==> forall|c: int| 0 <= c < n && !reaches(e, n, cell, c) ==> #[trigger] g.sheet.data@[c] == g0.sheet.data@[c]
    &&& exact ==> forall|c: int| 0 <= c < n && reaches(e, n, cell, c) ==> #[trigger] g.sheet.data@[c] == set_visit(eval_cell(target[c], g.sheet.data@, m), 0)
    &&& exact && consistent(g0.sheet.data@, m) ==> consistent(g.sheet.data@, m)
}

/// Two formulas with the same function and arguments read the same cells.
proof fn lemma_dep_count_formula(a: Info, b: Info, x: int, m: int)
    requires
        a.function_id == b.function_id,
        a.arg == b.arg,
        a.arg_mask == b.arg_mask,
    ensures
        dep_count(a, x, m) == dep_count(b, x, m),
        range_ordered(a, m) == range_ordered(b, m),
{
}

/// An install, refused or not, keeps the dependency lists in step with the
/// formulas, every range formula ordered (when the new one is), and a sheet
/// that agrees with its formulas agreeing with them.
pub proof fn lemma_install_keeps(g0: Graph, g: Graph, cell: int, nc: CellInfo, ok: bool)
    requires
        install_result(g0, g, cell, nc, ok),
        g0.wf(),
        0 <= cell < g0.size(),
        g0.edges_match(g0.infos()),
        ranges_ordered(g0.sheet.data@, g0.sheet.m as int),
        range_ordered(nc.info, g0.sheet.m as int),
    ensures
        g.edges_match(g.infos()),
        ranges_ordered(g.sheet.data@, g.sheet.m as int),
        consistent(g0.sheet.data@, g0.sheet.m as int) ==> consistent(g.sheet.data@, g.sheet.m as int),
        acyclic(g0.sheet.data@, g0.sheet.m as int) ==> acyclic(g.sheet.data@, g.sheet.m as int),
{
    let n = g0.size();
    let m = g0.sheet.m as int;
    let e = g0.list_edges();
    let cyc = creates_cycle(e, n, m, cell, nc.info) || cycle_reachable(e, n, cell);
    let target = g0.sheet.data@.update(cell, nc);
    if cyc {
        assert(g.infos() =~= g0.infos());
        assert forall|x: int, v: i32| 0 <= x < g.size() implies #[trigger] count_in(g.view(x), v) == (if 0 <= v < g.size() {
            dep_count(g.infos()[v as int], x, g.sheet.m as int)
        } else {
            0
        }) by {
            assert(g.view(x) == g0.view(x));
            assert(count_in(g0.view(x), v) == (if 0 <= v < g0.size() {
                dep_count(g0.infos()[v as int], x, m)
            } else {
                0
            }));
        }
    } else {
        if acyclic(g0.sheet.data@, m) {
            lemma_lists_follow_formulas(g0);
            assert(g0.sheet.data@.len() == n);
            lemma_acyclic_update(g0.sheet.data@, m, cell, nc);
            lemma_acyclic_same_formulas(g.sheet.data@, target, m);
        }
        assert(ranges_ordered(target, m)) by {
            let d0 = g0.sheet.data@;
            assert(ranges_ordered(d0, m));
            assert forall|c: int| 0 <= c < target.len() implies range_ordered(#[trigger] target[c].info, m) by {
                if c != cell {
                    assert(target[c] == d0[c]);
                    assert(range_ordered(d0[c].info, m));
                }
            }
        }
        assert forall|c: int| 0 <= c < g.sheet.data@.len() implies range_ordered(#[trigger] g.sheet.data@[c].info, m) by {
            lemma_dep_count_formula(g.sheet.data@[c].info, target[c].info, 0, m);
        }
        assert forall|x: int, v: i32| 0 <= x < g.size() implies #[trigger] count_in(g.view(x), v) == (if 0 <= v < g.size() {
            dep_count(g.infos()[v as int], x, g.sheet.m as int)
        } else {
            0
        }) by {
            let c0 = count_in(g0.view(x), v);
            assert(c0 == (if 0 <= v < g0.size() {
                dep_count(g0.infos()[v as int], x, m)
            } else {
                0
            }));
            if 0 <= v < n {
                assert(g.infos()[v as int] == g.sheet.data@[v as int].info);
                lemma_dep_count_formula(g.sheet.data@[v as int].info, target[v as int].info, x, m);
                assert(g0.infos()[v as int] == g0.sheet.data@[v as int].info);
            }
        }
    }
}

/// Two accepted installs of the same formula from the same graph agree on
/// every cell whose walks of dependencies (in the new formulas) ending there
/// are at most `k` cells long.
proof fn lemma_results_agree_upto(g0: Graph, g1: Graph, g2: Graph, cell: int, nc: CellInfo, k: nat)
    requires
        install_result(g0, g1, cell, nc, true),
        install_result(g0, g2, cell, nc, true),
        g0.wf(),
        0 <= cell < g0.size(),
        g0.edges_match(g0.infos()),
        ranges_ordered(g0.sheet.data@.update(cell, nc), g0.sheet.m as int),
    ensures
        forall|c: int|
            0 <= c < g0.size() && (forall|p: Seq<int>|
                #[trigger] is_walk(formula_edges(g1.sheet.data@, g0.sheet.m as int), g0.size(), p) && p.last() == c
                    ==> p.len() <= k) ==> #[trigger] g1.sheet.data@[c] == g2.sheet.data@[c],
    decreases k,
{
    let n = g0.size();
    let m = g0.sheet.m as int;
    let e = g0.list_edges();
    let target = g0.sheet.data@.update(cell, nc);
    let d1 = g1.sheet.data@;
    let d2 = g2.sheet.data@;
    let e1 = formula_edges(d1, m);
    if k > 0 {
        lemma_results_agree_upto(g0, g1, g2, cell, nc, (k - 1) as nat);
    }
    assert forall|c: int|
        0 <= c < n && (forall|p: Seq<int>| #[trigger] is_walk(e1, n, p) && p.last() == c ==> p.len() <= k) implies #[trigger] d1[c]
        == d2[c] by {
        if reaches(e, n, cell, c) {
            assert(is_walk(e1, n, seq![c]));
            assert(k >= 1);
            assert(d1.len() == n && d2.len() == n && target.len() == n);
            assert forall|u: int| 0 <= u < d1.len() && dep_count(target[c].info, u, m) > 0 implies #[trigger] same_result(
                d1[u],
                d2[u],
            ) by {
                lemma_dep_count_formula(d1[c].info, target[c].info, u, m);
                assert(e1(u, c));
                assert forall|p: Seq<int>| #[trigger] is_walk(e1, n, p) && p.last() == u implies p.len() <= k - 1 by {
                    let q = p.push(c);
                    assert forall|j: int| 0 <= j < q.len() - 1 implies #[trigger] e1(q[j], q[j + 1]) by {
                        if j < p.len() - 1 {
                            assert(q[j] == p[j] && q[j + 1] == p[j + 1]);
                        }
                    }
                    assert forall|j: int| 0 <= j < q.len() implies 0 <= #[trigger] q[j] < n by {
                        if j < p.len() {
                            assert(q[j] == p[j]);
                        }
                    }
                    assert(is_walk(e1, n, q));
                    assert(q.last() == c);
                }
            }
            assert(targets_in_bounds(target[c].info, n)) by {
                lemma_dep_count_formula(d1[c].info, target[c].info, 0, m);
            }
            lemma_targets_args(target[c].info, n);
            assert(range_ordered(target[c].info, m));
            lemma_eval_frame(target[c], d1, d2, g0.sheet.n as int, m);
        }
    }
}

/// The sheet that an install leaves is determined by the graph it starts
/// from, the cell and the new cell: two results that both meet
/// `install_result` agree on whether the install was accepted and on every
/// cell, as long as the formulas were acyclic.
pub proof fn lemma_install_result_unique(g0: Graph, g1: Graph, g2: Graph, cell: int, nc: CellInfo, ok1: bool, ok2: bool)
    requires
        install_result(g0, g1, cell, nc, ok1),
        install_result(g0, g2, cell, nc, ok2),
        g0.wf(),
        0 <= cell < g0.size(),
        g0.edges_match(g0.infos()),
        ranges_ordered(g0.sheet.data@, g0.sheet.m as int),
        range_ordered(nc.info, g0.sheet.m as int),
        acyclic(g0.sheet.data@, g0.sheet.m as int),
    ensures
        ok1 == ok2,
        g1.sheet.data@ == g2.sheet.data@,
{
    let n = g0.size();
    let m = g0.sheet.m as int;
    if ok1 {
        lemma_install_keeps(g0, g1, cell, nc, ok1);
        let target = g0.sheet.data@.update(cell, nc);
        assert(ranges_ordered(target, m)) by {
            assert forall|c: int| 0 <= c < target.len() implies range_ordered(#[trigger] target[c].info, m) by {
                if c != cell {
                    assert(target[c] == g0.sheet.data@[c]);
                }
            }
        }
        lemma_results_agree_upto(g0, g1, g2, cell, nc, n as nat);
        let d1 = g1.sheet.data@;
        assert forall|c: int| 0 <= c < n implies #[trigger] d1[c] == g2.sheet.data@[c] by {
            assert forall|p: Seq<int>| #[trigger] is_walk(formula_edges(d1, m), n, p) && p.last() == c implies p.len() <= n by {
                lemma_acyclic_walk_len(d1, m, p);
            }
        }
        assert(d1 =~= g2.sheet.data@);
    }
}

/// The cell that `update_expression` stores for the formula `info`: value 0,
/// not in literal mode.
pub open spec fn new_cell(info: Info) -> CellInfo {
    CellInfo { info, value: 0, literal_mode: false }
}

/// A formula that reads cells of the sheet only has its arguments in the sheet.
pub proof fn lemma_targets_args(info: Info, n: int)
    requires
        targets_in_bounds(info, n),
    ensures
        args_in_bounds(info, n),
{
}

/// Whether cell `x` of a sheet of `m` columns lies in the rectangle of rows
/// `x1..`, columns `y1..=y2`, and comes before row `i`, column `j` in row-major order.
pub open spec fn rect_done(x: int, m: int, x1: int, y1: int, y2: int, i: int, j: int) -> bool {
    &&& x >= 0
    &&& x1 <= x / m
    &&& y1 <= x % m <= y2
    &&& (x / m < i || (x / m == i && x % m < j))
}

/// The list `s` after one edit: `cell` put in front (`Insert`), or the first
/// occurrence of `cell` taken out, if there is one (`Erase`).
pub open spec fn edit_once(edit: ListEdit, s: Seq<i32>, cell: i32) -> Seq<i32> {
    if edit == ListEdit::Insert {
        seq![cell] + s
    } else if first_pos(s, cell) >= 0 {
        s.remove(first_pos(s, cell))
    } else {
        s
    }
}

/// The list `s` after `d` edits of the same kind with the same cell.
pub open spec fn edit_times(edit: ListEdit, s: Seq<i32>, cell: i32, d: nat) -> Seq<i32>
    decreases d,
{
    if d == 0 {
        s
    } else {
        edit_once(edit, edit_times(edit, s, cell, (d - 1) as nat), cell)
    }
}

/// Putting `cell` in front `d` times puts `d` copies of it before the list.
pub proof fn lemma_edit_times_insert(s: Seq<i32>, cell: i32, d: nat)
    ensures
        edit_times(ListEdit::Insert, s, cell, d) == Seq::new(d, |k: int| cell) + s,
    decreases d,
{
    if d > 0 {
        lemma_edit_times_insert(s, cell, (d - 1) as nat);
        assert(seq![cell] + (Seq::new((d - 1) as nat, |k: int| cell) + s) =~= Seq::new(d, |k: int| cell) + s);
    } else {
        assert(Seq::new(0, |k: int| cell) + s =~= s);
    }
}

/// Taking `cell` out `j` times from a list that starts with `d >= j` copies
/// of it leaves the other `d - j` copies in front of the rest.
proof fn lemma_erase_front_copies(s: Seq<i32>, cell: i32, d: nat, j: nat)
    requires
        j <= d,
    ensures
        edit_times(ListEdit::Erase, Seq::new(d, |k: int| cell) + s, cell, j) == Seq::new((d - j) as nat, |k: int| cell) + s,
    decreases j,
{
    if j > 0 {
        lemma_erase_front_copies(s, cell, d, (j - 1) as nat);
        let t = Seq::new((d - j + 1) as nat, |k: int| cell) + s;
        assert(t[0] == cell);
        assert(first_pos(t, cell) == 0);
        assert(t.remove(0) =~= Seq::new((d - j) as nat, |k: int| cell) + s);
    }
}

/// Removing a formula's cell from the lists undoes adding it: erasing `cell`
/// `d` times from a list that got `d` copies of it put in front gives back
/// the list as it was.
pub proof fn lemma_erase_undoes_insert(s: Seq<i32>, cell: i32, d: nat)
    ensures
        edit_times(ListEdit::Erase, edit_times(ListEdit::Insert, s, cell, d), cell, d) == s,
{
    lemma_edit_times_insert(s, cell, d);
    lemma_erase_front_copies(s, cell, d, d);
    assert(Seq::new(0, |k: int| cell) + s =~= s);
}

/// The number of times `w` occurs in list `x` after an edit that adds (or
/// removes) `cell` `d` times, starting from `c` occurrences.
pub open spec fn edited_count(edit: ListEdit, c: nat, w: i32, cell: i32, d: nat) -> int {
    if w != cell {
        c as int
    } else if edit == ListEdit::Insert {
        (c + d) as int
    } else if c >= d {
        c - d
    } else {
        0
    }
}

/// The cell with row `i` and column `j < m` has row `i` and column `j`.
pub proof fn lemma_row_col(i: int, j: int, m: int)
    requires
        0 <= i,
        0 <= j < m,
    ensures
        (i * m + j) / m == i,
        (i * m + j) % m == j,
        i * m + j >= 0,
{
    assert(i * m + j >= 0) by (nonlinear_arith)
        requires
            0 <= i,
            0 <= j < m,
    ;
    vstd::arithmetic::div_mod::lemma_fundamental_div_mod_converse(i * m + j, m, i, j);
}

/// Passing row `i`, column `j` in row-major order adds only that cell to
/// the cells met.
pub proof fn lemma_rect_step(z: int, m: int, x1: int, y1: int, y2: int, i: int, j: int)
    requires
        z >= 0,
        m > 0,
        0 <= i,
        0 <= j < m,
        z != i * m + j,
    ensures
        rect_done(z, m, x1, y1, y2, i, j + 1) == rect_done(z, m, x1, y1, y2, i, j),
{
    if z / m == i && z % m == j {
        vstd::arithmetic::div_mod::lemma_fundamental_div_mod(z, m);
        assert(m * i == i * m) by (nonlinear_arith);
    }
}

/// The cells of a rectangle met before row `i`, column `j` number fewer than
/// the cells of the sheet, and one more step stays within the rows met so far.
pub proof fn lemma_pushes_bound(i: int, j: int, x1: int, y1: int, x2: int, y2: int, n: int, m: int)
    requires
        0 <= x1 <= i <= x2 < n,
        0 <= y1 <= j <= y2 < m,
    ensures
        (i - x1) * (y2 + 1) + (j - y1) + 1 <= n * m,
        (i - x1) * (y2 + 1) + (j - y1) + 1 <= (i - x1) * (y2 + 1) + (j + 1 - y1),
{
    assert((i - x1) * (y2 + 1) + (j - y1) + 1 <= n * m) by (nonlinear_arith)
        requires
            0 <= x1 <= i <= x2 < n,
            0 <= y1 <= j <= y2 < m,
    ;
}

/// The rows of a rectangle met so far hold no more cells than the sheet.
pub proof fn lemma_pushes_total(x1: int, i: int, y2: int, n: int, m: int)
    requires
        0 <= x1 <= i <= n,
        0 <= y2 < m,
    ensures
        (i - x1) * (y2 + 1) <= n * m,
{
    assert((i - x1) * (y2 + 1) <= n * m) by (nonlinear_arith)
        requires
            0 <= x1 <= i <= n,
            0 <= y2 < m,
    ;
}

/// For cells and corners of the sheet, the test made by `in_dependency` for a
/// range is membership in the range's rectangle.
pub proof fn lemma_rect_test(x: int, a0: int, a1: int, m: int)
    requires
        x >= 0,
        a0 >= 0,
        a1 >= 0,
        m > 0,
    ensures
        (a0 <= x <= a1 && a0 % m <= x % m <= a1 % m) == (a0 / m <= x / m <= a1 / m && a0 % m <= x % m <= a1 % m),
{
    vstd::arithmetic::div_mod::lemma_fundamental_div_mod(x, m);
    vstd::arithmetic::div_mod::lemma_fundamental_div_mod(a0, m);
    vstd::arithmetic::div_mod::lemma_fundamental_div_mod(a1, m);
    vstd::arithmetic::div_mod::lemma_mod_pos_bound(x, m);
    vstd::arithmetic::div_mod::lemma_mod_pos_bound(a0, m);
    vstd::arithmetic::div_mod::lemma_mod_pos_bound(a1, m);
    let (r, c) = (x / m, x % m);
    let (r0, c0) = (a0 / m, a0 % m);
    let (r1, c1) = (a1 / m, a1 % m);
    if c0 <= c <= c1 {
        assert((a0 <= x) == (r0 <= r)) by (nonlinear_arith)
            requires
                x == m * r + c,
                a0 == m * r0 + c0,
                c0 <= c < m,
                0 <= c0,
                m > 0,
        ;
        assert((x <= a1) == (r <= r1)) by (nonlinear_arith)
            requires
                x == m * r + c,
                a1 == m * r1 + c1,
                c <= c1 < m,
                0 <= c,
                m > 0,
        ;
    }
}

/// A value that never occurs is not counted.
pub proof fn lemma_count_none(s: Seq<i32>, v: i32)
    requires
        forall|j: int| 0 <= j < s.len() ==> s[j] != v,
    ensures
        count_in(s, v) == 0,
    decreases s.len(),
{
    if s.len() > 0 {
        lemma_count_none(s.drop_last(), v);
    }
}


/// Gives `cell` of the graph's sheet the formula `info`; see
/// [`Graph::update_expression`].
pub fn update_expression(graph: &mut Graph, cell: usize, info: &Info) -> (r: Result<(), StatusCode>)
    requires
        old(graph).wf(),
        cell < old(graph).size(),
        targets_in_bounds(*info, old(graph).size()),
        old(graph).room_for(old(graph).size() + 2),
    ensures
        install_result(*old(graph), *final(graph), cell as int, new_cell(*info), r is Ok),
        r matches Err(code) ==> code == StatusCode::CyclicDep,
{
    graph.update_expression(cell, info)
}

/// When the lists are in step with the formulas, the dependencies the lists
/// record are exactly those the formulas give: an update is refused exactly
/// when the new formula reads a cell that a change of the updated cell
/// reaches through the formulas, or such a change runs into a cycle.
pub proof fn lemma_lists_follow_formulas(g: Graph)
    requires
        g.shape_ok(),
        g.edges_match(g.infos()),
    ensures
        g.list_edges() == formula_edges(g.sheet.data@, g.sheet.m as int),
{
    let fe = formula_edges(g.sheet.data@, g.sheet.m as int);
    assert forall|u: int, v: int| #[trigger] g.list_edges()(u, v) == fe(u, v) by {
        if 0 <= u < g.size() && 0 <= v < g.size() {
            assert(count_in(g.view(u), v as i32) == dep_count(g.infos()[v], u, g.sheet.m as int));
        }
    }
    assert(g.list_edges() =~= fe);
}

} // verus!
