//! The state of the depth-first search that `Graph::iterative_dfs` runs from
//! an updated cell: what holds of the marks, the stack, the finishing order
//! and the list cursors at every step, and why its answer is right.
use vstd::prelude::*;
use crate::chains::{count_in, lemma_count_occurs, lemma_count_pos, lemma_count_remove};
use crate::deps::{
    reaches_read, cycle_reachable, is_walk, lemma_reach_closed, lemma_reach_refl, lemma_reach_step,
    lemma_walk_closed, lemma_walk_rank, reaches,
};
use crate::graph::{AdjList, Graph, reads_cell};
use crate::list::is_chain;
use crate::info::{CellInfo, Info};

verus! {

/// The cell with its traversal mark set to `v`.
pub open spec fn set_visit(c: CellInfo, v: u8) -> CellInfo {
    CellInfo { info: Info { visit: v, ..c.info }, ..c }
}

/// The node at position `k` of the list `s`, or none past its end.
pub open spec fn ptr_at(s: Seq<usize>, k: int) -> Option<usize> {
    if 0 <= k < s.len() {
        Some(s[k])
    } else {
        None
    }
}

/// The traversal marks of the cells, as integers.
pub open spec fn visit_seq(data: Seq<CellInfo>) -> Seq<i32> {
    Seq::new(data.len(), |c: int| data[c].info.visit as i32)
}

/// Cell `c` occurs in `stack[lo..hi]`.
pub open spec fn occurs_in(stack: Seq<i32>, lo: int, hi: int, c: int) -> bool {
    exists|k: int| lo <= k < hi && #[trigger] stack[k] == c
}

/// Cell `c` sits on the stack (`stack[..sp]`) or in the finishing order (`stack[op..n]`).
pub open spec fn in_regions(stack: Seq<i32>, sp: int, op: int, n: int, c: int) -> bool {
    occurs_in(stack, 0, sp, c) || occurs_in(stack, op, n, c)
}

impl Graph {
    /// The mark of cell `c`.
    pub open spec fn visit(&self, c: int) -> u8 {
        self.sheet.data@[c].info.visit
    }

    /// The graph `g0` is ready for a search: consistent lists, fresh marks and
    /// cursors, empty stack and order.
    pub open spec fn search_ready(&self) -> bool {
        &&& self.lists_ok()
        &&& self.shape_ok()
        &&& self.lists_in_range()
        &&& self.ptrs_at_head()
        &&& self.stack_ptr == 0
        &&& self.order_ptr == self.size()
        &&& forall|c: int| 0 <= c < self.size() ==> #[trigger] self.visit(c) == 0
    }

    /// `self` differs from `g0` only in marks, cursors, stack and its two pointers.
    pub open spec fn search_frame(&self, g0: Graph) -> bool {
        &&& self.mem_pool == g0.mem_pool
        &&& self.chains == g0.chains
        &&& self.free_chain == g0.free_chain
        &&& self.owner == g0.owner
        &&& self.pending_sleep == g0.pending_sleep
        &&& self.adj_list@.len() == g0.adj_list@.len()
        &&& forall|x: int| 0 <= x < g0.size() ==> (#[trigger] self.adj_list@[x]).head == g0.adj_list@[x].head
        &&& self.sheet.n == g0.sheet.n
        &&& self.sheet.m == g0.sheet.m
        &&& self.sheet.px == g0.sheet.px
        &&& self.sheet.py == g0.sheet.py
        &&& self.sheet.data@.len() == g0.sheet.data@.len()
        &&& forall|c: int|
            0 <= c < g0.size() ==> #[trigger] self.sheet.data@[c] == set_visit(g0.sheet.data@[c], self.sheet.data@[c].info.visit)
        &&& self.stack@.len() == g0.size()
    }

    /// What `reset` needs: the marked cells all sit on the stack or in the
    /// order, and only their cursors have moved.
    pub open spec fn search_left(&self, g0: Graph) -> bool {
        &&& self.search_frame(g0)
        &&& self.stack_ptr <= self.order_ptr <= g0.size()
        &&& forall|k: int| 0 <= k < self.stack_ptr ==> 0 <= #[trigger] self.stack@[k] < g0.size()
        &&& forall|k: int| self.order_ptr <= k < g0.size() ==> 0 <= #[trigger] self.stack@[k] < g0.size()
        &&& forall|c: int|
            0 <= c < g0.size() && #[trigger] self.visit(c) != 0 ==> in_regions(
                self.stack@,
                self.stack_ptr as int,
                self.order_ptr as int,
                g0.size(),
                c,
            )
        &&& forall|c: int|
            0 <= c < g0.size() && self.visit(c) == 0 ==> (#[trigger] self.adj_list@[c]).ptr == self.adj_list@[c].head
    }

    /// The invariant of the search from `cell` for the formula `f`, started on
    /// `g0`. `pos` is the cursor position of each list, `spos` the stack
    /// position of each cell on the stack, `opos` the order position of each
    /// finished cell.
    pub open spec fn search_inv(&self, g0: Graph, cell: int, f: Info, pos: Seq<int>, spos: Seq<int>, opos: Seq<int>) -> bool {
        let n = g0.size();
        let e = g0.list_edges();
        let m = g0.sheet.m as int;
        let sp = self.stack_ptr as int;
        let op = self.order_ptr as int;
        let s = self.stack@;
        &&& g0.lists_ok()
        &&& g0.shape_ok()
        &&& g0.lists_in_range()
        &&& self.search_frame(g0)
        &&& 0 <= cell < n
        &&& sp <= op <= n
        &&& forall|c: int| 0 <= c < n ==> #[trigger] self.visit(c) <= 2
        &&& count_in(visit_seq(self.sheet.data@), 0) == op - sp
        &&& self.visit(cell) != 0
        &&& sp > 0 ==> s[0] == cell
        &&& pos.len() == n
        &&& spos.len() == n
        &&& opos.len() == n
        &&& forall|k: int| 0 <= k < sp ==> 0 <= #[trigger] s[k] < n && self.visit(s[k] as int) == 1 && spos[s[k] as int] == k
        &&& forall|k: int| 0 < k < sp ==> e(s[k - 1] as int, #[trigger] s[k] as int)
        &&& forall|c: int| 0 <= c < n && #[trigger] self.visit(c) == 1 ==> 0 <= spos[c] < sp && s[spos[c]] == c
        &&& forall|k: int| op <= k < n ==> 0 <= #[trigger] s[k] < n && self.visit(s[k] as int) == 2 && opos[s[k] as int] == k
        &&& forall|c: int| 0 <= c < n && #[trigger] self.visit(c) == 2 ==> op <= opos[c] < n && s[opos[c]] == c
        &&& forall|c: int|
            0 <= c < n ==> 0 <= #[trigger] pos[c] <= g0.chains@[c].len() && self.adj_list@[c].ptr == ptr_at(g0.chains@[c], pos[c])
        &&& forall|c: int| 0 <= c < n && #[trigger] self.visit(c) == 0 ==> pos[c] == 0
        &&& forall|k: int, j: int|
            0 <= k < sp && 0 <= j < pos[s[k] as int] ==> self.visit(#[trigger] g0.view(s[k] as int)[j] as int) == 2
                || (k + 1 < sp && j == pos[s[k] as int] - 1 && g0.view(s[k] as int)[j] == s[k + 1])
        &&& forall|u: int, v: int|
            0 <= u < n && self.visit(u) == 2 && #[trigger] e(u, v) ==> self.visit(v) == 2 && opos[u] < opos[v]
        &&& forall|c: int| 0 <= c < n && #[trigger] self.visit(c) == 2 ==> !reads_cell(f, c, m)
        &&& forall|k: int| 0 <= k < sp - 1 ==> !reads_cell(f, #[trigger] s[k] as int, m)
        &&& forall|c: int| 0 <= c < n && #[trigger] self.visit(c) != 0 ==> reaches(e, n, cell, c)
    }
}

/// Changing one element changes the count of each value accordingly.
pub proof fn lemma_count_update(s: Seq<i32>, i: int, x: i32, w: i32)
    requires
        0 <= i < s.len(),
    ensures
        count_in(s.update(i, x), w) + (if s[i] == w { 1nat } else { 0nat }) == count_in(s, w) + (if x == w { 1nat } else { 0nat }),
{
    lemma_count_remove(s, i, w);
    lemma_count_remove(s.update(i, x), i, w);
    assert(s.update(i, x).remove(i) =~= s.remove(i));
}

/// A cell of the list of `u` depends on `u`, and the other way round.
pub proof fn lemma_list_reads(g0: Graph, u: int, v: i32)
    requires
        g0.lists_in_range(),
        g0.shape_ok(),
        0 <= u < g0.size(),
    ensures
        (count_in(g0.view(u), v) > 0) == g0.list_edges()(u, v as int),
{
    if count_in(g0.view(u), v) > 0 {
        lemma_count_occurs(g0.view(u), v);
    }
}

/// Every entry of every list is a cell of the sheet that depends on the list's cell.
pub proof fn lemma_views_in_range(g0: Graph)
    requires
        g0.lists_in_range(),
        g0.shape_ok(),
    ensures
        forall|x: int, j: int|
            0 <= x < g0.size() && 0 <= j < g0.view(x).len() ==> 0 <= #[trigger] g0.view(x)[j] < g0.size()
                && g0.list_edges()(x, g0.view(x)[j] as int),
{
    assert forall|x: int, j: int| 0 <= x < g0.size() && 0 <= j < g0.view(x).len() implies 0 <= #[trigger] g0.view(x)[j] < g0.size()
        && g0.list_edges()(x, g0.view(x)[j] as int) by {
        lemma_count_pos(g0.view(x), j);
        lemma_list_reads(g0, x, g0.view(x)[j]);
    }
}

/// The cells `s[a..=b]` of the stack form a walk.
pub proof fn lemma_stack_walk(g: Graph, g0: Graph, cell: int, f: Info, pos: Seq<int>, spos: Seq<int>, opos: Seq<int>, a: int, b: int)
    requires
        g.search_inv(g0, cell, f, pos, spos, opos),
        0 <= a <= b < g.stack_ptr,
    ensures
        is_walk(g0.list_edges(), g0.size(), g.stack@.subrange(a, b + 1).map_values(|x: i32| x as int)),
        g.stack@.subrange(a, b + 1).map_values(|x: i32| x as int).len() == b + 1 - a,
{
    let p = g.stack@.subrange(a, b + 1).map_values(|x: i32| x as int);
    let n = g0.size();
    let e = g0.list_edges();
    assert forall|k: int| 0 <= k < p.len() implies 0 <= #[trigger] p[k] < n by {
        assert(p[k] == g.stack@[a + k] as int);
        assert(0 <= g.stack@[a + k] < g0.size());
    }
    assert forall|k: int| 0 <= k < p.len() - 1 implies #[trigger] e(p[k], p[k + 1]) by {
        assert(p[k + 1] == g.stack@[a + k + 1] as int);
        assert(p[k] == g.stack@[a + k] as int);
        assert(e(g.stack@[(a + k + 1) - 1] as int, g.stack@[a + k + 1] as int));
    }
}


/// `g1` is `g` with the entry of list `u` replaced by `a`.
pub open spec fn adj_updated(g1: Graph, g: Graph, u: int, a: AdjList) -> bool {
    &&& g1.adj_list@ == g.adj_list@.update(u, a)
    &&& g1.sheet == g.sheet
    &&& g1.stack == g.stack
    &&& g1.stack_ptr == g.stack_ptr
    &&& g1.order_ptr == g.order_ptr
    &&& g1.mem_pool == g.mem_pool
    &&& g1.chains == g.chains
    &&& g1.free_chain == g.free_chain
    &&& g1.owner == g.owner
    &&& g1.pending_sleep == g.pending_sleep
}

/// `g1` is `g` with cell `c` marked `mark`, `x` written at `stack[at]`, and
/// the two pointers set to `sp` and `op`.
pub open spec fn marked(g1: Graph, g: Graph, c: int, mark: u8, at: int, x: i32, sp: int, op: int) -> bool {
    &&& g1.adj_list == g.adj_list
    &&& g1.sheet.data@ == g.sheet.data@.update(c, set_visit(g.sheet.data@[c], mark))
    &&& g1.sheet.n == g.sheet.n
    &&& g1.sheet.m == g.sheet.m
    &&& g1.sheet.px == g.sheet.px
    &&& g1.sheet.py == g.sheet.py
    &&& g1.stack@ == g.stack@.update(at, x)
    &&& g1.stack_ptr == sp
    &&& g1.order_ptr == op
    &&& g1.mem_pool == g.mem_pool
    &&& g1.chains == g.chains
    &&& g1.free_chain == g.free_chain
    &&& g1.owner == g.owner
    &&& g1.pending_sleep == g.pending_sleep
}

/// Marking a cell changes one entry of the marks.
pub proof fn lemma_visit_seq_update(data: Seq<CellInfo>, c: int, mark: u8)
    requires
        0 <= c < data.len(),
    ensures
        visit_seq(data.update(c, set_visit(data[c], mark))) == visit_seq(data).update(c, mark as i32),
{
    assert(visit_seq(data.update(c, set_visit(data[c], mark))) =~= visit_seq(data).update(c, mark as i32));
}

/// The search starts with `cell` alone on the stack.
#[verifier::spinoff_prover]
#[verifier::rlimit(50)]
pub proof fn lemma_search_start(g1: Graph, g0: Graph, cell: int, f: Info)
    requires
        g0.search_ready(),
        0 <= cell < g0.size(),
        marked(g1, g0, cell, 1, 0, cell as i32, 1, g0.size()),
    ensures
        g1.search_inv(
            g0,
            cell,
            f,
            Seq::new(g0.size() as nat, |c: int| 0int),
            Seq::new(g0.size() as nat, |c: int| 0int),
            Seq::new(g0.size() as nat, |c: int| 0int),
        ),
{
    let n = g0.size();
    let d0 = g0.sheet.data@;
    let e = g0.list_edges();
    let pos = Seq::new(n as nat, |c: int| 0int);
    assert(g1.visit(cell) == 1);
    assert forall|c: int| 0 <= c < n implies #[trigger] g1.visit(c) <= 2 && (c != cell ==> g1.visit(c) == 0) by {
        assert(g0.visit(c) == 0);
    }
    lemma_visit_seq_update(d0, cell, 1);
    assert(visit_seq(d0) =~= Seq::new(n as nat, |c: int| 0i32)) by {
        assert forall|c: int| 0 <= c < n implies visit_seq(d0)[c] == 0i32 by {
            assert(g0.visit(c) == 0);
        }
    }
    lemma_count_update(visit_seq(d0), cell, 1, 0);
    lemma_count_all(n, 0);
    assert forall|c: int| 0 <= c < n implies 0 <= #[trigger] pos[c] <= g0.chains@[c].len() && g1.adj_list@[c].ptr == ptr_at(g0.chains@[c], pos[c]) by {
        assert(g0.adj_list@[c].ptr == g0.adj_list@[c].head);
        assert(is_chain(g0.mem_pool.nodes@, g0.heads()[c], g0.chains@[c]));
    }
    assert forall|c: int| 0 <= c < n && #[trigger] g1.visit(c) != 0 implies reaches(e, n, cell, c) by {
        lemma_reach_refl(e, n, cell);
    }
    assert forall|x: int| 0 <= x < g0.size() implies (#[trigger] g1.adj_list@[x]).head == g0.adj_list@[x].head by {}
    assert forall|c: int| 0 <= c < g0.size() implies #[trigger] g1.sheet.data@[c] == set_visit(g0.sheet.data@[c], g1.sheet.data@[c].info.visit) by {}
}

/// A sequence of zeros of length `n` counts `n` zeros.
pub proof fn lemma_count_all(n: int, w: i32)
    requires
        n >= 0,
    ensures
        count_in(Seq::new(n as nat, |c: int| w), w) == n,
    decreases n,
{
    if n > 0 {
        assert(Seq::new(n as nat, |c: int| w).drop_last() =~= Seq::new((n - 1) as nat, |c: int| w));
        lemma_count_all(n - 1, w);
    }
}

/// The cursor of the list of the top cell passes a cell already finished.
#[verifier::spinoff_prover]
#[verifier::rlimit(50)]
pub proof fn lemma_search_skip(g1: Graph, g: Graph, g0: Graph, cell: int, f: Info, pos: Seq<int>, spos: Seq<int>, opos: Seq<int>, u: int)
    requires
        g.search_inv(g0, cell, f, pos, spos, opos),
        g.stack_ptr > 0,
        u == g.stack@[g.stack_ptr - 1],
        pos[u] < g0.chains@[u].len(),
        g.visit(g0.view(u)[pos[u]] as int) == 2,
        adj_updated(g1, g, u, AdjList { head: g.adj_list@[u].head, ptr: ptr_at(g0.chains@[u], pos[u] + 1) }),
    ensures
        g1.search_inv(g0, cell, f, pos.update(u, pos[u] + 1), spos, opos),
{
    let n = g0.size();
    let sp = g.stack_ptr as int;
    let pos1 = pos.update(u, pos[u] + 1);
    let s = g.stack@;
    assert(0 <= u < n);
    assert(g.visit(u) == 1);
    assert forall|c: int| #[trigger] g1.visit(c) == g.visit(c) by {}
    assert forall|c: int| 0 <= c < n implies #[trigger] g1.visit(c) <= 2 by {
        assert(g.visit(c) <= 2);
    }
    assert forall|c: int| 0 <= c < n && #[trigger] g1.visit(c) == 1 implies 0 <= spos[c] < sp && s[spos[c]] == c by {
        assert(g.visit(c) == 1);
    }
    assert forall|x: int| 0 <= x < g0.size() implies (#[trigger] g1.adj_list@[x]).head == g0.adj_list@[x].head by {
        assert(g.adj_list@[x].head == g0.adj_list@[x].head);
    }
    assert forall|c: int| 0 <= c < n implies 0 <= #[trigger] pos1[c] <= g0.chains@[c].len() && g1.adj_list@[c].ptr == ptr_at(g0.chains@[c], pos1[c]) by {
        assert(0 <= pos[c] <= g0.chains@[c].len());
    }
    assert forall|c: int| 0 <= c < n && #[trigger] g1.visit(c) == 0 implies pos1[c] == 0 by {
        assert(g.visit(c) == 0 ==> pos[c] == 0);
    }
    assert forall|k: int, j: int|
        0 <= k < sp && 0 <= j < pos1[s[k] as int] implies g1.visit(#[trigger] g0.view(s[k] as int)[j] as int) == 2
            || (k + 1 < sp && j == pos1[s[k] as int] - 1 && g0.view(s[k] as int)[j] == s[k + 1]) by {
        if s[k] as int == u {
            assert(spos[s[k] as int] == k);
            assert(spos[u] == sp - 1);
            if j < pos[u] {
                assert(g.visit(g0.view(s[k] as int)[j] as int) == 2 || (k + 1 < sp && j == pos[s[k] as int] - 1 && g0.view(s[k] as int)[j] == s[k + 1]));
            }
        } else {
            assert(pos1[s[k] as int] == pos[s[k] as int]);
        }
    }
}


/// A dependent of the top cell met for the first time goes on the stack.
#[verifier::spinoff_prover]
#[verifier::rlimit(50)]
pub proof fn lemma_search_push(
    g2: Graph,
    g1: Graph,
    g: Graph,
    g0: Graph,
    cell: int,
    f: Info,
    pos: Seq<int>,
    spos: Seq<int>,
    opos: Seq<int>,
    u: int,
    v: int,
)
    requires
        g.search_inv(g0, cell, f, pos, spos, opos),
        g.stack_ptr > 0,
        u == g.stack@[g.stack_ptr - 1],
        !reads_cell(f, u, g0.sheet.m as int),
        pos[u] < g0.chains@[u].len(),
        v == g0.view(u)[pos[u]] as int,
        0 <= v < g0.size(),
        g.visit(v) == 0,
        adj_updated(g1, g, u, AdjList { head: g.adj_list@[u].head, ptr: ptr_at(g0.chains@[u], pos[u] + 1) }),
        marked(g2, g1, v, 1, g.stack_ptr as int, v as i32, g.stack_ptr + 1, g.order_ptr as int),
    ensures
        g.stack_ptr < g.order_ptr,
        g2.search_inv(g0, cell, f, pos.update(u, pos[u] + 1), spos.update(v, g.stack_ptr as int), opos),
{
    let n = g0.size();
    let e = g0.list_edges();
    let m = g0.sheet.m as int;
    let sp = g.stack_ptr as int;
    let op = g.order_ptr as int;
    let pos1 = pos.update(u, pos[u] + 1);
    let spos1 = spos.update(v, sp);
    let s = g.stack@;
    let s2 = g2.stack@;
    assert(0 <= u < n);
    assert(g.visit(u) == 1);
    assert(spos[u] == sp - 1);
    // room on the stack: `v` is one of the unmarked cells
    assert(visit_seq(g.sheet.data@)[v] == 0);
    lemma_count_pos(visit_seq(g.sheet.data@), v);
    assert(sp < op);
    lemma_visit_seq_update(g.sheet.data@, v, 1);
    lemma_count_update(visit_seq(g.sheet.data@), v, 1, 0);
    assert(g2.sheet.data@ == g.sheet.data@.update(v, set_visit(g.sheet.data@[v], 1)));
    assert forall|c: int| 0 <= c < n implies #[trigger] g2.visit(c) == (if c == v { 1u8 } else { g.visit(c) }) by {}
    // `v` depends on `u`
    lemma_count_pos(g0.view(u), pos[u]);
    lemma_list_reads(g0, u, g0.view(u)[pos[u]]);
    assert(e(u, v));
    lemma_reach_step(e, n, cell, u, v);
    assert forall|x: int| 0 <= x < g0.size() implies (#[trigger] g2.adj_list@[x]).head == g0.adj_list@[x].head by {
        assert(g.adj_list@[x].head == g0.adj_list@[x].head);
    }
    assert forall|c: int| 0 <= c < g0.size() implies #[trigger] g2.sheet.data@[c] == set_visit(g0.sheet.data@[c], g2.sheet.data@[c].info.visit) by {
        assert(g.sheet.data@[c] == set_visit(g0.sheet.data@[c], g.sheet.data@[c].info.visit));
    }
    assert forall|c: int| 0 <= c < n implies #[trigger] g2.visit(c) <= 2 by {
        assert(g.visit(c) <= 2);
    }
    assert forall|k: int| 0 <= k < sp + 1 implies 0 <= #[trigger] s2[k] < n && g2.visit(s2[k] as int) == 1 && spos1[s2[k] as int] == k by {
        if k < sp {
            assert(s2[k] == s[k]);
            assert(0 <= s[k] < n && g.visit(s[k] as int) == 1 && spos[s[k] as int] == k);
        }
    }
    assert forall|k: int| 0 < k < sp + 1 implies e(s2[k - 1] as int, #[trigger] s2[k] as int) by {
        if k < sp {
            assert(e(s[k - 1] as int, s[k] as int));
        }
    }
    assert forall|c: int| 0 <= c < n && #[trigger] g2.visit(c) == 1 implies 0 <= spos1[c] < sp + 1 && s2[spos1[c]] == c by {
        if c != v {
            assert(g.visit(c) == 1);
        }
    }
    assert forall|k: int| op <= k < n implies 0 <= #[trigger] s2[k] < n && g2.visit(s2[k] as int) == 2 && opos[s2[k] as int] == k by {
        assert(s2[k] == s[k]);
        assert(0 <= s[k] < n && g.visit(s[k] as int) == 2 && opos[s[k] as int] == k);
    }
    assert forall|c: int| 0 <= c < n && #[trigger] g2.visit(c) == 2 implies op <= opos[c] < n && s2[opos[c]] == c by {
        assert(g.visit(c) == 2);
    }
    assert forall|c: int| 0 <= c < n implies 0 <= #[trigger] pos1[c] <= g0.chains@[c].len() && g2.adj_list@[c].ptr == ptr_at(g0.chains@[c], pos1[c]) by {
        assert(0 <= pos[c] <= g0.chains@[c].len());
    }
    assert forall|c: int| 0 <= c < n && #[trigger] g2.visit(c) == 0 implies pos1[c] == 0 by {
        assert(g.visit(c) == 0);
    }
    lemma_views_in_range(g0);
    assert forall|k: int, j: int|
        0 <= k < sp + 1 && 0 <= j < pos1[s2[k] as int] implies g2.visit(#[trigger] g0.view(s2[k] as int)[j] as int) == 2
            || (k + 1 < sp + 1 && j == pos1[s2[k] as int] - 1 && g0.view(s2[k] as int)[j] == s2[k + 1]) by {
        if k == sp {
            assert(pos[v] == 0);
        } else {
            assert(s2[k] == s[k]);
            if s[k] as int == u {
                assert(k == sp - 1);
                if j < pos[u] {
                    assert(g.visit(g0.view(s[k] as int)[j] as int) == 2);
                }
            } else {
                assert(pos1[s[k] as int] == pos[s[k] as int]);
                assert(g.visit(g0.view(s[k] as int)[j] as int) == 2
                    || (k + 1 < sp && j == pos[s[k] as int] - 1 && g0.view(s[k] as int)[j] == s[k + 1]));
            }
        }
    }
    assert forall|a: int, b: int|
        0 <= a < n && g2.visit(a) == 2 && #[trigger] e(a, b) implies g2.visit(b) == 2 && opos[a] < opos[b] by {
        assert(g.visit(a) == 2);
    }
    assert forall|c: int| 0 <= c < n && #[trigger] g2.visit(c) == 2 implies !reads_cell(f, c, m) by {
        assert(g.visit(c) == 2);
    }
    assert forall|k: int| 0 <= k < sp implies !reads_cell(f, #[trigger] s2[k] as int, m) by {
        assert(s2[k] == s[k]);
    }
    assert forall|c: int| 0 <= c < n && #[trigger] g2.visit(c) != 0 implies reaches(e, n, cell, c) by {
        if c != v {
            assert(g.visit(c) != 0);
        }
    }
}


/// A top cell whose list is exhausted leaves the stack and joins the order.
#[verifier::spinoff_prover]
#[verifier::rlimit(50)]
pub proof fn lemma_search_finish(
    g1: Graph,
    g: Graph,
    g0: Graph,
    cell: int,
    f: Info,
    pos: Seq<int>,
    spos: Seq<int>,
    opos: Seq<int>,
    u: int,
)
    requires
        g.search_inv(g0, cell, f, pos, spos, opos),
        g.stack_ptr > 0,
        u == g.stack@[g.stack_ptr - 1],
        !reads_cell(f, u, g0.sheet.m as int),
        pos[u] == g0.chains@[u].len(),
        marked(g1, g, u, 2, g.order_ptr - 1, u as i32, g.stack_ptr - 1, g.order_ptr - 1),
    ensures
        g1.search_inv(g0, cell, f, pos, spos, opos.update(u, g.order_ptr - 1)),
{
    let n = g0.size();
    let e = g0.list_edges();
    let m = g0.sheet.m as int;
    let sp = g.stack_ptr as int;
    let op = g.order_ptr as int;
    let opos1 = opos.update(u, op - 1);
    let s = g.stack@;
    let s1 = g1.stack@;
    assert(0 <= u < n);
    assert(g.visit(u) == 1);
    assert(spos[u] == sp - 1);
    lemma_views_in_range(g0);
    lemma_visit_seq_update(g.sheet.data@, u, 2);
    lemma_count_update(visit_seq(g.sheet.data@), u, 2, 0);
    assert forall|c: int| 0 <= c < n implies #[trigger] g1.visit(c) == (if c == u { 2u8 } else { g.visit(c) }) by {}
    assert forall|x: int| 0 <= x < g0.size() implies (#[trigger] g1.adj_list@[x]).head == g0.adj_list@[x].head by {
        assert(g.adj_list@[x].head == g0.adj_list@[x].head);
    }
    assert forall|c: int| 0 <= c < g0.size() implies #[trigger] g1.sheet.data@[c] == set_visit(g0.sheet.data@[c], g1.sheet.data@[c].info.visit) by {
        assert(g.sheet.data@[c] == set_visit(g0.sheet.data@[c], g.sheet.data@[c].info.visit));
    }
    assert forall|c: int| 0 <= c < n implies #[trigger] g1.visit(c) <= 2 by {
        assert(g.visit(c) <= 2);
    }
    assert(sp - 1 > 0 ==> s1[0] == cell) by {
        if sp - 1 > 0 {
            assert(s1[0] == s[0]);
        }
    }
    assert forall|k: int| 0 <= k < sp - 1 implies 0 <= #[trigger] s1[k] < n && g1.visit(s1[k] as int) == 1 && spos[s1[k] as int] == k by {
        assert(s1[k] == s[k]);
        assert(0 <= s[k] < n && g.visit(s[k] as int) == 1 && spos[s[k] as int] == k);
    }
    assert forall|k: int| 0 < k < sp - 1 implies e(s1[k - 1] as int, #[trigger] s1[k] as int) by {
        assert(s1[k] == s[k] && s1[k - 1] == s[k - 1]);
        assert(e(s[k - 1] as int, s[k] as int));
    }
    assert forall|c: int| 0 <= c < n && #[trigger] g1.visit(c) == 1 implies 0 <= spos[c] < sp - 1 && s1[spos[c]] == c by {
        assert(g.visit(c) == 1);
        assert(spos[c] != sp - 1);
        assert(s1[spos[c]] == s[spos[c]]);
    }
    assert forall|k: int| op - 1 <= k < n implies 0 <= #[trigger] s1[k] < n && g1.visit(s1[k] as int) == 2 && opos1[s1[k] as int] == k by {
        if k >= op {
            assert(s1[k] == s[k]);
            assert(0 <= s[k] < n && g.visit(s[k] as int) == 2 && opos[s[k] as int] == k);
        }
    }
    assert forall|c: int| 0 <= c < n && #[trigger] g1.visit(c) == 2 implies op - 1 <= opos1[c] < n && s1[opos1[c]] == c by {
        if c != u {
            assert(g.visit(c) == 2);
            assert(s1[opos[c]] == s[opos[c]]);
        }
    }
    assert forall|c: int| 0 <= c < n && #[trigger] g1.visit(c) == 0 implies pos[c] == 0 by {
        assert(g.visit(c) == 0);
    }
    assert forall|k: int, j: int|
        0 <= k < sp - 1 && 0 <= j < pos[s1[k] as int] implies g1.visit(#[trigger] g0.view(s1[k] as int)[j] as int) == 2
            || (k + 1 < sp - 1 && j == pos[s1[k] as int] - 1 && g0.view(s1[k] as int)[j] == s1[k + 1]) by {
        assert(s1[k] == s[k]);
        assert(g.visit(g0.view(s[k] as int)[j] as int) == 2
            || (k + 1 < sp && j == pos[s[k] as int] - 1 && g0.view(s[k] as int)[j] == s[k + 1]));
        if k + 1 < sp - 1 {
            assert(s1[k + 1] == s[k + 1]);
        }
    }
    // every dependent of `u` was finished before it
    assert forall|b: int| #[trigger] e(u, b) implies g.visit(b) == 2 by {
        lemma_list_reads(g0, u, b as i32);
        lemma_count_occurs(g0.view(u), b as i32);
        let j = choose|j: int| 0 <= j < g0.view(u).len() && g0.view(u)[j] == b as i32;
        assert(g.visit(g0.view(s[sp - 1] as int)[j] as int) == 2
            || (sp - 1 + 1 < sp && j == pos[s[sp - 1] as int] - 1 && g0.view(s[sp - 1] as int)[j] == s[sp - 1 + 1]));
    }
    assert forall|a: int, b: int|
        0 <= a < n && g1.visit(a) == 2 && #[trigger] e(a, b) implies g1.visit(b) == 2 && opos1[a] < opos1[b] by {
        if a == u {
            assert(g.visit(b) == 2);
            assert(op <= opos[b]);
        } else {
            assert(g.visit(a) == 2);
            assert(g.visit(b) == 2);
        }
    }
    assert forall|c: int| 0 <= c < n && #[trigger] g1.visit(c) == 2 implies !reads_cell(f, c, m) by {
        if c != u {
            assert(g.visit(c) == 2);
        }
    }
    assert forall|k: int| 0 <= k < sp - 2 implies !reads_cell(f, #[trigger] s1[k] as int, m) by {
        assert(s1[k] == s[k]);
    }
    assert forall|c: int| 0 <= c < n && #[trigger] g1.visit(c) != 0 implies reaches(e, n, cell, c) by {
        assert(g.visit(c) != 0);
    }
}


/// During the search every marked cell sits on the stack or in the order,
/// and only marked cells have moved their cursors.
pub proof fn lemma_search_left(g: Graph, g0: Graph, cell: int, f: Info, pos: Seq<int>, spos: Seq<int>, opos: Seq<int>)
    requires
        g.search_inv(g0, cell, f, pos, spos, opos),
    ensures
        g.search_left(g0),
{
    let n = g0.size();
    let sp = g.stack_ptr as int;
    let op = g.order_ptr as int;
    assert forall|c: int| 0 <= c < n && #[trigger] g.visit(c) != 0 implies in_regions(g.stack@, sp, op, n, c) by {
        if g.visit(c) == 1 {
            assert(g.stack@[spos[c]] == c);
        } else {
            assert(g.stack@[opos[c]] == c);
        }
    }
    assert forall|c: int| 0 <= c < n && g.visit(c) == 0 implies (#[trigger] g.adj_list@[c]).ptr == g.adj_list@[c].head by {
        assert(is_chain(g0.mem_pool.nodes@, g0.heads()[c], g0.chains@[c]));
        assert(g0.adj_list@[c].head == g0.heads()[c]);
    }
}

/// Moving the cursor of a marked cell keeps what `reset` needs.
pub proof fn lemma_left_cursor(g1: Graph, g: Graph, g0: Graph, u: int, a: AdjList)
    requires
        g.search_left(g0),
        0 <= u < g0.size(),
        g.visit(u) != 0,
        a.head == g.adj_list@[u].head,
        adj_updated(g1, g, u, a),
    ensures
        g1.search_left(g0),
{
    let n = g0.size();
    assert forall|c: int| #[trigger] g1.visit(c) == g.visit(c) by {}
    assert forall|x: int| 0 <= x < g0.size() implies (#[trigger] g1.adj_list@[x]).head == g0.adj_list@[x].head by {
        assert(g.adj_list@[x].head == g0.adj_list@[x].head);
    }
    assert forall|c: int| 0 <= c < n && #[trigger] g1.visit(c) != 0 implies in_regions(
        g1.stack@,
        g1.stack_ptr as int,
        g1.order_ptr as int,
        n,
        c,
    ) by {
        assert(g.visit(c) != 0);
    }
    assert forall|c: int| 0 <= c < n && g1.visit(c) == 0 implies (#[trigger] g1.adj_list@[c]).ptr == g1.adj_list@[c].head by {
        assert(g.visit(c) == 0);
        assert(g.adj_list@[c].ptr == g.adj_list@[c].head);
    }
}

/// The new formula reads a cell on the stack: it would close a cycle.
pub proof fn lemma_search_found_read(g: Graph, g0: Graph, cell: int, f: Info, pos: Seq<int>, spos: Seq<int>, opos: Seq<int>)
    requires
        g.search_inv(g0, cell, f, pos, spos, opos),
        g.stack_ptr > 0,
        reads_cell(f, g.stack@[g.stack_ptr - 1] as int, g0.sheet.m as int),
    ensures
        reaches_read(g0.list_edges(), g0.size(), g0.sheet.m as int, cell, f),
{
    let u = g.stack@[g.stack_ptr - 1] as int;
    assert(g.visit(u) == 1);
    assert(reaches(g0.list_edges(), g0.size(), cell, u));
}

/// A dependent of the top cell is itself on the stack: the sheet already has a cycle.
pub proof fn lemma_search_found_cycle(
    g: Graph,
    g0: Graph,
    cell: int,
    f: Info,
    pos: Seq<int>,
    spos: Seq<int>,
    opos: Seq<int>,
    u: int,
    v: int,
)
    requires
        g.search_inv(g0, cell, f, pos, spos, opos),
        g.stack_ptr > 0,
        u == g.stack@[g.stack_ptr - 1],
        0 <= v < g0.size(),
        g.visit(v) == 1,
        g0.list_edges()(u, v),
    ensures
        cycle_reachable(g0.list_edges(), g0.size(), cell),
{
    let n = g0.size();
    let e = g0.list_edges();
    let sp = g.stack_ptr as int;
    let a = spos[v];
    lemma_stack_walk(g, g0, cell, f, pos, spos, opos, a, sp - 1);
    let p = g.stack@.subrange(a, sp).map_values(|x: i32| x as int);
    let q = p.push(v);
    assert(p[0] == v);
    assert(p[p.len() - 1] == u);
    assert forall|k: int| 0 <= k < q.len() - 1 implies #[trigger] e(q[k], q[k + 1]) by {
        if k < p.len() - 1 {
            assert(q[k + 1] == p[k + 1] && q[k] == p[k]);
        }
    }
    assert forall|k: int| 0 <= k < q.len() implies 0 <= #[trigger] q[k] < n by {
        if k < p.len() {
            assert(q[k] == p[k]);
        }
    }
    assert(is_walk(e, n, q));
    assert(reaches(e, n, cell, q[0]));
}

/// A search that empties its stack finished every cell a change of `cell`
/// reaches, and only those, in an order where each cell comes before its
/// dependents; none of them is read by `f`, and no cycle is reached.
#[verifier::spinoff_prover]
#[verifier::rlimit(50)]
pub proof fn lemma_search_done(g: Graph, g0: Graph, cell: int, f: Info, pos: Seq<int>, spos: Seq<int>, opos: Seq<int>)
    requires
        g.search_inv(g0, cell, f, pos, spos, opos),
        g.stack_ptr == 0,
    ensures
        !reaches_read(g0.list_edges(), g0.size(), g0.sheet.m as int, cell, f),
        !cycle_reachable(g0.list_edges(), g0.size(), cell),
        g.search_done(g0, cell),
{
    let n = g0.size();
    let e = g0.list_edges();
    let m = g0.sheet.m as int;
    let op = g.order_ptr as int;
    let s = g.stack@;
    let black = |c: int| 0 <= c < n && g.visit(c) == 2;
    assert forall|c: int| 0 <= c < n implies #[trigger] g.visit(c) != 1 by {
        if g.visit(c) == 1 {
            assert(0 <= spos[c] < 0);
        }
    }
    assert(black(cell));
    assert forall|a: int, b: int| black(a) && #[trigger] e(a, b) implies black(b) by {}
    assert forall|c: int| 0 <= c < n implies (#[trigger] g.visit(c) == 2) == reaches(e, n, cell, c) by {
        if reaches(e, n, cell, c) {
            lemma_reach_closed(e, n, cell, c, black);
        }
    }
    assert(!reaches_read(e, n, m, cell, f)) by {
        if reaches_read(e, n, m, cell, f) {
            let u = choose|u: int| #[trigger] reaches(e, n, cell, u) && reads_cell(f, u, m);
            lemma_reach_closed(e, n, cell, u, black);
        }
    }
    assert(!cycle_reachable(e, n, cell)) by {
        if cycle_reachable(e, n, cell) {
            let p = choose|p: Seq<int>|
                #[trigger] is_walk(e, n, p) && p.len() >= 2 && p[0] == p.last() && reaches(e, n, cell, p[0]);
            lemma_reach_closed(e, n, cell, p[0], black);
            assert forall|k: int| 0 <= k < p.len() implies black(#[trigger] p[k]) by {
                lemma_walk_closed(e, n, p, black, k);
            }
            let rank = |c: int| opos[c];
            assert forall|j: int| 0 <= j < p.len() - 1 implies rank(p[j]) < rank(#[trigger] p[j + 1]) by {
                assert(black(p[j]));
                assert(e(p[j], p[j + 1]));
            }
            lemma_walk_rank(e, n, p, rank, p.len() - 1);
        }
    }
    assert forall|k1: int, k2: int|
        op <= k1 < n && op <= k2 < n && #[trigger] e(s[k1] as int, s[k2] as int) implies k1 < k2 by {
        assert(opos[s[k1] as int] == k1);
        assert(opos[s[k2] as int] == k2);
    }
    assert forall|k1: int, k2: int| op <= k1 < k2 < n implies #[trigger] s[k1] != #[trigger] s[k2] by {
        assert(opos[s[k1] as int] == k1);
        assert(opos[s[k2] as int] == k2);
    }
    lemma_search_left(g, g0, cell, f, pos, spos, opos);
}

impl Graph {
    /// After a search from `cell` that found no cycle: the order
    /// `stack[order_ptr..]` lists, once each, exactly the cells that a change
    /// of `cell` reaches, each before its dependents; they alone are marked
    /// (finished), and no cell is left on the stack.
    pub open spec fn search_done(&self, g0: Graph, cell: int) -> bool {
        let n = g0.size();
        let e = g0.list_edges();
        let op = self.order_ptr as int;
        let s = self.stack@;
        &&& self.search_left(g0)
        &&& self.stack_ptr == 0
        &&& forall|c: int| 0 <= c < n ==> (#[trigger] self.visit(c) == 2) == reaches(e, n, cell, c)
        &&& forall|c: int| 0 <= c < n ==> #[trigger] self.visit(c) == 0 || self.visit(c) == 2
        &&& forall|k: int| op <= k < n ==> self.visit(#[trigger] s[k] as int) == 2
        &&& forall|k1: int, k2: int|
            op <= k1 < n && op <= k2 < n && #[trigger] e(s[k1] as int, s[k2] as int) ==> k1 < k2
        &&& forall|k1: int, k2: int| op <= k1 < k2 < n ==> #[trigger] s[k1] != #[trigger] s[k2]
    }
}


/// What is left to walk of the lists of cells `0..k`.
pub open spec fn cursor_rest(chains: Seq<Seq<usize>>, pos: Seq<int>, k: int) -> int
    decreases k,
{
    if k <= 0 {
        0
    } else {
        cursor_rest(chains, pos, k - 1) + (chains[k - 1].len() - pos[k - 1])
    }
}

/// What is left to walk is never negative, and moving one cursor by one
/// step lowers it by one.
pub proof fn lemma_cursor_rest(chains: Seq<Seq<usize>>, pos: Seq<int>, k: int, u: int)
    requires
        0 <= k <= pos.len(),
        forall|c: int| 0 <= c < k ==> #[trigger] pos[c] <= chains[c].len(),
        0 <= u < k,
        pos[u] < chains[u].len(),
    ensures
        cursor_rest(chains, pos, k) >= 0,
        cursor_rest(chains, pos.update(u, pos[u] + 1), k) == cursor_rest(chains, pos, k) - 1,
        cursor_rest(chains, pos.update(u, pos[u] + 1), k) >= 0,
    decreases k,
{
    let p2 = pos.update(u, pos[u] + 1);
    lemma_cursor_rest_same(chains, p2, p2, k);
    if u < k - 1 {
        lemma_cursor_rest(chains, pos, k - 1, u);
    } else {
        lemma_cursor_rest_same(chains, pos, pos.update(u, pos[u] + 1), k - 1);
    }
}

proof fn lemma_cursor_rest_same(chains: Seq<Seq<usize>>, p1: Seq<int>, p2: Seq<int>, k: int)
    requires
        0 <= k,
        forall|c: int| 0 <= c < k ==> #[trigger] p1[c] == p2[c] && p1[c] <= chains[c].len(),
    ensures
        cursor_rest(chains, p1, k) == cursor_rest(chains, p2, k),
        cursor_rest(chains, p1, k) >= 0,
    decreases k,
{
    if k > 0 {
        lemma_cursor_rest_same(chains, p1, p2, k - 1);
    }
}


/// An unmarked cell leaves room on the stack for one more cell.
pub proof fn lemma_search_room(g: Graph, g0: Graph, cell: int, f: Info, pos: Seq<int>, spos: Seq<int>, opos: Seq<int>, v: int)
    requires
        g.search_inv(g0, cell, f, pos, spos, opos),
        0 <= v < g0.size(),
        g.visit(v) == 0,
    ensures
        g.stack_ptr < g.order_ptr,
{
    assert(visit_seq(g.sheet.data@)[v] == 0);
    lemma_count_pos(visit_seq(g.sheet.data@), v);
}

} // verus!
