//! The pool-level bookkeeping of the dependency graph: every adjacency list is
//! a list of the node pool, lists never share a node, and the free list is
//! apart from all of them.
use vstd::prelude::*;
use crate::list::{
    BLOCK_SIZE, Node, block_node, block_seq, chain_values, fresh_block, is_chain, link_ok, supply,
};
use crate::chains::{lemma_chain_frame, lemma_chain_pop, lemma_chain_push, lemma_chain_unlink};

verus! {

/// Every link of the pool names one of its nodes.
pub open spec fn pool_links_ok(nodes: Seq<Node>, free: Option<usize>) -> bool {
    &&& link_ok(free, nodes.len() as int)
    &&& forall|i: int| 0 <= i < nodes.len() ==> link_ok(#[trigger] nodes[i].next, nodes.len() as int)
}

/// The lists starting at `heads` are `chains`, the free list is `fc`, and
/// `owner` records for each node which list holds it (-1: the free list).
pub open spec fn lists_ok_raw(
    nodes: Seq<Node>,
    heads: Seq<Option<usize>>,
    free: Option<usize>,
    chains: Seq<Seq<usize>>,
    fc: Seq<usize>,
    owner: Seq<int>,
) -> bool {
    &&& chains.len() == heads.len()
    &&& forall|x: int| 0 <= x < heads.len() ==> is_chain(nodes, heads[x], #[trigger] chains[x])
    &&& is_chain(nodes, free, fc)
    &&& owner.len() == nodes.len()
    &&& forall|x: int, i: int|
        0 <= x < heads.len() && 0 <= i < chains[x].len() ==> owner[#[trigger] chains[x][i] as int] == x
    &&& forall|i: int| 0 <= i < fc.len() ==> owner[#[trigger] fc[i] as int] == -1
}

/// The free list and its owners after the pool is readied for a node to be
/// taken: unchanged, or, with an empty free list, a fresh block.
pub open spec fn supply_chain(nodes: Seq<Node>, free: Option<usize>, fc: Seq<usize>) -> Seq<usize> {
    if free is None {
        block_seq(nodes.len() as int, BLOCK_SIZE as int)
    } else {
        fc
    }
}

pub open spec fn supply_owner(nodes: Seq<Node>, free: Option<usize>, owner: Seq<int>) -> Seq<int> {
    if free is None {
        owner + Seq::new(BLOCK_SIZE as nat, |i: int| -1int)
    } else {
        owner
    }
}

/// A fresh block forms a list.
pub proof fn lemma_fresh_block_chain(nodes: Seq<Node>)
    requires
        nodes.len() + BLOCK_SIZE <= usize::MAX,
    ensures
        is_chain(
            nodes + fresh_block(nodes.len() as int, None),
            Some(nodes.len() as usize),
            block_seq(nodes.len() as int, BLOCK_SIZE as int),
        ),
{
    let len = nodes.len() as int;
    let n2 = nodes + fresh_block(len, None);
    let b = block_seq(len, BLOCK_SIZE as int);
    assert forall|i: int| 0 <= i < b.len() - 1 implies n2[b[i] as int].next == Some(b[i + 1]) by {
        assert(n2[len + i] == block_node(len, i, None));
    }
    assert(n2[len + BLOCK_SIZE - 1] == block_node(len, BLOCK_SIZE - 1, None));
}

/// Readying the pool for a node keeps every list and provides a nonempty free list.
pub proof fn lemma_supply(
    nodes: Seq<Node>,
    heads: Seq<Option<usize>>,
    free: Option<usize>,
    chains: Seq<Seq<usize>>,
    fc: Seq<usize>,
    owner: Seq<int>,
)
    requires
        pool_links_ok(nodes, free),
        lists_ok_raw(nodes, heads, free, chains, fc, owner),
        nodes.len() + BLOCK_SIZE <= usize::MAX,
    ensures
        ({
            let (nodes0, free0) = supply(nodes, free);
            let fc0 = supply_chain(nodes, free, fc);
            let owner0 = supply_owner(nodes, free, owner);
            &&& lists_ok_raw(nodes0, heads, free0, chains, fc0, owner0)
            &&& fc0.len() > 0
            &&& free0 == Some(fc0[0])
            &&& nodes0.len() >= nodes.len()
            &&& nodes0.len() <= nodes.len() + BLOCK_SIZE
            &&& forall|x: int| 0 <= x < heads.len() ==> chain_values(nodes0, #[trigger] chains[x]) == chain_values(nodes, chains[x])
            &&& pool_links_ok(nodes0, free0)
        }),
{
    let (nodes0, free0) = supply(nodes, free);
    if free is None {
        let len = nodes.len() as int;
        lemma_fresh_block_chain(nodes);
        let owner0 = supply_owner(nodes, free, owner);
        assert forall|x: int| 0 <= x < heads.len() implies is_chain(nodes0, heads[x], #[trigger] chains[x])
            && chain_values(nodes0, chains[x]) == chain_values(nodes, chains[x]) by {
            assert forall|i: int| 0 <= i < chains[x].len() implies nodes0[chains[x][i] as int] == nodes[chains[x][i] as int] by {}
            lemma_chain_frame(nodes, nodes0, heads[x], chains[x]);
        }
        let b = block_seq(len, BLOCK_SIZE as int);
        assert forall|i: int| 0 <= i < b.len() implies owner0[#[trigger] b[i] as int] == -1 by {}
        assert forall|x: int, i: int| 0 <= x < heads.len() && 0 <= i < chains[x].len() implies owner0[#[trigger] chains[x][i] as int] == x by {
            assert(chains[x][i] < nodes.len());
        }
        assert forall|i: int| 0 <= i < nodes0.len() implies link_ok(#[trigger] nodes0[i].next, nodes0.len() as int) by {
            if i < len {
                assert(nodes0[i] == nodes[i]);
            } else {
                assert(nodes0[i] == block_node(len, i - len, None));
            }
        }
    }
}

/// Pushing a node of the free list onto list `x`.
pub proof fn lemma_push_lists(
    nodes: Seq<Node>,
    heads: Seq<Option<usize>>,
    free: Option<usize>,
    chains: Seq<Seq<usize>>,
    fc: Seq<usize>,
    owner: Seq<int>,
    x: int,
    value: i32,
)
    requires
        pool_links_ok(nodes, free),
        lists_ok_raw(nodes, heads, free, chains, fc, owner),
        fc.len() > 0,
        free == Some(fc[0]),
        0 <= x < heads.len(),
    ensures
        ({
            let f = fc[0];
            let nodes2 = nodes.update(f as int, Node { data: value, next: heads[x] });
            let chains2 = chains.update(x, seq![f] + chains[x]);
            &&& lists_ok_raw(
                nodes2,
                heads.update(x, Some(f)),
                nodes[f as int].next,
                chains2,
                fc.drop_first(),
                owner.update(f as int, x),
            )
            &&& chain_values(nodes2, chains2[x]) == seq![value] + chain_values(nodes, chains[x])
            &&& forall|y: int| 0 <= y < heads.len() && y != x ==> chain_values(nodes2, #[trigger] chains2[y]) == chain_values(nodes, chains[y])
        }),
{
    let f = fc[0];
    let nodes2 = nodes.update(f as int, Node { data: value, next: heads[x] });
    let heads2 = heads.update(x, Some(f));
    let chains2 = chains.update(x, seq![f] + chains[x]);
    let fc2 = fc.drop_first();
    let owner2 = owner.update(f as int, x);
    assert(owner[f as int] == -1);
    assert(is_chain(nodes, heads[x], chains[x]));
    assert(!chains[x].contains(f)) by {
        if chains[x].contains(f) {
            let i = choose|i: int| 0 <= i < chains[x].len() && chains[x][i] == f;
            assert(owner[chains[x][i] as int] == x);
        }
    }
    lemma_chain_push(nodes, heads[x], chains[x], f, value);
    assert forall|y: int| 0 <= y < heads.len() && y != x implies is_chain(nodes2, heads2[y], #[trigger] chains2[y])
        && chain_values(nodes2, chains2[y]) == chain_values(nodes, chains[y]) by {
        assert(is_chain(nodes, heads[y], chains[y]));
        assert forall|i: int| 0 <= i < chains[y].len() implies nodes2[chains[y][i] as int] == nodes[chains[y][i] as int] by {
            assert(owner[chains[y][i] as int] == y);
        }
        lemma_chain_frame(nodes, nodes2, heads[y], chains[y]);
    }
    lemma_chain_pop(nodes, free, fc);
    assert forall|i: int| 0 <= i < fc2.len() implies nodes2[fc2[i] as int] == nodes[fc2[i] as int] by {
        assert(fc2[i] == fc[i + 1]);
        assert(fc[0] != fc[i + 1]);
    }
    lemma_chain_frame(nodes, nodes2, nodes[f as int].next, fc2);
    assert forall|z: int, i: int| 0 <= z < heads.len() && 0 <= i < chains2[z].len() implies owner2[#[trigger] chains2[z][i] as int] == z by {
        if z == x {
            if i > 0 {
                assert(chains2[z][i] == chains[x][i - 1]);
                assert(owner[chains[x][i - 1] as int] == x);
            }
        } else {
            assert(owner[chains[z][i] as int] == z);
            assert(chains[z][i] != f);
        }
    }
    assert forall|i: int| 0 <= i < fc2.len() implies owner2[#[trigger] fc2[i] as int] == -1 by {
        assert(fc2[i] == fc[i + 1]);
        assert(fc[0] != fc[i + 1]);
        assert(owner[fc[i + 1] as int] == -1);
    }
}

/// Unlinking the node at position `k` of list `x` and putting it in front of
/// the free list.
pub proof fn lemma_erase_lists(
    nodes: Seq<Node>,
    heads: Seq<Option<usize>>,
    free: Option<usize>,
    chains: Seq<Seq<usize>>,
    fc: Seq<usize>,
    owner: Seq<int>,
    x: int,
    k: int,
)
    requires
        lists_ok_raw(nodes, heads, free, chains, fc, owner),
        0 <= x < heads.len(),
        0 <= k < chains[x].len(),
    ensures
        ({
            let s = chains[x];
            let nxt = nodes[s[k] as int].next;
            let nodes1 = if k == 0 {
                nodes
            } else {
                nodes.update(s[k - 1] as int, Node { data: nodes[s[k - 1] as int].data, next: nxt })
            };
            let nodes2 = nodes1.update(s[k] as int, Node { data: nodes[s[k] as int].data, next: free });
            let head2 = if k == 0 { nxt } else { heads[x] };
            let chains2 = chains.update(x, s.remove(k));
            &&& lists_ok_raw(
                nodes2,
                heads.update(x, head2),
                Some(s[k]),
                chains2,
                seq![s[k]] + fc,
                owner.update(s[k] as int, -1),
            )
            &&& chain_values(nodes2, chains2[x]) == chain_values(nodes, s).remove(k)
            &&& forall|y: int| 0 <= y < heads.len() && y != x ==> chain_values(nodes2, #[trigger] chains2[y]) == chain_values(nodes, chains[y])
        }),
{
    let s = chains[x];
    assert(is_chain(nodes, heads[x], s));
    let c = s[k];
    let nxt = nodes[c as int].next;
    let nodes1 = if k == 0 {
        nodes
    } else {
        nodes.update(s[k - 1] as int, Node { data: nodes[s[k - 1] as int].data, next: nxt })
    };
    let nodes2 = nodes1.update(c as int, Node { data: nodes[c as int].data, next: free });
    let head2 = if k == 0 { nxt } else { heads[x] };
    let heads2 = heads.update(x, head2);
    let chains2 = chains.update(x, s.remove(k));
    let fc2 = seq![c] + fc;
    let owner2 = owner.update(c as int, -1);
    assert(owner[c as int] == x);
    lemma_chain_unlink(nodes, heads[x], s, k);
    // the rest of list x does not hold `c`
    assert forall|i: int| 0 <= i < s.remove(k).len() implies nodes2[s.remove(k)[i] as int] == nodes1[s.remove(k)[i] as int] by {
        let i2 = if i < k { i } else { i + 1 };
        assert(s.remove(k)[i] == s[i2]);
        assert(s[i2] != s[k]);
    }
    lemma_chain_frame(nodes1, nodes2, head2, s.remove(k));
    // other lists are untouched
    assert forall|y: int| 0 <= y < heads.len() && y != x implies is_chain(nodes2, heads2[y], #[trigger] chains2[y])
        && chain_values(nodes2, chains2[y]) == chain_values(nodes, chains[y]) by {
        assert(is_chain(nodes, heads[y], chains[y]));
        assert forall|i: int| 0 <= i < chains[y].len() implies nodes2[chains[y][i] as int] == nodes[chains[y][i] as int] by {
            assert(owner[chains[y][i] as int] == y);
            if k > 0 {
                assert(owner[s[k - 1] as int] == x);
            }
        }
        lemma_chain_frame(nodes, nodes2, heads[y], chains[y]);
    }
    // the free list gains `c`
    assert forall|i: int| 0 <= i < fc.len() implies nodes1[fc[i] as int] == nodes[fc[i] as int] by {
        assert(owner[fc[i] as int] == -1);
        if k > 0 {
            assert(owner[s[k - 1] as int] == x);
        }
    }
    lemma_chain_frame(nodes, nodes1, free, fc);
    assert(!fc.contains(c)) by {
        if fc.contains(c) {
            let i = choose|i: int| 0 <= i < fc.len() && fc[i] == c;
            assert(owner[fc[i] as int] == -1);
        }
    }
    assert(c < nodes1.len());
    assert(nodes1[c as int].data == nodes[c as int].data) by {
        if k > 0 {
            assert(s[k - 1] != s[k]);
        }
    }
    lemma_chain_push(nodes1, free, fc, c, nodes[c as int].data);
    assert forall|z: int, i: int| 0 <= z < heads.len() && 0 <= i < chains2[z].len() implies owner2[#[trigger] chains2[z][i] as int] == z by {
        if z == x {
            let i2 = if i < k { i } else { i + 1 };
            assert(chains2[z][i] == s[i2]);
            assert(s[i2] != s[k]);
            assert(owner[s[i2] as int] == x);
        } else {
            assert(owner[chains[z][i] as int] == z);
        }
    }
    assert forall|i: int| 0 <= i < fc2.len() implies owner2[#[trigger] fc2[i] as int] == -1 by {
        if i > 0 {
            assert(fc2[i] == fc[i - 1]);
            assert(owner[fc[i - 1] as int] == -1);
        }
    }
}

} // verus!
