//! Facts about the lists of a node pool: how pushing, erasing and growing the
//! pool change the lists that run through it.
use vstd::prelude::*;
use crate::list::{Node, chain_values, is_chain};

verus! {

/// How many times `v` occurs in `s`.
pub open spec fn count_in(s: Seq<i32>, v: i32) -> nat
    decreases s.len(),
{
    if s.len() == 0 {
        0
    } else {
        count_in(s.drop_last(), v) + (if s.last() == v { 1nat } else { 0nat })
    }
}

/// Counting over a prepended element.
pub proof fn lemma_count_prepend(s: Seq<i32>, a: i32, v: i32)
    ensures
        count_in(seq![a] + s, v) == count_in(s, v) + (if a == v { 1nat } else { 0nat }),
    decreases s.len(),
{
    if s.len() == 0 {
        assert((seq![a] + s).drop_last() =~= s);
    } else {
        assert((seq![a] + s).drop_last() =~= seq![a] + s.drop_last());
        lemma_count_prepend(s.drop_last(), a, v);
    }
}

/// Counting over a removed element.
pub proof fn lemma_count_remove(s: Seq<i32>, k: int, v: i32)
    requires
        0 <= k < s.len(),
    ensures
        count_in(s, v) == count_in(s.remove(k), v) + (if s[k] == v { 1nat } else { 0nat }),
    decreases s.len(),
{
    if k == s.len() - 1 {
        assert(s.remove(k) =~= s.drop_last());
    } else {
        assert(s.remove(k).drop_last() =~= s.drop_last().remove(k));
        lemma_count_remove(s.drop_last(), k, v);
    }
}

/// A value that occurs is counted.
pub proof fn lemma_count_pos(s: Seq<i32>, k: int)
    requires
        0 <= k < s.len(),
    ensures
        count_in(s, s[k]) > 0,
{
    lemma_count_remove(s, k, s[k]);
}

/// A value that is counted occurs.
pub proof fn lemma_count_occurs(s: Seq<i32>, v: i32)
    requires
        count_in(s, v) > 0,
    ensures
        exists|k: int| 0 <= k < s.len() && s[k] == v,
    decreases s.len(),
{
    if s.last() == v {
        assert(s[s.len() - 1] == v);
    } else {
        lemma_count_occurs(s.drop_last(), v);
        let k = choose|k: int| 0 <= k < s.drop_last().len() && s.drop_last()[k] == v;
        assert(s[k] == v);
    }
}

/// A list stays the same list when its nodes are untouched and the pool only grows.
pub proof fn lemma_chain_frame(nodes: Seq<Node>, nodes2: Seq<Node>, head: Option<usize>, s: Seq<usize>)
    requires
        is_chain(nodes, head, s),
        nodes.len() <= nodes2.len(),
        forall|i: int| 0 <= i < s.len() ==> nodes2[s[i] as int] == nodes[s[i] as int],
    ensures
        is_chain(nodes2, head, s),
        chain_values(nodes2, s) == chain_values(nodes, s),
{
    assert forall|i: int| 0 <= i < s.len() - 1 implies nodes2[s[i] as int].next == Some(s[i + 1]) by {
        assert(nodes2[s[i] as int] == nodes[s[i] as int]);
    }
    if s.len() > 0 {
        assert(nodes2[s[s.len() - 1] as int] == nodes[s[s.len() - 1] as int]);
    }
    assert(chain_values(nodes2, s) =~= chain_values(nodes, s));
}

/// Putting a node that is on no list in front of a list.
pub proof fn lemma_chain_push(nodes: Seq<Node>, head: Option<usize>, s: Seq<usize>, f: usize, value: i32)
    requires
        is_chain(nodes, head, s),
        f < nodes.len(),
        !s.contains(f),
    ensures
        ({
            let nodes2 = nodes.update(f as int, Node { data: value, next: head });
            &&& is_chain(nodes2, Some(f), seq![f] + s)
            &&& chain_values(nodes2, seq![f] + s) == seq![value] + chain_values(nodes, s)
        }),
{
    let nodes2 = nodes.update(f as int, Node { data: value, next: head });
    let t = seq![f] + s;
    assert forall|i: int| 0 <= i < s.len() implies nodes2[s[i] as int] == nodes[s[i] as int] by {
        assert(s[i] != f);
    }
    lemma_chain_frame(nodes, nodes2, head, s);
    assert forall|i: int| 0 <= i < t.len() - 1 implies nodes2[t[i] as int].next == Some(t[i + 1]) by {
        if i > 0 {
            assert(t[i] == s[i - 1]);
            assert(t[i + 1] == s[i]);
        }
    }
    assert forall|i: int, j: int| 0 <= i < j < t.len() implies t[i] != t[j] by {
        if i == 0 {
            assert(t[j] == s[j - 1]);
        } else {
            assert(t[i] == s[i - 1] && t[j] == s[j - 1]);
        }
    }
    if s.len() > 0 {
        assert(t.last() == s.last());
    }
    assert(chain_values(nodes2, t) =~= seq![value] + chain_values(nodes2, s));
}

/// Taking the first node off a list.
pub proof fn lemma_chain_pop(nodes: Seq<Node>, head: Option<usize>, s: Seq<usize>)
    requires
        is_chain(nodes, head, s),
        s.len() > 0,
    ensures
        is_chain(nodes, nodes[s[0] as int].next, s.drop_first()),
{
    let t = s.drop_first();
    assert forall|i: int| 0 <= i < t.len() - 1 implies nodes[t[i] as int].next == Some(t[i + 1]) by {
        assert(t[i] == s[i + 1]);
    }
    assert forall|i: int, j: int| 0 <= i < j < t.len() implies t[i] != t[j] by {
        assert(t[i] == s[i + 1] && t[j] == s[j + 1]);
    }
    if t.len() > 0 {
        assert(nodes[s[0] as int].next == Some(s[1]));
    }
}

/// Unlinking the node at position `k` of a list (its predecessor, if any, now
/// points past it).
pub proof fn lemma_chain_unlink(nodes: Seq<Node>, head: Option<usize>, s: Seq<usize>, k: int)
    requires
        is_chain(nodes, head, s),
        0 <= k < s.len(),
    ensures
        ({
            let nxt = nodes[s[k] as int].next;
            let nodes2 = if k == 0 {
                nodes
            } else {
                nodes.update(s[k - 1] as int, Node { data: nodes[s[k - 1] as int].data, next: nxt })
            };
            let head2 = if k == 0 { nxt } else { head };
            &&& is_chain(nodes2, head2, s.remove(k))
            &&& chain_values(nodes2, s.remove(k)) == chain_values(nodes, s).remove(k)
        }),
{
    let nxt = nodes[s[k] as int].next;
    let t = s.remove(k);
    if k == 0 {
        lemma_chain_pop(nodes, head, s);
        assert(t =~= s.drop_first());
        assert(chain_values(nodes, t) =~= chain_values(nodes, s).remove(k));
    } else {
        let p = s[k - 1];
        let nodes2 = nodes.update(p as int, Node { data: nodes[p as int].data, next: nxt });
        assert forall|i: int| 0 <= i < t.len() implies t[i] < nodes2.len() by {
            if i < k {
                assert(t[i] == s[i]);
            } else {
                assert(t[i] == s[i + 1]);
            }
        }
        assert forall|i: int| 0 <= i < t.len() - 1 implies nodes2[t[i] as int].next == Some(t[i + 1]) by {
            if i < k - 1 {
                assert(t[i] == s[i] && t[i + 1] == s[i + 1]);
                assert(s[i] != p);
            } else if i == k - 1 {
                assert(t[i] == p);
                assert(t[i + 1] == s[k + 1]);
                assert(nodes[s[k] as int].next == Some(s[k + 1]));
            } else {
                assert(t[i] == s[i + 1] && t[i + 1] == s[i + 2]);
                assert(s[i + 1] != p);
            }
        }
        assert forall|i: int, j: int| 0 <= i < j < t.len() implies t[i] != t[j] by {
            let i2 = if i < k { i } else { i + 1 };
            let j2 = if j < k { j } else { j + 1 };
            assert(t[i] == s[i2] && t[j] == s[j2]);
        }
        if t.len() > 0 {
            if k == s.len() - 1 {
                assert(t.last() == p);
                assert(nodes[s[k] as int].next is None);
            } else {
                assert(t.last() == s.last());
                assert(s.last() != p);
            }
        }
        assert(t.len() > 0 && head == Some(t[0]));
        assert(chain_values(nodes2, t) =~= chain_values(nodes, s).remove(k)) by {
            assert forall|i: int| 0 <= i < t.len() implies nodes2[t[i] as int].data == nodes[t[i] as int].data by {}
        }
    }
}

} // verus!
