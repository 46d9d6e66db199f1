//! A pool of list nodes and the singly linked lists threaded through it.
//!
//! Nodes live in one vector; a list is named by the index of its first node
//! and linked through the `next` indices. Freed nodes are kept on a free list
//! and reused before the pool grows by another block.
use vstd::prelude::*;

verus! {

/// The number of nodes a block adds to the pool.
pub const BLOCK_SIZE: usize = 1024;

/// A node of a linked list.
#[derive(Debug, Clone, Copy)]
pub struct Node {
    /// The stored integer data.
    pub data: i32,
    /// The index of the next node in the list.
    pub next: Option<usize>,
}

/// A block of `size` consecutive node slots starting at `first`.
#[derive(Debug, Clone, Copy)]
pub struct Block {
    pub first: usize,
    pub size: usize,
}

/// A memory pool of list nodes.
#[derive(Debug)]
pub struct ListMemPool {
    /// All nodes ever allocated.
    pub nodes: Vec<Node>,
    /// The blocks the nodes were allocated in, oldest first.
    pub blocks: Vec<Block>,
    /// Head of the free list.
    pub free_list: Option<usize>,
}

/// An optional node index that is absent or names a node of a pool of `len` nodes.
pub open spec fn link_ok(l: Option<usize>, len: int) -> bool {
    match l {
        Some(i) => i < len,
        None => true,
    }
}

/// `s` is the list that starts at `head`: its nodes in order, none twice.
pub open spec fn is_chain(nodes: Seq<Node>, head: Option<usize>, s: Seq<usize>) -> bool {
    &&& (s.len() == 0 <==> head is None)
    &&& s.len() > 0 ==> head == Some(s[0])
    &&& forall|i: int| 0 <= i < s.len() ==> s[i] < nodes.len()
    &&& forall|i: int| 0 <= i < s.len() - 1 ==> nodes[s[i] as int].next == Some(s[i + 1])
    &&& s.len() > 0 ==> nodes[s.last() as int].next is None
    &&& forall|i: int, j: int| 0 <= i < j < s.len() ==> s[i] != s[j]
}

/// The values stored in the nodes `s`.
pub open spec fn chain_values(nodes: Seq<Node>, s: Seq<usize>) -> Seq<i32> {
    s.map_values(|i: usize| nodes[i as int].data)
}

/// The nodes `first, ..., first + k - 1`.
pub open spec fn block_seq(first: int, k: int) -> Seq<usize> {
    Seq::new(k as nat, |i: int| (first + i) as usize)
}

/// The node that the `k`-th slot of a block starting at `first` holds when
/// the block is added in front of the free list `old_free`.
pub open spec fn block_node(first: int, k: int, old_free: Option<usize>) -> Node {
    Node {
        data: 0,
        next: if k < BLOCK_SIZE - 1 {
            Some((first + k + 1) as usize)
        } else {
            old_free
        },
    }
}

/// The nodes of a fresh block starting at index `len`, in front of the free list `free`.
pub open spec fn fresh_block(len: int, free: Option<usize>) -> Seq<Node> {
    Seq::new(BLOCK_SIZE as nat, |k: int| block_node(len, k, free))
}

/// The nodes and the free list from which the next node is taken: the pool as
/// it is, or, with an empty free list, the pool grown by a fresh block.
pub open spec fn supply(nodes: Seq<Node>, free: Option<usize>) -> (Seq<Node>, Option<usize>) {
    if free is None {
        (nodes + fresh_block(nodes.len() as int, None), Some(nodes.len() as usize))
    } else {
        (nodes, free)
    }
}

/// A list starts at `head` (following the links ends, never meeting a node twice).
pub open spec fn is_list(nodes: Seq<Node>, head: Option<usize>) -> bool {
    exists|s: Seq<usize>| is_chain(nodes, head, s)
}

/// The position of the first occurrence of `v` in `vals`, or -1.
pub open spec fn first_pos(vals: Seq<i32>, v: i32) -> int
    decreases vals.len(),
{
    if vals.len() == 0 {
        -1
    } else if vals[0] == v {
        0
    } else {
        let p = first_pos(vals.drop_first(), v);
        if p < 0 {
            -1
        } else {
            p + 1
        }
    }
}

/// `first_pos` is the first position holding `v`.
pub proof fn lemma_first_pos(vals: Seq<i32>, v: i32, k: int)
    requires
        0 <= k <= vals.len(),
        forall|j: int| 0 <= j < k ==> vals[j] != v,
    ensures
        k < vals.len() && vals[k] == v ==> first_pos(vals, v) == k,
        k == vals.len() ==> first_pos(vals, v) == -1,
    decreases vals.len(),
{
    if k > 0 {
        assert(vals[0] != v);
        assert forall|j: int| 0 <= j < k - 1 implies vals.drop_first()[j] != v by {
            assert(vals.drop_first()[j] == vals[j + 1]);
        }
        lemma_first_pos(vals.drop_first(), v, k - 1);
    }
}

/// `first_pos` is -1 or a position holding `v` with none before it.
pub proof fn lemma_first_pos_props(vals: Seq<i32>, v: i32)
    ensures
        -1 <= first_pos(vals, v) < vals.len(),
        first_pos(vals, v) >= 0 ==> vals[first_pos(vals, v)] == v,
        forall|j: int| 0 <= j < vals.len() && (first_pos(vals, v) < 0 || j < first_pos(vals, v)) ==> vals[j] != v,
    decreases vals.len(),
{
    if vals.len() > 0 {
        lemma_first_pos_props(vals.drop_first(), v);
        assert forall|j: int| 0 <= j < vals.len() && (first_pos(vals, v) < 0 || j < first_pos(vals, v)) implies vals[j] != v by {
            if j > 0 {
                assert(vals[j] == vals.drop_first()[j - 1]);
            }
        }
    }
}

/// The list starting at a given head is determined by the links.
pub proof fn lemma_chain_unique(nodes: Seq<Node>, head: Option<usize>, s: Seq<usize>, t: Seq<usize>)
    requires
        is_chain(nodes, head, s),
        is_chain(nodes, head, t),
    ensures
        s == t,
{
    if s.len() > 0 {
        assert forall|i: int| 0 <= i < s.len() && i < t.len() implies s[i] == t[i] by {
            lemma_chain_unique_prefix(nodes, head, s, t, i);
        }
        if s.len() < t.len() {
            lemma_chain_unique_prefix(nodes, head, s, t, s.len() - 1);
        } else if t.len() < s.len() {
            lemma_chain_unique_prefix(nodes, head, s, t, t.len() - 1);
        }
    }
    assert(s =~= t);
}

proof fn lemma_chain_unique_prefix(nodes: Seq<Node>, head: Option<usize>, s: Seq<usize>, t: Seq<usize>, i: int)
    requires
        is_chain(nodes, head, s),
        is_chain(nodes, head, t),
        0 <= i < s.len(),
        i < t.len(),
    ensures
        s[i] == t[i],
    decreases i,
{
    if i > 0 {
        lemma_chain_unique_prefix(nodes, head, s, t, i - 1);
        assert(nodes[s[i - 1] as int].next == Some(s[i]));
        assert(nodes[t[i - 1] as int].next == Some(t[i]));
    }
}

impl ListMemPool {
    /// Every link of the pool names one of its nodes.
    pub open spec fn wf(&self) -> bool {
        &&& link_ok(self.free_list, self.nodes@.len() as int)
        &&& forall|i: int| 0 <= i < self.nodes@.len() ==> link_ok(#[trigger] self.nodes@[i].next, self.nodes@.len() as int)
    }

    /// The pool can still grow by one block without its indices overflowing.
    pub open spec fn has_room(&self) -> bool {
        self.nodes@.len() + BLOCK_SIZE <= usize::MAX
    }

    /// Creates a new empty memory pool.
    pub fn new() -> (pool: Self)
        ensures
            pool.wf(),
            pool.nodes@.len() == 0,
            pool.blocks@.len() == 0,
            pool.free_list is None,
    {
        ListMemPool { nodes: Vec::new(), blocks: Vec::new(), free_list: None }
    }

    /// Adds a block of `BLOCK_SIZE` fresh nodes (data 0) in front of the free list.
    pub fn add_block(&mut self)
        requires
            old(self).wf(),
            old(self).has_room(),
        ensures
            final(self).wf(),
            ({
                let len = old(self).nodes@.len() as int;
                &&& final(self).nodes@ == old(self).nodes@ + fresh_block(len, old(self).free_list)
                &&& final(self).free_list == Some(len as usize)
                &&& final(self).blocks@ == old(self).blocks@.push(Block { first: len as usize, size: BLOCK_SIZE })
            }),
    {
        let len = self.nodes.len();
        let ghost old_nodes = self.nodes@;
        let mut k: usize = 0;
        while k < BLOCK_SIZE
            invariant
                len == old_nodes.len(),
                len + BLOCK_SIZE <= usize::MAX,
                k <= BLOCK_SIZE,
                self.nodes@.len() == len + k,
                self.nodes@.subrange(0, len as int) == old_nodes,
                forall|j: int| 0 <= j < k ==> self.nodes@[len + j] == block_node(len as int, j, self.free_list),
                link_ok(self.free_list, len as int),
                self.blocks == old(self).blocks,
                self.free_list == old(self).free_list,
                forall|i: int| 0 <= i < len ==> link_ok(#[trigger] old_nodes[i].next, len as int),
            decreases BLOCK_SIZE - k,
        {
            let next = if k < BLOCK_SIZE - 1 {
                Some(len + k + 1)
            } else {
                self.free_list
            };
            self.nodes.push(Node { data: 0, next });
            assert(self.nodes@.subrange(0, len as int) =~= old_nodes);
            k = k + 1;
        }
        let ghost old_free = self.free_list;
        self.blocks.push(Block { first: len, size: BLOCK_SIZE });
        self.free_list = Some(len);
        assert forall|k: int| 0 <= k < BLOCK_SIZE implies self.nodes@[len + k] == block_node(len as int, k, old_free) by {}
        assert forall|i: int| 0 <= i < len implies self.nodes@[i] == old_nodes[i] by {
            assert(self.nodes@[i] == self.nodes@.subrange(0, len as int)[i]);
        }
        assert(self.nodes@ =~= old_nodes + fresh_block(len as int, old_free));
        assert forall|i: int| 0 <= i < self.nodes@.len() implies link_ok(
            #[trigger] self.nodes@[i].next,
            self.nodes@.len() as int,
        ) by {
            if i < len {
                assert(self.nodes@[i] == self.nodes@.subrange(0, len as int)[i]);
            } else {
                assert(self.nodes@[i] == block_node(len as int, i - len, old_free));
            }
        }
    }

    /// Takes the first node of the free list, adding a block first when the
    /// free list is empty. The node is unlinked (its `next` cleared) and returned.
    pub fn alloc_node(&mut self) -> (r: Option<usize>)
        requires
            old(self).wf(),
            old(self).has_room(),
        ensures
            final(self).wf(),
            ({
                let (nodes0, free0) = supply(old(self).nodes@, old(self).free_list);
                let f = free0->0;
                &&& r == free0
                &&& free0 is Some
                &&& f < nodes0.len()
                &&& final(self).nodes@ == nodes0.update(f as int, Node { data: nodes0[f as int].data, next: None })
                &&& final(self).free_list == nodes0[f as int].next
            }),
    {
        if self.free_list.is_none() {
            self.add_block();
            assert(self.nodes@ =~= supply(old(self).nodes@, old(self).free_list).0);
        }
        match self.free_list {
            Some(f) => {
                let mut node = self.nodes[f];
                let next = node.next;
                node.next = None;
                self.nodes.set(f, node);
                self.free_list = next;
                assert forall|i: int| 0 <= i < self.nodes@.len() implies link_ok(
                    #[trigger] self.nodes@[i].next,
                    self.nodes@.len() as int,
                ) by {
                    if i != f {
                        assert(self.nodes@[i] == old(self).nodes@.add(fresh_block(old(self).nodes@.len() as int, None))[i] || self.nodes@[i] == old(self).nodes@[i]);
                    }
                }
                Some(f)
            },
            None => None,
        }
    }

    /// Returns a node to the pool, putting it in front of the free list.
    pub fn free(&mut self, node: usize)
        requires
            old(self).wf(),
            node < old(self).nodes@.len(),
        ensures
            final(self).wf(),
            final(self).nodes@ == old(self).nodes@.update(
                node as int,
                Node { data: old(self).nodes@[node as int].data, next: old(self).free_list },
            ),
            final(self).free_list == Some(node),
            final(self).blocks == old(self).blocks,
    {
        let mut n = self.nodes[node];
        n.next = self.free_list;
        self.nodes.set(node, n);
        self.free_list = Some(node);
    }

    /// Releases all nodes and blocks.
    pub fn destroy(&mut self)
        ensures
            final(self).wf(),
            final(self).nodes@.len() == 0,
            final(self).blocks@.len() == 0,
            final(self).free_list is None,
    {
        self.nodes = Vec::new();
        self.blocks = Vec::new();
        self.free_list = None;
    }
}


/// Adds a node holding `value` at the front of the list starting at `head`,
/// taking it from the pool's free list (growing the pool when that is empty).
pub fn push_front(head: &mut Option<usize>, value: i32, pool: &mut ListMemPool)
    requires
        old(pool).wf(),
        old(pool).has_room(),
        link_ok(*old(head), old(pool).nodes@.len() as int),
    ensures
        final(pool).wf(),
        ({
            let (nodes0, free0) = supply(old(pool).nodes@, old(pool).free_list);
            let f = free0->0;
            &&& free0 is Some
            &&& f < nodes0.len()
            &&& *final(head) == free0
            &&& final(pool).nodes@ == nodes0.update(f as int, Node { data: value, next: *old(head) })
            &&& final(pool).free_list == nodes0[f as int].next
        }),
{
    let new_node = pool.alloc_node().unwrap();
    let mut node = pool.nodes[new_node];
    node.data = value;
    node.next = *head;
    pool.nodes.set(new_node, node);
    *head = Some(new_node);
}

/// Removes the first node holding `value` from the list starting at `head`
/// and returns it to the pool's free list. Returns whether a node was removed.
pub fn erase_list(head: &mut Option<usize>, value: i32, pool: &mut ListMemPool) -> (r: bool)
    requires
        old(pool).wf(),
        is_list(old(pool).nodes@, *old(head)),
    ensures
        final(pool).wf(),
        forall|s: Seq<usize>| #[trigger] is_chain(old(pool).nodes@, *old(head), s) ==> {
            let nodes = old(pool).nodes@;
            let k = first_pos(chain_values(nodes, s), value);
            let nxt = nodes[s[k] as int].next;
            &&& r == (k >= 0)
            &&& k < 0 ==> *final(head) == *old(head) && final(pool).nodes@ == nodes
                && final(pool).free_list == old(pool).free_list
            &&& k >= 0 ==> {
                &&& *final(head) == (if k == 0 { nxt } else { *old(head) })
                &&& final(pool).nodes@ == (if k == 0 {
                    nodes
                } else {
                    nodes.update(s[k - 1] as int, Node { data: nodes[s[k - 1] as int].data, next: nxt })
                }).update(s[k] as int, Node { data: nodes[s[k] as int].data, next: old(pool).free_list })
                &&& final(pool).free_list == Some(s[k])
            }
        },
{
    let ghost nodes = pool.nodes@;
    let ghost s = choose|s: Seq<usize>| is_chain(nodes, *head, s);
    let ghost vals = chain_values(nodes, s);
    let mut prev: Option<usize> = None;
    let mut cur: Option<usize> = *head;
    let ghost mut k: int = 0;
    while cur.is_some()
        invariant
            pool.wf(),
            pool.nodes@ == nodes,
            nodes == old(pool).nodes@,
            pool.free_list == old(pool).free_list,
            *head == *old(head),
            is_chain(nodes, *head, s),
            vals == chain_values(nodes, s),
            0 <= k <= s.len(),
            cur == (if k < s.len() { Some(s[k]) } else { None::<usize> }),
            prev == (if k == 0 { None::<usize> } else { Some(s[k - 1]) }),
            forall|j: int| 0 <= j < k ==> vals[j] != value,
        decreases s.len() - k,
    {
        let c = cur.unwrap();
        let node = pool.nodes[c];
        if node.data == value {
            proof {
                assert(vals[k] == nodes[s[k] as int].data);
                lemma_first_pos(vals, value, k);
                if k > 0 {
                    assert(s[k - 1] != s[k]);
                }
            }
            let next = node.next;
            match prev {
                Some(p) => {
                    let mut pn = pool.nodes[p];
                    pn.next = next;
                    pool.nodes.set(p, pn);
                },
                None => {
                    *head = next;
                },
            }
            pool.free(c);
            proof {
                assert forall|t: Seq<usize>| #[trigger] is_chain(old(pool).nodes@, *old(head), t) implies t == s by {
                    lemma_chain_unique(nodes, *old(head), s, t);
                }
            }
            return true;
        }
        proof {
            assert(vals[k] == nodes[s[k] as int].data);
        }
        prev = cur;
        cur = node.next;
        proof {
            k = k + 1;
        }
    }
    proof {
        lemma_first_pos(vals, value, k);
        assert forall|t: Seq<usize>| #[trigger] is_chain(old(pool).nodes@, *old(head), t) implies t == s by {
            lemma_chain_unique(nodes, *old(head), s, t);
        }
    }
    false
}

} // verus!
