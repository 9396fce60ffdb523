//! The pass that gives every node its parent, once the arena is laid out.

use crate::layout::{
    first, kids, lemma_first_bounds, lemma_shape_frame, same_but_parent, same_up_to, shaped,
};
use crate::sourcemap::{node_views, InnerSourcemapNode, NodeView, SourcemapNode};
use vstd::prelude::*;

verus! {

/// Two nodes that are the same but, at most, for their parent.
pub open spec fn relinked(x: InnerSourcemapNode, y: InnerSourcemapNode) -> bool {
    &&& x.name == y.name
    &&& x.instance_class == y.instance_class
    &&& x.file_paths == y.file_paths
    &&& x.children == y.children
}

/// `after` holds the nodes of `before`, each the same but, at most, for its
/// parent.
#[verifier::opaque]
pub open spec fn all_relinked(
    before: Seq<InnerSourcemapNode>,
    after: Seq<InnerSourcemapNode>,
) -> bool {
    &&& after.len() == before.len()
    &&& forall|i: int| 0 <= i < before.len() ==> relinked(before[i], #[trigger] after[i])
}

/// From `lo` up to, not including, `hi` the nodes of `after` are those of
/// `before`, parents included.
#[verifier::opaque]
pub open spec fn kept(
    before: Seq<InnerSourcemapNode>,
    after: Seq<InnerSourcemapNode>,
    lo: int,
    hi: int,
) -> bool {
    forall|i: int| 0 <= i < before.len() && lo <= i < hi ==> #[trigger] after[i] == before[i]
}

/// Every node that a node from `lo` up to, not including, `hi` lists as a
/// child stands before that node in the arena and has it as its parent.
#[verifier::opaque]
pub open spec fn linked(nodes: Seq<NodeView>, lo: int, hi: int) -> bool {
    forall|p: int, k: int|
        lo <= p < hi && 0 <= p < nodes.len() && 0 <= k < kids(nodes, p).len() ==> {
            &&& 0 <= #[trigger] kids(nodes, p)[k] < p
            &&& nodes[kids(nodes, p)[k] as int].parent matches Some(q) && q == p
        }
}

/// The first `count` children of `node` stand before `bound` in the arena
/// and have `node` as their parent.
#[verifier::opaque]
spec fn adopted(nodes: Seq<NodeView>, node: int, count: int, bound: int) -> bool {
    forall|k: int|
        0 <= k < count && k < kids(nodes, node).len() ==> {
            &&& 0 <= #[trigger] kids(nodes, node)[k] < bound
            &&& nodes[kids(nodes, node)[k] as int].parent matches Some(q) && q == node
        }
}

/// Where the block of the child at position `k` of `node` begins, said
/// without looking into the child.
spec fn block_start(nodes: Seq<NodeView>, node: int, k: int) -> int {
    if k == 0 {
        first(nodes, node)
    } else {
        kids(nodes, node)[k - 1] + 1
    }
}

/// What holds while the children of `node` are visited in order, once the
/// first `k` of them are done.
spec fn visiting(
    before: Seq<InnerSourcemapNode>,
    now: Seq<InnerSourcemapNode>,
    node: int,
    parent: Option<SourcemapNode>,
    k: int,
) -> bool {
    let shape = node_views(before);
    let start = first(shape, node);
    let done = block_start(shape, node, k);
    &&& shaped(shape, node)
    &&& 0 <= k <= kids(shape, node).len()
    &&& 0 <= start <= done <= node
    &&& all_relinked(before, now)
    &&& kept(before, now, 0, start)
    &&& kept(before, now, node + 1, before.len() as int)
    &&& kept(before, now, done, node)
    &&& now[node].parent == parent
    &&& linked(node_views(now), start, done)
    &&& adopted(node_views(now), node, k, done)
}

/// Relinking twice is relinking.
proof fn lemma_relinked_twice(
    a: Seq<InnerSourcemapNode>,
    b: Seq<InnerSourcemapNode>,
    c: Seq<InnerSourcemapNode>,
)
    requires
        all_relinked(a, b),
        all_relinked(b, c),
    ensures
        all_relinked(a, c),
{
    reveal(all_relinked);
    assert forall|i: int| 0 <= i < a.len() implies relinked(a[i], #[trigger] c[i]) by {
        assert(relinked(a[i], b[i]));
        assert(relinked(b[i], c[i]));
    }
}

/// What two steps each keep in a range, both keep where the ranges meet.
proof fn lemma_kept_twice(
    a: Seq<InnerSourcemapNode>,
    b: Seq<InnerSourcemapNode>,
    c: Seq<InnerSourcemapNode>,
    lo: int,
    hi: int,
    lo1: int,
    hi1: int,
    lo2: int,
    hi2: int,
)
    requires
        a.len() == b.len(),
        kept(a, b, lo1, hi1),
        kept(b, c, lo2, hi2),
        lo1 <= lo && hi <= hi1,
        lo2 <= lo && hi <= hi2,
    ensures
        kept(a, c, lo, hi),
{
    reveal(kept);
    assert forall|i: int| 0 <= i < a.len() && lo <= i < hi implies #[trigger] c[i] == a[i] by {
        assert(b[i] == a[i]);
    }
}

/// Relinking keeps what the nodes are but for their parents: the lists of
/// children, and so the layout.
pub proof fn lemma_relinked_shape(
    before: Seq<InnerSourcemapNode>,
    now: Seq<InnerSourcemapNode>,
    n: int,
)
    requires
        all_relinked(before, now),
        0 <= n < before.len(),
    ensures
        same_up_to(node_views(before), node_views(now), n),
        first(node_views(before), n) == first(node_views(now), n),
        shaped(node_views(before), n) == shaped(node_views(now), n),
        kids(node_views(before), n) == kids(node_views(now), n),
{
    reveal(all_relinked);
    let a = node_views(before);
    let b = node_views(now);
    assert forall|i: int| 0 <= i <= n implies same_but_parent(#[trigger] a[i], b[i]) by {
        assert(relinked(before[i], now[i]));
    }
    lemma_shape_frame(a, b, n);
}

/// Before the child at position `k` is visited: it is the root of a well
/// laid out subtree, whose block begins where the work so far ends.
proof fn lemma_before_visit(
    before: Seq<InnerSourcemapNode>,
    now: Seq<InnerSourcemapNode>,
    node: int,
    parent: Option<SourcemapNode>,
    k: int,
)
    requires
        visiting(before, now, node, parent, k),
        k < kids(node_views(before), node).len(),
    ensures
        now.len() == before.len(),
        kids(node_views(now), node) == kids(node_views(before), node),
        block_start(node_views(before), node, k) <= kids(node_views(before), node)[k] < node,
        shaped(node_views(now), kids(node_views(before), node)[k] as int),
        first(node_views(now), kids(node_views(before), node)[k] as int) == block_start(
            node_views(before),
            node,
            k,
        ),
{
    let shape = node_views(before);
    let list = kids(shape, node);
    let child = list[k] as int;
    assert(0 <= list[k] < node);
    if k > 0 {
        assert(0 <= list[k - 1] < node);
    }
    lemma_first_bounds(shape, child);
    lemma_relinked_shape(before, now, child);
    lemma_relinked_shape(before, now, node);
    assert(now.len() == before.len()) by {
        reveal(all_relinked);
    }
}

/// Links made below `mid` stay when nothing below `mid` changes, and join
/// those made from `mid` on.
proof fn lemma_linked_joins(
    earlier: Seq<InnerSourcemapNode>,
    now: Seq<InnerSourcemapNode>,
    lo: int,
    mid: int,
    hi: int,
)
    requires
        all_relinked(earlier, now),
        kept(earlier, now, 0, mid),
        linked(node_views(earlier), lo, mid),
        linked(node_views(now), mid, hi),
    ensures
        linked(node_views(now), lo, hi),
{
    reveal(all_relinked);
    reveal(kept);
    reveal(linked);
    let old = node_views(earlier);
    let cur = node_views(now);
    assert forall|p: int, k: int|
        lo <= p < hi && 0 <= p < cur.len() && 0 <= k < kids(cur, p).len() implies {
        &&& 0 <= #[trigger] kids(cur, p)[k] < p
        &&& cur[kids(cur, p)[k] as int].parent matches Some(q) && q == p
    } by {
        if p < mid {
            assert(relinked(earlier[p], now[p]));
            assert(kids(old, p) == kids(cur, p));
            let target = kids(old, p)[k] as int;
            assert(0 <= target < p);
            assert(now[target] == earlier[target]);
        }
    }
}

/// The children adopted so far stay adopted when nothing below `mid`
/// changes, and the child at position `k` joins them.
proof fn lemma_adopted_grows(
    earlier: Seq<InnerSourcemapNode>,
    now: Seq<InnerSourcemapNode>,
    node: int,
    k: int,
    mid: int,
)
    requires
        all_relinked(earlier, now),
        kept(earlier, now, 0, mid),
        0 <= node < earlier.len(),
        adopted(node_views(earlier), node, k, mid),
        0 <= k < kids(node_views(earlier), node).len(),
        mid <= kids(node_views(earlier), node)[k] < earlier.len(),
        now[kids(node_views(earlier), node)[k] as int].parent matches Some(q) && q == node,
    ensures
        adopted(node_views(now), node, k + 1, kids(node_views(earlier), node)[k] + 1),
{
    reveal(all_relinked);
    reveal(kept);
    reveal(adopted);
    let old = node_views(earlier);
    let cur = node_views(now);
    assert(relinked(earlier[node], now[node]));
    assert(kids(old, node) == kids(cur, node));
    assert forall|j: int| 0 <= j < k + 1 && j < kids(cur, node).len() implies {
        &&& 0 <= #[trigger] kids(cur, node)[j] < kids(old, node)[k] + 1
        &&& cur[kids(cur, node)[j] as int].parent matches Some(q) && q == node
    } by {
        if j < k {
            let target = kids(old, node)[j] as int;
            assert(0 <= target < mid);
            assert(now[target] == earlier[target]);
        }
    }
}

/// A node that a step keeps has the parent it had.
proof fn lemma_kept_at(
    before: Seq<InnerSourcemapNode>,
    after: Seq<InnerSourcemapNode>,
    lo: int,
    hi: int,
    i: int,
)
    requires
        kept(before, after, lo, hi),
        0 <= i < before.len(),
        lo <= i < hi,
    ensures
        after[i] == before[i],
{
    reveal(kept);
}

/// After the child at position `k` was visited, `k + 1` children are done.
proof fn lemma_after_visit(
    before: Seq<InnerSourcemapNode>,
    earlier: Seq<InnerSourcemapNode>,
    now: Seq<InnerSourcemapNode>,
    node: int,
    parent: Option<SourcemapNode>,
    k: int,
)
    requires
        visiting(before, earlier, node, parent, k),
        k < kids(node_views(before), node).len(),
        node < before.len(),
        all_relinked(earlier, now),
        ({
            let child = kids(node_views(before), node)[k] as int;
            let start = block_start(node_views(before), node, k);
            &&& kept(earlier, now, 0, start)
            &&& kept(earlier, now, child + 1, earlier.len() as int)
            &&& now[child].parent matches Some(q) && q == node
            &&& linked(node_views(now), start, child + 1)
        }),
    ensures
        visiting(before, now, node, parent, k + 1),
{
    let shape = node_views(before);
    let child = kids(shape, node)[k] as int;
    let start = first(shape, node);
    let done = block_start(shape, node, k);
    lemma_before_visit(before, earlier, node, parent, k);
    lemma_relinked_twice(before, earlier, now);
    lemma_kept_twice(before, earlier, now, 0, start, 0, start, 0, done);
    lemma_kept_twice(
        before,
        earlier,
        now,
        node + 1,
        before.len() as int,
        node + 1,
        before.len() as int,
        child + 1,
        earlier.len() as int,
    );
    lemma_kept_twice(
        before,
        earlier,
        now,
        child + 1,
        node,
        done,
        node,
        child + 1,
        earlier.len() as int,
    );
    lemma_kept_at(earlier, now, child + 1, earlier.len() as int, node);
    lemma_linked_joins(earlier, now, start, done, child + 1);
    lemma_adopted_grows(earlier, now, node, k, done);
    assert(block_start(shape, node, k + 1) == child + 1);
}

/// Once every child is done, so is the block.
proof fn lemma_all_visited(
    before: Seq<InnerSourcemapNode>,
    now: Seq<InnerSourcemapNode>,
    node: int,
    parent: Option<SourcemapNode>,
)
    requires
        node < before.len(),
        visiting(before, now, node, parent, kids(node_views(before), node).len() as int),
    ensures
        linked(node_views(now), first(node_views(before), node), node + 1),
{
    let shape = node_views(before);
    let cur = node_views(now);
    let list = kids(shape, node);
    let start = first(shape, node);
    lemma_relinked_shape(before, now, node);
    assert(block_start(shape, node, list.len() as int) == node);
    reveal(linked);
    reveal(adopted);
    assert forall|p: int, j: int|
        start <= p < node + 1 && 0 <= p < cur.len() && 0 <= j < kids(cur, p).len() implies {
        &&& 0 <= #[trigger] kids(cur, p)[j] < p
        &&& cur[kids(cur, p)[j] as int].parent matches Some(q) && q == p
    } by {
        if p == node {
            assert(kids(cur, node) == list);
        }
    }
}

/// When the parent of `node` is set and nothing else, the visit of its
/// children can begin.
proof fn lemma_visit_begins(
    before: Seq<InnerSourcemapNode>,
    now: Seq<InnerSourcemapNode>,
    node: int,
    parent: Option<SourcemapNode>,
)
    requires
        shaped(node_views(before), node),
        now.len() == before.len(),
        relinked(before[node], now[node]),
        now[node].parent == parent,
        forall|i: int| 0 <= i < before.len() && i != node ==> now[i] == before[i],
    ensures
        visiting(before, now, node, parent, 0),
{
    reveal(all_relinked);
    reveal(kept);
    reveal(linked);
    reveal(adopted);
    lemma_first_bounds(node_views(before), node);
}

/// Sets the parent of `node` to `parent`, and the parent of every node
/// below `node` to the node whose list of children holds it. Nothing but
/// parents changes, and none outside the block of `node`.
pub fn populate_parent_field(
    nodes: &mut Vec<InnerSourcemapNode>,
    node: SourcemapNode,
    parent: Option<SourcemapNode>,
)
    requires
        shaped(node_views(old(nodes)@), node as int),
    ensures
        all_relinked(old(nodes)@, final(nodes)@),
        kept(old(nodes)@, final(nodes)@, 0, first(node_views(old(nodes)@), node as int)),
        kept(old(nodes)@, final(nodes)@, node + 1, old(nodes)@.len() as int),
        final(nodes)@[node as int].parent == parent,
        linked(
            node_views(final(nodes)@),
            first(node_views(old(nodes)@), node as int),
            node + 1,
        ),
    decreases node,
{
    let ghost before = nodes@;
    nodes[node].parent = parent;
    proof {
        lemma_visit_begins(before, nodes@, node as int, parent);
    }
    let count = match &nodes[node].children {
        Some(list) => list.len(),
        None => 0,
    };
    let mut k: usize = 0;
    while k < count
        invariant
            node < before.len(),
            nodes@.len() == before.len(),
            count == kids(node_views(before), node as int).len(),
            visiting(before, nodes@, node as int, parent, k as int),
        decreases count - k,
    {
        let ghost earlier = nodes@;
        proof {
            lemma_before_visit(before, earlier, node as int, parent, k as int);
        }
        let child = nodes[node].children.as_ref().unwrap()[k];
        populate_parent_field(nodes, child, Some(node));
        proof {
            assert(nodes@.len() == before.len()) by {
                reveal(all_relinked);
            }
            lemma_after_visit(before, earlier, nodes@, node as int, parent, k as int);
        }
        k += 1;
    }
    proof {
        lemma_all_visited(before, nodes@, node as int, parent);
    }
}

} // verus!
