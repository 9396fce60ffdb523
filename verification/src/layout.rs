//! How the arena lays a tree out: a subtree is a block of consecutive nodes
//! that ends in its root, children before their parent.

use crate::sourcemap::{
    node_views, optional_texts, texts, InnerSourcemapNode, NodeView, SourcemapDescription,
    SourcemapNode,
};
use vstd::prelude::*;

verus! {

broadcast use vstd::std_specs::vec::group_vec_axioms;

/// The children handles of node `n`; a node without a list has none.
pub open spec fn kids(nodes: Seq<NodeView>, n: int) -> Seq<SourcemapNode> {
    match nodes[n].children {
        Some(list) => list,
        None => Seq::empty(),
    }
}

/// The arena lays a subtree out as a block that ends in its root: `first`
/// is where the block of the subtree rooted at `n` begins.
pub open spec fn first(nodes: Seq<NodeView>, n: int) -> int
    decreases n,
{
    let list = kids(nodes, n);
    if list.len() > 0 && 0 <= list[0] < n {
        first(nodes, list[0] as int)
    } else {
        n
    }
}

/// The subtree rooted at `n` is laid out in order: the blocks of the
/// children follow each other without a gap, and the root comes right
/// after the last of them.
pub open spec fn shaped(nodes: Seq<NodeView>, n: int) -> bool
    decreases n,
{
    let list = kids(nodes, n);
    &&& 0 <= n < nodes.len()
    &&& list.len() > 0 ==> list.last() == n - 1
    &&& forall|k: int|
        0 <= k < list.len() ==> {
            &&& 0 <= #[trigger] list[k] < n
            &&& shaped(nodes, list[k] as int)
            &&& k + 1 < list.len() ==> first(nodes, list[k + 1] as int) == list[k] + 1
        }
}

/// Node `id` and what hangs below it say what `description` says: the same
/// name, class and files, and child by child the same again.
pub open spec fn represents(nodes: Seq<NodeView>, id: int, description: SourcemapDescription) -> bool
    decreases description,
{
    &&& 0 <= id < nodes.len()
    &&& nodes[id].name == description.name@
    &&& nodes[id].instance_class == description.instance_class
    &&& nodes[id].file_paths == optional_texts(description.file_paths)
    &&& match description.children {
        None => nodes[id].children is None,
        Some(below) => {
            &&& nodes[id].children matches Some(list)
            &&& list.len() == below.len()
            &&& forall|k: int|
                0 <= k < below.len() ==> list[k] < id && represents(
                    nodes,
                    #[trigger] list[k] as int,
                    below[k],
                )
        },
    }
}

/// Two nodes that differ at most in their parent.
pub open spec fn same_but_parent(x: NodeView, y: NodeView) -> bool {
    &&& x.name == y.name
    &&& x.instance_class == y.instance_class
    &&& x.file_paths == y.file_paths
    &&& x.children == y.children
}

/// Two arenas that hold, up to and including `n`, the same nodes but for
/// their parents.
pub open spec fn same_up_to(a: Seq<NodeView>, b: Seq<NodeView>, n: int) -> bool {
    &&& n < a.len()
    &&& n < b.len()
    &&& forall|i: int| 0 <= i <= n ==> same_but_parent(#[trigger] a[i], b[i])
}

/// The layout of a subtree depends on nothing above its root, nor on any
/// parent.
pub proof fn lemma_shape_frame(a: Seq<NodeView>, b: Seq<NodeView>, n: int)
    requires
        0 <= n,
        same_up_to(a, b, n),
    ensures
        first(a, n) == first(b, n),
        shaped(a, n) == shaped(b, n),
    decreases n,
{
    let list = kids(a, n);
    assert(same_but_parent(a[n], b[n]));
    assert(kids(b, n) == list);
    if list.len() > 0 && 0 <= list[0] < n {
        lemma_shape_frame(a, b, list[0] as int);
    }
    assert forall|k: int| 0 <= k < list.len() && 0 <= #[trigger] list[k] < n implies {
        &&& shaped(a, list[k] as int) == shaped(b, list[k] as int)
        &&& first(a, list[k] as int) == first(b, list[k] as int)
    } by {
        lemma_shape_frame(a, b, list[k] as int);
    }
    if shaped(a, n) {
        assert forall|k: int| 0 <= k < list.len() implies {
            &&& 0 <= #[trigger] list[k] < n
            &&& shaped(b, list[k] as int)
            &&& k + 1 < list.len() ==> first(b, list[k + 1] as int) == list[k] + 1
        } by {
            if k + 1 < list.len() {
                assert(0 <= list[k + 1] < n);
            }
        }
    }
    if shaped(b, n) {
        assert forall|k: int| 0 <= k < list.len() implies {
            &&& 0 <= #[trigger] list[k] < n
            &&& shaped(a, list[k] as int)
            &&& k + 1 < list.len() ==> first(a, list[k + 1] as int) == list[k] + 1
        } by {
            if k + 1 < list.len() {
                assert(0 <= list[k + 1] < n);
            }
        }
    }
}

/// What a subtree represents depends on nothing above its root, nor on any
/// parent.
pub proof fn lemma_represents_frame(
    a: Seq<NodeView>,
    b: Seq<NodeView>,
    id: int,
    description: SourcemapDescription,
)
    requires
        same_up_to(a, b, id),
        represents(a, id, description),
    ensures
        represents(b, id, description),
    decreases description,
{
    assert(same_but_parent(a[id], b[id]));
    match description.children {
        None => {},
        Some(below) => {
            let list = a[id].children->0;
            assert forall|k: int| 0 <= k < below.len() implies list[k] < id && represents(
                b,
                #[trigger] list[k] as int,
                below[k],
            ) by {
                lemma_represents_frame(a, b, list[k] as int, below[k]);
            }
        },
    }
}

/// The block of a well laid out subtree begins at or before its root.
pub proof fn lemma_first_bounds(nodes: Seq<NodeView>, n: int)
    requires
        shaped(nodes, n),
    ensures
        0 <= first(nodes, n) <= n,
    decreases n,
{
    let list = kids(nodes, n);
    if list.len() > 0 && 0 <= list[0] < n {
        lemma_first_bounds(nodes, list[0] as int);
    }
}

/// A copy of a list of strings.
fn copy_texts(list: &Vec<String>) -> (copy: Vec<String>)
    ensures
        texts(copy@) == texts(list@),
{
    let mut copy: Vec<String> = Vec::new();
    let mut i: usize = 0;
    while i < list.len()
        invariant
            i <= list.len(),
            copy@.len() == i,
            forall|j: int| 0 <= j < i ==> copy@[j]@ == list@[j]@,
        decreases list.len() - i,
    {
        copy.push(list[i].clone());
        i += 1;
    }
    assert(texts(copy@) =~= texts(list@));
    copy
}

/// A copy of an optional list of strings.
fn copy_optional_texts(list: &Option<Vec<String>>) -> (copy: Option<Vec<String>>)
    ensures
        optional_texts(copy) == optional_texts(*list),
{
    match list {
        Some(v) => Some(copy_texts(v)),
        None => None,
    }
}

/// Appends the subtree that `description` nests to the arena, children
/// before their parent, and returns the handle of its root. The nodes it
/// appends have no parent yet.
pub fn flatten(description: &SourcemapDescription, nodes: &mut Vec<InnerSourcemapNode>) -> (id:
    SourcemapNode)
    ensures
        old(nodes)@.len() < final(nodes)@.len(),
        id == final(nodes)@.len() - 1,
        final(nodes)@.subrange(0, old(nodes)@.len() as int) == old(nodes)@,
        represents(node_views(final(nodes)@), id as int, *description),
        shaped(node_views(final(nodes)@), id as int),
        first(node_views(final(nodes)@), id as int) == old(nodes)@.len(),
        forall|i: int| old(nodes)@.len() <= i < final(nodes)@.len() ==> final(nodes)@[i].parent is None,
    decreases description,
{
    let ghost before = nodes@;
    let mut list: Vec<SourcemapNode> = Vec::new();
    let has_children = description.children.is_some();
    match &description.children {
        Some(below) => {
            let mut k: usize = 0;
            while k < below.len()
                invariant
                    description.children == Some(*below),
                    k <= below.len(),
                    list@.len() == k,
                    before.len() <= nodes@.len(),
                    nodes@.subrange(0, before.len() as int) == before,
                    k == 0 ==> nodes@.len() == before.len(),
                    k > 0 ==> list@[k - 1] == nodes@.len() - 1,
                    k > 0 ==> first(node_views(nodes@), list@[0] as int) == before.len(),
                    forall|j: int|
                        0 <= j < k ==> {
                            &&& before.len() <= #[trigger] list@[j] < nodes@.len()
                            &&& represents(node_views(nodes@), list@[j] as int, below@[j])
                            &&& shaped(node_views(nodes@), list@[j] as int)
                            &&& j + 1 < k ==> first(node_views(nodes@), list@[j + 1] as int)
                                == list@[j] + 1
                        },
                    forall|i: int| before.len() <= i < nodes@.len() ==> nodes@[i].parent is None,
                decreases below.len() - k,
            {
                let ghost earlier = nodes@;
                assert(description.children->0 == *below);
                let child = flatten(&below[k], nodes);
                proof {
                    let a = node_views(earlier);
                    let b = node_views(nodes@);
                    assert forall|i: int| 0 <= i < earlier.len() implies #[trigger] nodes@[i]
                        == earlier[i] by {
                        assert(nodes@.subrange(0, earlier.len() as int)[i] == nodes@[i]);
                    }
                    assert forall|j: int| 0 <= j < k implies {
                        &&& represents(b, #[trigger] list@[j] as int, below@[j])
                        &&& shaped(b, list@[j] as int)
                        &&& first(b, list@[j] as int) == first(a, list@[j] as int)
                    } by {
                        lemma_represents_frame(a, b, list@[j] as int, below@[j]);
                        lemma_shape_frame(a, b, list@[j] as int);
                    }
                    assert(nodes@.subrange(0, before.len() as int) =~= before);
                }
                list.push(child);
                k += 1;
            }
        },
        None => {},
    }
    let node = InnerSourcemapNode {
        name: description.name.clone(),
        instance_class: description.instance_class,
        parent: None,
        file_paths: copy_optional_texts(&description.file_paths),
        children: if has_children {
            Some(list)
        } else {
            None
        },
    };
    let ghost earlier = nodes@;
    nodes.push(node);
    let id = nodes.len() - 1;
    proof {
        let a = node_views(earlier);
        let b = node_views(nodes@);
        assert forall|j: int| 0 <= j < list@.len() implies {
            &&& represents(b, #[trigger] list@[j] as int, description.children->0@[j])
            &&& shaped(b, list@[j] as int)
            &&& first(b, list@[j] as int) == first(a, list@[j] as int)
        } by {
            lemma_represents_frame(a, b, list@[j] as int, description.children->0@[j]);
            lemma_shape_frame(a, b, list@[j] as int);
        }
        assert(nodes@.subrange(0, before.len() as int) =~= before);
        assert(kids(b, id as int) == list@);
    }
    id
}

/// In a well laid out subtree, every node below the root lies in the block
/// of one of the root's children: the result is the position of that child.
proof fn lemma_find_block(nodes: Seq<NodeView>, n: int, m: int, k: int) -> (r: int)
    requires
        shaped(nodes, n),
        0 <= k < kids(nodes, n).len(),
        first(nodes, n) <= m <= kids(nodes, n)[k],
    ensures
        0 <= r <= k,
        first(nodes, kids(nodes, n)[r] as int) <= m <= kids(nodes, n)[r],
    decreases k,
{
    let list = kids(nodes, n);
    assert(0 <= list[0] < n);
    if first(nodes, list[k] as int) <= m {
        k
    } else {
        assert(0 <= list[k - 1] < n);
        lemma_find_block(nodes, n, m, k - 1)
    }
}

/// The children of a well laid out node stand in ascending order, and the
/// block of each begins no earlier than the block of the node.
pub proof fn lemma_children_ascend(nodes: Seq<NodeView>, n: int, i: int, j: int)
    requires
        shaped(nodes, n),
        0 <= i <= j < kids(nodes, n).len(),
    ensures
        first(nodes, n) <= first(nodes, kids(nodes, n)[i] as int) <= kids(nodes, n)[i],
        i < j ==> kids(nodes, n)[i] < kids(nodes, n)[j],
        kids(nodes, n)[j] < n,
    decreases j,
{
    let list = kids(nodes, n);
    assert(0 <= list[0] < n);
    assert(0 <= list[i] < n);
    assert(0 <= list[j] < n);
    lemma_first_bounds(nodes, list[i] as int);
    lemma_first_bounds(nodes, list[j] as int);
    if j > 0 {
        assert(0 <= list[j - 1] < n);
        if i < j {
            lemma_children_ascend(nodes, n, i, j - 1);
        } else {
            lemma_children_ascend(nodes, n, i - 1, j - 1);
        }
    }
}

/// Every node in the block of a well laid out subtree is itself the root
/// of a well laid out subtree.
pub proof fn lemma_block_closed(nodes: Seq<NodeView>, n: int, m: int)
    requires
        shaped(nodes, n),
        first(nodes, n) <= m <= n,
    ensures
        shaped(nodes, m),
    decreases n,
{
    if m < n {
        let list = kids(nodes, n);
        assert(list.len() > 0);
        let r = lemma_find_block(nodes, n, m, list.len() - 1);
        assert(0 <= list[r] < n);
        lemma_block_closed(nodes, list[r] as int, m);
    }
}

/// Every node below the root of a well laid out subtree is listed as a
/// child by a node of that subtree: the result is that node and the
/// position in its list.
pub proof fn lemma_listed_below(nodes: Seq<NodeView>, n: int, m: int) -> (slot: (int, int))
    requires
        shaped(nodes, n),
        first(nodes, n) <= m < n,
    ensures
        m < slot.0 <= n,
        0 <= slot.1 < kids(nodes, slot.0).len(),
        kids(nodes, slot.0)[slot.1] == m,
    decreases n,
{
    let list = kids(nodes, n);
    assert(list.len() > 0);
    let r = lemma_find_block(nodes, n, m, list.len() - 1);
    assert(0 <= list[r] < n);
    if m == list[r] {
        (n, r)
    } else {
        lemma_listed_below(nodes, list[r] as int, m)
    }
}

/// No two of the descriptions share a name.
pub open spec fn distinct_names(below: Seq<SourcemapDescription>) -> bool {
    forall|i: int, j: int| 0 <= i < j < below.len() ==> below[i].name@ != below[j].name@
}

/// A description is valid where no two children of one node share a name,
/// at any depth.
pub open spec fn valid_description(description: SourcemapDescription) -> bool
    decreases description,
{
    match description.children {
        None => true,
        Some(below) => {
            &&& distinct_names(below@)
            &&& forall|k: int| 0 <= k < below.len() ==> valid_description(#[trigger] below[k])
        },
    }
}

/// Every node in the block of a subtree that represents a description
/// represents a part of that description: the result is that part. The
/// part of a valid description is valid.
pub proof fn lemma_part_of_description(
    nodes: Seq<NodeView>,
    id: int,
    description: SourcemapDescription,
    m: int,
) -> (part: SourcemapDescription)
    requires
        shaped(nodes, id),
        represents(nodes, id, description),
        first(nodes, id) <= m <= id,
    ensures
        represents(nodes, m, part),
        valid_description(description) ==> valid_description(part),
    decreases description,
{
    if m == id {
        description
    } else {
        let list = kids(nodes, id);
        assert(list.len() > 0);
        let r = lemma_find_block(nodes, id, m, list.len() - 1);
        assert(0 <= list[r] < id);
        let below = description.children->0;
        assert(represents(nodes, list[r] as int, below[r]));
        lemma_part_of_description(nodes, list[r] as int, below[r], m)
    }
}

} // verus!
