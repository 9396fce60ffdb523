//! The layout tree: class tags, the nested description a layout file gives,
//! and the arena that owns the nodes once they are linked to their parents.

use crate::layout::{
    first, flatten, kids, lemma_block_closed, lemma_children_ascend, lemma_listed_below,
    lemma_part_of_description, lemma_represents_frame, represents, shaped, valid_description,
};
use crate::linking::{all_relinked, lemma_relinked_shape, linked, populate_parent_field};
use vstd::prelude::*;

verus! {

broadcast use vstd::std_specs::vec::group_vec_axioms;

/// Class tag of a layout node.
#[derive(Debug, Clone, Copy, PartialEq, Eq, Structural)]
pub enum InstanceClass {
    Script,
    LocalScript,
    ModuleScript,
    Folder,
}

impl InstanceClass {
    /// The class name as the characters scripts see.
    pub open spec fn name_spec(self) -> Seq<char> {
        match self {
            InstanceClass::Folder => "Folder"@,
            InstanceClass::ModuleScript => "ModuleScript"@,
            InstanceClass::LocalScript => "LocalScript"@,
            InstanceClass::Script => "Script"@,
        }
    }

    /// Textual class name.
    pub fn to_string(&self) -> (text: String)
        ensures
            text@ == self.name_spec(),
    {
        let name = match self {
            InstanceClass::Folder => "Folder",
            InstanceClass::ModuleScript => "ModuleScript",
            InstanceClass::LocalScript => "LocalScript",
            InstanceClass::Script => "Script",
        };
        name.to_owned()
    }
}

/// Handle of a node: its position in the arena of the tree that owns it.
pub type SourcemapNode = usize;

/// A layout as a description file nests it: every node carries its children.
#[derive(Debug)]
pub struct SourcemapDescription {
    pub name: String,
    pub instance_class: InstanceClass,
    pub file_paths: Option<Vec<String>>,
    pub children: Option<Vec<SourcemapDescription>>,
}

/// One node of the arena. `children` and `parent` are handles into the same
/// arena; the arena owns every node, a handle owns nothing.
#[derive(Debug, Clone)]
pub struct InnerSourcemapNode {
    pub name: String,
    pub instance_class: InstanceClass,
    pub parent: Option<SourcemapNode>,
    pub file_paths: Option<Vec<String>>,
    pub children: Option<Vec<SourcemapNode>>,
}

/// What a node is, with its texts as character sequences.
pub struct NodeView {
    pub name: Seq<char>,
    pub instance_class: InstanceClass,
    pub parent: Option<SourcemapNode>,
    pub file_paths: Option<Seq<Seq<char>>>,
    pub children: Option<Seq<SourcemapNode>>,
}

/// The texts of a list of strings.
pub open spec fn texts(list: Seq<String>) -> Seq<Seq<char>> {
    Seq::new(list.len(), |i: int| list[i]@)
}

/// The texts of an optional list of strings.
pub open spec fn optional_texts(list: Option<Vec<String>>) -> Option<Seq<Seq<char>>> {
    match list {
        Some(v) => Some(texts(v@)),
        None => None,
    }
}

impl View for InnerSourcemapNode {
    type V = NodeView;

    open spec fn view(&self) -> NodeView {
        NodeView {
            name: self.name@,
            instance_class: self.instance_class,
            parent: self.parent,
            file_paths: optional_texts(self.file_paths),
            children: match self.children {
                Some(v) => Some(v@),
                None => None,
            },
        }
    }
}

/// The views of the nodes of an arena, in arena order.
pub open spec fn node_views(nodes: Seq<InnerSourcemapNode>) -> Seq<NodeView> {
    Seq::new(nodes.len(), |i: int| nodes[i]@)
}

/// The arena holds one tree: it is laid out as one block that ends in the
/// root, the root has no parent, and every other node has as its parent
/// the node that lists it as a child.
pub open spec fn well_formed(nodes: Seq<NodeView>) -> bool {
    &&& nodes.len() > 0
    &&& shaped(nodes, nodes.len() - 1)
    &&& first(nodes, nodes.len() - 1) == 0
    &&& nodes[nodes.len() - 1].parent is None
    &&& linked(nodes, 0, nodes.len() as int)
}

/// The first handle in `list` that names a node of the arena called `name`.
pub open spec fn first_named(nodes: Seq<NodeView>, list: Seq<SourcemapNode>, name: Seq<char>) -> Option<
    SourcemapNode,
>
    decreases list.len(),
{
    if list.len() == 0 {
        None
    } else if list[0] < nodes.len() && nodes[list[0] as int].name == name {
        Some(list[0])
    } else {
        first_named(nodes, list.drop_first(), name)
    }
}

/// The child of node `n` called `name`, the first if several are.
pub open spec fn child_named(nodes: Seq<NodeView>, n: int, name: Seq<char>) -> Option<SourcemapNode> {
    first_named(nodes, kids(nodes, n), name)
}

/// Whether the file list of `node` holds exactly `path`.
pub open spec fn owns_file(node: NodeView, path: Seq<char>) -> bool {
    node.file_paths matches Some(list) && list.contains(path)
}

/// The lowest handle of a node whose file list holds exactly `path`, if any
/// node's does.
pub open spec fn owner_of(nodes: Seq<NodeView>, path: Seq<char>) -> Option<SourcemapNode> {
    if exists|n: SourcemapNode| owns_first(nodes, path, n) {
        Some(choose|n: SourcemapNode| owns_first(nodes, path, n))
    } else {
        None
    }
}

/// Whether `n` is a node whose file list holds exactly `path`, and no node
/// with a lower handle is.
pub open spec fn owns_first(nodes: Seq<NodeView>, path: Seq<char>, n: SourcemapNode) -> bool {
    &&& n < nodes.len()
    &&& owns_file(nodes[n as int], path)
    &&& forall|m: int| 0 <= m < n ==> !owns_file(#[trigger] nodes[m], path)
}

/// Whether `list` holds a string with the text of `wanted`.
fn holds_text(list: &Vec<String>, wanted: &String) -> (held: bool)
    ensures
        held == texts(list@).contains(wanted@),
{
    let mut i: usize = 0;
    while i < list.len()
        invariant
            i <= list.len(),
            forall|j: int| 0 <= j < i ==> list@[j]@ != wanted@,
        decreases list.len() - i,
    {
        if list[i] == *wanted {
            assert(texts(list@)[i as int] == wanted@);
            return true;
        }
        i += 1;
    }
    assert forall|j: int| 0 <= j < texts(list@).len() implies texts(list@)[j] != wanted@ by {
        assert(texts(list@)[j] == list@[j]@);
    }
    false
}

/// The layout tree: an arena of nodes that is well formed from the moment
/// it exists and never changes afterwards.
#[derive(Debug)]
pub struct Sourcemap {
    nodes: Vec<InnerSourcemapNode>,
}

impl View for Sourcemap {
    type V = Seq<NodeView>;

    closed spec fn view(&self) -> Seq<NodeView> {
        node_views(self.nodes@)
    }
}

impl Sourcemap {
    #[verifier::type_invariant]
    spec fn arena_holds_one_tree(self) -> bool {
        well_formed(self@)
    }

    /// The tree that `description` nests, every node linked to its parent.
    pub fn from_description(description: &SourcemapDescription) -> (tree: Sourcemap)
        ensures
            well_formed(tree@),
            represents(tree@, tree@.len() - 1, *description),
    {
        let mut nodes: Vec<InnerSourcemapNode> = Vec::new();
        let root = flatten(description, &mut nodes);
        let ghost flat = nodes@;
        populate_parent_field(&mut nodes, root, None);
        proof {
            lemma_relinked_shape(flat, nodes@, root as int);
            lemma_represents_frame(node_views(flat), node_views(nodes@), root as int, *description);
            assert(nodes@.len() == flat.len()) by {
                reveal(all_relinked);
            }
        }
        Sourcemap { nodes }
    }

    /// How many nodes the tree has; never zero.
    pub fn len(&self) -> (count: usize)
        ensures
            count == self@.len(),
            count > 0,
    {
        proof {
            use_type_invariant(self);
        }
        self.nodes.len()
    }

    /// The handle of the root.
    pub fn root(&self) -> (node: SourcemapNode)
        ensures
            node == self@.len() - 1,
    {
        proof {
            use_type_invariant(self);
        }
        self.nodes.len() - 1
    }

    /// Whether `node` is a handle of this tree.
    pub fn contains(&self, node: SourcemapNode) -> (held: bool)
        ensures
            held == (node < self@.len()),
    {
        node < self.nodes.len()
    }

    /// The parent of `node`: nothing for the root, and nothing for a handle
    /// that names no node of this tree.
    pub fn parent(&self, node: SourcemapNode) -> (above: Option<SourcemapNode>)
        ensures
            node < self@.len() ==> above == self@[node as int].parent,
            node >= self@.len() ==> above is None,
    {
        if node < self.nodes.len() {
            self.nodes[node].parent
        } else {
            None
        }
    }

    /// The node that `path` backs: the one with the lowest handle among
    /// those whose file list holds exactly `path`, if there is any.
    pub fn find_by_file_path(&self, path: &str) -> (found: Option<SourcemapNode>)
        ensures
            found == owner_of(self@, path@),
    {
        let wanted = path.to_owned();
        let mut n: usize = 0;
        while n < self.nodes.len()
            invariant
                n <= self.nodes.len(),
                wanted@ == path@,
                forall|m: int| 0 <= m < n ==> !owns_file(#[trigger] self@[m], path@),
            decreases self.nodes.len() - n,
        {
            match &self.nodes[n].file_paths {
                Some(list) => {
                    if holds_text(list, &wanted) {
                        proof {
                            assert(owns_first(self@, path@, n));
                            let other = choose|other: SourcemapNode| owns_first(self@, path@, other);
                            if other < n {
                                assert(!owns_file(self@[other as int], path@));
                            }
                            if n < other {
                                assert(!owns_file(self@[n as int], path@));
                            }
                        }
                        return Some(n);
                    }
                },
                None => {},
            }
            n += 1;
        }
        proof {
            if exists|other: SourcemapNode| owns_first(self@, path@, other) {
                let other = choose|other: SourcemapNode| owns_first(self@, path@, other);
                assert(!owns_file(self@[other as int], path@));
            }
        }
        None
    }

    /// The node that `node` names.
    pub fn get(&self, node: SourcemapNode) -> (inner: &InnerSourcemapNode)
        requires
            node < self@.len(),
        ensures
            inner@ == self@[node as int],
    {
        &self.nodes[node]
    }

    /// The node that `node` names, if it names one.
    pub fn node(&self, node: SourcemapNode) -> (found: Option<&InnerSourcemapNode>)
        ensures
            node < self@.len() ==> (found matches Some(inner) && inner@ == self@[node as int]),
            node >= self@.len() ==> found is None,
    {
        if node < self.nodes.len() {
            Some(&self.nodes[node])
        } else {
            None
        }
    }
}

impl InnerSourcemapNode {
    /// The handles of the children; a node without a list has none.
    pub open spec fn child_handles(&self) -> Seq<SourcemapNode> {
        match self.children {
            Some(list) => list@,
            None => Seq::empty(),
        }
    }

    /// The first child called `child_name`, exactly and case-sensitively,
    /// among the immediate children that `tree` holds. Handles that name no
    /// node of `tree` are passed over.
    pub fn find_first_child(&self, tree: &Sourcemap, child_name: &str) -> (found: Option<
        SourcemapNode,
    >)
        ensures
            found == first_named(tree@, self.child_handles(), child_name@),
    {
        let wanted = child_name.to_owned();
        match &self.children {
            Some(list) => {
                let mut k: usize = 0;
                assert(list@.skip(0) =~= list@);
                while k < list.len()
                    invariant
                        k <= list.len(),
                        wanted@ == child_name@,
                        self.child_handles() == list@,
                        first_named(tree@, list@, child_name@) == first_named(
                            tree@,
                            list@.skip(k as int),
                            child_name@,
                        ),
                    decreases list.len() - k,
                {
                    let child = list[k];
                    proof {
                        assert(list@.skip(k as int).drop_first() =~= list@.skip(k + 1));
                    }
                    match tree.node(child) {
                        Some(inner) => {
                            if inner.name == wanted {
                                return Some(child);
                            }
                        },
                        None => {},
                    }
                    k += 1;
                }
                None
            },
            None => None,
        }
    }
}

/// Whether `handle` names a node of the arena that is called `name`.
pub open spec fn is_named(nodes: Seq<NodeView>, handle: SourcemapNode, name: Seq<char>) -> bool {
    handle < nodes.len() && nodes[handle as int].name == name
}

/// No two children of one node share a name.
pub open spec fn unique_sibling_names(nodes: Seq<NodeView>) -> bool {
    forall|p: int, i: int, j: int|
        0 <= p < nodes.len() && 0 <= i < j < kids(nodes, p).len() ==> nodes[#[trigger] kids(
            nodes,
            p,
        )[i] as int].name != nodes[#[trigger] kids(nodes, p)[j] as int].name
}

/// A lookup by name returns the first handle in the list that names a node
/// with that name, and nothing only where no handle does.
pub proof fn lemma_first_named_is_first(nodes: Seq<NodeView>, list: Seq<SourcemapNode>, name: Seq<char>)
    ensures
        match first_named(nodes, list, name) {
            Some(found) => exists|k: int|
                0 <= k < list.len() && #[trigger] list[k] == found && is_named(nodes, found, name)
                    && forall|j: int| 0 <= j < k ==> !is_named(nodes, #[trigger] list[j], name),
            None => forall|k: int| 0 <= k < list.len() ==> !is_named(nodes, #[trigger] list[k], name),
        },
    decreases list.len(),
{
    if list.len() > 0 && !is_named(nodes, list[0], name) {
        let rest = list.drop_first();
        lemma_first_named_is_first(nodes, rest, name);
        match first_named(nodes, rest, name) {
            Some(found) => {
                let k = choose|k: int|
                    0 <= k < rest.len() && #[trigger] rest[k] == found && is_named(nodes, found, name)
                        && forall|j: int| 0 <= j < k ==> !is_named(nodes, #[trigger] rest[j], name);
                assert(list[k + 1] == found);
                assert forall|j: int| 0 <= j < k + 1 implies !is_named(
                    nodes,
                    #[trigger] list[j],
                    name,
                ) by {
                    if j > 0 {
                        assert(rest[j - 1] == list[j]);
                    }
                }
            },
            None => {
                assert forall|k: int| 0 <= k < list.len() implies !is_named(
                    nodes,
                    #[trigger] list[k],
                    name,
                ) by {
                    if k > 0 {
                        assert(rest[k - 1] == list[k]);
                    }
                }
            },
        }
    } else if list.len() > 0 {
        let found = list[0];
        assert(list[0] == found && is_named(nodes, found, name));
    }
}

/// The handle at position `k` is what a lookup of its name returns when no
/// handle before it names a node with that name.
pub proof fn lemma_first_named_at(
    nodes: Seq<NodeView>,
    list: Seq<SourcemapNode>,
    name: Seq<char>,
    k: int,
)
    requires
        0 <= k < list.len(),
        is_named(nodes, list[k], name),
        forall|j: int| 0 <= j < k ==> !is_named(nodes, #[trigger] list[j], name),
    ensures
        first_named(nodes, list, name) == Some(list[k]),
    decreases k,
{
    if k > 0 {
        let rest = list.drop_first();
        assert(!is_named(nodes, list[0], name));
        assert forall|j: int| 0 <= j < k - 1 implies !is_named(nodes, #[trigger] rest[j], name) by {
            assert(rest[j] == list[j + 1]);
        }
        lemma_first_named_at(nodes, rest, name, k - 1);
    }
}

/// Every node but the root has exactly one parent: a node above it in the
/// arena that lists it as a child, exactly once, and no other node lists
/// it. The result is the position in the parent's list.
pub proof fn lemma_exactly_one_parent(nodes: Seq<NodeView>, n: int) -> (at: int)
    requires
        well_formed(nodes),
        0 <= n < nodes.len() - 1,
    ensures
        nodes[n].parent matches Some(p) && n < p < nodes.len() && 0 <= at < kids(nodes, p as int).len()
            && kids(nodes, p as int)[at] == n && forall|k: int|
            0 <= k < kids(nodes, p as int).len() && k != at ==> #[trigger] kids(nodes, p as int)[k]
                != n,
        forall|q: int, k: int|
            0 <= q < nodes.len() && 0 <= k < kids(nodes, q).len() && #[trigger] kids(nodes, q)[k]
                == n ==> (nodes[n].parent matches Some(p) && p == q),
{
    reveal(linked);
    let root = nodes.len() - 1;
    let slot = lemma_listed_below(nodes, root, n);
    let p = slot.0;
    let at = slot.1;
    assert(kids(nodes, p)[at] == n);
    lemma_block_closed(nodes, root, p);
    assert forall|k: int| 0 <= k < kids(nodes, p).len() && k != at implies #[trigger] kids(
        nodes,
        p,
    )[k] != n by {
        if k < at {
            lemma_children_ascend(nodes, p, k, at);
        } else {
            lemma_children_ascend(nodes, p, at, k);
        }
    }
    at
}

/// Every node but the root has a parent in the tree, and where no two
/// siblings share a name, looking the node's name up among the children of
/// that parent finds the node itself.
pub proof fn lemma_parent_round_trip(nodes: Seq<NodeView>, n: int)
    requires
        well_formed(nodes),
        unique_sibling_names(nodes),
        0 <= n < nodes.len() - 1,
    ensures
        nodes[n].parent matches Some(p) && n < p < nodes.len() && child_named(
            nodes,
            p as int,
            nodes[n].name,
        ) == Some(n as usize),
{
    let at = lemma_exactly_one_parent(nodes, n);
    let p = nodes[n].parent->0 as int;
    let list = kids(nodes, p);
    assert forall|j: int| 0 <= j < at implies !is_named(nodes, #[trigger] list[j], nodes[n].name) by {
        assert(nodes[kids(nodes, p)[j] as int].name != nodes[kids(nodes, p)[at] as int].name);
    }
    lemma_first_named_at(nodes, list, nodes[n].name, at);
}

/// In the tree of a valid description no two siblings share a name.
pub proof fn lemma_valid_description_names(nodes: Seq<NodeView>, description: SourcemapDescription)
    requires
        well_formed(nodes),
        represents(nodes, nodes.len() - 1, description),
        valid_description(description),
    ensures
        unique_sibling_names(nodes),
{
    assert forall|p: int, i: int, j: int|
        0 <= p < nodes.len() && 0 <= i < j < kids(nodes, p).len() implies nodes[#[trigger] kids(
        nodes,
        p,
    )[i] as int].name != nodes[#[trigger] kids(nodes, p)[j] as int].name by {
        let part = lemma_part_of_description(nodes, nodes.len() - 1, description, p);
        let below = part.children->0;
        let list = kids(nodes, p);
        assert(represents(nodes, list[i] as int, below[i]));
        assert(represents(nodes, list[j] as int, below[j]));
    }
}

/// For every valid description: in the tree that represents it, every node
/// but the root has a parent in the tree, and looking the node's name up
/// among the children of that parent finds the node itself.
pub proof fn lemma_description_round_trip(
    description: SourcemapDescription,
    nodes: Seq<NodeView>,
    n: int,
)
    requires
        valid_description(description),
        well_formed(nodes),
        represents(nodes, nodes.len() - 1, description),
        0 <= n < nodes.len() - 1,
    ensures
        nodes[n].parent matches Some(p) && n < p < nodes.len() && child_named(
            nodes,
            p as int,
            nodes[n].name,
        ) == Some(n as usize),
{
    lemma_valid_description_names(nodes, description);
    lemma_parent_round_trip(nodes, n);
}

} // verus!
