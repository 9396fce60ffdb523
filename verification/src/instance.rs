//! Instances: the objects a script sees, each the mirror of one node of the
//! layout tree, made when a script first reaches it.

use crate::layout::kids;
use crate::linking::linked;
use crate::sourcemap::{
    child_named, lemma_exactly_one_parent, lemma_first_named_is_first, well_formed, InstanceClass,
    NodeView, Sourcemap, SourcemapNode,
};
use vstd::prelude::*;

verus! {

/// An instance as its holders share it.
pub type Instance = Box<InnerInstance>;

/// The mirror of one node: its name and class, copied when the instance is
/// made, the handle of the node, and the instance it was reached from.
#[derive(Debug)]
pub struct InnerInstance {
    pub name: String,
    pub instance_class: InstanceClass,
    pub sourcemap_node: SourcemapNode,
    pub parent: Option<Instance>,
}

/// What an instance is, with its name as a character sequence.
pub struct InstanceView {
    pub name: Seq<char>,
    pub instance_class: InstanceClass,
    pub sourcemap_node: SourcemapNode,
    pub parent: Option<Box<InstanceView>>,
}

/// The name of an instance behind the names of those it was reached from,
/// outermost first, with a dot between each two.
pub open spec fn full_name_of(instance: InstanceView) -> Seq<char>
    decreases instance,
{
    match instance.parent {
        None => instance.name,
        Some(above) => full_name_of(*above) + "."@ + instance.name,
    }
}

/// The instance that mirrors node `n` and, above it, the ancestors of `n`
/// up to the root.
pub open spec fn mirror(nodes: Seq<NodeView>, n: SourcemapNode) -> InstanceView
    decreases nodes.len() - n,
{
    InstanceView {
        name: nodes[n as int].name,
        instance_class: nodes[n as int].instance_class,
        sourcemap_node: n,
        parent: match nodes[n as int].parent {
            Some(p) if n < p < nodes.len() => Some(Box::new(mirror(nodes, p))),
            _ => None,
        },
    }
}

/// The child that indexing the instance of node `n` by `name` reaches: the
/// first child of `n` with that name, none where `n` names no node.
pub open spec fn member(nodes: Seq<NodeView>, n: SourcemapNode, name: Seq<char>) -> Option<
    SourcemapNode,
> {
    if n < nodes.len() {
        child_named(nodes, n as int, name)
    } else {
        None
    }
}

/// What `instance` is, and above it what those it was reached from are.
pub open spec fn view_of(instance: InnerInstance) -> InstanceView
    decreases instance,
{
    InstanceView {
        name: instance.name@,
        instance_class: instance.instance_class,
        sourcemap_node: instance.sourcemap_node,
        parent: match instance.parent {
            Some(above) => Some(Box::new(view_of(*above))),
            None => None,
        },
    }
}

impl View for InnerInstance {
    type V = InstanceView;

    open spec fn view(&self) -> InstanceView {
        view_of(*self)
    }
}

/// Why an index found nothing: the class and the full name of the instance
/// that was indexed, and the name that was asked for.
#[derive(Debug, Clone, PartialEq, Eq)]
pub struct NoSuchMember {
    pub class: InstanceClass,
    pub full_name: String,
    pub requested: String,
}

impl NoSuchMember {
    /// The text of the failure.
    pub open spec fn message_spec(&self) -> Seq<char> {
        self.requested@ + " is not a valid member of "@ + self.class.name_spec() + " \""@
            + self.full_name@ + "\""@
    }

    /// The text of the failure, as a script sees it.
    pub fn message(&self) -> (text: String)
        ensures
            text@ == self.message_spec(),
    {
        let mut text = self.requested.clone();
        text.append(" is not a valid member of ");
        text.append(self.class.to_string().as_str());
        text.append(" \"");
        text.append(self.full_name.as_str());
        text.append("\"");
        text
    }
}

impl InnerInstance {
    /// Wraps the node `sourcemap_node` of `tree`: copies its name and class
    /// and keeps `parent` as given. Looks at no other node.
    pub fn new(tree: &Sourcemap, sourcemap_node: SourcemapNode, parent: Option<Instance>) -> (instance:
        Instance)
        requires
            sourcemap_node < tree@.len(),
        ensures
            instance@ == (InstanceView {
                name: tree@[sourcemap_node as int].name,
                instance_class: tree@[sourcemap_node as int].instance_class,
                sourcemap_node,
                parent: match parent {
                    Some(above) => Some(Box::new(above@)),
                    None => None,
                },
            }),
    {
        let inner = tree.get(sourcemap_node);
        Box::new(
            InnerInstance {
                name: inner.name.clone(),
                instance_class: inner.instance_class,
                sourcemap_node,
                parent,
            },
        )
    }

    /// A copy of the instance and of those it was reached from.
    pub fn duplicate(&self) -> (copy: Instance)
        ensures
            copy@ == self@,
        decreases self,
    {
        let parent = match &self.parent {
            Some(above) => Some(above.duplicate()),
            None => None,
        };
        Box::new(
            InnerInstance {
                name: self.name.clone(),
                instance_class: self.instance_class,
                sourcemap_node: self.sourcemap_node,
                parent,
            },
        )
    }

    /// The instance of `node` with, above it, the instances of its
    /// ancestors up to the root, so that only the root's has no parent.
    pub fn with_ancestors(tree: &Sourcemap, node: SourcemapNode) -> (instance: Instance)
        requires
            node < tree@.len(),
        ensures
            instance@ == mirror(tree@, node),
        decreases tree@.len() - node,
    {
        let parent = match tree.parent(node) {
            Some(above) => {
                if node < above && above < tree.len() {
                    Some(InnerInstance::with_ancestors(tree, above))
                } else {
                    None
                }
            },
            None => None,
        };
        InnerInstance::new(tree, node, parent)
    }

    /// The name, as copied from the node.
    pub fn name(&self) -> (name: &str)
        ensures
            name@ == self@.name,
    {
        self.name.as_str()
    }

    /// The class, as copied from the node.
    pub fn class(&self) -> (class: InstanceClass)
        ensures
            class == self@.instance_class,
    {
        self.instance_class
    }

    /// The instance this one was reached from.
    pub fn parent(&self) -> (above: Option<&InnerInstance>)
        ensures
            match above {
                Some(instance) => self@.parent == Some(Box::new(instance@)),
                None => self@.parent is None,
            },
    {
        match &self.parent {
            Some(above) => Some(&**above),
            None => None,
        }
    }

    /// The text an instance turns into: always the same placeholder, never
    /// the name.
    pub fn to_string(&self) -> (text: String)
        ensures
            text@ == "Instance"@,
    {
        "Instance".to_owned()
    }

    /// The name behind the names of the instances this one was reached
    /// from, outermost first, with a dot between each two.
    pub fn full_name(&self) -> (path: String)
        ensures
            path@ == full_name_of(self@),
        decreases self,
    {
        match &self.parent {
            None => self.name.clone(),
            Some(above) => {
                let mut path = above.full_name();
                path.append(".");
                path.append(self.name.as_str());
                path
            },
        }
    }

    /// Indexes the instance by the name of a child. Where the node has a
    /// child of that name, the result is that child's instance, reached
    /// from this one; where it has none, the failure names the class and
    /// the full name of this instance and the name asked for.
    pub fn index(&self, tree: &Sourcemap, child_name: &str) -> (outcome: Result<Instance, NoSuchMember>)
        ensures
            match member(tree@, self.sourcemap_node, child_name@) {
                Some(child) => outcome matches Ok(instance) && instance@ == (InstanceView {
                    name: tree@[child as int].name,
                    instance_class: tree@[child as int].instance_class,
                    sourcemap_node: child,
                    parent: Some(Box::new(self@)),
                }),
                None => outcome matches Err(failure) && failure.class == self.instance_class
                    && failure.full_name@ == full_name_of(self@) && failure.requested@
                    == child_name@,
            },
    {
        let found = match tree.node(self.sourcemap_node) {
            Some(inner) => inner.find_first_child(tree, child_name),
            None => None,
        };
        match found {
            Some(child) => {
                proof {
                    lemma_first_named_is_first(
                        tree@,
                        kids(tree@, self.sourcemap_node as int),
                        child_name@,
                    );
                }
                Ok(InnerInstance::new(tree, child, Some(self.duplicate())))
            },
            None => Err(
                NoSuchMember {
                    class: self.instance_class,
                    full_name: self.full_name(),
                    requested: child_name.to_owned(),
                },
            ),
        }
    }
}

/// Indexing yields a child of the indexed node that has the name asked
/// for, or fails where no child has it.
pub proof fn lemma_member_is_a_child(nodes: Seq<NodeView>, n: SourcemapNode, name: Seq<char>)
    requires
        n < nodes.len(),
    ensures
        match member(nodes, n, name) {
            Some(child) => child < nodes.len() && nodes[child as int].name == name && kids(
                nodes,
                n as int,
            ).contains(child),
            None => forall|k: int|
                0 <= k < kids(nodes, n as int).len() && #[trigger] kids(nodes, n as int)[k]
                    < nodes.len() ==> nodes[kids(nodes, n as int)[k] as int].name != name,
        },
{
    lemma_first_named_is_first(nodes, kids(nodes, n as int), name);
}

/// In a well formed tree, the instance that indexing reaches from the
/// mirror of a node is the mirror of the child.
pub proof fn lemma_index_mirrors(nodes: Seq<NodeView>, n: SourcemapNode, name: Seq<char>)
    requires
        well_formed(nodes),
        member(nodes, n, name) is Some,
    ensures
        ({
            let child = member(nodes, n, name)->0;
            mirror(nodes, child) == (InstanceView {
                name: nodes[child as int].name,
                instance_class: nodes[child as int].instance_class,
                sourcemap_node: child,
                parent: Some(Box::new(mirror(nodes, n))),
            })
        }),
{
    reveal(linked);
    lemma_first_named_is_first(nodes, kids(nodes, n as int), name);
}

/// In a well formed tree, the mirror of a node has no parent only where
/// the node is the root.
pub proof fn lemma_only_the_root_has_no_parent(nodes: Seq<NodeView>, n: SourcemapNode)
    requires
        well_formed(nodes),
        n < nodes.len(),
    ensures
        mirror(nodes, n).parent is None <==> n == nodes.len() - 1,
{
    if n < nodes.len() - 1 {
        let at = lemma_exactly_one_parent(nodes, n as int);
    }
}

} // verus!
