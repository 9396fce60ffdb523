//! The instances of one run: made when a script first reaches a node, and
//! from then on the same for every traversal that reaches the node again.

use crate::instance::{
    full_name_of, lemma_member_is_a_child, member, mirror, InnerInstance, Instance, InstanceView,
    NoSuchMember,
};
use crate::sourcemap::{NodeView, Sourcemap, SourcemapNode};
use std::collections::HashMap;
use vstd::prelude::*;

verus! {

broadcast use vstd::std_specs::hash::group_hash_axioms;

/// The instances made during one run, at most one for each node.
#[derive(Debug)]
pub struct InstanceTable {
    made: HashMap<SourcemapNode, Instance>,
}

impl View for InstanceTable {
    type V = Map<SourcemapNode, InstanceView>;

    closed spec fn view(&self) -> Map<SourcemapNode, InstanceView> {
        Map::new(
            |node: SourcemapNode| self.made@.contains_key(node),
            |node: SourcemapNode| self.made@[node]@,
        )
    }
}

/// The table once the instance of node `n` is in it: made as the mirror of
/// `n` where the table holds none, and left as it is where it holds one.
pub open spec fn with_instance(
    table: Map<SourcemapNode, InstanceView>,
    nodes: Seq<NodeView>,
    n: SourcemapNode,
) -> Map<SourcemapNode, InstanceView> {
    if table.contains_key(n) {
        table
    } else {
        table.insert(n, mirror(nodes, n))
    }
}

/// Every instance in the table is the mirror of the node it was made for.
pub open spec fn true_to(table: Map<SourcemapNode, InstanceView>, nodes: Seq<NodeView>) -> bool {
    forall|n: SourcemapNode| #[trigger]
        table.contains_key(n) ==> n < nodes.len() && table[n] == mirror(nodes, n)
}

impl InstanceTable {
    /// The table of a run that has reached no node yet.
    pub fn new() -> (table: InstanceTable)
        ensures
            table@ == Map::<SourcemapNode, InstanceView>::empty(),
    {
        let table = InstanceTable { made: HashMap::new() };
        assert(table@ =~= Map::<SourcemapNode, InstanceView>::empty());
        table
    }

    /// Makes the instance of `node`, with those of its ancestors above it,
    /// unless the table holds one. The result says whether it was made now.
    pub fn materialize(&mut self, tree: &Sourcemap, node: SourcemapNode) -> (made: bool)
        requires
            node < tree@.len(),
        ensures
            made == !old(self)@.contains_key(node),
            final(self)@ == with_instance(old(self)@, tree@, node),
    {
        if self.made.contains_key(&node) {
            false
        } else {
            self.made.insert(node, InnerInstance::with_ancestors(tree, node));
            assert(self@ =~= with_instance(old(self)@, tree@, node));
            true
        }
    }

    /// The instance of `node`, if the run has reached the node.
    pub fn get(&self, node: SourcemapNode) -> (instance: Option<&InnerInstance>)
        ensures
            match instance {
                Some(found) => self@.contains_key(node) && found@ == self@[node],
                None => !self@.contains_key(node),
            },
    {
        match self.made.get(&node) {
            Some(found) => Some(&**found),
            None => None,
        }
    }

    /// Indexes the instance of `node` by the name of a child. The instance
    /// of `node` is made if the run has not reached the node before. Where
    /// the node has a child of that name, the instance of the child is made
    /// unless the table holds it, and the result is the child; where it has
    /// none, the failure names the class and the full name of the instance
    /// of `node` and the name asked for.
    pub fn index(&mut self, tree: &Sourcemap, node: SourcemapNode, child_name: &str) -> (outcome:
        Result<SourcemapNode, NoSuchMember>)
        requires
            node < tree@.len(),
        ensures
            match member(tree@, node, child_name@) {
                Some(child) => outcome == Ok::<SourcemapNode, NoSuchMember>(child) && final(self)@
                    == with_instance(with_instance(old(self)@, tree@, node), tree@, child),
                None => {
                    &&& final(self)@ == with_instance(old(self)@, tree@, node)
                    &&& outcome matches Err(failure)
                    &&& failure.class == final(self)@[node].instance_class
                    &&& failure.full_name@ == full_name_of(final(self)@[node])
                    &&& failure.requested@ == child_name@
                },
            },
    {
        self.materialize(tree, node);
        let found = tree.get(node).find_first_child(tree, child_name);
        match found {
            Some(child) => {
                proof {
                    lemma_member_is_a_child(tree@, node, child_name@);
                }
                self.materialize(tree, child);
                Ok(child)
            },
            None => {
                let instance = self.get(node).unwrap();
                Err(
                    NoSuchMember {
                        class: instance.class(),
                        full_name: instance.full_name(),
                        requested: child_name.to_owned(),
                    },
                )
            },
        }
    }
}

/// Making an instance keeps the instances that the table holds, and keeps
/// the table true to the tree; and reaching a node again makes nothing.
pub proof fn lemma_instances_are_made_once(
    table: Map<SourcemapNode, InstanceView>,
    nodes: Seq<NodeView>,
    n: SourcemapNode,
)
    requires
        n < nodes.len(),
    ensures
        forall|m: SourcemapNode| #[trigger]
            table.contains_key(m) ==> with_instance(table, nodes, n).contains_key(m)
                && with_instance(table, nodes, n)[m] == table[m],
        with_instance(table, nodes, n).contains_key(n),
        with_instance(with_instance(table, nodes, n), nodes, n) == with_instance(table, nodes, n),
        true_to(table, nodes) ==> true_to(with_instance(table, nodes, n), nodes),
{
}

} // verus!
