//! The hierarchy of channels as one sequence of nodes with its top at
//! place 0.

use super::node::node_views;
use super::node::tree_wf;
use super::node::ChannelTreeNode;
use super::node::NodeView;
use vstd::prelude::*;

verus! {

/// A hierarchy of channels. Its nodes stand in one sequence, the top at
/// place 0; a place in that sequence is the handle of a node.
pub struct ChannelDirectory {
    nodes: Vec<ChannelTreeNode>,
}

impl View for ChannelDirectory {
    type V = Seq<NodeView>;

    closed spec fn view(&self) -> Seq<NodeView> {
        node_views(self.nodes@)
    }
}

impl ChannelDirectory {
    /// The nodes of a hierarchy are a tree.
    #[verifier::type_invariant]
    pub open spec fn is_tree(&self) -> bool {
        tree_wf(self@)
    }

    /// The hierarchy that holds the given nodes.
    pub(crate) fn from_nodes(nodes: Vec<ChannelTreeNode>) -> (directory: Self)
        requires
            tree_wf(node_views(nodes@)),
        ensures
            directory@ == node_views(nodes@),
    {
        ChannelDirectory { nodes }
    }

    /// The number of nodes, the top included.
    pub fn len(&self) -> (n: usize)
        ensures
            n == self@.len(),
            n > 0,
            tree_wf(self@),
    {
        proof {
            use_type_invariant(self);
        }
        self.nodes.len()
    }

    /// The node at the given place.
    pub fn node(&self, place: usize) -> (node: &ChannelTreeNode)
        requires
            place < self@.len(),
        ensures
            node@ == self@[place as int],
    {
        &self.nodes[place]
    }

    /// The node at the top.
    pub fn root(&self) -> (node: &ChannelTreeNode)
        ensures
            self@.len() > 0,
            node@ == self@[0],
    {
        proof {
            use_type_invariant(self);
        }
        &self.nodes[0]
    }
}

} // verus!
