//! One channel of the hierarchy, and what makes a sequence of them a tree.

use vstd::prelude::*;

verus! {

/// One channel of the hierarchy. The channels of a hierarchy stand in one
/// sequence; `children` and `parent` hold places in it.
#[derive(Debug)]
pub struct ChannelTreeNode {
    pub id: String,
    pub name: String,
    pub children: Vec<usize>,
    pub active: bool,
    pub archived: bool,
    pub parent: Option<usize>,
}

/// A `ChannelTreeNode` with its texts as sequences of characters.
pub struct NodeView {
    pub id: Seq<char>,
    pub name: Seq<char>,
    pub children: Seq<usize>,
    pub active: bool,
    pub archived: bool,
    pub parent: Option<usize>,
}

impl View for ChannelTreeNode {
    type V = NodeView;

    open spec fn view(&self) -> NodeView {
        NodeView {
            id: self.id@,
            name: self.name@,
            children: self.children@,
            active: self.active,
            archived: self.archived,
            parent: self.parent,
        }
    }
}

/// The views of `nodes`, in the same order.
pub open spec fn node_views(nodes: Seq<ChannelTreeNode>) -> Seq<NodeView> {
    Seq::new(nodes.len(), |i: int| nodes[i]@)
}

impl ChannelTreeNode {
    pub fn new(
        id: String,
        name: String,
        children: Vec<usize>,
        active: bool,
        archived: bool,
        parent: Option<usize>,
    ) -> (node: Self)
        ensures
            node.id == id,
            node.name == name,
            node.children == children,
            node.active == active,
            node.archived == archived,
            node.parent == parent,
    {
        Self { id, name, children, active, archived, parent }
    }

    /// A placeholder that stands for no channel: no id, the name `dummy`,
    /// nothing below or above it, inactive and archived.
    pub fn dummy() -> (node: Self)
        ensures
            node@ == (NodeView {
                id: ""@,
                name: "dummy"@,
                children: Seq::empty(),
                active: false,
                archived: true,
                parent: None,
            }),
    {
        Self {
            id: "".to_owned(),
            name: "dummy".to_owned(),
            children: Vec::new(),
            active: false,
            archived: true,
            parent: None,
        }
    }

    /// Whether nothing stands above this channel.
    pub fn is_root(&self) -> (top: bool)
        ensures
            top == (self.parent is None),
    {
        self.parent.is_none()
    }
}

/// Whether the node at place `p` of `t` lists the place `c` below it.
pub open spec fn lists(t: Seq<NodeView>, p: int, c: int) -> bool {
    exists|k: int| 0 <= k < t[p].children.len() && #[trigger] t[p].children[k] == c
}

/// Whether the node at place `c` of `t` names the place `p` as the one
/// above it.
pub open spec fn is_below(t: Seq<NodeView>, c: int, p: int) -> bool {
    t[c].parent is Some && t[c].parent->0 == p
}

/// Whether the channel at place `i` of `t` is tied to the others as in a
/// tree: the top has nothing above it, every other channel stands after the
/// one above it and is listed there, and what a channel lists below it
/// stands after it, names it as the one above, and is listed in rising
/// order.
pub open spec fn node_ok(t: Seq<NodeView>, i: int) -> bool {
    &&& i == 0 ==> t[i].parent is None
    &&& i != 0 ==> {
        &&& t[i].parent is Some
        &&& t[i].parent->0 < i
        &&& lists(t, t[i].parent->0 as int, i)
    }
    &&& forall|k: int|
        0 <= k < t[i].children.len() ==> {
            &&& i < #[trigger] t[i].children[k] < t.len()
            &&& is_below(t, t[i].children[k] as int, i)
        }
    &&& forall|k1: int, k2: int|
        0 <= k1 < k2 < t[i].children.len() ==> #[trigger] t[i].children[k1]
            < #[trigger] t[i].children[k2]
}

/// Whether `t` is a tree with its top at place 0.
pub open spec fn tree_wf(t: Seq<NodeView>) -> bool {
    &&& t.len() > 0
    &&& forall|i: int| 0 <= i < t.len() ==> #[trigger] node_ok(t, i)
}

/// How many steps lie between the channel at place `n` and the top.
pub open spec fn depth(t: Seq<NodeView>, n: int) -> nat
    decreases n,
{
    if 0 < n && t[n].parent is Some && t[n].parent->0 < n {
        depth(t, t[n].parent->0 as int) + 1
    } else {
        0
    }
}

} // verus!
