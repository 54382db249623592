use vstd::prelude::*;

use crate::geometry::{Orientation, Rectangle};

verus! {

/// Identifier of a node of the layout tree. Both kinds draw their number
/// from one counter, so a number names at most one node.
#[derive(PartialEq, Eq, Ord, PartialOrd, Copy, Clone, Debug, Hash, Structural)]
pub enum NodeId {
    Leaf(u32),
    Tree(u32),
}

impl NodeId {
    pub open spec fn value_spec(self) -> u32 {
        match self {
            NodeId::Leaf(v) => v,
            NodeId::Tree(v) => v,
        }
    }

    /// The number of this id, whatever its kind.
    pub fn value(&self) -> (r: u32)
        ensures
            r == self.value_spec(),
    {
        match self {
            NodeId::Leaf(v) => *v,
            NodeId::Tree(v) => *v,
        }
    }

    /// Whether this id names a leaf.
    pub fn is_leaf_id(&self) -> (r: bool)
        ensures
            r == (*self is Leaf),
    {
        match self {
            NodeId::Leaf(_) => true,
            NodeId::Tree(_) => false,
        }
    }
}

/// Errors of the tree's typed accessors and of requests that name nodes.
#[derive(PartialEq, Eq, Copy, Clone, Debug, Structural)]
pub enum TreeError {
    /// The id names no node of the tree, or a node that is not where the
    /// request says it is.
    InvalidNodeReference,
    /// The id names a node of the other kind than the one asked for.
    WrongNodeKind,
}

/// A window slot: a terminal node holding the caller's payload.
pub struct Leaf<T> {
    pub id: NodeId,
    pub parent: Option<NodeId>,
    pub geometry: Rectangle,
    pub ratio: Option<u32>,
    pub data: T,
}

/// A container: splits its rectangle among its children along one axis.
pub struct TreeNode {
    pub id: NodeId,
    pub parent: Option<NodeId>,
    pub children: Vec<NodeId>,
    pub geometry: Rectangle,
    pub ratio: Option<u32>,
    pub orientation: Orientation,
}

pub enum Node<T> {
    Leaf(Leaf<T>),
    Tree(TreeNode),
}

impl<T> Node<T> {
    pub open spec fn id_spec(self) -> NodeId {
        match self {
            Node::Leaf(l) => l.id,
            Node::Tree(t) => t.id,
        }
    }

    pub open spec fn parent_spec(self) -> Option<NodeId> {
        match self {
            Node::Leaf(l) => l.parent,
            Node::Tree(t) => t.parent,
        }
    }

    pub open spec fn geometry_spec(self) -> Rectangle {
        match self {
            Node::Leaf(l) => l.geometry,
            Node::Tree(t) => t.geometry,
        }
    }

    pub open spec fn ratio_spec(self) -> Option<u32> {
        match self {
            Node::Leaf(l) => l.ratio,
            Node::Tree(t) => t.ratio,
        }
    }

    /// The children of a container; a leaf has none.
    pub open spec fn children_spec(self) -> Seq<NodeId> {
        match self {
            Node::Leaf(_) => Seq::empty(),
            Node::Tree(t) => t.children@,
        }
    }

    /// The node with its geometry replaced.
    pub open spec fn with_geometry(self, g: Rectangle) -> Node<T> {
        match self {
            Node::Leaf(l) => Node::Leaf(Leaf { geometry: g, ..l }),
            Node::Tree(t) => Node::Tree(TreeNode { geometry: g, ..t }),
        }
    }

    /// The node with its ratio replaced.
    pub open spec fn with_ratio(self, r: Option<u32>) -> Node<T> {
        match self {
            Node::Leaf(l) => Node::Leaf(Leaf { ratio: r, ..l }),
            Node::Tree(t) => Node::Tree(TreeNode { ratio: r, ..t }),
        }
    }

    /// The node with its parent replaced.
    pub open spec fn with_parent(self, p: Option<NodeId>) -> Node<T> {
        match self {
            Node::Leaf(l) => Node::Leaf(Leaf { parent: p, ..l }),
            Node::Tree(t) => Node::Tree(TreeNode { parent: p, ..t }),
        }
    }

    pub proof fn lemma_with_own_geometry(self)
        ensures
            self.with_geometry(self.geometry_spec()) == self,
    {
        match self {
            Node::Leaf(l) => {
                assert(Leaf { geometry: l.geometry, ..l } == l);
            },
            Node::Tree(t) => {
                assert(TreeNode { geometry: t.geometry, ..t } == t);
            },
        }
    }

    pub fn id(&self) -> (r: NodeId)
        ensures
            r == self.id_spec(),
    {
        match self {
            Node::Leaf(l) => l.id,
            Node::Tree(t) => t.id,
        }
    }

    pub fn set_geometry(&mut self, geometry: Rectangle)
        ensures
            *final(self) == old(self).with_geometry(geometry),
    {
        match self {
            Node::Leaf(l) => {
                l.geometry = geometry;
            },
            Node::Tree(t) => {
                t.geometry = geometry;
            },
        }
    }

    pub fn geometry(&self) -> (r: Rectangle)
        ensures
            r == self.geometry_spec(),
    {
        match self {
            Node::Leaf(l) => l.geometry,
            Node::Tree(t) => t.geometry,
        }
    }

    /// The node's size along the main axis of `orientation`.
    pub fn edge(&self, orientation: Orientation) -> (r: i32)
        ensures
            r == self.geometry_spec().edge_spec(orientation),
    {
        self.geometry().edge(orientation)
    }

    pub fn ratio(&self) -> (r: Option<u32>)
        ensures
            r == self.ratio_spec(),
    {
        match self {
            Node::Leaf(l) => l.ratio,
            Node::Tree(t) => t.ratio,
        }
    }

    pub fn set_ratio(&mut self, ratio: u32)
        ensures
            *final(self) == old(self).with_ratio(Some(ratio)),
    {
        match self {
            Node::Leaf(l) => {
                l.ratio = Some(ratio);
            },
            Node::Tree(t) => {
                t.ratio = Some(ratio);
            },
        }
    }

    pub fn parent_id(&self) -> (r: Option<NodeId>)
        ensures
            r == self.parent_spec(),
    {
        match self {
            Node::Leaf(l) => l.parent,
            Node::Tree(t) => t.parent,
        }
    }

    pub fn set_parent_id(&mut self, id: &NodeId)
        ensures
            *final(self) == old(self).with_parent(Some(*id)),
    {
        match self {
            Node::Leaf(l) => {
                l.parent = Some(*id);
            },
            Node::Tree(t) => {
                t.parent = Some(*id);
            },
        }
    }

    pub fn is_leaf(&self) -> (r: bool)
        ensures
            r == (*self is Leaf),
    {
        match self {
            Node::Leaf(_) => true,
            Node::Tree(_) => false,
        }
    }
}

impl TreeNode {
    /// Position of `child_id` among the children.
    pub fn child_index(&self, child_id: &NodeId) -> (r: usize)
        requires
            self.children@.contains(*child_id),
        ensures
            r < self.children@.len(),
            self.children@[r as int] == *child_id,
            forall|k: int| 0 <= k < r ==> self.children@[k] != *child_id,
    {
        let mut i: usize = 0;
        while i < self.children.len()
            invariant
                self.children@.contains(*child_id),
                0 <= i <= self.children@.len(),
                forall|k: int| 0 <= k < i ==> self.children@[k] != *child_id,
            decreases self.children@.len() - i,
        {
            if self.children[i] == *child_id {
                return i;
            }
            i = i + 1;
        }
        i
    }

    pub fn is_first_child(&self, node_id: &NodeId) -> (r: bool)
        requires
            self.children@.contains(*node_id),
        ensures
            r == (self.children@[0] == *node_id),
    {
        self.children[0] == *node_id
    }

    pub fn is_last_child(&self, node_id: &NodeId) -> (r: bool)
        requires
            self.children@.contains(*node_id),
        ensures
            r == (self.children@.last() == *node_id),
    {
        self.children[self.children.len() - 1] == *node_id
    }

    /// The child right before `child_id`, if any.
    pub fn child_before(&self, child_id: &NodeId) -> (r: Option<NodeId>)
        requires
            self.children@.contains(*child_id),
            self.children@.no_duplicates(),
        ensures
            match r {
                None => self.children@[0] == *child_id,
                Some(c) => exists|k: int|
                    1 <= k < self.children@.len() && #[trigger] self.children@[k] == *child_id
                        && self.children@[k - 1] == c,
            },
    {
        let idx = self.child_index(child_id);
        if idx == 0 {
            None
        } else {
            Some(self.children[idx - 1])
        }
    }

    /// The child right after `child_id`, if any.
    pub fn child_after(&self, child_id: &NodeId) -> (r: Option<NodeId>)
        requires
            self.children@.contains(*child_id),
            self.children@.no_duplicates(),
        ensures
            match r {
                None => self.children@.last() == *child_id,
                Some(c) => exists|k: int|
                    0 <= k < self.children@.len() - 1 && #[trigger] self.children@[k] == *child_id
                        && self.children@[k + 1] == c,
            },
    {
        let idx = self.child_index(child_id);
        if idx == self.children.len() - 1 {
            None
        } else {
            Some(self.children[idx + 1])
        }
    }

    /// Whether a leaf stands among the children.
    pub fn has_leaf(&self) -> (r: bool)
        ensures
            r == exists|k: int| 0 <= k < self.children@.len() && self.children@[k] is Leaf,
    {
        let mut i: usize = 0;
        while i < self.children.len()
            invariant
                0 <= i <= self.children@.len(),
                forall|k: int| 0 <= k < i ==> !(self.children@[k] is Leaf),
            decreases self.children@.len() - i,
        {
            if self.children[i].is_leaf_id() {
                return true;
            }
            i = i + 1;
        }
        false
    }

    /// The size of the container along its own orientation.
    pub fn edge(&self) -> (r: i32)
        ensures
            r == self.geometry.edge_spec(self.orientation),
    {
        self.geometry.edge(self.orientation)
    }
}

} // verus!
