use vstd::prelude::*;

use crate::geometry::Orientation;
use crate::node::NodeId;
use crate::tree::{Direction, Tree};

verus! {

/// Screen direction in which a neighbour is looked for.
#[derive(PartialEq, Eq, Copy, Clone, Debug, Structural)]
pub enum SiblingDirection {
    Left,
    Right,
    Up,
    Down,
}

impl SiblingDirection {
    /// The orientation of the containers along which this direction moves.
    pub open spec fn axis(self) -> Orientation {
        match self {
            SiblingDirection::Left | SiblingDirection::Right => Orientation::Horizontal,
            SiblingDirection::Up | SiblingDirection::Down => Orientation::Vertical,
        }
    }

    /// Whether this direction goes towards the first child.
    pub open spec fn backward(self) -> bool {
        self is Left || self is Up
    }
}

impl<T> Tree<T> {
    /// The node next to `id` in direction `dir`: the sibling on that side in
    /// the nearest container, `id`'s own or an ancestor's, whose orientation
    /// runs along `dir` and that has a child on that side; none once the root
    /// is passed.
    pub open spec fn sibling_of(self, id: NodeId, dir: SiblingDirection) -> Option<NodeId>
        decreases self.rank_id(id),
    {
        match self.parent_of(id) {
            None => None,
            Some(p) => if self.rank_id(p) < self.rank_id(id) {
                let cs = self.children_of(p);
                let k = cs.index_of(id);
                if self.orientation_of(p) == dir.axis() && dir.backward() && k > 0 {
                    Some(cs[k - 1])
                } else if self.orientation_of(p) == dir.axis() && !dir.backward() && k < cs.len() - 1 {
                    Some(cs[k + 1])
                } else {
                    self.sibling_of(p, dir)
                }
            } else {
                None
            },
        }
    }

    /// The highest ancestor-or-self of `id` that still lies below a container of
    /// orientation `o`, with that container; the root and none when no
    /// container above `id` has orientation `o`.
    pub open spec fn parent_with_orientation(self, id: NodeId, o: Orientation) -> (NodeId, Option<NodeId>)
        decreases self.rank_id(id),
    {
        match self.parent_of(id) {
            None => (id, None),
            Some(p) => if self.rank_id(p) < self.rank_id(id) {
                if self.orientation_of(p) == o {
                    (id, Some(p))
                } else {
                    self.parent_with_orientation(p, o)
                }
            } else {
                (id, None)
            },
        }
    }

    /// The leaf reached from container `id` by always taking the first child
    /// (`Before`) or the last (`After`); none if an empty container is met.
    pub open spec fn descendant_leaf_of(self, id: NodeId, dir: Direction) -> Option<NodeId>
        decreases self.rank_limit() - self.rank_id(id),
    {
        let cs = self.children_of(id);
        if cs.len() == 0 {
            None
        } else {
            let c = match dir {
                Direction::Before => cs[0],
                Direction::After => cs.last(),
            };
            if c is Leaf {
                Some(c)
            } else if self.rank_id(id) < self.rank_id(c) && self.rank_id(c) < self.rank_limit() {
                self.descendant_leaf_of(c, dir)
            } else {
                None
            }
        }
    }

    /// The leaf next to `id` in tree order: walk up until a container has a
    /// child on side `dir` of the path, then take that child if it is a leaf,
    /// or its nearest leaf (its last for `Before`, its first for `After`).
    /// None when the root is reached.
    pub open spec fn neighbour_of(self, id: NodeId, dir: Direction) -> Option<NodeId>
        decreases self.rank_id(id),
    {
        match self.parent_of(id) {
            None => None,
            Some(p) => if self.rank_id(p) < self.rank_id(id) {
                let cs = self.children_of(p);
                let k = cs.index_of(id);
                let edge = match dir {
                    Direction::Before => k == 0,
                    Direction::After => k == cs.len() - 1,
                };
                if edge {
                    self.neighbour_of(p, dir)
                } else {
                    let n = match dir {
                        Direction::Before => cs[k - 1],
                        Direction::After => cs[k + 1],
                    };
                    if n is Leaf {
                        Some(n)
                    } else {
                        self.descendant_leaf_of(n, dir.inverted())
                    }
                }
            } else {
                None
            },
        }
    }

    /// See `sibling_of`.
    pub fn find_sibling(&self, node_id: &NodeId, direction: SiblingDirection) -> (r: Option<NodeId>)
        requires
            self.wf(),
            self.has(*node_id),
        ensures
            r == self.sibling_of(*node_id, direction),
            r matches Some(s) ==> self.has(s),
        decreases self.rank_id(*node_id),
    {
        proof {
            assert(self.node_ok(node_id.value_spec() as int));
        }
        let parent_id = match self.node_ref(*node_id).parent_id() {
            None => {
                return None;
            },
            Some(p) => p,
        };
        proof {
            assert(self.node_ok(parent_id.value_spec() as int));
        }
        let parent = self.get_tree(parent_id);
        let parent = match parent {
            Ok(t) => t,
            Err(_) => unreached(),
        };
        let k = parent.child_index(node_id);
        proof {
            assert(parent.children@.index_of(*node_id) == k as int);
        }
        let last = parent.children.len() - 1;
        let axis = match direction {
            SiblingDirection::Left | SiblingDirection::Right => Orientation::Horizontal,
            SiblingDirection::Up | SiblingDirection::Down => Orientation::Vertical,
        };
        let backward = match direction {
            SiblingDirection::Left | SiblingDirection::Up => true,
            _ => false,
        };
        if parent.orientation == axis && backward && k > 0 {
            proof {
                assert(self.has(parent.children@[k - 1]));
            }
            Some(parent.children[k - 1])
        } else if parent.orientation == axis && !backward && k < last {
            proof {
                assert(self.has(parent.children@[k + 1]));
            }
            Some(parent.children[k + 1])
        } else {
            self.find_sibling(&parent_id, direction)
        }
    }

    /// See `parent_with_orientation`.
    pub fn first_parent_with_orientation(&self, node_id: &NodeId, orientation: Orientation) -> (r: (
        NodeId,
        Option<NodeId>,
    ))
        requires
            self.wf(),
            self.has(*node_id),
        ensures
            r == self.parent_with_orientation(*node_id, orientation),
            self.has(r.0),
            r.1 matches Some(p) ==> self.is_container(p) && self.parent_of(r.0) == Some(p),
        decreases self.rank_id(*node_id),
    {
        proof {
            assert(self.node_ok(node_id.value_spec() as int));
        }
        let parent_id = match self.node_ref(*node_id).parent_id() {
            None => {
                return (*node_id, None);
            },
            Some(p) => p,
        };
        proof {
            assert(self.node_ok(parent_id.value_spec() as int));
        }
        let parent = match self.get_tree(parent_id) {
            Ok(t) => t,
            Err(_) => unreached(),
        };
        if parent.orientation == orientation {
            (*node_id, Some(parent_id))
        } else {
            self.first_parent_with_orientation(&parent_id, orientation)
        }
    }

    /// See `descendant_leaf_of`.
    pub fn descendant_leaf(&self, node_id: &NodeId, direction: Direction) -> (r: Option<NodeId>)
        requires
            self.wf(),
            self.is_container(*node_id),
        ensures
            r == self.descendant_leaf_of(*node_id, direction),
            r matches Some(l) ==> self.is_leaf(l),
            *node_id != self.root_spec() ==> r is Some,
        decreases self.rank_limit() - self.rank_id(*node_id),
    {
        proof {
            assert(self.node_ok(node_id.value_spec() as int));
        }
        let tree = match self.get_tree(*node_id) {
            Ok(t) => t,
            Err(_) => unreached(),
        };
        if tree.children.len() == 0 {
            return None;
        }
        let c = match direction {
            Direction::Before => tree.children[0],
            Direction::After => tree.children[tree.children.len() - 1],
        };
        proof {
            let cs = tree.children@;
            let kk = match direction {
                Direction::Before => 0,
                Direction::After => cs.len() - 1,
            };
            assert(self.has(cs[kk]));
            assert(self.node_ok(c.value_spec() as int));
        }
        if c.is_leaf_id() {
            Some(c)
        } else {
            self.descendant_leaf(&c, direction)
        }
    }

    /// See `neighbour_of`.
    pub fn neighbour(&self, id: &NodeId, direction: Direction) -> (r: Option<NodeId>)
        requires
            self.wf(),
            self.has(*id),
        ensures
            r == self.neighbour_of(*id, direction),
            r matches Some(l) ==> self.is_leaf(l),
        decreases self.rank_id(*id),
    {
        proof {
            assert(self.node_ok(id.value_spec() as int));
        }
        let parent_id = match self.node_ref(*id).parent_id() {
            None => {
                return None;
            },
            Some(p) => p,
        };
        proof {
            assert(self.node_ok(parent_id.value_spec() as int));
        }
        let parent = match self.get_tree(parent_id) {
            Ok(t) => t,
            Err(_) => unreached(),
        };
        let k = parent.child_index(id);
        proof {
            assert(parent.children@.index_of(*id) == k as int);
        }
        let last = parent.children.len() - 1;
        let at_edge = match direction {
            Direction::Before => k == 0,
            Direction::After => k == last,
        };
        if at_edge {
            return self.neighbour(&parent_id, direction);
        }
        let n = match direction {
            Direction::Before => parent.children[k - 1],
            Direction::After => parent.children[k + 1],
        };
        proof {
            let kk = match direction {
                Direction::Before => k - 1,
                Direction::After => k + 1,
            };
            assert(self.has(parent.children@[kk]));
            assert(self.node_ok(n.value_spec() as int));
        }
        if n.is_leaf_id() {
            Some(n)
        } else {
            self.descendant_leaf(&n, direction.invert())
        }
    }
}

} // verus!

verus! {

impl<T> Tree<T> {
    /// The node found next to `x` is neither `x` nor below it.
    pub proof fn lemma_sibling_apart(self, x: NodeId, dir: SiblingDirection, y: NodeId)
        requires
            self.wf(),
            self.has(x),
            self.has(y),
            y == x || self.descends(y, x),
        ensures
            self.sibling_of(x, dir) != Some(y),
        decreases self.rank_id(x),
    {
        assert(self.node_ok(x.value_spec() as int));
        match self.parent_of(x) {
            None => {},
            Some(p) => {
                assert(self.node_ok(p.value_spec() as int));
                let cs = self.children_of(p);
                let k = cs.index_of(x);
                assert(cs.contains(x));
                assert(0 <= k < cs.len() && cs[k] == x);
                if self.orientation_of(p) == dir.axis() && dir.backward() && k > 0 {
                    let s = cs[k - 1];
                    assert(self.has(s) && self.parent_of(s) == Some(p));
                    if y != x && s == y {
                        self.lemma_sibling_not_below(s, x, p);
                    }
                } else if self.orientation_of(p) == dir.axis() && !dir.backward() && k < cs.len() - 1 {
                    let s = cs[k + 1];
                    assert(self.has(s) && self.parent_of(s) == Some(p));
                    if y != x && s == y {
                        self.lemma_sibling_not_below(s, x, p);
                    }
                } else {
                    if y == x {
                        assert(self.descends(x, p));
                    } else {
                        self.lemma_descends_trans(y, x, p);
                    }
                    self.lemma_sibling_apart(p, dir, y);
                }
            },
        }
    }

    /// A container found above `x` lies above the node returned with it.
    pub proof fn lemma_parent_with_orientation(self, x: NodeId, o: Orientation)
        requires
            self.wf(),
            self.has(x),
        ensures
            self.parent_with_orientation(x, o).1 matches Some(p) ==> self.rank_id(p) < self.rank_id(x)
                && self.orientation_of(p) == o,
        decreases self.rank_id(x),
    {
        assert(self.node_ok(x.value_spec() as int));
        match self.parent_of(x) {
            None => {},
            Some(p) => {
                assert(self.node_ok(p.value_spec() as int));
                if self.orientation_of(p) != o {
                    self.lemma_parent_with_orientation(p, o);
                }
            },
        }
    }
}

} // verus!
