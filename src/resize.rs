use vstd::prelude::*;

use crate::config::{ResizeDirection, ResizeType};
use crate::geometry::{Orientation, RATIO_SCALE, Rectangle};
use crate::node::NodeId;
use crate::siblings::SiblingDirection;
use crate::tree::Tree;

verus! {

/// No resize takes a window below this many pixels along the resized axis.
pub const MIN_SIZE: i64 = 100;

/// The nodes a resize acts on: `target` in container `parent`, between its
/// neighbours along the resized axis.
#[derive(Clone, Copy, PartialEq, Eq, Debug, Structural)]
pub struct ResizeTargets {
    pub parent: NodeId,
    pub before: Option<NodeId>,
    pub target: NodeId,
    pub after: Option<NodeId>,
}

/// The orientation of the containers along whose axis `d` resizes.
pub open spec fn axis_of(d: ResizeDirection) -> Orientation {
    match d {
        ResizeDirection::Height => Orientation::Vertical,
        ResizeDirection::Width => Orientation::Horizontal,
    }
}

/// Size of `r` along the axis of `d`.
pub open spec fn size_along(r: Rectangle, d: ResizeDirection) -> int {
    match d {
        ResizeDirection::Height => r.height as int,
        ResizeDirection::Width => r.width as int,
    }
}

/// New size of the resized node: a shrink stops at the floor, a growth at
/// what leaves the floor to each neighbour.
pub open spec fn target_size(kind: ResizeType, child: int, amount: int, total: int, count: int) -> int {
    match kind {
        ResizeType::Shrink => if child - amount >= MIN_SIZE {
            child - amount
        } else {
            MIN_SIZE as int
        },
        ResizeType::Grow => if child + amount <= total - MIN_SIZE * count {
            child + amount
        } else {
            total - MIN_SIZE * count
        },
    }
}

/// New size of a neighbour, which gives or takes `step` pixels: a growth of
/// the target stops at the floor, a shrink at `limit`.
pub open spec fn neighbour_size(kind: ResizeType, edge: int, step: int, limit: int) -> int {
    match kind {
        ResizeType::Shrink => if edge + step <= limit {
            edge + step
        } else {
            limit
        },
        ResizeType::Grow => if edge - step >= MIN_SIZE {
            edge - step
        } else {
            MIN_SIZE as int
        },
    }
}

/// The ratio that gives `px` pixels of an edge of `edge` pixels, rounded
/// down, and kept within what a ratio can hold.
pub open spec fn ratio_for(px: int, edge: int) -> int {
    if px <= 0 {
        0
    } else if px * RATIO_SCALE / edge > u32::MAX {
        u32::MAX as int
    } else {
        px * RATIO_SCALE / edge
    }
}

/// The new sizes of a resized node and of its neighbours, from their current
/// sizes: see `target_size` and `neighbour_size`.
fn new_sizes(kind: ResizeType, amount: u32, child: i64, before: Option<i64>, after: Option<i64>) -> (r: (
    i64,
    i64,
    i64,
))
    requires
        0 <= child <= i32::MAX,
        before matches Some(v) ==> 0 <= v <= i32::MAX,
        after matches Some(v) ==> 0 <= v <= i32::MAX,
    ensures
        ({
            let be: int = match before {
                Some(v) => v as int,
                None => 0,
            };
            let ae: int = match after {
                Some(v) => v as int,
                None => 0,
            };
            let total = be + ae + child;
            let count: int = if before is Some && after is Some {
                2
            } else {
                1
            };
            let limit = if total >= MIN_SIZE {
                (total - MIN_SIZE) / count
            } else {
                0
            };
            let step = amount as int / count;
            &&& r.0 == target_size(kind, child as int, amount as int, total, count)
            &&& r.1 == neighbour_size(kind, be, step, limit)
            &&& r.2 == neighbour_size(kind, ae, step, limit)
            &&& -0x4_0000_0000 <= r.0 <= 0x4_0000_0000
            &&& -0x4_0000_0000 <= r.1 <= 0x4_0000_0000
            &&& -0x4_0000_0000 <= r.2 <= 0x4_0000_0000
        }),
{
    let be = match before {
        Some(v) => v,
        None => 0,
    };
    let ae = match after {
        Some(v) => v,
        None => 0,
    };
    let total = be + ae + child;
    let count: i64 = if before.is_some() && after.is_some() {
        2
    } else {
        1
    };
    let limit = if total >= MIN_SIZE {
        (total - MIN_SIZE) / count
    } else {
        0
    };
    let amt = amount as i64;
    let new_child = match kind {
        ResizeType::Shrink => if child - amt >= MIN_SIZE {
            child - amt
        } else {
            MIN_SIZE
        },
        ResizeType::Grow => if child + amt <= total - MIN_SIZE * count {
            child + amt
        } else {
            total - MIN_SIZE * count
        },
    };
    let step = amt / count;
    let new_before = match kind {
        ResizeType::Shrink => if be + step <= limit {
            be + step
        } else {
            limit
        },
        ResizeType::Grow => if be - step >= MIN_SIZE {
            be - step
        } else {
            MIN_SIZE
        },
    };
    let new_after = match kind {
        ResizeType::Shrink => if ae + step <= limit {
            ae + step
        } else {
            limit
        },
        ResizeType::Grow => if ae - step >= MIN_SIZE {
            ae - step
        } else {
            MIN_SIZE
        },
    };
    (new_child, new_before, new_after)
}

impl<T> Tree<T> {
    /// Where a resize along `dir` of `node`, a child of container `tree`,
    /// acts: in `tree` when its orientation runs along `dir`, else in the
    /// nearest container above whose orientation is the other one. None when
    /// `tree` is the root with a single child, or when no such container exists.
    pub open spec fn resize_target_of(self, dir: ResizeDirection, node: NodeId, tree: NodeId) -> Option<
        ResizeTargets,
    >
        decreases self.rank_id(tree),
    {
        if tree == self.root_spec() && self.children_of(tree).len() == 1 {
            None
        } else if self.orientation_of(tree) == axis_of(dir) {
            let (back, fwd) = match dir {
                ResizeDirection::Height => (SiblingDirection::Up, SiblingDirection::Down),
                ResizeDirection::Width => (SiblingDirection::Left, SiblingDirection::Right),
            };
            Some(
                ResizeTargets {
                    parent: tree,
                    before: self.sibling_of(node, back),
                    target: node,
                    after: self.sibling_of(node, fwd),
                },
            )
        } else {
            let (x, p) = self.parent_with_orientation(node, self.orientation_of(tree).inverted());
            match p {
                None => None,
                Some(p) => if self.rank_id(p) < self.rank_id(tree) {
                    self.resize_target_of(dir, x, p)
                } else {
                    None
                },
            }
        }
    }

    /// See `resize_target_of`.
    fn find_resize_target(&self, direction: ResizeDirection, leaf_id: &NodeId, tree_id: &NodeId) -> (r:
        Option<ResizeTargets>)
        requires
            self.wf(),
            self.has(*leaf_id),
            self.parent_of(*leaf_id) == Some(*tree_id),
        ensures
            r == self.resize_target_of(direction, *leaf_id, *tree_id),
            r matches Some(t) ==> {
                &&& self.is_container(t.parent)
                &&& self.has(t.target)
                &&& self.parent_of(t.target) == Some(t.parent)
                &&& t.before matches Some(b) ==> self.has(b) && b != t.target
                &&& t.after matches Some(a) ==> self.has(a) && a != t.target
            },
        decreases self.rank_id(*tree_id),
    {
        proof {
            assert(self.node_ok(leaf_id.value_spec() as int));
            assert(self.node_ok(tree_id.value_spec() as int));
        }
        let tree = match self.get_tree(*tree_id) {
            Ok(t) => t,
            Err(_) => unreached(),
        };
        if *tree_id == self.root() && tree.children.len() == 1 {
            return None;
        }
        let axis = match direction {
            ResizeDirection::Height => Orientation::Vertical,
            ResizeDirection::Width => Orientation::Horizontal,
        };
        if tree.orientation == axis {
            let (back, fwd) = match direction {
                ResizeDirection::Height => (SiblingDirection::Up, SiblingDirection::Down),
                ResizeDirection::Width => (SiblingDirection::Left, SiblingDirection::Right),
            };
            let before = self.find_sibling(leaf_id, back);
            let after = self.find_sibling(leaf_id, fwd);
            proof {
                self.lemma_sibling_apart(*leaf_id, back, *leaf_id);
                self.lemma_sibling_apart(*leaf_id, fwd, *leaf_id);
            }
            Some(ResizeTargets { parent: *tree_id, before, target: *leaf_id, after })
        } else {
            let o = tree.orientation.invert();
            let (x, p) = self.first_parent_with_orientation(leaf_id, o);
            proof {
                self.lemma_parent_with_orientation(*tree_id, o);
                assert(self.parent_with_orientation(*leaf_id, o) == self.parent_with_orientation(*tree_id, o));
            }
            match p {
                None => None,
                Some(p) => self.find_resize_target(direction, &x, &p),
            }
        }
    }

    /// Resizes the focused leaf, or the ancestor of it that lies in a
    /// container running along `direction`, by `amount` pixels, trading them
    /// with its neighbours there; see `resize_node`. Nothing happens without a
    /// focused leaf or a container to resize in.
    pub fn resize(&mut self, resize: ResizeType, direction: ResizeDirection, amount: u32)
        requires
            old(self).wf(),
        ensures
            final(self).wf(),
            final(self).root_spec() == old(self).root_spec(),
            final(self).focus_spec() == old(self).focus_spec(),
            match old(self).focus_spec().1 {
                None => *final(self) == *old(self),
                Some(l) => match old(self).resize_target_of(direction, l, old(self).focus_spec().0) {
                    None => *final(self) == *old(self),
                    Some(t) => Self::resized(*old(self), *final(self), resize, direction, amount as int, t),
                },
            },
    {
        let (tree_id, leaf_opt) = self.focus();
        let leaf_id = match leaf_opt {
            None => {
                return;
            },
            Some(l) => l,
        };
        proof {
            assert(self.node_ok(leaf_id.value_spec() as int));
        }
        let targets = match self.find_resize_target(direction, &leaf_id, &tree_id) {
            None => {
                return;
            },
            Some(t) => t,
        };
        self.resize_node(resize, direction, amount, targets);
    }

    /// What `resize_node` does with targets `t`: when the container's edge
    /// is positive, the target and its neighbours get the ratios of their new
    /// sizes, and the container is laid out again; else nothing changes.
    pub open spec fn resized(
        old: Tree<T>,
        new: Tree<T>,
        kind: ResizeType,
        d: ResizeDirection,
        amount: int,
        t: ResizeTargets,
    ) -> bool {
        let e = old.geometry_of(t.parent).edge_spec(old.orientation_of(t.parent));
        let child = size_along(old.geometry_of(t.target), d);
        let be = match t.before {
            Some(b) => size_along(old.geometry_of(b), d),
            None => 0,
        };
        let ae = match t.after {
            Some(a) => size_along(old.geometry_of(a), d),
            None => 0,
        };
        let total = be + ae + child;
        let count: int = if t.before is Some && t.after is Some {
            2
        } else {
            1
        };
        let limit = if total >= MIN_SIZE {
            (total - MIN_SIZE) / count
        } else {
            0
        };
        let step = amount / count;
        if e <= 0 {
            new == old
        } else {
            &&& new.ratio_of(t.target) == Some(
                ratio_for(target_size(kind, child, amount, total, count), e) as u32,
            )
            &&& (t.after matches Some(a) ==> new.ratio_of(a) == Some(
                ratio_for(neighbour_size(kind, ae, step, limit), e) as u32,
            ))
            &&& (t.after != t.before ==> (t.before matches Some(b) ==> new.ratio_of(b) == Some(
                ratio_for(neighbour_size(kind, be, step, limit), e) as u32,
            )))
            &&& new.children_of(t.parent) == old.children_of(t.parent)
            &&& new.subtree_laid_out(t.parent)
        }
    }

    /// Sets the ratio of `id` to the one `px` pixels give of `edge`.
    fn set_size_ratio(&mut self, id: NodeId, px: i64, edge: i64) -> (r: u32)
        requires
            old(self).wf(),
            old(self).has(id),
            edge > 0,
            -0x4_0000_0000 <= px <= 0x4_0000_0000,
        ensures
            r == ratio_for(px as int, edge as int),
            final(self).wf(),
            final(self).ratio_of(id) == Some(r),
            final(self).get(id) == old(self).get(id).with_ratio(Some(r)),
            forall|x: NodeId| #[trigger] final(self).has(x) == old(self).has(x),
            forall|x: NodeId|
                old(self).has(x) ==> #[trigger] final(self).parent_of(x) == old(self).parent_of(x)
                    && final(self).children_of(x) == old(self).children_of(x),
            forall|x: NodeId| x.value_spec() != id.value_spec() ==> #[trigger] final(self).get(x) == old(self).get(x),
            final(self).root_spec() == old(self).root_spec(),
            final(self).focus_spec() == old(self).focus_spec(),
            final(self).last_id_spec() == old(self).last_id_spec(),
    {
        let ratio: u32 = if px <= 0 {
            0
        } else {
            let q = px * (RATIO_SCALE as i64) / edge;
            if q > u32::MAX as i64 {
                u32::MAX
            } else {
                q as u32
            }
        };
        self.set_ratio_of(id, ratio);
        ratio
    }

    /// Trades `amount` pixels between `targets.target` and its neighbours
    /// along `direction`: growing takes from each neighbour its share of the
    /// amount down to the floor, shrinking gives it to them. The new sizes
    /// become ratios of the container's edge, and the container is laid out
    /// again.
    #[verifier::rlimit(100)]
    fn resize_node(&mut self, resize: ResizeType, direction: ResizeDirection, amount: u32, targets: ResizeTargets)
        requires
            old(self).wf(),
            old(self).is_container(targets.parent),
            old(self).has(targets.target),
            targets.before matches Some(b) ==> old(self).has(b) && b != targets.target,
            targets.after matches Some(a) ==> old(self).has(a) && a != targets.target,
        ensures
            final(self).wf(),
            final(self).root_spec() == old(self).root_spec(),
            final(self).focus_spec() == old(self).focus_spec(),
            Self::resized(*old(self), *final(self), resize, direction, amount as int, targets),
    {
        let ghost before = *self;
        let tree = self.tree_ref(targets.parent);
        let e = tree.edge() as i64;
        if e <= 0 {
            return;
        }
        let size_of = |r: Rectangle| -> (s: i64)
            ensures
                s == size_along(r, direction),
            {
                match direction {
                    ResizeDirection::Height => r.height as i64,
                    ResizeDirection::Width => r.width as i64,
                }
            };
        proof {
            assert(self.node_ok(targets.target.value_spec() as int));
            if let Some(b) = targets.before {
                assert(self.node_ok(b.value_spec() as int));
            }
            if let Some(a) = targets.after {
                assert(self.node_ok(a.value_spec() as int));
            }
        }
        let child_edge = size_of(self.node_ref(targets.target).geometry());
        let before_edge: Option<i64> = match targets.before {
            Some(b) => Some(size_of(self.node_ref(b).geometry())),
            None => None,
        };
        let after_edge: Option<i64> = match targets.after {
            Some(a) => Some(size_of(self.node_ref(a).geometry())),
            None => None,
        };
        let (new_child, new_before, new_after) = new_sizes(resize, amount, child_edge, before_edge, after_edge);
        if let Some(b) = targets.before {
            if targets.after != targets.before {
                self.set_size_ratio(b, new_before, e);
            }
        }
        let ghost s1 = *self;
        if let Some(a) = targets.after {
            self.set_size_ratio(a, new_after, e);
        }
        let ghost s2 = *self;
        self.set_size_ratio(targets.target, new_child, e);
        let ghost s3 = *self;
        proof {
            assert(s3.is_container(targets.parent));
        }
        self.update_geometries(targets.parent);
        proof {
            s3.lemma_relayout(*self, targets.parent);
            assert(self.ratio_of(targets.target) == s3.ratio_of(targets.target));
            if let Some(a) = targets.after {
                assert(self.ratio_of(a) == s3.ratio_of(a));
                assert(s3.ratio_of(a) == s2.ratio_of(a));
            }
            if let Some(b) = targets.before {
                if targets.after != targets.before {
                    assert(self.ratio_of(b) == s3.ratio_of(b));
                    assert(s3.ratio_of(b) == s2.ratio_of(b));
                    assert(s2.ratio_of(b) == s1.ratio_of(b));
                }
            }
            assert(s3.children_of(targets.parent) == before.children_of(targets.parent));
            assert(s3.geometry_of(targets.parent) == before.geometry_of(targets.parent));
        }
    }
}

} // verus!
