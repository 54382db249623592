//! Properties that relate the tree's operations, proved once for all trees.

use vstd::prelude::*;

use crate::geometry::{Rectangle, child_rect};
use crate::node::{Node, NodeId};
use crate::tree::{Direction, Tree};

verus! {

impl<T> Tree<T> {
    /// Parent and child agree: a node whose parent is `p` is among `p`'s
    /// children, and a child of a container has that container as parent.
    /// Every operation keeps the tree well-formed, so this holds in every
    /// state a tree can reach.
    pub proof fn lemma_parent_child_consistent(self)
        requires
            self.wf(),
        ensures
            forall|n: NodeId|
                self.has(n) && (#[trigger] self.parent_of(n)) is Some ==> self.is_container(self.parent_of(n)->0)
                    && self.children_of(self.parent_of(n)->0).contains(n),
            forall|p: NodeId, k: int|
                self.is_container(p) && 0 <= k < self.children_of(p).len() ==> self.has(
                    #[trigger] self.children_of(p)[k],
                ) && self.parent_of(self.children_of(p)[k]) == Some(p),
    {
        assert forall|n: NodeId| self.has(n) && (#[trigger] self.parent_of(n)) is Some implies self.is_container(self.parent_of(n)->0)
            && self.children_of(self.parent_of(n)->0).contains(n) by {
            assert(self.node_ok(n.value_spec() as int));
        }
        assert forall|p: NodeId, k: int| self.is_container(p) && 0 <= k < self.children_of(p).len() implies self.has(
            #[trigger] self.children_of(p)[k],
        ) && self.parent_of(self.children_of(p)[k]) == Some(p) by {
            assert(self.node_ok(p.value_spec() as int));
        }
    }

    /// No container but the root is ever empty: each has two children at
    /// least. Every operation keeps the tree well-formed, so this holds after
    /// any sequence of them.
    pub proof fn lemma_no_empty_containers(self)
        requires
            self.wf(),
        ensures
            forall|c: NodeId|
                #[trigger] self.is_container(c) && c != self.root_spec() ==> self.children_of(c).len() >= 2,
    {
        assert forall|c: NodeId| #[trigger] self.is_container(c) && c != self.root_spec() implies self.children_of(c).len() >= 2 by {
            assert(self.node_ok(c.value_spec() as int));
        }
    }

    /// Draining twice in a row: the first drain reports the queued leaves
    /// and leaves the queue empty, so a second one, with nothing done in
    /// between, reports nothing.
    pub proof fn lemma_drain_twice(self)
        requires
            self.pending().len() == 0,
        ensures
            self.reported(self.pending()) == Seq::<(T, Rectangle, bool)>::empty(),
    {
    }

    proof fn lemma_kept_same(self, mid: Tree<T>, fin: Tree<T>, ex: Set<NodeId>)
        requires
            self.kept_except(mid, ex),
            mid.kept_except(fin, ex),
        ensures
            self.kept_except(fin, ex),
    {
        assert forall|id: NodeId| !ex.contains(id) implies (#[trigger] fin.has(id) == self.has(id)) && (
        self.has(id) ==> fin.get(id) == self.get(id).with_geometry(fin.geometry_of(id))) by {
            assert(fin.has(id) == mid.has(id));
            assert(mid.has(id) == self.has(id));
        }
    }

    /// Inserting a leaf and removing it right away gives the tree back: the
    /// new leaf is gone, the focused container has its children again with
    /// its own parent, ratio, orientation and rectangle, every other node is
    /// as it was but for geometry, the children of the focused container get
    /// their former rectangles back when they were laid out, every node below
    /// it does when all below it was laid out, and a focused leaf gets the
    /// focus back.
    #[verifier::rlimit(100)]
    pub proof fn lemma_insert_then_remove(self, t1: Tree<T>, t2: Tree<T>, data: T, r: Option<Node<T>>)
        requires
            self.wf(),
            self.can_allocate(1),
            self.inserted(t1, data),
            t1.wf(),
            t1.removed(t2, r),
            t2.wf(),
        ensures
            ({
                let (c, fl) = self.focus_spec();
                let n = NodeId::Leaf((self.last_id_spec() + 1) as u32);
                &&& r == Some(t1.get(n))
                &&& !t2.has(n)
                &&& !self.has(n)
                &&& t2.children_of(c) == self.children_of(c)
                &&& self.fields_kept(t2, c)
                &&& self.kept_except(t2, set![c, n])
                &&& self.laid_out(c) ==> forall|k: int|
                    0 <= k < self.children_of(c).len() ==> t2.geometry_of(#[trigger] self.children_of(c)[k])
                        == self.geometry_of(self.children_of(c)[k])
                &&& self.subtree_laid_out(c) ==> forall|d: NodeId|
                    self.has(d) && #[trigger] self.descends(d, c) ==> t2.geometry_of(d) == self.geometry_of(d)
                &&& fl is Some ==> t2.focus_spec() == self.focus_spec()
            }),
    {
        let (c, fl) = self.focus_spec();
        let n = NodeId::Leaf((self.last_id_spec() + 1) as u32);
        self.lemma_focus_container();
        let ci = c.value_spec() as int;
        assert(self.node_ok(ci));
        assert(t1.node_ok(ci));
        assert(t1.node_ok(n.value_spec() as int));
        let cs = self.children_of(c);
        let cs1 = t1.children_of(c);
        assert(t1.focus_spec() == (c, Some(n)));
        // where the new leaf stands
        let k: int = match fl {
            None => cs.len() as int,
            Some(f) => cs.index_of(f) + 1,
        };
        if let Some(f) = fl {
            assert(cs.contains(f));
        }
        assert(0 <= k <= cs.len());
        assert(cs1[k] == n);
        assert(cs1.index_of(n) == k) by {
            assert(cs1.contains(n));
        }
        let rest = cs1.remove(k);
        assert(rest =~= cs);
        // the container does not collapse
        if c != self.root_spec() {
            let f = fl->0;
            assert(cs.contains(f));
            let j = choose|j: int| 0 <= j < cs.len() && cs[j] == f;
            assert(rest[j] is Leaf);
            assert(!t1.collapses(c, k));
        }
        assert(!self.has(n));
        assert(t2.children_of(c) == cs);
        self.lemma_kept_same(t1, t2, set![c, n]);
        if self.laid_out(c) {
            assert(t2.laid_out(c)) by {
                reveal(Tree::subtree_laid_out);
            }
            assert forall|j: int| 0 <= j < cs.len() implies t2.geometry_of(#[trigger] cs[j]) == self.geometry_of(cs[j]) by {
                assert(self.child_ratios(c) =~= t2.child_ratios(c)) by {
                    assert forall|i: int| 0 <= i < cs.len() implies #[trigger] t2.ratio_of(cs[i]) == self.ratio_of(cs[i]) by {
                        assert(self.has(cs[i]));
                        if cs[i] == c {
                            self.lemma_descends_rank(c, c);
                        }
                        assert(cs[i] != n);
                        assert(t2.has(cs[i]));
                    }
                }
            }
        }
        if self.subtree_laid_out(c) {
            assert(t2.has(c));
            assert forall|d: NodeId| self.has(d) && #[trigger] self.descends(d, c) implies t2.geometry_of(d) == self.geometry_of(d) by {
                self.lemma_same_layout(t2, c, n, d);
            }
        }
        if let Some(f) = fl {
            let kf = k - 1;
            assert(cs1[kf] == f);
            assert(self.has(f));
            assert(t1.rank_id(c) < t1.rank_id(n));
            assert(t1.neighbour_of(n, crate::tree::Direction::Before) == Some(f));
            assert(t2.has(f));
        }
    }
}

} // verus!

verus! {

impl<T> Tree<T> {
    /// Below `c`, `b` has the parents of `self`, so it has its descent too.
    proof fn lemma_descends_kept(self, b: Tree<T>, c: NodeId, n: NodeId, d: NodeId)
        requires
            self.wf(),
            b.wf(),
            self.kept_except(b, set![c, n]),
            !self.has(n),
            self.has(d),
            self.descends(d, c),
        ensures
            b.descends(d, c),
            b.has(d),
        decreases self.rank_id(d),
    {
        self.lemma_descends_rank(d, c);
        assert(d != c);
        assert(!set![c, n].contains(d));
        assert(b.has(d));
        assert(b.parent_of(d) == self.parent_of(d));
        assert(self.node_ok(d.value_spec() as int));
        assert(b.node_ok(d.value_spec() as int));
        let p = self.parent_of(d)->0;
        if p != c {
            self.lemma_descends_kept(b, c, n, p);
        }
    }

    /// A container at or below `c` is laid out when the subtree of `c` is.
    proof fn lemma_subtree_gives(self, c: NodeId, q: NodeId)
        requires
            self.subtree_laid_out(c),
            self.is_container(q),
            q == c || self.descends(q, c),
        ensures
            self.laid_out(q),
    {
        reveal(Tree::subtree_laid_out);
    }

    /// The children of container `q`, at or below `c`, keep their ratios.
    proof fn lemma_same_child_ratios(self, b: Tree<T>, c: NodeId, n: NodeId, q: NodeId)
        requires
            self.wf(),
            self.is_container(q),
            q == c || self.descends(q, c),
            b.children_of(q) == self.children_of(q),
            self.kept_except(b, set![c, n]),
            !self.has(n),
        ensures
            b.child_ratios(q) == self.child_ratios(q),
    {
        let cs = self.children_of(q);
        assert(self.node_ok(q.value_spec() as int));
        assert forall|i: int| 0 <= i < cs.len() implies #[trigger] b.ratio_of(cs[i]) == self.ratio_of(cs[i]) by {
            assert(self.has(cs[i]) && self.parent_of(cs[i]) == Some(q));
            assert(self.node_ok(cs[i].value_spec() as int));
            if q != c {
                assert(self.rank_id(q) < self.rank_id(cs[i]));
            }
            assert(self.descends(cs[i], c));
            self.lemma_descends_rank(cs[i], c);
            assert(!set![c, n].contains(cs[i]));
            assert(b.has(cs[i]));
        }
        assert(b.child_ratios(q) =~= self.child_ratios(q));
    }

    /// Two trees that agree on the nodes below `c` but for geometry, and on
    /// `c`'s rectangle, orientation and children, and that are both laid out
    /// below `c`, give every node below `c` the same rectangle.
    #[verifier::rlimit(100)]
    proof fn lemma_same_layout(self, b: Tree<T>, c: NodeId, n: NodeId, d: NodeId)
        requires
            self.wf(),
            b.wf(),
            self.is_container(c),
            b.is_container(c),
            self.subtree_laid_out(c),
            b.subtree_laid_out(c),
            b.geometry_of(c) == self.geometry_of(c),
            b.orientation_of(c) == self.orientation_of(c),
            b.children_of(c) == self.children_of(c),
            self.kept_except(b, set![c, n]),
            !self.has(n),
            self.has(d),
            self.descends(d, c),
        ensures
            b.geometry_of(d) == self.geometry_of(d),
        decreases self.rank_id(d),
    {
        self.lemma_descends_rank(d, c);
        assert(self.node_ok(d.value_spec() as int));
        let q = self.parent_of(d)->0;
        assert(self.node_ok(q.value_spec() as int));
        let cs = self.children_of(q);
        let k = cs.index_of(d);
        assert(cs.contains(d));
        assert(0 <= k < cs.len() && cs[k] == d);
        if q != c {
            self.lemma_same_layout(b, c, n, q);
            self.lemma_descends_kept(b, c, n, q);
            self.lemma_descends_rank(q, c);
            assert(!set![c, n].contains(q));
            assert(b.has(q));
            assert(b.get(q) == self.get(q).with_geometry(b.geometry_of(q)));
            assert(b.is_container(q));
        }
        self.lemma_subtree_gives(c, q);
        b.lemma_subtree_gives(c, q);
        assert(b.children_of(q) == cs);
        self.lemma_same_child_ratios(b, c, n, q);
        assert(b.geometry_of(cs[k]) == child_rect(b.geometry_of(q), b.orientation_of(q), b.child_ratios(q), k));
    }
}

} // verus!
