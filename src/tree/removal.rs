//! Removing the focused leaf, and folding a container that is left with
//! too little into its parent.

use vstd::prelude::*;

use crate::node::{Node, NodeId};
use crate::tree::{Direction, Tree};

verus! {

/// `s` with its element at `q` replaced by the elements of `r`.
pub open spec fn splice(s: Seq<NodeId>, q: int, r: Seq<NodeId>) -> Seq<NodeId> {
    s.subrange(0, q) + r + s.subrange(q + 1, s.len() as int)
}

impl<T> Tree<T> {
    /// Takes the child at position `pos` out of container `c`.
    fn remove_child_at(&mut self, c: NodeId, pos: usize)
        requires
            old(self).has(c),
            old(self).get(c) is Tree,
            pos < old(self).children_of(c).len(),
        ensures
            final(self).has(c),
            final(self).get(c) is Tree,
            old(self).fields_kept(*final(self), c),
            final(self).children_of(c) == old(self).children_of(c).remove(pos as int),
            final(self).slots() == old(self).slots().update(
                c.value_spec() as int,
                final(self).slots()[c.value_spec() as int],
            ),
            final(self).root_spec() == old(self).root_spec(),
            final(self).focus_spec() == old(self).focus_spec(),
            final(self).last_id_spec() == old(self).last_id_spec(),
            final(self).pending() == old(self).pending(),
            old(self).same_ranks(*final(self)),
    {
        let mut t = self.take_node(c);
        match &mut t {
            Node::Tree(tn) => {
                tn.children.remove(pos);
            },
            Node::Leaf(_) => {},
        }
        self.put_node(t);
    }

    /// Replaces the child at position `pos` of container `c` by `kids`.
    fn splice_children(&mut self, c: NodeId, pos: usize, kids: &Vec<NodeId>)
        requires
            old(self).has(c),
            old(self).get(c) is Tree,
            pos < old(self).children_of(c).len(),
        ensures
            final(self).has(c),
            final(self).get(c) is Tree,
            old(self).fields_kept(*final(self), c),
            final(self).children_of(c) == splice(old(self).children_of(c), pos as int, kids@),
            final(self).slots() == old(self).slots().update(
                c.value_spec() as int,
                final(self).slots()[c.value_spec() as int],
            ),
            final(self).root_spec() == old(self).root_spec(),
            final(self).focus_spec() == old(self).focus_spec(),
            final(self).last_id_spec() == old(self).last_id_spec(),
            final(self).pending() == old(self).pending(),
            old(self).same_ranks(*final(self)),
    {
        let mut t = self.take_node(c);
        match &mut t {
            Node::Tree(tn) => {
                let ghost old_children = tn.children@;
                let mut out: Vec<NodeId> = Vec::new();
                let mut i: usize = 0;
                while i < tn.children.len()
                    invariant
                        tn.children@ == old_children,
                        pos < old_children.len(),
                        0 <= i <= old_children.len(),
                        i <= pos ==> out@ == old_children.subrange(0, i as int),
                        i > pos ==> out@ == old_children.subrange(0, pos as int) + kids@
                            + old_children.subrange(pos + 1, i as int),
                    decreases old_children.len() - i,
                {
                    if i == pos {
                        let mut j: usize = 0;
                        while j < kids.len()
                            invariant
                                out@ == old_children.subrange(0, pos as int) + kids@.subrange(
                                    0,
                                    j as int,
                                ),
                                0 <= j <= kids@.len(),
                            decreases kids@.len() - j,
                        {
                            out.push(kids[j]);
                            j = j + 1;
                            assert(out@ =~= old_children.subrange(0, pos as int) + kids@.subrange(
                                0,
                                j as int,
                            ));
                        }
                        assert(kids@.subrange(0, kids@.len() as int) =~= kids@);
                        assert(out@ =~= old_children.subrange(0, pos as int) + kids@
                            + old_children.subrange(pos + 1, (i + 1) as int));
                    } else {
                        out.push(tn.children[i]);
                        if i < pos {
                            assert(out@ =~= old_children.subrange(0, (i + 1) as int));
                        } else {
                            assert(out@ =~= old_children.subrange(0, pos as int) + kids@
                                + old_children.subrange(pos + 1, (i + 1) as int));
                        }
                    }
                    i = i + 1;
                }
                tn.children = out;
            },
            Node::Leaf(_) => {},
        }
        self.put_node(t);
    }

    /// Gives node `x` the parent `p`.
    fn set_parent_of(&mut self, x: NodeId, p: NodeId)
        requires
            old(self).has(x),
        ensures
            final(self).slots() == old(self).slots().update(
                x.value_spec() as int,
                Some(old(self).get(x).with_parent(Some(p))),
            ),
            final(self).root_spec() == old(self).root_spec(),
            final(self).focus_spec() == old(self).focus_spec(),
            final(self).last_id_spec() == old(self).last_id_spec(),
            final(self).pending() == old(self).pending(),
            old(self).same_ranks(*final(self)),
    {
        let mut n = self.take_node(x);
        n.set_parent_id(&p);
        self.put_node(n);
    }
}

} // verus!

verus! {

impl<T> Tree<T> {
    /// Removing leaf `l` from its container `t`, which keeps enough children,
    /// leaves the nodes well-formed.
    proof fn lemma_remove_plain_wf(self, mid: Tree<T>, t: NodeId, l: NodeId, p: int)
        requires
            self.wf(),
            self.is_container(t),
            self.is_leaf(l),
            self.parent_of(l) == Some(t),
            0 <= p < self.children_of(t).len(),
            self.children_of(t)[p] == l,
            mid.slots().len() == self.slots().len(),
            forall|i: int|
                0 <= i < self.slots().len() && i != t.value_spec() && i != l.value_spec()
                    ==> #[trigger] mid.slots()[i] == self.slots()[i],
            mid.slots()[l.value_spec() as int] is None,
            mid.slots()[t.value_spec() as int] is Some,
            mid.get(t) is Tree,
            mid.get(t).id_spec() == t,
            self.fields_kept(mid, t),
            mid.children_of(t) == self.children_of(t).remove(p),
            t == self.root_spec() || self.children_of(t).remove(p).len() >= 2,
            mid.root_spec() == self.root_spec(),
            mid.last_id_spec() == self.last_id_spec(),
            self.same_ranks(mid),
        ensures
            mid.wf_nodes(),
            forall|id: NodeId|
                id != l && id != t ==> (#[trigger] mid.has(id) == self.has(id)) && (self.has(id)
                    ==> mid.get(id) == self.get(id)),
            !mid.has(l),
    {
        self.lemma_same_ranks_facts(mid);
        let ti = t.value_spec() as int;
        let li = l.value_spec() as int;
        assert(self.node_ok(ti));
        assert(self.node_ok(li));
        let cs = self.children_of(t);
        let ncs = mid.children_of(t);
        assert forall|k: int| 0 <= k < ncs.len() implies #[trigger] ncs[k] != l && self.has(ncs[k])
            && self.parent_of(ncs[k]) == Some(t) by {
            if k < p {
                assert(ncs[k] == cs[k]);
                assert(self.has(cs[k]));
            } else {
                assert(ncs[k] == cs[k + 1]);
                assert(self.has(cs[k + 1]));
            }
        }
        assert(ncs.no_duplicates()) by {
            assert forall|a: int, b: int| 0 <= a < ncs.len() && 0 <= b < ncs.len() && a != b implies ncs[a]
                != ncs[b] by {
                let ia = if a < p { a } else { a + 1 };
                let ib = if b < p { b } else { b + 1 };
                assert(ncs[a] == cs[ia]);
                assert(ncs[b] == cs[ib]);
            }
        }
        assert forall|id: NodeId| id != l && id != t implies (#[trigger] mid.has(id) == self.has(id))
            && (self.has(id) ==> mid.get(id) == self.get(id)) by {
            let i = id.value_spec() as int;
            if i == li {
                assert(!self.has(id));
            } else if i == ti {
                assert(!self.has(id));
            } else if 0 <= i < self.slots().len() {
                assert(mid.slots()[i] == self.slots()[i]);
            }
        }
        assert forall|i: int| #[trigger] mid.node_ok(i) by {
            assert(self.node_ok(i));
            if i == li {
            } else if i == ti {
                if t != self.root_spec() {
                    let q = self.parent_of(t)->0;
                    assert(self.node_ok(q.value_spec() as int));
                    assert(q != l);
                    assert(mid.has(q));
                }
                assert forall|k: int| 0 <= k < ncs.len() implies mid.has(#[trigger] ncs[k])
                    && mid.parent_of(ncs[k]) == Some(t) by {
                    assert(ncs[k] != l);
                    if ncs[k] == t {
                        self.lemma_descends_rank(t, t);
                    }
                }
            } else if 0 <= i < self.slots().len() && self.slots()[i] is Some {
                let nd = self.slots()[i]->0;
                let id = nd.id_spec();
                assert(mid.slots()[i] == self.slots()[i]);
                if id != self.root_spec() {
                    let q = nd.parent_spec()->0;
                    assert(self.node_ok(q.value_spec() as int));
                    assert(q != l);
                    assert(mid.has(q));
                    if q == t {
                        assert(id != l);
                        let k = choose|k: int| 0 <= k < cs.len() && cs[k] == id;
                        if k < p {
                            assert(ncs[k] == id);
                        } else {
                            assert(k != p);
                            assert(ncs[k - 1] == id);
                        }
                    }
                }
                if nd is Tree {
                    let ch = mid.children_of(id);
                    assert forall|k: int| 0 <= k < ch.len() implies mid.has(#[trigger] ch[k])
                        && mid.parent_of(ch[k]) == Some(id) by {
                        assert(self.has(ch[k]));
                        if ch[k] == l {
                            assert(id == t);
                        }
                    }
                }
            }
        }
    }
}

} // verus!

verus! {

impl<T> Tree<T> {
    /// Removing leaf `l` from container `t` and then moving what is left of
    /// `t`'s children into `t`'s place in its parent `g`, `t` itself gone,
    /// leaves the nodes well-formed.
    #[verifier::rlimit(100)]
    proof fn lemma_collapse_wf(self, mid: Tree<T>, t: NodeId, l: NodeId, p: int, g: NodeId, q: int)
        requires
            self.wf(),
            self.is_container(t),
            t != self.root_spec(),
            self.is_leaf(l),
            self.parent_of(l) == Some(t),
            0 <= p < self.children_of(t).len(),
            self.children_of(t)[p] == l,
            self.parent_of(t) == Some(g),
            0 <= q < self.children_of(g).len(),
            self.children_of(g)[q] == t,
            mid.slots().len() == self.slots().len(),
            mid.slots()[l.value_spec() as int] is None,
            mid.slots()[t.value_spec() as int] is None,
            forall|x: NodeId|
                #[trigger] self.children_of(t).remove(p).contains(x) ==> mid.slots()[x.value_spec() as int]
                    == Some(self.get(x).with_parent(Some(g))),
            mid.slots()[g.value_spec() as int] is Some,
            mid.get(g) is Tree,
            mid.get(g).id_spec() == g,
            self.fields_kept(mid, g),
            mid.children_of(g) == splice(self.children_of(g), q, self.children_of(t).remove(p)),
            forall|i: int|
                0 <= i < self.slots().len() && i != t.value_spec() && i != l.value_spec() && i
                    != g.value_spec() && (forall|x: NodeId|
                    self.children_of(t).remove(p).contains(x) ==> x.value_spec() != i)
                    ==> #[trigger] mid.slots()[i] == self.slots()[i],
            mid.root_spec() == self.root_spec(),
            mid.last_id_spec() == self.last_id_spec(),
            self.same_ranks(mid),
        ensures
            mid.wf_nodes(),
            !mid.has(l),
            !mid.has(t),
    {
        self.lemma_same_ranks_facts(mid);
        let ti = t.value_spec() as int;
        let li = l.value_spec() as int;
        let gi = g.value_spec() as int;
        assert(self.node_ok(ti));
        assert(self.node_ok(li));
        assert(self.node_ok(gi));
        let cs = self.children_of(t);
        let rest = cs.remove(p);
        let gs = self.children_of(g);
        let ngs = mid.children_of(g);
        // what is left of t's children: distinct nodes under t
        assert forall|k: int| 0 <= k < rest.len() implies #[trigger] rest[k] != l && self.has(rest[k])
            && self.parent_of(rest[k]) == Some(t) && self.rank_id(t) < self.rank_id(rest[k]) by {
            if k < p {
                assert(rest[k] == cs[k]);
                assert(self.has(cs[k]));
            } else {
                assert(rest[k] == cs[k + 1]);
                assert(self.has(cs[k + 1]));
            }
            assert(self.node_ok(rest[k].value_spec() as int));
        }
        assert forall|x: NodeId| #[trigger] rest.contains(x) implies x != l && self.has(x)
            && self.parent_of(x) == Some(t) && self.rank_id(t) < self.rank_id(x) by {
            let k = choose|k: int| 0 <= k < rest.len() && rest[k] == x;
            assert(rest[k] == x);
        }
        assert(rest.no_duplicates()) by {
            assert forall|a: int, b: int| 0 <= a < rest.len() && 0 <= b < rest.len() && a != b implies rest[a]
                != rest[b] by {
                let ia = if a < p { a } else { a + 1 };
                let ib = if b < p { b } else { b + 1 };
                assert(rest[a] == cs[ia]);
                assert(rest[b] == cs[ib]);
            }
        }
        assert(rest.len() >= 1);
        assert(self.rank_id(g) < self.rank_id(t));
        // the children of g other than t
        assert forall|y: NodeId| #[trigger] gs.contains(y) && y != t implies self.has(y) && self.parent_of(y)
            == Some(g) && !rest.contains(y) && y != l && y != g by {
            let k = choose|k: int| 0 <= k < gs.len() && gs[k] == y;
            assert(self.has(gs[k]));
            assert(self.node_ok(y.value_spec() as int));
        }
        assert forall|k: int| 0 <= k < ngs.len() implies (#[trigger] ngs[k] != t) && (gs.contains(ngs[k])
            || rest.contains(ngs[k])) by {
            if k < q {
                assert(ngs[k] == gs[k]);
            } else if k < q + rest.len() {
                assert(ngs[k] == rest[k - q]);
            } else {
                assert(ngs[k] == gs[k - rest.len() + 1]);
            }
            if ngs[k] == t {
                if k < q {
                    assert(gs[k] == gs[q]);
                } else if k >= q + rest.len() {
                    assert(gs[k - rest.len() + 1] == gs[q]);
                } else {
                    assert(rest.contains(t));
                }
            }
        }
        assert(ngs.no_duplicates()) by {
            assert forall|a: int, b: int| 0 <= a < ngs.len() && 0 <= b < ngs.len() && a != b implies ngs[a]
                != ngs[b] by {
                let la = rest.len();
                if a < q {
                    assert(ngs[a] == gs[a]);
                } else if a < q + la {
                    assert(ngs[a] == rest[a - q]);
                } else {
                    assert(ngs[a] == gs[a - la + 1]);
                }
                if b < q {
                    assert(ngs[b] == gs[b]);
                } else if b < q + la {
                    assert(ngs[b] == rest[b - q]);
                } else {
                    assert(ngs[b] == gs[b - la + 1]);
                }
                if a < q + la && a >= q && b < q + la && b >= q {
                } else if a >= q && a < q + la {
                    assert(rest.contains(ngs[a]));
                    let bb = if b < q { b } else { b - la + 1 };
                    assert(gs.contains(gs[bb]));
                    assert(gs[bb] != t);
                } else if b >= q && b < q + la {
                    assert(rest.contains(ngs[b]));
                    let aa = if a < q { a } else { a - la + 1 };
                    assert(gs.contains(gs[aa]));
                    assert(gs[aa] != t);
                } else {
                }
            }
        }
        // slots that are not touched
        assert forall|id: NodeId|
            self.has(id) && id != l && id != t && id != g && !rest.contains(id) implies #[trigger] mid.has(id)
            && mid.get(id) == self.get(id) by {
            let i = id.value_spec() as int;
            assert forall|x: NodeId| rest.contains(x) implies x.value_spec() != i by {
                if x.value_spec() == i {
                    assert(self.has(x));
                }
            }
            assert(mid.slots()[i] == self.slots()[i]);
        }
        assert forall|x: NodeId| #[trigger] rest.contains(x) implies mid.has(x) && mid.parent_of(x) == Some(
            g,
        ) && mid.children_of(x) == self.children_of(x) && mid.get(x) == self.get(x).with_parent(Some(g)) by {
            assert(mid.slots()[x.value_spec() as int] == Some(self.get(x).with_parent(Some(g))));
        }
        assert(mid.has(g));
        assert(!mid.has(l) && !mid.has(t));
        assert forall|i: int| #[trigger] mid.node_ok(i) by {
            assert(self.node_ok(i));
            if i == li || i == ti {
            } else if i == gi {
                if g != self.root_spec() {
                    let q2 = self.parent_of(g)->0;
                    assert(self.node_ok(q2.value_spec() as int));
                    assert(self.rank_id(q2) < self.rank_id(g));
                    assert(q2 != t && q2 != l && !rest.contains(q2) && q2 != g);
                    assert(mid.has(q2));
                    assert(mid.children_of(q2) == self.children_of(q2));
                    assert(ngs.len() >= 2);
                }
                assert forall|k: int| 0 <= k < ngs.len() implies mid.has(#[trigger] ngs[k])
                    && mid.parent_of(ngs[k]) == Some(g) by {
                    if rest.contains(ngs[k]) {
                    } else {
                        assert(gs.contains(ngs[k]));
                    }
                }
            } else if 0 <= i < self.slots().len() && self.slots()[i] is Some {
                let nd = self.slots()[i]->0;
                let id = nd.id_spec();
                assert(self.has(id));
                if rest.contains(id) {
                    assert(mid.get(id) == nd.with_parent(Some(g)));
                    let k = choose|k: int| 0 <= k < rest.len() && rest[k] == id;
                    assert(ngs[q + k] == id);
                    if nd is Tree {
                        let ch = self.children_of(id);
                        assert forall|k2: int| 0 <= k2 < ch.len() implies mid.has(#[trigger] ch[k2])
                            && mid.parent_of(ch[k2]) == Some(id) by {
                            let y = ch[k2];
                            assert(self.has(y));
                            assert(self.node_ok(y.value_spec() as int));
                            assert(self.rank_id(id) < self.rank_id(y));
                            assert(y != t && y != l && y != g);
                            if rest.contains(y) {
                                assert(self.parent_of(y) == Some(t));
                            }
                        }
                    }
                } else {
                    assert(id != l && id != t && id != g);
                    assert(mid.get(id) == nd);
                    if id != self.root_spec() {
                        let q2 = nd.parent_spec()->0;
                        assert(self.node_ok(q2.value_spec() as int));
                        assert(q2 != l);
                        if q2 == t {
                            let k = choose|k: int| 0 <= k < cs.len() && cs[k] == id;
                            if k < p {
                                assert(rest[k] == id);
                            } else {
                                assert(k != p);
                                assert(rest[k - 1] == id);
                            }
                        }
                        assert(q2 != t);
                        if q2 == g {
                            let k = choose|k: int| 0 <= k < gs.len() && gs[k] == id;
                            assert(k != q);
                            if k < q {
                                assert(ngs[k] == id);
                            } else {
                                assert(ngs[k + rest.len() - 1] == id);
                            }
                        } else if rest.contains(q2) {
                            assert(mid.has(q2));
                        } else {
                            assert(mid.has(q2));
                        }
                    }
                    if nd is Tree {
                        let ch = self.children_of(id);
                        assert(mid.children_of(id) == ch);
                        assert forall|k2: int| 0 <= k2 < ch.len() implies mid.has(#[trigger] ch[k2])
                            && mid.parent_of(ch[k2]) == Some(id) by {
                            let y = ch[k2];
                            assert(self.has(y));
                            assert(self.parent_of(y) == Some(id));
                            assert(y != t && y != l);
                            if rest.contains(y) {
                                assert(false);
                            }
                            if y == g {
                                assert(mid.parent_of(g) == self.parent_of(g));
                            }
                        }
                    }
                }
            }
        }
    }
}

} // verus!

verus! {

impl<T> Tree<T> {
    /// Whether removing the child at `p` of container `t` collapses `t`
    /// into its parent: `t` is not the root and what is left of its children
    /// is a single node or holds no leaf.
    pub open spec fn collapses(self, t: NodeId, p: int) -> bool {
        let rest = self.children_of(t).remove(p);
        t != self.root_spec() && (rest.len() == 1 || !(exists|k: int|
            0 <= k < rest.len() && #[trigger] rest[k] is Leaf))
    }

    /// The children of container `id`, copied.
    fn children_vec(&self, id: NodeId) -> (r: Vec<NodeId>)
        requires
            self.slot(id.value_spec() as int) is Some,
            self.get(id) is Tree,
        ensures
            r@ == self.children_of(id),
    {
        let t = self.tree_ref_raw(id);
        let mut out: Vec<NodeId> = Vec::new();
        let mut k: usize = 0;
        while k < t.children.len()
            invariant
                0 <= k <= t.children@.len(),
                out@ == t.children@.subrange(0, k as int),
            decreases t.children@.len() - k,
        {
            out.push(t.children[k]);
            k = k + 1;
            assert(out@ =~= t.children@.subrange(0, k as int));
        }
        assert(out@ =~= t.children@);
        out
    }

    /// What `remove` makes of `self`, returning `r`; see `remove`.
    pub open spec fn removed(self, new: Tree<T>, r: Option<Node<T>>) -> bool {
        match self.focus_spec().1 {
            None => r is None && new == self,
            Some(l) => {
                let t = self.focus_spec().0;
                let cs = self.children_of(t);
                let p = cs.index_of(l);
                let rest = cs.remove(p);
                &&& r == Some(self.get(l))
                &&& !new.has(l)
                &&& !self.collapses(t, p) ==> {
                    &&& new.children_of(t) == rest
                    &&& self.fields_kept(new, t)
                    &&& self.kept_except(new, set![t, l])
                    &&& new.subtree_laid_out(t)
                }
                &&& self.collapses(t, p) ==> {
                    let g = self.parent_of(t)->0;
                    let q = self.children_of(g).index_of(t);
                    &&& !new.has(t)
                    &&& new.children_of(g) == splice(self.children_of(g), q, rest)
                    &&& self.fields_kept(new, g)
                    &&& forall|x: NodeId| #[trigger] rest.contains(x) ==> new.get(x)
                        == self.get(x).with_parent(Some(g)).with_geometry(new.geometry_of(x))
                    &&& self.kept_except(new, set![t, l, g].union(rest.to_set()))
                    &&& new.subtree_laid_out(g)
                }
                &&& match self.neighbour_of(l, Direction::Before) {
                    Some(m) => m != l ==> new.focus_spec() == (new.parent_of(m)->0, Some(m)),
                    None => true,
                }
                &&& (self.neighbour_of(l, Direction::Before) is None || self.neighbour_of(l, Direction::Before) == Some(l))
                    ==> new.focus_spec() == (new.root_spec(), None::<NodeId>)
            },
        }
    }

    /// Removes the focused leaf and returns it; none when no leaf is focused.
    /// The container it leaves is collapsed into its own parent when it is not
    /// the root and keeps a single child or no leaf: its children take its
    /// place there. A container other than the root holds two children at
    /// least, so none is ever left empty. What is left is laid out again. The
    /// focus moves to the leaf before the removed one in tree order, or to the
    /// root with no leaf when there is none.
    #[verifier::rlimit(100)]
    pub fn remove(&mut self) -> (r: Option<Node<T>>)
        requires
            old(self).wf(),
        ensures
            final(self).wf(),
            final(self).root_spec() == old(self).root_spec(),
            final(self).last_id_spec() == old(self).last_id_spec(),
            old(self).removed(*final(self), r),
    {
        let ghost before = *self;
        let (tree_id, leaf_opt) = self.focus;
        let leaf_id = match leaf_opt {
            None => {
                return None;
            },
            Some(l) => l,
        };
        proof {
            before.lemma_focus_container();
            assert(before.node_ok(leaf_id.value_spec() as int));
            assert(before.node_ok(tree_id.value_spec() as int));
        }
        let next = self.neighbour(&leaf_id, Direction::Before);
        let pos = self.tree_ref(tree_id).child_index(&leaf_id);
        proof {
            assert(before.children_of(tree_id).index_of(leaf_id) == pos as int);
        }
        self.remove_child_at(tree_id, pos);
        let ghost s1 = *self;
        proof {
            let li = leaf_id.value_spec() as int;
            assert(s1.slots()[li] == before.slots()[li]);
        }
        let removed = self.take_node(leaf_id);
        let ghost s2 = *self;
        proof {
            before.lemma_same_ranks_facts(s1);
            s1.lemma_same_ranks_facts(s2);
            before.lemma_same_ranks_trans(s1, s2);
            let ti = tree_id.value_spec() as int;
            assert(s2.slots()[ti] == s1.slots()[ti]);
        }
        let root = self.root;
        let t = self.tree_ref_raw(tree_id);
        let remaining = t.children.len();
        let has_leaf = t.has_leaf();
        let collapse = tree_id != root && (remaining == 1 || !has_leaf);
        let ghost rest = before.children_of(tree_id).remove(pos as int);
        assert(collapse == before.collapses(tree_id, pos as int));
        let layout_root = if collapse {
            self.collapse_into_parent(Ghost(before), tree_id, leaf_id, pos)
        } else {
            proof {
                assert(rest.len() >= 2 || tree_id == root);
                before.lemma_remove_plain_wf(s2, tree_id, leaf_id, pos as int);
            }
            self.focus = (root, None);
            proof {
                assert forall|i: int| #[trigger] self.node_ok(i) by {
                    assert(s2.node_ok(i));
                }
            }
            tree_id
        };
        let ghost s5 = *self;
        proof {
            if let Some(n) = next {
                if n != leaf_id {
                    assert(before.node_ok(n.value_spec() as int));
                    assert(n != tree_id);
                    if collapse {
                        if rest.contains(n) {
                            assert(s5.has(n));
                        } else {
                            assert(before.parent_of(n) != Some(tree_id)) by {
                                if before.parent_of(n) == Some(tree_id) {
                                    let cs = before.children_of(tree_id);
                                    assert(cs.contains(n));
                                    let k = choose|k: int| 0 <= k < cs.len() && cs[k] == n;
                                    if k < pos {
                                        assert(rest[k] == n);
                                    } else {
                                        assert(k != pos);
                                        assert(rest[k - 1] == n);
                                    }
                                }
                            }
                            assert(n != layout_root);
                            assert(!set![tree_id, leaf_id, layout_root].union(rest.to_set()).contains(n));
                        }
                    }
                    assert(s5.is_leaf(n));
                }
            }
        }
        self.refocus_and_layout(next, leaf_id, layout_root);
        proof {
            let fin = *self;
            if collapse {
                before.lemma_kept_trans(s5, fin, set![tree_id, leaf_id, layout_root].union(rest.to_set()));
                assert forall|x: NodeId| #[trigger] rest.contains(x) implies fin.get(x)
                    == before.get(x).with_parent(Some(layout_root)).with_geometry(fin.geometry_of(x)) by {
                    assert(s5.has(x));
                    assert(fin.has(x));
                    assert(!Set::<NodeId>::empty().contains(x));
                    assert(fin.get(x) == s5.get(x).with_geometry(fin.geometry_of(x)));
                }
            } else {
                before.lemma_kept_trans(s5, fin, set![tree_id, leaf_id]);
            }
        }
        Some(removed)
    }
}

} // verus!

verus! {

impl<T> Tree<T> {
    /// The part of `remove` that folds container `tree_id`, which has lost
    /// leaf `leaf_id` from position `pos`, into its parent.
    #[verifier::rlimit(100)]
    fn collapse_into_parent(&mut self, before: Ghost<Tree<T>>, tree_id: NodeId, leaf_id: NodeId, pos: usize) -> (g: NodeId)
        requires
            before@.wf(),
            before@.focus_spec() == (tree_id, Some(leaf_id)),
            before@.is_container(tree_id),
            before@.is_leaf(leaf_id),
            before@.parent_of(leaf_id) == Some(tree_id),
            pos < before@.children_of(tree_id).len(),
            before@.children_of(tree_id)[pos as int] == leaf_id,
            before@.collapses(tree_id, pos as int),
            old(self).slots().len() == before@.slots().len(),
            forall|i: int| 0 <= i < before@.slots().len() && i != tree_id.value_spec() && i != leaf_id.value_spec()
                ==> #[trigger] old(self).slots()[i] == before@.slots()[i],
            old(self).slots()[leaf_id.value_spec() as int] is None,
            old(self).slots()[tree_id.value_spec() as int] is Some,
            old(self).get(tree_id) is Tree,
            old(self).get(tree_id).id_spec() == tree_id,
            before@.fields_kept(*old(self), tree_id),
            old(self).children_of(tree_id) == before@.children_of(tree_id).remove(pos as int),
            old(self).root_spec() == before@.root_spec(),
            old(self).last_id_spec() == before@.last_id_spec(),
            before@.same_ranks(*old(self)),
        ensures
            final(self).wf(),
            g == before@.parent_of(tree_id)->0,
            final(self).is_container(g),
            final(self).focus_spec() == (before@.root_spec(), None::<NodeId>),
            final(self).root_spec() == before@.root_spec(),
            final(self).last_id_spec() == before@.last_id_spec(),
            !final(self).has(tree_id),
            !final(self).has(leaf_id),
            final(self).children_of(g) == splice(
                before@.children_of(g),
                before@.children_of(g).index_of(tree_id),
                before@.children_of(tree_id).remove(pos as int),
            ),
            before@.fields_kept(*final(self), g),
            forall|x: NodeId| #[trigger] before@.children_of(tree_id).remove(pos as int).contains(x)
                ==> final(self).has(x) && final(self).get(x) == before@.get(x).with_parent(Some(g)),
            before@.kept_except(*final(self), set![tree_id, leaf_id, g].union(before@.children_of(tree_id).remove(pos as int).to_set())),
    {
        let ghost before = before@;
        let ghost s2 = *self;
        let ghost rest = before.children_of(tree_id).remove(pos as int);
        proof {
            assert(before.node_ok(tree_id.value_spec() as int));
            assert(before.node_ok(leaf_id.value_spec() as int));
        }
        let root = self.root;
        let t = self.tree_ref_raw(tree_id);
            let kids = self.children_vec(tree_id);
            let g = match t.parent {
                Some(g) => g,
                None => unreached(),
            };
            proof {
                assert(before.node_ok(g.value_spec() as int));
                let gi = g.value_spec() as int;
                assert(g != leaf_id && g != tree_id);
                assert(s2.slots()[gi] == before.slots()[gi]);
            }
            let q = self.tree_ref_raw(g).child_index(&tree_id);
            proof {
                assert(before.children_of(g).index_of(tree_id) == q as int);
            }
            self.splice_children(g, q, &kids);
            let ghost s3 = *self;
            proof {
                assert forall|x: NodeId| #[trigger] rest.contains(x) implies x != leaf_id && before.has(x)
                    && before.parent_of(x) == Some(tree_id) && x.value_spec() != g.value_spec()
                    && x.value_spec() != tree_id.value_spec() && x.value_spec() != leaf_id.value_spec() by {
                    let k = choose|k: int| 0 <= k < rest.len() && rest[k] == x;
                    let cs = before.children_of(tree_id);
                    if k < pos {
                        assert(rest[k] == cs[k]);
                        assert(before.has(cs[k]));
                    } else {
                        assert(rest[k] == cs[k + 1]);
                        assert(before.has(cs[k + 1]));
                    }
                    assert(before.node_ok(x.value_spec() as int));
                }
                assert(rest.no_duplicates()) by {
                    let cs = before.children_of(tree_id);
                    assert forall|a: int, b: int| 0 <= a < rest.len() && 0 <= b < rest.len() && a != b implies rest[a]
                        != rest[b] by {
                        let ia = if a < pos { a } else { a + 1 };
                        let ib = if b < pos { b } else { b + 1 };
                        assert(rest[a] == cs[ia]);
                        assert(rest[b] == cs[ib]);
                    }
                }
            }
            proof {
                assert forall|i: int| 0 <= i < before.slots().len() && i != tree_id.value_spec() && i != leaf_id.value_spec() && i != g.value_spec()
                    implies #[trigger] s3.slots()[i] == before.slots()[i] by {
                    assert(s2.slots()[i] == before.slots()[i]);
                }
            }
            let mut k: usize = 0;
            while k < kids.len()
                invariant
                    before.wf(),
                    s3.slots().len() == before.slots().len(),
                    forall|i: int| 0 <= i < before.slots().len() && i != tree_id.value_spec() && i != leaf_id.value_spec() && i != g.value_spec()
                        ==> #[trigger] s3.slots()[i] == before.slots()[i],
                    kids@ == rest,
                    rest.no_duplicates(),
                    forall|x: NodeId| #[trigger] rest.contains(x) ==> x != leaf_id && before.has(x)
                        && before.parent_of(x) == Some(tree_id) && x.value_spec() != g.value_spec()
                        && x.value_spec() != tree_id.value_spec() && x.value_spec() != leaf_id.value_spec(),
                    0 <= k <= kids@.len(),
                    self.slots().len() == s3.slots().len(),
                    forall|j: int| 0 <= j < k ==> self.slots()[(#[trigger] kids@[j]).value_spec() as int]
                        == Some(before.get(kids@[j]).with_parent(Some(g))),
                    forall|i: int| 0 <= i < s3.slots().len() && (forall|j: int| k <= j < kids@.len() ==> (#[trigger] kids@[j]).value_spec() != i) && (forall|j: int| 0 <= j < k ==> (#[trigger] kids@[j]).value_spec() != i)
                        ==> #[trigger] self.slots()[i] == s3.slots()[i],
                    forall|j: int| k <= j < kids@.len() ==> self.slots()[(#[trigger] kids@[j]).value_spec() as int] == s3.slots()[kids@[j].value_spec() as int],
                    self.root_spec() == s3.root_spec(),
                    self.focus_spec() == s3.focus_spec(),
                    self.last_id_spec() == s3.last_id_spec(),
                    self.pending() == s3.pending(),
                    s3.same_ranks(*self),
                decreases kids@.len() - k,
            {
                let x = kids[k];
                proof {
                    assert(rest.contains(x));
                    let xi = x.value_spec() as int;
                    assert(s3.slots()[xi] == before.slots()[xi]);
                    assert(self.has(x));
                }
                let ghost sk = *self;
                self.set_parent_of(x, g);
                proof {
                    sk.lemma_same_ranks_facts(*self);
                    s3.lemma_same_ranks_trans(sk, *self);
                    assert forall|j: int| 0 <= j < k + 1 implies self.slots()[(#[trigger] kids@[j]).value_spec() as int]
                        == Some(before.get(kids@[j]).with_parent(Some(g))) by {
                        if j < k {
                            assert(kids@[j] != x);
                            assert(rest.contains(kids@[j]));
                            if kids@[j].value_spec() == x.value_spec() {
                                assert(before.has(kids@[j]));
                            }
                        }
                    }
                    assert forall|j: int| k + 1 <= j < kids@.len() implies self.slots()[(#[trigger] kids@[j]).value_spec() as int] == s3.slots()[kids@[j].value_spec() as int] by {
                        assert(kids@[j] != x);
                        assert(rest.contains(kids@[j]));
                        if kids@[j].value_spec() == x.value_spec() {
                            assert(before.has(kids@[j]));
                        }
                    }
                    assert forall|i: int| 0 <= i < s3.slots().len() && (forall|j: int| k + 1 <= j < kids@.len() ==> (#[trigger] kids@[j]).value_spec() != i) && (forall|j: int| 0 <= j < k + 1 ==> (#[trigger] kids@[j]).value_spec() != i)
                        implies #[trigger] self.slots()[i] == s3.slots()[i] by {
                        assert(kids@[k as int].value_spec() != i);
                    }
                }
                k = k + 1;
            }
            let _ = self.take_node(tree_id);
            self.focus = (root, None);
            let ghost s4 = *self;
            proof {
                assert(rest.len() >= 1) by {
                    assert(before.children_of(tree_id).len() >= 2);
                }
                assert forall|x: NodeId| #[trigger] rest.contains(x) implies s4.slots()[x.value_spec() as int]
                    == Some(before.get(x).with_parent(Some(g))) by {
                    let j = choose|j: int| 0 <= j < rest.len() && rest[j] == x;
                    assert(kids@[j] == x);
                }
                assert forall|i: int|
                    0 <= i < before.slots().len() && i != tree_id.value_spec() && i != leaf_id.value_spec() && i
                        != g.value_spec() && (forall|x: NodeId| rest.contains(x) ==> x.value_spec() != i)
                        implies #[trigger] s4.slots()[i] == before.slots()[i] by {
                    assert forall|j: int| 0 <= j < kids@.len() implies (#[trigger] kids@[j]).value_spec() != i by {
                        assert(rest.contains(kids@[j]));
                    }
                    assert(s3.slots()[i] == before.slots()[i]);
                }
                s3.lemma_same_ranks_facts(s4);
                before.lemma_same_ranks_trans(s2, s3);
                before.lemma_same_ranks_trans(s3, s4);
                before.lemma_collapse_wf(s4, tree_id, leaf_id, pos as int, g, q as int);
                assert(s4.wf());
            }
            g
    }
}

} // verus!

verus! {

impl<T> Tree<T> {
    /// The last part of `remove`: focus `next` in its container unless it is
    /// the removed leaf or none, and lay out `layout_root` again.
    fn refocus_and_layout(&mut self, next: Option<NodeId>, removed: NodeId, layout_root: NodeId)
        requires
            old(self).wf(),
            old(self).focus_spec() == (old(self).root_spec(), None::<NodeId>),
            old(self).is_container(layout_root),
            next is Some && next->0 != removed ==> old(self).is_leaf(next->0),
        ensures
            final(self).wf(),
            final(self).root_spec() == old(self).root_spec(),
            final(self).last_id_spec() == old(self).last_id_spec(),
            old(self).kept_except(*final(self), Set::empty()),
            forall|x: NodeId| #[trigger] final(self).has(x) == old(self).has(x),
            final(self).get(layout_root) == old(self).get(layout_root),
            final(self).subtree_laid_out(layout_root),
            match next {
                Some(n) => if n != removed {
                    final(self).focus_spec() == (final(self).parent_of(n)->0, Some(n))
                } else {
                    final(self).focus_spec() == (final(self).root_spec(), None::<NodeId>)
                },
                None => final(self).focus_spec() == (final(self).root_spec(), None::<NodeId>),
            },
    {
        let ghost s0 = *self;
        match next {
            Some(n) => {
                if n != removed {
                    proof {
                        assert(self.node_ok(n.value_spec() as int));
                    }
                    let p = match self.node_ref(n).parent_id() {
                        Some(p) => p,
                        None => unreached(),
                    };
                    self.focus = (p, Some(n));
                }
            },
            None => {},
        }
        let ghost s1 = *self;
        proof {
            assert forall|i: int| #[trigger] s1.node_ok(i) by {
                assert(s0.node_ok(i));
            }
        }
        self.update_geometries(layout_root);
        proof {
            s1.lemma_relayout(*self, layout_root);
            assert(s0.kept_except(*self, Set::empty())) by {
                assert forall|id: NodeId| !Set::<NodeId>::empty().contains(id) implies (#[trigger] self.has(id) == s0.has(id)) && (
                s0.has(id) ==> self.get(id) == s0.get(id).with_geometry(self.geometry_of(id))) by {
                    assert(self.has(id) == s1.has(id));
                }
            }
        }
    }
}

} // verus!
