//! Exchanging the focused leaf with another one.

use vstd::prelude::*;

use crate::node::{NodeId, TreeError};
use crate::tree::Tree;

verus! {

impl<T> Tree<T> {
    /// Exchanging the children at `i` and `j` of container `c` leaves the
    /// nodes well-formed.
    proof fn lemma_swap_wf(self, mid: Tree<T>, c: NodeId, i: int, j: int)
        requires
            self.wf_nodes(),
            self.is_container(c),
            0 <= i < self.children_of(c).len(),
            0 <= j < self.children_of(c).len(),
            mid.slots() == self.slots().update(c.value_spec() as int, mid.slots()[c.value_spec() as int]),
            mid.slots()[c.value_spec() as int] is Some,
            mid.get(c) is Tree,
            mid.get(c).id_spec() == c,
            self.fields_kept(mid, c),
            mid.children_of(c) == self.children_of(c).update(i, self.children_of(c)[j]).update(
                j,
                self.children_of(c)[i],
            ),
            mid.root_spec() == self.root_spec(),
            mid.last_id_spec() == self.last_id_spec(),
            self.same_ranks(mid),
        ensures
            mid.wf_nodes(),
            forall|id: NodeId| id != c ==> (#[trigger] mid.has(id) == self.has(id)) && (self.has(id) ==> mid.get(id) == self.get(id)),
    {
        self.lemma_same_ranks_facts(mid);
        let ci = c.value_spec() as int;
        assert(self.node_ok(ci));
        let xs = self.children_of(c);
        let ys = mid.children_of(c);
        assert forall|p: int| 0 <= p < ys.len() implies #[trigger] ys[p] == xs[if p == j { i } else if p == i { j } else { p }] by {}
        assert forall|x: NodeId| #[trigger] xs.contains(x) implies ys.contains(x) by {
            let p = choose|p: int| 0 <= p < xs.len() && xs[p] == x;
            let p2 = if p == i { j } else if p == j { i } else { p };
            assert(ys[p2] == x);
        }
        assert(ys.no_duplicates()) by {
            assert forall|p: int, q: int| 0 <= p < ys.len() && 0 <= q < ys.len() && p != q implies ys[p] != ys[q] by {
                let pp = if p == j { i } else if p == i { j } else { p };
                let qq = if q == j { i } else if q == i { j } else { q };
                assert(ys[p] == xs[pp]);
                assert(ys[q] == xs[qq]);
            }
        }
        assert forall|id: NodeId| id != c implies (#[trigger] mid.has(id) == self.has(id)) && (self.has(id) ==> mid.get(id) == self.get(id)) by {
            let k = id.value_spec() as int;
            if k == ci {
                assert(!self.has(id));
            } else if 0 <= k < self.slots().len() {
                assert(mid.slots()[k] == self.slots()[k]);
            }
        }
        assert forall|k: int| #[trigger] mid.node_ok(k) by {
            assert(self.node_ok(k));
            if k == ci {
                if c != self.root_spec() {
                    let q = self.parent_of(c)->0;
                    assert(self.node_ok(q.value_spec() as int));
                    assert(mid.has(q));
                }
                assert forall|p: int| 0 <= p < ys.len() implies mid.has(#[trigger] ys[p]) && mid.parent_of(ys[p]) == Some(c) by {
                    let pp = if p == j { i } else if p == i { j } else { p };
                    assert(ys[p] == xs[pp]);
                    assert(self.has(xs[pp]));
                    if xs[pp] == c {
                        self.lemma_descends_rank(c, c);
                    }
                }
            } else if 0 <= k < self.slots().len() && self.slots()[k] is Some {
                let nd = self.slots()[k]->0;
                let id = nd.id_spec();
                assert(mid.slots()[k] == self.slots()[k]);
                if id != self.root_spec() {
                    let q = nd.parent_spec()->0;
                    assert(self.node_ok(q.value_spec() as int));
                    assert(mid.has(q));
                }
                if nd is Tree {
                    let ch = mid.children_of(id);
                    assert forall|p: int| 0 <= p < ch.len() implies mid.has(#[trigger] ch[p]) && mid.parent_of(ch[p]) == Some(id) by {
                        assert(self.has(ch[p]));
                    }
                }
            }
        }
    }

    /// Exchanges the focused leaf with leaf `target_leaf_id` of container
    /// `target_node_id`. In one container they swap places; across two they
    /// swap parents, and the focus follows the focused leaf into its new
    /// container. Both containers are laid out again. Nothing happens when no
    /// leaf is focused.
    #[verifier::rlimit(100)]
    pub fn move_node(&mut self, target_node_id: NodeId, target_leaf_id: NodeId) -> (r: Result<(), TreeError>)
        requires
            old(self).wf(),
        ensures
            final(self).wf(),
            final(self).root_spec() == old(self).root_spec(),
            final(self).last_id_spec() == old(self).last_id_spec(),
            ({
                let valid = old(self).is_leaf(target_leaf_id) && old(self).parent_of(target_leaf_id) == Some(target_node_id);
                let (c, fl) = old(self).focus_spec();
                &&& (r is Ok) == (valid || fl is None)
                &&& r is Err ==> *final(self) == *old(self)
                &&& r is Err && (target_node_id is Leaf || target_leaf_id is Tree) ==> r == Err::<(), TreeError>(TreeError::WrongNodeKind)
                &&& r is Err && target_node_id is Tree && target_leaf_id is Leaf ==> r == Err::<(), TreeError>(TreeError::InvalidNodeReference)
                &&& fl is None ==> *final(self) == *old(self)
                &&& (valid && fl is Some && target_node_id == c) ==> {
                    let xs = old(self).children_of(c);
                    let i = xs.index_of(fl->0);
                    let j = xs.index_of(target_leaf_id);
                    &&& final(self).children_of(c) == xs.update(i, xs[j]).update(j, xs[i])
                    &&& final(self).focus_spec() == old(self).focus_spec()
                    &&& old(self).kept_except(*final(self), set![c])
                    &&& final(self).subtree_laid_out(c)
                }
                &&& (valid && fl is Some && target_node_id != c) ==> {
                    let a = fl->0;
                    let xs = old(self).children_of(c);
                    let ys = old(self).children_of(target_node_id);
                    &&& final(self).children_of(c) == xs.update(xs.index_of(a), target_leaf_id)
                    &&& final(self).children_of(target_node_id) == ys.update(ys.index_of(target_leaf_id), a)
                    &&& final(self).get(a) == old(self).get(a).with_parent(Some(target_node_id)).with_geometry(final(self).geometry_of(a))
                    &&& final(self).get(target_leaf_id) == old(self).get(target_leaf_id).with_parent(Some(c)).with_geometry(final(self).geometry_of(target_leaf_id))
                    &&& final(self).focus_spec() == (target_node_id, Some(a))
                    &&& old(self).kept_except(*final(self), set![c, target_node_id, a, target_leaf_id])
                    &&& final(self).subtree_laid_out(c)
                }
            }),
    {
        let ghost before = *self;
        let (focused_node, leaf_opt) = self.focus;
        let leaf_id = match leaf_opt {
            None => {
                return Ok(());
            },
            Some(l) => l,
        };
        proof {
            before.lemma_focus_container();
            assert(before.node_ok(leaf_id.value_spec() as int));
            assert(before.node_ok(target_leaf_id.value_spec() as int));
        }
        if target_node_id.is_leaf_id() || !target_leaf_id.is_leaf_id() {
            return Err(TreeError::WrongNodeKind);
        }
        match self.get_leaf(target_leaf_id) {
            Ok(t) => {
                if t.parent != Some(target_node_id) {
                    return Err(TreeError::InvalidNodeReference);
                }
            },
            Err(_) => {
                return Err(TreeError::InvalidNodeReference);
            },
        }
        proof {
            assert(before.node_ok(target_node_id.value_spec() as int));
            assert(before.node_ok(focused_node.value_spec() as int));
        }
        let focus_idx = self.tree_ref(focused_node).child_index(&leaf_id);
        let target_idx = self.tree_ref(target_node_id).child_index(&target_leaf_id);
        proof {
            assert(before.children_of(focused_node).index_of(leaf_id) == focus_idx as int);
            assert(before.children_of(target_node_id).index_of(target_leaf_id) == target_idx as int);
        }
        if focused_node == target_node_id {
            self.swap_children(Ghost(before), focused_node, leaf_id, focus_idx, target_leaf_id, target_idx);
        } else {
            self.exchange_leaves(Ghost(before), focused_node, leaf_id, focus_idx, target_node_id, target_leaf_id, target_idx);
        }
        Ok(())
    }
}

} // verus!

verus! {

impl<T> Tree<T> {
    /// `move_node` within one container.
    #[verifier::rlimit(100)]
    fn swap_children(&mut self, before: Ghost<Tree<T>>, focused_node: NodeId, leaf_id: NodeId, focus_idx: usize, target_leaf_id: NodeId, target_idx: usize)
        requires
            before@.wf(),
            *old(self) == before@,
            before@.focus_spec() == (focused_node, Some(leaf_id)),
            before@.is_container(focused_node),
            before@.is_leaf(leaf_id),
            before@.parent_of(leaf_id) == Some(focused_node),
            before@.is_leaf(target_leaf_id),
            before@.is_container(focused_node),
            before@.parent_of(target_leaf_id) == Some(focused_node),
            focus_idx < before@.children_of(focused_node).len(),
            before@.children_of(focused_node)[focus_idx as int] == leaf_id,
            before@.children_of(focused_node).index_of(leaf_id) == focus_idx as int,
            target_idx < before@.children_of(focused_node).len(),
            before@.children_of(focused_node)[target_idx as int] == target_leaf_id,
            before@.children_of(focused_node).index_of(target_leaf_id) == target_idx as int,
        ensures
            final(self).wf(),
            final(self).root_spec() == before@.root_spec(),
            final(self).last_id_spec() == before@.last_id_spec(),
            ({
                let c = focused_node;
                let xs = before@.children_of(c);
                let i = xs.index_of(leaf_id);
                let j = xs.index_of(target_leaf_id);
                &&& final(self).children_of(c) == xs.update(i, xs[j]).update(j, xs[i])
                &&& final(self).focus_spec() == before@.focus_spec()
                &&& before@.kept_except(*final(self), set![c])
                &&& final(self).subtree_laid_out(c)
            }),
    {
        let ghost before = before@;
            self.replace_child(focused_node, focus_idx, target_leaf_id);
            let ghost s1 = *self;
            self.replace_child(focused_node, target_idx, leaf_id);
            let ghost s2 = *self;
            proof {
                before.lemma_same_ranks_facts(s1);
                s1.lemma_same_ranks_facts(s2);
                before.lemma_same_ranks_trans(s1, s2);
                let xs = before.children_of(focused_node);
                assert(s2.children_of(focused_node) == xs.update(focus_idx as int, xs[target_idx as int]).update(target_idx as int, xs[focus_idx as int]));
                assert(s2.slots() =~= before.slots().update(focused_node.value_spec() as int, s2.slots()[focused_node.value_spec() as int]));
                before.lemma_swap_wf(s2, focused_node, focus_idx as int, target_idx as int);
                assert forall|i: int| #[trigger] s2.node_ok(i) by {}
                assert(s2.is_leaf(leaf_id));
            }
            self.update_geometries(focused_node);
            proof {
                s2.lemma_relayout(*self, focused_node);
                assert(before.kept_except(s2, set![focused_node])) by {
                    assert forall|id: NodeId| !set![focused_node].contains(id) implies (#[trigger] s2.has(id) == before.has(id)) && (
                    before.has(id) ==> s2.get(id) == before.get(id).with_geometry(s2.geometry_of(id))) by {
                        if before.has(id) {
                            before.get(id).lemma_with_own_geometry();
                        }
                    }
                }
                before.lemma_kept_trans(s2, *self, set![focused_node]);
            }
    }

    /// `move_node` across two containers.
    #[verifier::rlimit(100)]
    fn exchange_leaves(&mut self, before: Ghost<Tree<T>>, focused_node: NodeId, leaf_id: NodeId, focus_idx: usize, target_node_id: NodeId, target_leaf_id: NodeId, target_idx: usize)
        requires
            before@.wf(),
            *old(self) == before@,
            before@.focus_spec() == (focused_node, Some(leaf_id)),
            before@.is_container(focused_node),
            before@.is_leaf(leaf_id),
            before@.parent_of(leaf_id) == Some(focused_node),
            before@.is_leaf(target_leaf_id),
            before@.is_container(target_node_id),
            before@.parent_of(target_leaf_id) == Some(target_node_id),
            focus_idx < before@.children_of(focused_node).len(),
            before@.children_of(focused_node)[focus_idx as int] == leaf_id,
            before@.children_of(focused_node).index_of(leaf_id) == focus_idx as int,
            target_idx < before@.children_of(target_node_id).len(),
            before@.children_of(target_node_id)[target_idx as int] == target_leaf_id,
            before@.children_of(target_node_id).index_of(target_leaf_id) == target_idx as int,
            focused_node != target_node_id,
        ensures
            final(self).wf(),
            final(self).root_spec() == before@.root_spec(),
            final(self).last_id_spec() == before@.last_id_spec(),
            ({
                let c = focused_node;
                let a = leaf_id;
                let xs = before@.children_of(c);
                let ys = before@.children_of(target_node_id);
                &&& final(self).children_of(c) == xs.update(xs.index_of(a), target_leaf_id)
                &&& final(self).children_of(target_node_id) == ys.update(ys.index_of(target_leaf_id), a)
                &&& final(self).get(a) == before@.get(a).with_parent(Some(target_node_id)).with_geometry(final(self).geometry_of(a))
                &&& final(self).get(target_leaf_id) == before@.get(target_leaf_id).with_parent(Some(c)).with_geometry(final(self).geometry_of(target_leaf_id))
                &&& final(self).focus_spec() == (target_node_id, Some(a))
                &&& before@.kept_except(*final(self), set![c, target_node_id, a, target_leaf_id])
                &&& final(self).subtree_laid_out(c)
            }),
    {
        let ghost before = before@;
        proof {
            assert(before.node_ok(target_node_id.value_spec() as int));
            assert(before.node_ok(focused_node.value_spec() as int));
            assert(before.node_ok(leaf_id.value_spec() as int));
            assert(before.node_ok(target_leaf_id.value_spec() as int));
        }
            self.replace_child(target_node_id, target_idx, leaf_id);
            let ghost s1 = *self;
            proof {
                let fi = focused_node.value_spec() as int;
                assert(s1.slots()[fi] == before.slots()[fi]);
            }
            self.replace_child(focused_node, focus_idx, target_leaf_id);
            let ghost s2 = *self;
            proof {
                let ai = leaf_id.value_spec() as int;
                assert(s2.slots()[ai] == before.slots()[ai]);
            }
            self.reparent_leaf(leaf_id, target_node_id);
            let ghost s3 = *self;
            proof {
                let bi = target_leaf_id.value_spec() as int;
                assert(s3.slots()[bi] == before.slots()[bi]);
            }
            self.reparent_leaf(target_leaf_id, focused_node);
            let ghost s35 = *self;
            self.focus = (target_node_id, Some(leaf_id));
            let ghost s4 = *self;
            proof {
                assert(s35.rank_id(target_node_id) == s3.rank_id(target_node_id));
                assert(s35.rank_id(focused_node) == s3.rank_id(focused_node));
                assert(s3.rank_id(focused_node) == s2.rank_id(focused_node));
                assert(s3.rank_id(target_node_id) == s2.rank_id(target_node_id));
                assert(s4.rank_id(target_node_id) == s35.rank_id(target_node_id));
                assert forall|k: int| k != leaf_id.value_spec() && k != target_leaf_id.value_spec() implies #[trigger] s4.rank_of(k) == before.rank_of(k) by {
                    assert(s4.rank_of(k) == s35.rank_of(k));
                    assert(s35.rank_of(k) == s3.rank_of(k));
                    assert(s3.rank_of(k) == s2.rank_of(k));
                }
                assert(s4.rank_limit() == before.rank_limit());
                assert(leaf_id.value_spec() != target_leaf_id.value_spec() || leaf_id == target_leaf_id);
                assert(leaf_id != target_leaf_id);
                assert(s3.rank_id(leaf_id) == s2.rank_id(target_node_id) + 1);
                assert(s35.rank_id(leaf_id) == s3.rank_id(leaf_id));
                assert(s4.rank_id(leaf_id) == s35.rank_id(leaf_id));
                assert(s35.rank_id(target_leaf_id) == s3.rank_id(focused_node) + 1);
                assert(s4.rank_id(target_leaf_id) == s35.rank_id(target_leaf_id));
                before.lemma_same_ranks_facts(s1);
                s1.lemma_same_ranks_facts(s2);
                let ai = leaf_id.value_spec() as int;
                let bi = target_leaf_id.value_spec() as int;
                let fi = focused_node.value_spec() as int;
                let ti = target_node_id.value_spec() as int;
                assert(s4.slots()[ti] == s1.slots()[ti]);
                assert(s4.slots()[fi] == s2.slots()[fi]);
                assert(s4.slots()[ai] == s3.slots()[ai]);
                before.lemma_same_ranks_trans(s1, s2);
                assert(target_node_id.value_spec() != leaf_id.value_spec());
                assert(target_node_id.value_spec() != target_leaf_id.value_spec());
                assert(focused_node.value_spec() != leaf_id.value_spec());
                assert(focused_node.value_spec() != target_leaf_id.value_spec());
                assert(s4.rank_id(target_node_id) == s3.rank_id(target_node_id));
                assert(s4.rank_id(target_node_id) == before.rank_id(target_node_id));
                assert(s4.rank_id(focused_node) == before.rank_id(focused_node));
                before.lemma_exchange_wf(s4, focused_node, leaf_id, focus_idx as int, target_node_id, target_leaf_id, target_idx as int);
                assert(s4.has(leaf_id));
                assert(s4.node_ok(ai));
            }
            self.update_geometries(target_node_id);
            let ghost s5 = *self;
            proof {
                s4.lemma_relayout(s5, target_node_id);
                assert(s5.is_container(focused_node));
                assert(s5.parent_of(focused_node) == s4.parent_of(focused_node));
            }
            self.update_geometries(focused_node);
            proof {
                s5.lemma_relayout(*self, focused_node);
                let ex = set![focused_node, target_node_id, leaf_id, target_leaf_id];
                assert(before.kept_except(s4, ex)) by {
                    assert forall|id: NodeId| !ex.contains(id) implies (#[trigger] s4.has(id) == before.has(id)) && (
                    before.has(id) ==> s4.get(id) == before.get(id).with_geometry(s4.geometry_of(id))) by {
                        if before.has(id) {
                            before.get(id).lemma_with_own_geometry();
                        }
                    }
                }
                s4.lemma_kept_trans(s5, *self, Set::empty());
                before.lemma_kept_trans(s4, *self, ex);
                assert(self.get(leaf_id) == s4.get(leaf_id).with_geometry(self.geometry_of(leaf_id)));
                assert(self.get(target_leaf_id) == s4.get(target_leaf_id).with_geometry(self.geometry_of(target_leaf_id)));
                assert(self.children_of(target_node_id) == s5.children_of(target_node_id));
            }
    }
}

} // verus!
