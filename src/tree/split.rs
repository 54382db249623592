//! Splitting a leaf into a new container.

use vstd::prelude::*;

use crate::geometry::Orientation;
use crate::node::{Leaf, Node, NodeId};
use crate::tree::Tree;

verus! {

impl<T> Tree<T> {
    /// The tree right after `split_insert` has wrapped leaf `l` of `c` into
    /// the new container `nt` beside the new leaf `nl` is well-formed.
    proof fn lemma_split_wf(self, mid: Tree<T>, c: NodeId, l: NodeId, p: int, nt: NodeId, nl: NodeId)
        requires
            self.wf(),
            self.focus_spec() == (c, Some(l)),
            self.is_container(c),
            0 <= p < self.children_of(c).len(),
            self.children_of(c)[p] == l,
            nt == NodeId::Tree((self.last_id_spec() + 1) as u32),
            nl == NodeId::Leaf((self.last_id_spec() + 2) as u32),
            self.can_allocate(2),
            mid.slots().len() == self.slots().len() + 2,
            forall|i: int|
                0 <= i < self.slots().len() && i != c.value_spec() && i != l.value_spec()
                    ==> #[trigger] mid.slots()[i] == self.slots()[i],
            mid.slots()[l.value_spec() as int] == Some(
                self.get(l).with_parent(Some(nt)).with_ratio(None),
            ),
            mid.slots()[c.value_spec() as int] is Some,
            mid.get(c) is Tree,
            mid.get(c).id_spec() == c,
            self.fields_kept(mid, c),
            mid.children_of(c) == self.children_of(c).update(p, nt),
            mid.slots()[nt.value_spec() as int] is Some,
            mid.get(nt) is Tree,
            mid.get(nt).id_spec() == nt,
            mid.parent_of(nt) == Some(c),
            mid.children_of(nt) == seq![l, nl],
            mid.geometry_of(nt).is_sane(),
            mid.slots()[nl.value_spec() as int] is Some,
            mid.get(nl) is Leaf,
            mid.get(nl).id_spec() == nl,
            mid.parent_of(nl) == Some(nt),
            mid.geometry_of(nl).is_sane(),
            mid.root_spec() == self.root_spec(),
            mid.focus_spec() == (nt, Some(nl)),
            mid.last_id_spec() == self.last_id_spec() + 2,
            mid.rank_limit() == self.rank_limit() + 2,
            forall|i: int|
                i != nt.value_spec() && i != nl.value_spec() && i != l.value_spec()
                    ==> #[trigger] mid.rank_of(i) == self.rank_of(i),
            mid.rank_id(nt) == self.rank_id(c) + 1,
            mid.rank_id(nl) == self.rank_id(c) + 2,
            mid.rank_id(l) == self.rank_id(c) + 2,
        ensures
            mid.wf(),
    {
        let ci = c.value_spec() as int;
        let li = l.value_spec() as int;
        let ti = nt.value_spec() as int;
        let ni = nl.value_spec() as int;
        assert(self.node_ok(ci));
        assert(self.node_ok(li));
        let cs = self.children_of(c);
        let ncs = mid.children_of(c);
        assert(self.has(l));
        assert(l != self.root_spec());
        assert(self.rank_id(c) < self.rank_limit());
        assert forall|x: NodeId| #[trigger] cs.contains(x) implies self.has(x) && x.value_spec() < self.slots().len() by {
            let k = choose|k: int| 0 <= k < cs.len() && cs[k] == x;
            assert(self.has(cs[k]));
        }
        assert forall|k: int| 0 <= k < ncs.len() && k != p implies #[trigger] ncs[k] == cs[k] && ncs[k] != l by {}
        assert(ncs.no_duplicates()) by {
            assert forall|a: int, b: int| 0 <= a < ncs.len() && 0 <= b < ncs.len() && a != b implies ncs[a] != ncs[b] by {
                if a != p && b != p {
                } else if a == p {
                    assert(cs.contains(ncs[b]));
                } else {
                    assert(cs.contains(ncs[a]));
                }
            }
        }
        assert forall|id: NodeId| id != l && id != c && self.has(id) implies #[trigger] mid.has(id) && mid.get(id) == self.get(id) by {
            let i = id.value_spec() as int;
            assert(i != ci && i != li);
        }
        assert(mid.has(l) && mid.has(c) && mid.has(nt) && mid.has(nl));
        assert(mid.rank_id(c) == self.rank_id(c));
        assert forall|i: int| #[trigger] mid.node_ok(i) by {
            assert(self.node_ok(i));
            if i == ni {
            } else if i == ti {
                assert(ncs[p] == nt);
                assert(mid.children_of(c).contains(nt));
                assert(mid.children_of(nt)[0] == l);
                assert(mid.children_of(nt)[1] == nl);
                assert(mid.children_of(nt).no_duplicates());
            } else if i == li {
                assert(mid.children_of(nt)[0] == l);
            } else if i == ci {
                if c != self.root_spec() {
                    let q = self.parent_of(c)->0;
                    assert(self.node_ok(q.value_spec() as int));
                    assert(q != l);
                    assert(mid.has(q));
                }
                assert forall|k: int| 0 <= k < ncs.len() implies mid.has(#[trigger] ncs[k]) && mid.parent_of(ncs[k]) == Some(c) by {
                    if k != p {
                        assert(self.has(cs[k]));
                    }
                }
            } else if 0 <= i < self.slots().len() && self.slots()[i] is Some {
                let nd = self.slots()[i]->0;
                let id = nd.id_spec();
                assert(mid.slots()[i] == self.slots()[i]);
                if id != self.root_spec() {
                    let q = nd.parent_spec()->0;
                    assert(self.node_ok(q.value_spec() as int));
                    assert(q != l);
                    assert(mid.has(q));
                    if q == c {
                        assert(id != l);
                        let k = choose|k: int| 0 <= k < cs.len() && cs[k] == id;
                        assert(k != p);
                        assert(ncs[k] == id);
                    }
                }
                if nd is Tree {
                    let ch = mid.children_of(id);
                    assert forall|k: int| 0 <= k < ch.len() implies mid.has(#[trigger] ch[k]) && mid.parent_of(ch[k]) == Some(id) by {
                        assert(self.has(ch[k]));
                        if ch[k] == l {
                            assert(self.parent_of(l) == Some(c));
                        }
                    }
                }
            }
        }
    }

    /// Splits the focused leaf: a new container with orientation
    /// `orientation` takes its place in the focused container and holds it
    /// and a new leaf for `data`, which gets the focus. With no leaf focused,
    /// the root takes `orientation` and `data` is inserted.
    pub fn split_insert(&mut self, data: T, orientation: Orientation)
        requires
            old(self).wf(),
            old(self).can_allocate(2),
        ensures
            final(self).wf(),
            final(self).root_spec() == old(self).root_spec(),
            ({
                let (c, fl) = old(self).focus_spec();
                match fl {
                    None => {
                        let n = NodeId::Leaf((old(self).last_id_spec() + 1) as u32);
                        &&& final(self).orientation_of(c) == orientation
                        &&& final(self).children_of(c) == old(self).children_of(c).push(n)
                        &&& final(self).focus_spec() == (c, Some(n))
                        &&& final(self).get(n) == Node::Leaf(
                            Leaf { id: n, parent: Some(c), geometry: final(self).geometry_of(n), ratio: None, data },
                        )
                        &&& final(self).subtree_laid_out(c)
                    },
                    Some(l) => {
                        let nt = NodeId::Tree((old(self).last_id_spec() + 1) as u32);
                        let nl = NodeId::Leaf((old(self).last_id_spec() + 2) as u32);
                        let p = old(self).children_of(c).index_of(l);
                        &&& final(self).last_id_spec() == old(self).last_id_spec() + 2
                        &&& final(self).children_of(c) == old(self).children_of(c).update(p, nt)
                        &&& old(self).fields_kept(*final(self), c)
                        &&& final(self).is_container(nt)
                        &&& final(self).parent_of(nt) == Some(c)
                        &&& final(self).children_of(nt) == seq![l, nl]
                        &&& final(self).orientation_of(nt) == orientation
                        &&& final(self).ratio_of(nt) is None
                        &&& final(self).get(nl) == Node::Leaf(
                            Leaf { id: nl, parent: Some(nt), geometry: final(self).geometry_of(nl), ratio: None, data },
                        )
                        &&& final(self).get(l) == old(self).get(l).with_parent(Some(nt)).with_ratio(None).with_geometry(final(self).geometry_of(l))
                        &&& final(self).focus_spec() == (nt, Some(nl))
                        &&& old(self).kept_except(*final(self), set![c, l, nt, nl])
                        &&& final(self).subtree_laid_out(c)
                    },
                }
            }),
    {
        let ghost before = *self;
        proof {
            before.lemma_focus_container();
        }
        let (tree_id, leaf_id) = self.focus;
        let leaf_id = match leaf_id {
            None => {
                let root = self.root;
                self.set_orientation(root, orientation);
                let ghost mid = *self;
                proof {
                    assert(mid.parent_of(root) == before.parent_of(root));
                }
                self.update_geometries(root);
                let ghost mid2 = *self;
                proof {
                    mid.lemma_relayout(mid2, root);
                    mid.lemma_same_ranks_facts(mid2);
                    assert(mid2.can_allocate(1));
                }
                self.insert(data);
                proof {
                    assert(mid2.get(root) == mid.get(root));
                    assert(self.orientation_of(root) == orientation);
                }
                return;
            },
            Some(l) => l,
        };
        proof {
            assert(self.node_ok(leaf_id.value_spec() as int));
            assert(self.node_ok(tree_id.value_spec() as int));
        }
        let pos = self.tree_ref(tree_id).child_index(&leaf_id);
        proof {
            assert(before.children_of(tree_id).index_of(leaf_id) == pos as int);
        }
        let new_leaf_id = NodeId::Leaf(self.last_id + 2);
        let mut kids: Vec<NodeId> = Vec::new();
        kids.push(leaf_id);
        kids.push(new_leaf_id);
        let new_node_id = self.push_tree(tree_id, kids, orientation);
        let ghost s1 = *self;
        let nl = self.push_leaf(new_node_id, data, 1);
        let ghost s2 = *self;
        proof {
            let li = leaf_id.value_spec() as int;
            assert(s2.slots()[li] == before.slots()[li]);
        }
        self.relink_leaf(leaf_id, new_node_id);
        let ghost s3 = *self;
        proof {
            let ci = tree_id.value_spec() as int;
            assert(s3.slots()[ci] == before.slots()[ci]);
        }
        self.replace_child(tree_id, pos, new_node_id);
        self.focus = (new_node_id, Some(nl));
        let ghost mid = *self;
        proof {
            s3.lemma_same_ranks_facts(mid);
            let ti = new_node_id.value_spec() as int;
            let ni = nl.value_spec() as int;
            let li = leaf_id.value_spec() as int;
            let ci = tree_id.value_spec() as int;
            assert(mid.slots()[ti] == s1.slots()[ti]);
            assert(mid.slots()[ni] == s2.slots()[ni]);
            assert(mid.slots()[li] == s3.slots()[li]);
            assert(mid.children_of(new_node_id) =~= seq![leaf_id, nl]);
            assert forall|i: int|
                0 <= i < before.slots().len() && i != ci && i != li implies #[trigger] mid.slots()[i]
                    == before.slots()[i] by {
                assert(s1.slots()[i] == before.slots()[i]);
                assert(s2.slots()[i] == before.slots()[i]);
            }
            before.lemma_split_wf(mid, tree_id, leaf_id, pos as int, new_node_id, nl);
        }
        self.update_geometries(tree_id);
        proof {
            mid.lemma_relayout(*self, tree_id);
            let ex = set![tree_id, leaf_id, new_node_id, nl];
            assert(before.kept_except(mid, ex)) by {
                assert forall|id: NodeId| !ex.contains(id) implies (#[trigger] mid.has(id) == before.has(id)) && (
                before.has(id) ==> mid.get(id) == before.get(id).with_geometry(mid.geometry_of(id))) by {
                    let i = id.value_spec() as int;
                    if 0 <= i < before.slots().len() && i != tree_id.value_spec() && i != leaf_id.value_spec() {
                        assert(mid.slots()[i] == before.slots()[i]);
                        if before.has(id) {
                            before.get(id).lemma_with_own_geometry();
                        }
                    }
                }
            }
            before.lemma_kept_trans(mid, *self, ex);
            assert(self.has(nl) == mid.has(nl));
            assert(self.has(leaf_id) == mid.has(leaf_id));
            assert(self.has(new_node_id) == mid.has(new_node_id));
        }
    }
}

} // verus!
