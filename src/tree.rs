use vstd::prelude::*;

use crate::geometry::{Orientation, Rectangle, child_rect, layout_children};
use crate::node::{Leaf, Node, NodeId, TreeError, TreeNode};

mod exchange;
mod laws;
mod removal;
mod split;

pub use removal::splice;

verus! {

/// Tree-order direction: towards the first or the last child.
#[derive(PartialEq, Eq, Copy, Clone, Debug, Structural)]
pub enum Direction {
    Before,
    After,
}

impl Direction {
    pub open spec fn inverted(self) -> Direction {
        match self {
            Direction::Before => Direction::After,
            Direction::After => Direction::Before,
        }
    }

    pub fn invert(&self) -> (r: Direction)
        ensures
            r == self.inverted(),
    {
        match self {
            Direction::Before => Direction::After,
            Direction::After => Direction::Before,
        }
    }
}

/// Whether a resize makes the focused window larger or smaller.
#[derive(PartialEq, Eq, Copy, Clone, Debug, Structural)]
pub enum Resize {
    Grow,
    Shrink,
}

/// Hands out the next number of a counter: the counter moves on by one
/// and the new value is returned, so no number is handed out twice.
pub fn next(counter: &mut u32) -> (r: u32)
    requires
        *old(counter) < u32::MAX,
    ensures
        *final(counter) == *old(counter) + 1,
        r == *final(counter),
{
    *counter = *counter + 1;
    *counter
}

/// The layout tree of one output: an arena of nodes indexed by the number of
/// their id, the root container, the focus, and the ids whose geometry
/// changed since the last drain.
pub struct Tree<T> {
    nodes: Vec<Option<Node<T>>>,
    root: NodeId,
    focus: (NodeId, Option<NodeId>),
    pending_update: Vec<NodeId>,
    last_id: u32,
    /// A parent's rank is below its children's: the nodes form no cycle.
    rank: Ghost<Map<int, nat>>,
    rank_bound: Ghost<nat>,
}

impl<T> Tree<T> {
    /// The arena: slot `i` holds the node whose id has number `i`, if any.
    pub closed spec fn slots(self) -> Seq<Option<Node<T>>> {
        self.nodes@
    }

    /// The root container.
    pub closed spec fn root_spec(self) -> NodeId {
        self.root
    }

    /// The focused container and leaf.
    pub closed spec fn focus_spec(self) -> (NodeId, Option<NodeId>) {
        self.focus
    }

    /// Ids queued as updated since the last drain, in order.
    pub closed spec fn pending(self) -> Seq<NodeId> {
        self.pending_update@
    }

    /// The last id number handed out.
    pub closed spec fn last_id_spec(self) -> u32 {
        self.last_id
    }

    /// Rank of the node in slot `i`: below its children's, above its parent's.
    pub closed spec fn rank_of(self, i: int) -> nat {
        self.rank@[i]
    }

    /// A bound above every rank.
    pub closed spec fn rank_limit(self) -> nat {
        self.rank_bound@
    }

    /// Slot `i`, or none out of range.
    pub open spec fn slot(self, i: int) -> Option<Node<T>> {
        if 0 <= i < self.slots().len() {
            self.slots()[i]
        } else {
            None
        }
    }

    /// The tree holds a node with this id.
    pub open spec fn has(self, id: NodeId) -> bool {
        &&& self.slot(id.value_spec() as int) is Some
        &&& self.slot(id.value_spec() as int)->0.id_spec() == id
    }

    /// The node in the slot of `id`; meaningful where `has(id)`.
    pub open spec fn get(self, id: NodeId) -> Node<T> {
        self.slot(id.value_spec() as int)->0
    }

    pub open spec fn is_container(self, id: NodeId) -> bool {
        self.has(id) && id is Tree
    }

    pub open spec fn is_leaf(self, id: NodeId) -> bool {
        self.has(id) && id is Leaf
    }

    pub open spec fn parent_of(self, id: NodeId) -> Option<NodeId> {
        self.get(id).parent_spec()
    }

    pub open spec fn children_of(self, id: NodeId) -> Seq<NodeId> {
        self.get(id).children_spec()
    }

    pub open spec fn geometry_of(self, id: NodeId) -> Rectangle {
        self.get(id).geometry_spec()
    }

    pub open spec fn ratio_of(self, id: NodeId) -> Option<u32> {
        self.get(id).ratio_spec()
    }

    pub open spec fn orientation_of(self, id: NodeId) -> Orientation {
        match self.get(id) {
            Node::Tree(t) => t.orientation,
            Node::Leaf(_) => Orientation::Horizontal,
        }
    }

    pub open spec fn rank_id(self, id: NodeId) -> nat {
        self.rank_of(id.value_spec() as int)
    }

    /// The ratios of the children of container `id`, in order.
    pub open spec fn child_ratios(self, id: NodeId) -> Seq<Option<u32>> {
        self.children_of(id).map_values(|c: NodeId| self.ratio_of(c))
    }

    /// Every child of `id` is a node whose parent is `id`; the children are
    /// distinct, and a container other than the root has two at least.
    pub open spec fn children_ok(self, id: NodeId) -> bool {
        let cs = self.children_of(id);
        &&& cs.no_duplicates()
        &&& id != self.root_spec() ==> cs.len() >= 2
        &&& forall|k: int|
            0 <= k < cs.len() ==> self.has(#[trigger] cs[k]) && self.parent_of(cs[k]) == Some(id)
    }

    /// What holds of the node in slot `i`, if any.
    pub open spec fn node_ok(self, i: int) -> bool {
        match self.slot(i) {
            None => true,
            Some(n) => {
                let id = n.id_spec();
                &&& id.value_spec() == i
                &&& (n is Leaf <==> id is Leaf)
                &&& n.geometry_spec().is_sane()
                &&& self.rank_of(i) < self.rank_limit()
                &&& if id == self.root_spec() {
                    n.parent_spec() is None
                } else {
                    &&& n.parent_spec() is Some
                    &&& self.is_container(n.parent_spec()->0)
                    &&& self.children_of(n.parent_spec()->0).contains(id)
                    &&& self.rank_id(n.parent_spec()->0) < self.rank_of(i)
                }
                &&& n is Tree ==> self.children_ok(id)
            },
        }
    }

    /// The focus names the root with no leaf, or a leaf and its container.
    pub open spec fn focus_ok(self) -> bool {
        match self.focus_spec() {
            (c, None) => c == self.root_spec(),
            (c, Some(l)) => self.is_leaf(l) && self.parent_of(l) == Some(c),
        }
    }

    /// Well-formedness of the nodes: the root is a container, ids match
    /// their slots, and every node is as `node_ok` says.
    pub open spec fn wf_nodes(self) -> bool {
        &&& self.root_spec() is Tree
        &&& self.has(self.root_spec())
        &&& self.slots().len() == self.last_id_spec() + 1
        &&& forall|i: int| #[trigger] self.node_ok(i)
    }

    /// Well-formedness of the tree.
    pub open spec fn wf(self) -> bool {
        &&& self.wf_nodes()
        &&& self.focus_ok()
    }

    /// `d` lies strictly below `a`.
    pub open spec fn descends(self, d: NodeId, a: NodeId) -> bool
        decreases self.rank_id(d),
    {
        match self.parent_of(d) {
            None => false,
            Some(p) => p == a || (self.rank_id(p) < self.rank_id(d) && self.descends(p, a)),
        }
    }

    /// Ids can still be handed out for `n` new nodes.
    pub open spec fn can_allocate(self, n: u32) -> bool {
        self.last_id_spec() + n <= u32::MAX
    }
}

/// Two slot sequences hold the same nodes but for their geometries.
pub open spec fn same_shape<T>(a: Seq<Option<Node<T>>>, b: Seq<Option<Node<T>>>) -> bool {
    &&& a.len() == b.len()
    &&& forall|i: int|
        0 <= i < a.len() ==> (#[trigger] b[i] is Some == a[i] is Some) && (a[i] is Some ==> b[i]->0
            == a[i]->0.with_geometry(b[i]->0.geometry_spec()))
}

} // verus!

verus! {

impl<T> Tree<T> {
    /// Both trees carry the same acyclicity witness.
    pub closed spec fn same_ranks(self, o: Tree<T>) -> bool {
        self.rank == o.rank && self.rank_bound == o.rank_bound
    }

    /// `b` is `self` with new geometries only.
    pub open spec fn reshaped(self, b: Tree<T>) -> bool {
        &&& same_shape(self.slots(), b.slots())
        &&& b.root_spec() == self.root_spec()
        &&& b.focus_spec() == self.focus_spec()
        &&& b.last_id_spec() == self.last_id_spec()
        &&& self.same_ranks(b)
    }

    pub proof fn lemma_same_ranks_refl(self)
        ensures
            self.same_ranks(self),
    {
    }

    pub proof fn lemma_same_ranks_trans(self, b: Tree<T>, c: Tree<T>)
        requires
            self.same_ranks(b),
            b.same_ranks(c),
        ensures
            self.same_ranks(c),
            forall|i: int| self.rank_of(i) == c.rank_of(i),
            self.rank_limit() == c.rank_limit(),
    {
    }

    pub proof fn lemma_same_ranks_facts(self, b: Tree<T>)
        requires
            self.same_ranks(b),
        ensures
            b.same_ranks(self),
            forall|i: int| self.rank_of(i) == b.rank_of(i),
            self.rank_limit() == b.rank_limit(),
    {
    }

    /// A tree that differs from a well-formed one only in sane geometries is
    /// well-formed, and has the same descent relation.
    proof fn lemma_reshaped_wf(self, b: Tree<T>)
        requires
            self.wf(),
            self.reshaped(b),
            forall|i: int| #[trigger] b.slot(i) is Some ==> b.slot(i)->0.geometry_spec().is_sane(),
        ensures
            b.wf(),
            forall|d: NodeId, x: NodeId| self.descends(d, x) == b.descends(d, x),
    {
        self.lemma_same_ranks_facts(b);
        assert forall|id: NodeId| #[trigger] b.has(id) == self.has(id) && (self.has(id) ==> b.parent_of(id)
            == self.parent_of(id) && b.children_of(id) == self.children_of(id)
            && b.ratio_of(id) == self.ratio_of(id) && b.orientation_of(id) == self.orientation_of(id)) by {
            let i = id.value_spec() as int;
            if 0 <= i < self.slots().len() {
                assert(b.slots()[i] is Some == self.slots()[i] is Some);
            }
        }
        assert forall|i: int| #[trigger] b.node_ok(i) by {
            assert(self.node_ok(i));
            if 0 <= i < self.slots().len() && self.slots()[i] is Some {
                let n = self.slots()[i]->0;
                assert(b.slots()[i] is Some);
                if n is Tree {
                    let cs = self.children_of(n.id_spec());
                    assert(b.has(n.id_spec()));
                    assert forall|k: int| 0 <= k < cs.len() implies b.has(#[trigger] cs[k])
                        && b.parent_of(cs[k]) == Some(n.id_spec()) by {
                        assert(self.has(cs[k]));
                    }
                }
                if n.id_spec() != self.root_spec() {
                    assert(self.has(n.parent_spec()->0));
                }
            }
        }
        assert forall|d: NodeId, x: NodeId| self.descends(d, x) == b.descends(d, x) by {
            self.lemma_reshaped_descends(b, d, x);
        }
        match self.focus_spec() {
            (c, None) => {},
            (c, Some(l)) => {
                assert(b.has(l));
            },
        }
    }

    proof fn lemma_reshaped_descends(self, b: Tree<T>, d: NodeId, x: NodeId)
        requires
            self.wf(),
            self.reshaped(b),
        ensures
            self.descends(d, x) == b.descends(d, x),
        decreases self.rank_id(d),
    {
        self.lemma_same_ranks_facts(b);
        let i = d.value_spec() as int;
        assert(self.parent_of(d) == b.parent_of(d)) by {
            if 0 <= i < self.slots().len() {
                assert(b.slots()[i] is Some == self.slots()[i] is Some);
            } else {
                assert(self.slot(i) == b.slot(i));
            }
        }
        match self.parent_of(d) {
            None => {},
            Some(p) => {
                if self.rank_id(p) < self.rank_id(d) {
                    self.lemma_reshaped_descends(b, p, x);
                }
            },
        }
    }

    /// Descent goes down in rank.
    pub(crate) proof fn lemma_descends_rank(self, d: NodeId, a: NodeId)
        requires
            self.wf(),
            self.has(d),
            self.descends(d, a),
        ensures
            self.rank_id(a) < self.rank_id(d),
            d != self.root_spec(),
            self.is_container(a),
        decreases self.rank_id(d),
    {
        assert(self.node_ok(d.value_spec() as int));
        let p = self.parent_of(d)->0;
        assert(self.node_ok(p.value_spec() as int));
        if p != a {
            self.lemma_descends_rank(p, a);
        }
    }

    /// A child of `a` does not lie below a sibling, nor below itself.
    pub(crate) proof fn lemma_sibling_not_below(self, s: NodeId, c: NodeId, a: NodeId)
        requires
            self.wf(),
            self.has(s),
            self.has(c),
            self.parent_of(s) == Some(a),
            self.parent_of(c) == Some(a),
        ensures
            !self.descends(s, c),
            !self.descends(a, c),
    {
        assert(self.node_ok(c.value_spec() as int));
        assert(self.node_ok(s.value_spec() as int));
        assert(self.has(a));
        if self.descends(a, c) {
            self.lemma_descends_rank(a, c);
        }
        if self.descends(s, c) {
            self.lemma_descends_rank(s, c);
            if a != c {
                assert(self.descends(a, c));
                self.lemma_descends_rank(a, c);
            }
        }
    }

    /// Below a child of `a` is below `a`.
    pub(crate) proof fn lemma_descends_trans(self, d: NodeId, c: NodeId, a: NodeId)
        requires
            self.wf(),
            self.has(d),
            self.has(c),
            self.descends(d, c),
            self.parent_of(c) == Some(a),
        ensures
            self.descends(d, a),
        decreases self.rank_id(d),
    {
        assert(self.node_ok(d.value_spec() as int));
        let p = self.parent_of(d)->0;
        assert(self.node_ok(p.value_spec() as int));
        assert(self.rank_id(p) < self.rank_id(d));
        if p != c {
            self.lemma_descends_trans(p, c, a);
        } else {
            assert(self.node_ok(c.value_spec() as int));
            assert(self.descends(c, a));
        }
    }
}

} // verus!

verus! {

impl<T> Tree<T> {
    /// A tree whose root container, with id 1, has the given rectangle and
    /// orientation and no children; the focus is on the root with no leaf.
    pub fn new(geometry: Rectangle, orientation: Orientation) -> (r: Tree<T>)
        requires
            geometry.is_sane(),
        ensures
            r.wf(),
            r.root_spec() == NodeId::Tree(1),
            r.children_of(r.root_spec()) == Seq::<NodeId>::empty(),
            r.geometry_of(r.root_spec()) == geometry,
            r.orientation_of(r.root_spec()) == orientation,
            r.ratio_of(r.root_spec()) is None,
            r.focus_spec() == (NodeId::Tree(1), None::<NodeId>),
            r.pending().len() == 0,
            r.last_id_spec() == 1,
    {
        let mut counter: u32 = 0;
        let root_id = NodeId::Tree(next(&mut counter));
        let root = Node::Tree(
            TreeNode {
                id: root_id,
                parent: None,
                children: Vec::new(),
                geometry,
                ratio: None,
                orientation,
            },
        );
        let mut nodes: Vec<Option<Node<T>>> = Vec::new();
        nodes.push(None);
        nodes.push(Some(root));
        let t = Tree {
            nodes,
            root: root_id,
            focus: (root_id, None),
            pending_update: Vec::new(),
            last_id: counter,
            rank: Ghost(Map::empty().insert(1int, 0nat)),
            rank_bound: Ghost(1nat),
        };
        assert forall|i: int| #[trigger] t.node_ok(i) by {
            if i == 1 {
                assert(t.children_of(root_id).len() == 0);
            }
        }
        t
    }

    pub(crate) fn node_ref(&self, id: NodeId) -> (r: &Node<T>)
        requires
            self.wf(),
            self.has(id),
        ensures
            *r == self.get(id),
    {
        match &self.nodes[id.value() as usize] {
            Some(n) => n,
            None => {
                unreached()
            },
        }
    }

    pub(crate) fn tree_ref(&self, id: NodeId) -> (r: &TreeNode)
        requires
            self.wf(),
            self.is_container(id),
        ensures
            Node::<T>::Tree(*r) == self.get(id),
    {
        assert(self.node_ok(id.value_spec() as int));
        match self.node_ref(id) {
            Node::Tree(t) => t,
            Node::Leaf(_) => {
                unreached()
            },
        }
    }

    fn leaf_ref(&self, id: NodeId) -> (r: &Leaf<T>)
        requires
            self.wf(),
            self.is_leaf(id),
        ensures
            Node::Leaf(*r) == self.get(id),
    {
        assert(self.node_ok(id.value_spec() as int));
        match self.node_ref(id) {
            Node::Leaf(l) => l,
            Node::Tree(_) => {
                unreached()
            },
        }
    }

    /// Takes the node `id` out of its slot, which is left empty.
    fn take_node(&mut self, id: NodeId) -> (r: Node<T>)
        requires
            old(self).has(id),
        ensures
            r == old(self).get(id),
            final(self).slots() == old(self).slots().update(id.value_spec() as int, None),
            final(self).root_spec() == old(self).root_spec(),
            final(self).focus_spec() == old(self).focus_spec(),
            final(self).last_id_spec() == old(self).last_id_spec(),
            final(self).pending() == old(self).pending(),
            old(self).same_ranks(*final(self)),
    {
        let i = id.value() as usize;
        match self.nodes[i].take() {
            Some(n) => n,
            None => {
                unreached()
            },
        }
    }

    /// Puts `n` in the slot of its id.
    fn put_node(&mut self, n: Node<T>)
        requires
            0 <= n.id_spec().value_spec() < old(self).slots().len(),
        ensures
            final(self).slots() == old(self).slots().update(n.id_spec().value_spec() as int, Some(n)),
            final(self).root_spec() == old(self).root_spec(),
            final(self).focus_spec() == old(self).focus_spec(),
            final(self).last_id_spec() == old(self).last_id_spec(),
            final(self).pending() == old(self).pending(),
            old(self).same_ranks(*final(self)),
    {
        let i = n.id().value() as usize;
        self.nodes.set(i, Some(n));
    }

    /// Gives node `id` a new geometry.
    fn set_geometry_of(&mut self, id: NodeId, geometry: Rectangle)
        requires
            old(self).wf(),
            old(self).has(id),
            geometry.is_sane(),
        ensures
            final(self).wf(),
            old(self).reshaped(*final(self)),
            final(self).slots() == old(self).slots().update(
                id.value_spec() as int,
                Some(old(self).get(id).with_geometry(geometry)),
            ),
            final(self).pending() == old(self).pending(),
            forall|d: NodeId, x: NodeId| old(self).descends(d, x) == final(self).descends(d, x),
    {
        let ghost before = *self;
        let mut n = self.take_node(id);
        n.set_geometry(geometry);
        self.put_node(n);
        proof {
            let i = id.value_spec() as int;
            before.lemma_same_ranks_facts(*self);
            assert(before.node_ok(i));
            assert forall|j: int| #[trigger] self.slot(j) is Some implies self.slot(
                j,
            )->0.geometry_spec().is_sane() by {
                if j != i {
                    assert(before.node_ok(j));
                }
            }
            before.lemma_reshaped_wf(*self);
        }
    }
}

} // verus!

verus! {

impl<T> Tree<T> {
    /// The children of container `c` have the rectangles that its rectangle,
    /// orientation and their ratios give them.
    pub open spec fn laid_out(self, c: NodeId) -> bool {
        forall|k: int|
            0 <= k < self.children_of(c).len() ==> self.geometry_of(#[trigger] self.children_of(c)[k])
                == child_rect(self.geometry_of(c), self.orientation_of(c), self.child_ratios(c), k)
    }

    /// After `update_geometries(c)`: `c` and its children are what they were
    /// but for their geometries, and the children are laid out.
    pub(crate) proof fn lemma_relayout(self, fin: Tree<T>, c: NodeId)
        requires
            self.wf(),
            self.is_container(c),
            self.reshaped(fin),
            fin.geometry_of(c) == self.geometry_of(c),
            forall|k: int|
                0 <= k < self.children_of(c).len() ==> fin.geometry_of(#[trigger] self.children_of(c)[k])
                    == child_rect(self.geometry_of(c), self.orientation_of(c), self.child_ratios(c), k),
        ensures
            fin.get(c) == self.get(c),
            fin.children_of(c) == self.children_of(c),
            fin.child_ratios(c) == self.child_ratios(c),
            fin.laid_out(c),
            self.kept_except(fin, Set::empty()),
            forall|id: NodeId| #[trigger] fin.has(id) == self.has(id),
    {
        self.lemma_reshaped_kept(fin);
        assert(self.node_ok(c.value_spec() as int));
        assert forall|k: int| 0 <= k < self.children_of(c).len() implies fin.ratio_of(
            #[trigger] self.children_of(c)[k],
        ) == self.ratio_of(self.children_of(c)[k]) by {
            assert(self.has(self.children_of(c)[k]));
        }
        assert(fin.child_ratios(c) =~= self.child_ratios(c));
    }

    pub(crate) proof fn lemma_kept_trans(self, mid: Tree<T>, fin: Tree<T>, ex: Set<NodeId>)
        requires
            self.kept_except(mid, ex),
            mid.kept_except(fin, Set::empty()),
        ensures
            self.kept_except(fin, ex),
    {
        assert forall|id: NodeId| !ex.contains(id) implies (#[trigger] fin.has(id) == self.has(id)) && (
        self.has(id) ==> fin.get(id) == self.get(id).with_geometry(fin.geometry_of(id))) by {
            assert(!Set::<NodeId>::empty().contains(id));
            assert(fin.has(id) == mid.has(id));
            assert(mid.has(id) == self.has(id));
        }
    }

    /// Between `self` and `b`, geometries changed only at nodes below `a`.
    pub open spec fn moved_only_below(self, b: Tree<T>, a: NodeId) -> bool {
        forall|j: int|
            0 <= j < self.slots().len() && self.slots()[j] is Some && (#[trigger] b.slots()[j])->0.geometry_spec()
                != self.slots()[j]->0.geometry_spec() ==> self.descends(self.slots()[j]->0.id_spec(), a)
    }

    /// `b`'s pending queue is `self`'s with ids of nodes below `a` appended.
    pub open spec fn queued_below(self, b: Tree<T>, a: NodeId) -> bool {
        &&& self.pending().len() <= b.pending().len()
        &&& b.pending().subrange(0, self.pending().len() as int) == self.pending()
        &&& forall|k: int|
            self.pending().len() <= k < b.pending().len() ==> self.has(#[trigger] b.pending()[k])
                && self.descends(b.pending()[k], a)
    }

    /// The children of container `id` and their ratios.
    fn children_and_ratios(&self, id: NodeId) -> (r: (Vec<NodeId>, Vec<Option<u32>>))
        requires
            self.wf(),
            self.is_container(id),
        ensures
            r.0@ == self.children_of(id),
            r.1@ == self.child_ratios(id),
    {
        let t = self.tree_ref(id);
        assert(self.node_ok(id.value_spec() as int));
        let mut cs: Vec<NodeId> = Vec::new();
        let mut rs: Vec<Option<u32>> = Vec::new();
        let mut k: usize = 0;
        while k < t.children.len()
            invariant
                self.wf(),
                self.is_container(id),
                Node::<T>::Tree(*t) == self.get(id),
                self.children_ok(id),
                0 <= k <= t.children@.len(),
                cs@ == t.children@.subrange(0, k as int),
                rs@ == self.child_ratios(id).subrange(0, k as int),
            decreases t.children@.len() - k,
        {
            let c = t.children[k];
            assert(self.has(t.children@[k as int]));
            let r = self.node_ref(c).ratio();
            cs.push(c);
            rs.push(r);
            k = k + 1;
            assert(cs@ =~= t.children@.subrange(0, k as int));
            assert(rs@ =~= self.child_ratios(id).subrange(0, k as int));
        }
        assert(cs@ =~= t.children@);
        assert(rs@ =~= self.child_ratios(id));
        (cs, rs)
    }

    /// Recomputes the rectangles of the children of container `tree_id` from
    /// its rectangle, its orientation and their ratios, then does the same in
    /// each child container; every child visited is queued as updated.
    #[verifier::rlimit(100)]
    pub(crate) fn update_geometries(&mut self, tree_id: NodeId)
        requires
            old(self).wf(),
            old(self).is_container(tree_id),
        ensures
            final(self).wf(),
            old(self).reshaped(*final(self)),
            final(self).geometry_of(tree_id) == old(self).geometry_of(tree_id),
            forall|k: int|
                0 <= k < old(self).children_of(tree_id).len() ==> final(self).geometry_of(
                    #[trigger] old(self).children_of(tree_id)[k],
                ) == child_rect(
                    old(self).geometry_of(tree_id),
                    old(self).orientation_of(tree_id),
                    old(self).child_ratios(tree_id),
                    k,
                ),
            old(self).moved_only_below(*final(self), tree_id),
            old(self).queued_below(*final(self), tree_id),
            forall|d: NodeId, x: NodeId| old(self).descends(d, x) == final(self).descends(d, x),
            final(self).subtree_laid_out(tree_id),
        decreases old(self).rank_limit() - old(self).rank_id(tree_id), 1int,
    {
        let ghost before = *self;
        assert(self.node_ok(tree_id.value_spec() as int));
        let (children, ratios) = self.children_and_ratios(tree_id);
        let t = self.tree_ref(tree_id);
        let geometry = t.geometry;
        let orientation = t.orientation;
        let rects = layout_children(geometry, orientation, &ratios);
        let mut k: usize = 0;
        proof {
            before.lemma_same_ranks_refl();
            assert(self.pending().subrange(0, self.pending().len() as int) =~= self.pending());
        }
        while k < children.len()
            invariant
                before == *old(self),
                self.wf(),
                before.wf(),
                before.is_container(tree_id),
                before.children_ok(tree_id),
                children@ == before.children_of(tree_id),
                rects@.len() == children@.len(),
                forall|j: int|
                    0 <= j < rects@.len() ==> rects@[j] == child_rect(
                        before.geometry_of(tree_id),
                        before.orientation_of(tree_id),
                        before.child_ratios(tree_id),
                        j,
                    ),
                forall|j: int| 0 <= j < rects@.len() ==> (#[trigger] rects@[j]).is_sane(),
                0 <= k <= children@.len(),
                before.reshaped(*self),
                self.geometry_of(tree_id) == before.geometry_of(tree_id),
                forall|j: int|
                    0 <= j < k ==> self.geometry_of(#[trigger] children@[j]) == rects@[j],
                before.moved_only_below(*self, tree_id),
                before.queued_below(*self, tree_id),
                forall|d: NodeId, x: NodeId| before.descends(d, x) == self.descends(d, x),
                forall|j: int| 0 <= j < k && children@[j] is Tree ==> self.subtree_laid_out(#[trigger] children@[j]),
            decreases children@.len() - k,
        {
            let c = children[k];
            let ghost mid = *self;
            proof {
                assert(before.has(c) && before.parent_of(c) == Some(tree_id));
                let ci = c.value_spec() as int;
                assert(before.slots()[ci] is Some);
                before.lemma_same_ranks_facts(mid);
                assert(before.node_ok(ci));
            }
            self.place_child(tree_id, c, rects[k]);
            proof {
                before.lemma_step(mid, *self, tree_id, c);
                assert forall|j: int| 0 <= j < k + 1 && children@[j] is Tree implies self.subtree_laid_out(#[trigger] children@[j]) by {
                    if j < k {
                        let cj = children@[j];
                        assert(before.has(cj) && before.parent_of(cj) == Some(tree_id));
                        let cji = cj.value_spec() as int;
                        assert(before.slots()[cji] is Some);
                        assert(cj != c);
                        assert(before.node_ok(cji));
                        mid.lemma_keeps_subtree(*self, c, cj, tree_id);
                    }
                }
                assert forall|j: int| 0 <= j <= k implies self.geometry_of(#[trigger] children@[j])
                    == rects@[j] by {
                    let s = children@[j];
                    assert(before.has(s) && before.parent_of(s) == Some(tree_id));
                    if j < k {
                        assert(s != c);
                        before.lemma_sibling_not_below(s, c, tree_id);
                        let si = s.value_spec() as int;
                        assert(mid.slots()[si] is Some);
                    }
                }
            }
            k = k + 1;
        }
        proof {
            reveal(Tree::subtree_laid_out);
            before.lemma_relayout(*self, tree_id);
            assert forall|d: NodeId| #[trigger] self.descends(d, tree_id) && self.is_container(d) implies self.laid_out(d) by {
                assert(before.descends(d, tree_id));
                let dd = d.value_spec() as int;
                assert(self.slots()[dd] is Some == before.slots()[dd] is Some);
                let c = before.lemma_below_some_child(d, tree_id);
                let j = choose|j: int| 0 <= j < children@.len() && children@[j] == c;
                assert(children@[j] == c);
                if d != c {
                    before.lemma_descends_rank(d, c);
                }
                assert(c is Tree);
            }
        }
    }

    /// Queues child `c` of `tree_id`, gives it `rect`, and lays out below it.
    fn place_child(&mut self, tree_id: NodeId, c: NodeId, rect: Rectangle)
        requires
            old(self).wf(),
            old(self).has(c),
            old(self).parent_of(c) == Some(tree_id),
            old(self).rank_id(c) < old(self).rank_limit(),
            rect.is_sane(),
        ensures
            final(self).wf(),
            old(self).reshaped(*final(self)),
            final(self).geometry_of(c) == rect,
            forall|j: int|
                0 <= j < old(self).slots().len() && old(self).slots()[j] is Some && (
                #[trigger] final(self).slots()[j])->0.geometry_spec()
                    != old(self).slots()[j]->0.geometry_spec() ==> old(self).slots()[j]->0.id_spec()
                    == c || old(self).descends(old(self).slots()[j]->0.id_spec(), c),
            final(self).pending().len() > old(self).pending().len(),
            final(self).pending().subrange(0, old(self).pending().len() as int) == old(self).pending(),
            final(self).pending()[old(self).pending().len() as int] == c,
            forall|k: int|
                old(self).pending().len() < k < final(self).pending().len() ==> old(self).has(
                    #[trigger] final(self).pending()[k],
                ) && old(self).descends(final(self).pending()[k], c),
            forall|d: NodeId, x: NodeId| old(self).descends(d, x) == final(self).descends(d, x),
            c is Tree ==> final(self).subtree_laid_out(c),
        decreases old(self).rank_limit() - old(self).rank_id(c), 2int,
    {
        let ghost mid0 = *self;
        self.pending_update.push(c);
        let ghost mid1 = *self;
        proof {
            mid0.lemma_same_ranks_refl();
            assert(mid0.reshaped(mid1));
            assert forall|i: int| #[trigger] mid1.slot(i) is Some implies mid1.slot(
                i,
            )->0.geometry_spec().is_sane() by {
                assert(mid0.node_ok(i));
            }
            mid0.lemma_reshaped_wf(mid1);
        }
        self.set_geometry_of(c, rect);
        let ghost mid2 = *self;
        if c.is_leaf_id() {
            proof {
                mid1.lemma_same_ranks_facts(mid2);
                mid0.lemma_same_ranks_trans(mid1, mid2);
                assert(mid2.pending().subrange(0, mid0.pending().len() as int) =~= mid0.pending());
            }
        } else {
            proof {
                mid1.lemma_same_ranks_facts(mid2);
                mid0.lemma_same_ranks_trans(mid1, mid2);
                let ci = c.value_spec() as int;
                assert(mid0.slots()[ci] is Some);
                assert(mid0.node_ok(ci));
            }
            self.update_geometries(c);
            proof {
                let fin = *self;
                mid2.lemma_same_ranks_facts(fin);
                mid0.lemma_same_ranks_trans(mid2, fin);
                let ci = c.value_spec() as int;
                mid0.lemma_sibling_not_below(c, c, tree_id);
                assert(mid0.reshaped(fin)) by {
                    assert forall|i: int| 0 <= i < mid0.slots().len() implies (
                    #[trigger] fin.slots()[i] is Some == mid0.slots()[i] is Some) && (
                    mid0.slots()[i] is Some ==> fin.slots()[i]->0 == mid0.slots()[i]->0.with_geometry(
                        fin.slots()[i]->0.geometry_spec(),
                    )) by {
                        assert(mid2.slots()[i] is Some == mid0.slots()[i] is Some);
                    }
                }
                assert(fin.geometry_of(c) == rect) by {
                    assert(mid2.slots()[ci] is Some);
                }
                let bl = mid0.pending().len() as int;
                assert forall|q: int| bl < q < fin.pending().len() implies mid0.has(
                    #[trigger] fin.pending()[q],
                ) && mid0.descends(fin.pending()[q], c) by {
                    let d = fin.pending()[q];
                    assert(mid2.has(d));
                    let di = d.value_spec() as int;
                    assert(mid2.slots()[di] is Some == mid0.slots()[di] is Some);
                }
                assert(fin.pending().subrange(0, bl) =~= mid0.pending());
                assert(fin.pending()[bl] == mid2.pending()[bl]);
            }
        }
    }

    /// One child placed: the loop's facts carry over.
    proof fn lemma_step(self, mid: Tree<T>, fin: Tree<T>, tree_id: NodeId, c: NodeId)
        requires
            self.wf(),
            self.has(c),
            self.parent_of(c) == Some(tree_id),
            self.reshaped(mid),
            self.moved_only_below(mid, tree_id),
            self.queued_below(mid, tree_id),
            forall|d: NodeId, x: NodeId| self.descends(d, x) == mid.descends(d, x),
            mid.reshaped(fin),
            forall|j: int|
                0 <= j < mid.slots().len() && mid.slots()[j] is Some && (#[trigger] fin.slots()[j])->0.geometry_spec()
                    != mid.slots()[j]->0.geometry_spec() ==> mid.slots()[j]->0.id_spec() == c
                    || mid.descends(mid.slots()[j]->0.id_spec(), c),
            fin.pending().len() > mid.pending().len(),
            fin.pending().subrange(0, mid.pending().len() as int) == mid.pending(),
            fin.pending()[mid.pending().len() as int] == c,
            forall|k: int|
                mid.pending().len() < k < fin.pending().len() ==> mid.has(#[trigger] fin.pending()[k])
                    && mid.descends(fin.pending()[k], c),
            forall|d: NodeId, x: NodeId| mid.descends(d, x) == fin.descends(d, x),
        ensures
            self.reshaped(fin),
            self.moved_only_below(fin, tree_id),
            self.queued_below(fin, tree_id),
            forall|d: NodeId, x: NodeId| self.descends(d, x) == fin.descends(d, x),
            fin.geometry_of(tree_id) == mid.geometry_of(tree_id),
    {
        self.lemma_same_ranks_facts(mid);
        mid.lemma_same_ranks_facts(fin);
        self.lemma_same_ranks_trans(mid, fin);
        self.lemma_sibling_not_below(c, c, tree_id);
        let ti = tree_id.value_spec() as int;
        assert(self.node_ok(c.value_spec() as int));
        assert(self.slots()[ti] is Some);
        assert(mid.slots()[ti] is Some);
        assert(self.reshaped(fin)) by {
            assert forall|i: int| 0 <= i < self.slots().len() implies (#[trigger] fin.slots()[i] is Some
                == self.slots()[i] is Some) && (self.slots()[i] is Some ==> fin.slots()[i]->0
                == self.slots()[i]->0.with_geometry(fin.slots()[i]->0.geometry_spec())) by {
                assert(mid.slots()[i] is Some == self.slots()[i] is Some);
            }
        }
        assert forall|j: int|
            0 <= j < self.slots().len() && self.slots()[j] is Some && (#[trigger] fin.slots()[j])->0.geometry_spec()
                != self.slots()[j]->0.geometry_spec() implies self.descends(
            self.slots()[j]->0.id_spec(),
            tree_id,
        ) by {
            let n = self.slots()[j]->0;
            assert(self.node_ok(j));
            assert(mid.slots()[j] is Some);
            if mid.slots()[j]->0.geometry_spec() != self.slots()[j]->0.geometry_spec() {
            } else if n.id_spec() == c {
            } else {
                assert(mid.descends(n.id_spec(), c));
                self.lemma_descends_trans(n.id_spec(), c, tree_id);
            }
        }
        let bl = self.pending().len() as int;
        let ml = mid.pending().len() as int;
        assert forall|q: int| bl <= q < fin.pending().len() implies self.has(#[trigger] fin.pending()[q])
            && self.descends(fin.pending()[q], tree_id) by {
            if q < ml {
                assert(fin.pending()[q] == fin.pending().subrange(0, ml)[q]);
                assert(fin.pending()[q] == mid.pending()[q]);
            } else if q == ml {
            } else {
                let d = fin.pending()[q];
                assert(mid.has(d) && mid.descends(d, c));
                let di = d.value_spec() as int;
                assert(mid.slots()[di] is Some == self.slots()[di] is Some);
                assert(self.has(d));
                self.lemma_descends_trans(d, c, tree_id);
            }
        }
        assert(fin.pending().subrange(0, bl) =~= self.pending()) by {
            assert forall|q: int| 0 <= q < bl implies fin.pending()[q] == self.pending()[q] by {
                assert(fin.pending()[q] == fin.pending().subrange(0, ml)[q]);
                assert(mid.pending()[q] == mid.pending().subrange(0, bl)[q]);
            }
        }
    }
}

} // verus!

verus! {

impl<T> Tree<T> {
    /// Every node outside `ex` is in `b` as in `self`, but for its geometry.
    pub open spec fn kept_except(self, b: Tree<T>, ex: Set<NodeId>) -> bool {
        forall|id: NodeId|
            !ex.contains(id) ==> (#[trigger] b.has(id) == self.has(id)) && (self.has(id) ==> b.get(id)
                == self.get(id).with_geometry(b.geometry_of(id)))
    }

    proof fn lemma_reshaped_kept(self, b: Tree<T>)
        requires
            self.reshaped(b),
        ensures
            self.kept_except(b, Set::empty()),
            forall|id: NodeId| #[trigger] b.has(id) ==> self.has(id),
    {
        assert forall|id: NodeId| #[trigger] b.has(id) == self.has(id) && (self.has(id) ==> b.get(id)
            == self.get(id).with_geometry(b.geometry_of(id))) by {
            let i = id.value_spec() as int;
            if 0 <= i < self.slots().len() {
                assert(b.slots()[i] is Some == self.slots()[i] is Some);
            }
        }
    }

    /// The tree right after `insert` has placed its new leaf is well-formed.
    proof fn lemma_insert_wf(self, mid: Tree<T>, c: NodeId, fl: Option<NodeId>, n: NodeId)
        requires
            self.wf(),
            self.focus_spec() == (c, fl),
            self.is_container(c),
            fl is Some ==> self.children_of(c).contains(fl->0),
            n == NodeId::Leaf((self.last_id_spec() + 1) as u32),
            self.can_allocate(1),
            mid.slots().len() == self.slots().len() + 1,
            mid.slots()[n.value_spec() as int] is Some,
            mid.get(n) is Leaf,
            mid.get(n).id_spec() == n,
            mid.parent_of(n) == Some(c),
            mid.geometry_of(n).is_sane(),
            mid.slots()[c.value_spec() as int] is Some,
            mid.get(c) is Tree,
            mid.get(c).id_spec() == c,
            self.fields_kept(mid, c),
            mid.children_of(c) == Self::inserted_children(self.children_of(c), fl, n),
            forall|i: int|
                0 <= i < self.slots().len() && i != c.value_spec() ==> #[trigger] mid.slots()[i]
                    == self.slots()[i],
            mid.root_spec() == self.root_spec(),
            mid.focus_spec() == (c, Some(n)),
            mid.last_id_spec() == self.last_id_spec() + 1,
            mid.rank_limit() == self.rank_limit() + 1,
            forall|i: int| i != n.value_spec() ==> #[trigger] mid.rank_of(i) == self.rank_of(i),
            mid.rank_of(n.value_spec() as int) == self.rank_id(c) + 1,
        ensures
            mid.wf(),
    {
        let nix = n.value_spec() as int;
            let ti = c.value_spec() as int;
            assert(self.node_ok(ti));
            let cs = self.children_of(c);
            let ncs = mid.children_of(c);
            assert(ncs == Self::inserted_children(cs, fl, n));
            assert(mid.slots().len() == nix + 1);
            assert forall|x: NodeId| #[trigger] cs.contains(x) implies x != n && ncs.contains(x) by {
                let k = choose|k: int| 0 <= k < cs.len() && cs[k] == x;
                assert(self.has(cs[k]));
                match fl {
                    None => { assert(ncs[k] == x); },
                    Some(l) => {
                        let p = cs.index_of(l);
                        if k <= p { assert(ncs[k] == x); } else { assert(ncs[k + 1] == x); }
                    },
                }
            }
            assert forall|k: int| 0 <= k < ncs.len() implies (#[trigger] ncs[k] == n || cs.contains(ncs[k])) by {
                match fl {
                    None => { if k < cs.len() { assert(cs[k] == ncs[k]); } },
                    Some(l) => {
                        let p = cs.index_of(l);
                        if k <= p { assert(cs[k] == ncs[k]); } else if k > p + 1 { assert(cs[k - 1] == ncs[k]); }
                    },
                }
            }
            assert(ncs.no_duplicates()) by {
                assert forall|a: int, b: int| 0 <= a < ncs.len() && 0 <= b < ncs.len() && a != b implies ncs[a] != ncs[b] by {
                    let p = match fl { None => cs.len() - 1, Some(l) => cs.index_of(l) };
                    let ia = if a <= p { a } else if a == p + 1 { -1 } else { a - 1 };
                    let ib = if b <= p { b } else if b == p + 1 { -1 } else { b - 1 };
                    if ia >= 0 { assert(ncs[a] == cs[ia]); assert(cs.contains(cs[ia])); } else { assert(ncs[a] == n); }
                    if ib >= 0 { assert(ncs[b] == cs[ib]); assert(cs.contains(cs[ib])); } else { assert(ncs[b] == n); }
                }
            }
            assert(mid.has(n));
            assert(mid.has(c));
            assert forall|id: NodeId| id != n && id != c implies (#[trigger] mid.has(id) == self.has(id)) && (self.has(id) ==> mid.get(id) == self.get(id)) by {
                let i = id.value_spec() as int;
                if i == ti {
                } else if i == nix {
                } else if 0 <= i < self.slots().len() {
                    assert(mid.slots()[i] == self.slots()[i]);
                }
            }
            assert(ncs.contains(n)) by {
                match fl {
                    None => { assert(ncs[cs.len() as int] == n); },
                    Some(l) => { assert(ncs[cs.index_of(l) + 1] == n); },
                }
            }
            assert forall|id: NodeId| id != n && self.has(id) implies mid.has(id) && #[trigger] mid.parent_of(id) == self.parent_of(id) by {
                let i = id.value_spec() as int;
                if i != ti {
                    assert(mid.slots()[i] == self.slots()[i]);
                }
            }
            assert forall|i: int| #[trigger] mid.node_ok(i) by {
                assert(self.node_ok(i));
                if i == nix {
                    assert(mid.slot(i)->0.id_spec() == n);
                    assert(self.rank_id(c) < self.rank_limit());
                    assert(mid.rank_id(c) == self.rank_id(c));
                } else if i == ti {
                    let nd = mid.slot(i)->0;
                    assert(nd.id_spec() == c);
                    if c != self.root_spec() {
                        let p = self.parent_of(c)->0;
                        assert(self.node_ok(p.value_spec() as int));
                        assert(mid.has(p));
                        assert(mid.children_of(p) == self.children_of(p));
                    }
                    assert forall|k: int| 0 <= k < ncs.len() implies mid.has(#[trigger] ncs[k]) && mid.parent_of(ncs[k]) == Some(c) by {
                        if ncs[k] != n {
                            assert(cs.contains(ncs[k]));
                            let k2 = choose|k2: int| 0 <= k2 < cs.len() && cs[k2] == ncs[k];
                            assert(self.has(cs[k2]));
                        }
                    }
                } else if 0 <= i < self.slots().len() && self.slots()[i] is Some {
                    let nd = self.slots()[i]->0;
                    let id = nd.id_spec();
                    assert(mid.slots()[i] == self.slots()[i]);
                    assert(mid.has(id));
                    if id != self.root_spec() {
                        let p = nd.parent_spec()->0;
                        assert(self.node_ok(p.value_spec() as int));
                        assert(mid.has(p));
                        if p == c {
                            assert(cs.contains(id));
                        } else {
                            assert(mid.children_of(p) == self.children_of(p));
                        }
                    }
                    if nd is Tree {
                        let ch = mid.children_of(id);
                        assert(ch == self.children_of(id));
                        assert forall|k: int| 0 <= k < ch.len() implies mid.has(#[trigger] ch[k]) && mid.parent_of(ch[k]) == Some(id) by {
                            assert(self.has(ch[k]));
                        }
                    }
                }
            }
        assert(mid.node_ok(nix));
    }

    /// The focused container is a container of the tree.
    pub proof fn lemma_focus_container(self)
        requires
            self.wf(),
        ensures
            self.is_container(self.focus_spec().0),
            self.focus_spec().1 is Some ==> self.children_of(self.focus_spec().0).contains(
                self.focus_spec().1->0,
            ),
    {
        if let Some(l) = self.focus_spec().1 {
            assert(self.node_ok(l.value_spec() as int));
        }
    }

    /// Node `id` keeps its kind, parent, ratio, orientation and geometry.
    pub open spec fn fields_kept(self, b: Tree<T>, id: NodeId) -> bool {
        &&& b.has(id) == self.has(id)
        &&& b.get(id) is Tree == self.get(id) is Tree
        &&& b.parent_of(id) == self.parent_of(id)
        &&& b.ratio_of(id) == self.ratio_of(id)
        &&& b.orientation_of(id) == self.orientation_of(id)
        &&& b.geometry_of(id) == self.geometry_of(id)
    }

    /// Where `insert` puts a new child into `cs`: right after the focused
    /// leaf, or at the end when no leaf is focused.
    pub open spec fn inserted_children(cs: Seq<NodeId>, focused: Option<NodeId>, n: NodeId) -> Seq<
        NodeId,
    > {
        match focused {
            None => cs.push(n),
            Some(l) => cs.insert(cs.index_of(l) + 1, n),
        }
    }

    /// Adds a leaf with a fresh id under `parent`, in a new slot; the leaf
    /// ranks `depth` below its parent.
    fn push_leaf(&mut self, parent: NodeId, data: T, depth: u32) -> (n: NodeId)
        requires
            old(self).slots().len() == old(self).last_id_spec() + 1,
            old(self).can_allocate(1),
        ensures
            n == NodeId::Leaf((old(self).last_id_spec() + 1) as u32),
            final(self).slots() == old(self).slots().push(
                Some(
                    Node::Leaf(
                        Leaf { id: n, parent: Some(parent), geometry: Rectangle::zero_spec(), ratio: None, data },
                    ),
                ),
            ),
            final(self).last_id_spec() == old(self).last_id_spec() + 1,
            final(self).root_spec() == old(self).root_spec(),
            final(self).focus_spec() == old(self).focus_spec(),
            final(self).pending() == old(self).pending(),
            final(self).rank_limit() == old(self).rank_limit() + depth,
            forall|i: int| i != n.value_spec() ==> #[trigger] final(self).rank_of(i) == old(self).rank_of(i),
            final(self).rank_of(n.value_spec() as int) == old(self).rank_id(parent) + depth,
    {
        let n = NodeId::Leaf(next(&mut self.last_id));
        self.nodes.push(
            Some(
                Node::Leaf(
                    Leaf { id: n, parent: Some(parent), geometry: Rectangle::zero(), ratio: None, data },
                ),
            ),
        );
        proof {
            let pr = self.rank@[parent.value_spec() as int];
            self.rank@ = self.rank@.insert(n.value_spec() as int, (pr + depth) as nat);
            self.rank_bound@ = (self.rank_bound@ + depth) as nat;
        }
        n
    }

    /// The container in slot of `id`, whatever the rest of the tree holds.
    fn tree_ref_raw(&self, id: NodeId) -> (r: &TreeNode)
        requires
            self.slot(id.value_spec() as int) is Some,
            self.get(id) is Tree,
        ensures
            Node::<T>::Tree(*r) == self.get(id),
    {
        match &self.nodes[id.value() as usize] {
            Some(Node::Tree(t)) => t,
            _ => unreached(),
        }
    }

    /// Puts `x` at position `pos` among the children of container `c`.
    fn insert_child(&mut self, c: NodeId, pos: usize, x: NodeId)
        requires
            old(self).has(c),
            old(self).get(c) is Tree,
            pos <= old(self).children_of(c).len(),
        ensures
            final(self).has(c),
            final(self).get(c) is Tree,
            old(self).fields_kept(*final(self), c),
            final(self).children_of(c) == old(self).children_of(c).insert(pos as int, x),
            final(self).slots() == old(self).slots().update(
                c.value_spec() as int,
                final(self).slots()[c.value_spec() as int],
            ),
            final(self).root_spec() == old(self).root_spec(),
            final(self).focus_spec() == old(self).focus_spec(),
            final(self).last_id_spec() == old(self).last_id_spec(),
            final(self).pending() == old(self).pending(),
            old(self).same_ranks(*final(self)),
    {
        let mut t = self.take_node(c);
        match &mut t {
            Node::Tree(tn) => {
                tn.children.insert(pos, x);
            },
            Node::Leaf(_) => {},
        }
        self.put_node(t);
    }

    /// What `insert` makes of `self`: `new` holds a new leaf with payload
    /// `data` and the next id, right after the focused leaf in the focused
    /// container, and focused; that container is laid out again; every other
    /// node is as it was but for geometry.
    pub open spec fn inserted(self, new: Tree<T>, data: T) -> bool {
        let (c, fl) = self.focus_spec();
        let n = NodeId::Leaf((self.last_id_spec() + 1) as u32);
        &&& new.last_id_spec() == self.last_id_spec() + 1
        &&& new.root_spec() == self.root_spec()
        &&& new.focus_spec() == (c, Some(n))
        &&& new.is_leaf(n)
        &&& new.get(n) == Node::Leaf(
            Leaf { id: n, parent: Some(c), geometry: new.geometry_of(n), ratio: None, data },
        )
        &&& new.children_of(c) == Self::inserted_children(self.children_of(c), fl, n)
        &&& self.fields_kept(new, c)
        &&& self.kept_except(new, set![c, n])
        &&& new.subtree_laid_out(c)
    }

    /// Inserts a new leaf holding `data` right after the focused leaf in the
    /// focused container (at its end when no leaf is focused), focuses it,
    /// and lays out that container again.
    pub fn insert(&mut self, data: T)
        requires
            old(self).wf(),
            old(self).can_allocate(1),
        ensures
            final(self).wf(),
            old(self).inserted(*final(self), data),
    {
        let ghost before = *self;
        let (tree_id, leaf_id) = self.focus;
        proof {
            before.lemma_focus_container();
            assert(self.node_ok(tree_id.value_spec() as int));
        }
        let new_leaf_id = self.push_leaf(tree_id, data, 1);
        let ghost pushed = *self;
        proof {
            let ti = tree_id.value_spec() as int;
            assert(self.slots()[ti] == before.slots()[ti]);
        }
        let pos = match leaf_id {
            None => self.tree_ref_raw(tree_id).children.len(),
            Some(l) => {
                proof {
                    assert(before.node_ok(l.value_spec() as int));
                }
                let t = self.tree_ref_raw(tree_id);
                let idx = t.child_index(&l);
                let len = t.children.len();
                proof {
                    assert(before.children_of(tree_id).index_of(l) == idx as int);
                }
                idx + 1
            },
        };
        proof {
            let cs = before.children_of(tree_id);
            assert(pushed.children_of(tree_id) == cs);
            match leaf_id {
                None => {
                    assert(cs.insert(pos as int, new_leaf_id) =~= cs.push(new_leaf_id));
                },
                Some(l) => {},
            }
            assert(cs.insert(pos as int, new_leaf_id) == Self::inserted_children(cs, leaf_id, new_leaf_id));
        }
        self.insert_child(tree_id, pos, new_leaf_id);
        self.focus = (tree_id, Some(new_leaf_id));
        let ghost mid = *self;
        proof {
            let ti = tree_id.value_spec() as int;
            assert(mid.slots()[ti] is Some);
            pushed.lemma_same_ranks_facts(mid);
            before.lemma_insert_wf(mid, tree_id, leaf_id, new_leaf_id);
        }
        self.update_geometries(tree_id);
        proof {
            mid.lemma_relayout(*self, tree_id);
            before.lemma_kept_trans(mid, *self, set![tree_id, new_leaf_id]);
        }
    }
}

} // verus!

verus! {

impl<T> Tree<T> {
    /// Two nodes that differ at most in geometry, ratio and orientation.
    pub open spec fn same_links(a: Node<T>, b: Node<T>) -> bool {
        &&& a.id_spec() == b.id_spec()
        &&& a.parent_spec() == b.parent_spec()
        &&& a.children_spec() == b.children_spec()
        &&& a is Tree == b is Tree
    }

    /// Changing the geometry, ratio or orientation of one node keeps the
    /// tree well-formed, provided the geometry stays sane.
    proof fn lemma_retuned_wf(self, b: Tree<T>, id: NodeId)
        requires
            self.wf(),
            self.has(id),
            b.slots() == self.slots().update(id.value_spec() as int, b.slots()[id.value_spec() as int]),
            b.slots()[id.value_spec() as int] is Some,
            Self::same_links(self.get(id), b.get(id)),
            b.geometry_of(id).is_sane(),
            b.root_spec() == self.root_spec(),
            b.focus_spec() == self.focus_spec(),
            b.last_id_spec() == self.last_id_spec(),
            self.same_ranks(b),
        ensures
            b.wf(),
            forall|x: NodeId| #[trigger] b.has(x) == self.has(x),
            forall|x: NodeId|
                self.has(x) ==> #[trigger] b.parent_of(x) == self.parent_of(x) && b.children_of(x)
                    == self.children_of(x),
            forall|x: NodeId| x.value_spec() != id.value_spec() ==> #[trigger] b.get(x) == self.get(x),
            forall|d: NodeId, x: NodeId| self.descends(d, x) == b.descends(d, x),
    {
        let ii = id.value_spec() as int;
        self.lemma_same_ranks_facts(b);
        assert forall|x: NodeId| #[trigger] b.has(x) == self.has(x) && (self.has(x) ==> b.parent_of(x)
            == self.parent_of(x) && b.children_of(x) == self.children_of(x)) && (x.value_spec() != id.value_spec() ==> b.get(x)
            == self.get(x)) by {
            let i = x.value_spec() as int;
            if i != ii && 0 <= i < self.slots().len() {
                assert(b.slots()[i] == self.slots()[i]);
            }
        }
        assert forall|i: int| #[trigger] b.node_ok(i) by {
            assert(self.node_ok(i));
            if 0 <= i < self.slots().len() && self.slots()[i] is Some {
                let n = self.slots()[i]->0;
                if i != ii {
                    assert(b.slots()[i] == self.slots()[i]);
                }
                assert(b.has(n.id_spec()));
                if n is Tree {
                    let cs = self.children_of(n.id_spec());
                    assert forall|k: int| 0 <= k < cs.len() implies b.has(#[trigger] cs[k])
                        && b.parent_of(cs[k]) == Some(n.id_spec()) by {
                        assert(self.has(cs[k]));
                    }
                }
                if n.id_spec() != self.root_spec() {
                    assert(self.has(n.parent_spec()->0));
                }
            }
        }
        assert forall|d: NodeId, x: NodeId| self.descends(d, x) == b.descends(d, x) by {
            self.lemma_retuned_descends(b, id, d, x);
        }
        match self.focus_spec() {
            (c, None) => {},
            (c, Some(l)) => {
                assert(b.has(l));
            },
        }
    }

    proof fn lemma_retuned_descends(self, b: Tree<T>, id: NodeId, d: NodeId, x: NodeId)
        requires
            self.wf(),
            self.has(id),
            b.slots() == self.slots().update(id.value_spec() as int, b.slots()[id.value_spec() as int]),
            b.slots()[id.value_spec() as int] is Some,
            Self::same_links(self.get(id), b.get(id)),
            self.same_ranks(b),
        ensures
            self.descends(d, x) == b.descends(d, x),
        decreases self.rank_id(d),
    {
        self.lemma_same_ranks_facts(b);
        let i = d.value_spec() as int;
        assert(self.parent_of(d) == b.parent_of(d)) by {
            if i != id.value_spec() && 0 <= i < self.slots().len() {
                assert(b.slots()[i] == self.slots()[i]);
            }
        }
        match self.parent_of(d) {
            None => {},
            Some(p) => {
                if self.rank_id(p) < self.rank_id(d) {
                    self.lemma_retuned_descends(b, id, p, x);
                }
            },
        }
    }

    /// Gives container `c` the orientation `o`.
    fn set_orientation(&mut self, c: NodeId, o: Orientation)
        requires
            old(self).wf(),
            old(self).is_container(c),
        ensures
            final(self).wf(),
            final(self).orientation_of(c) == o,
            forall|x: NodeId| #[trigger] final(self).has(x) == old(self).has(x),
            forall|x: NodeId|
                old(self).has(x) ==> #[trigger] final(self).parent_of(x) == old(self).parent_of(x)
                    && final(self).children_of(x) == old(self).children_of(x),
            forall|x: NodeId| x.value_spec() != c.value_spec() ==> #[trigger] final(self).get(x) == old(self).get(x),
            final(self).geometry_of(c) == old(self).geometry_of(c),
            final(self).ratio_of(c) == old(self).ratio_of(c),
            final(self).root_spec() == old(self).root_spec(),
            final(self).focus_spec() == old(self).focus_spec(),
            final(self).last_id_spec() == old(self).last_id_spec(),
            final(self).pending() == old(self).pending(),
            old(self).same_ranks(*final(self)),
    {
        let ghost before = *self;
        proof {
            assert(self.node_ok(c.value_spec() as int));
        }
        let mut n = self.take_node(c);
        match &mut n {
            Node::Tree(t) => {
                t.orientation = o;
            },
            Node::Leaf(_) => {},
        }
        self.put_node(n);
        proof {
            let ci = c.value_spec() as int;
            assert(self.slots() == before.slots().update(ci, self.slots()[ci]));
            before.lemma_retuned_wf(*self, c);
        }
    }

    /// Flips the orientation of the focused container and lays it out again.
    pub fn toggle_layout(&mut self)
        requires
            old(self).wf(),
        ensures
            final(self).wf(),
            ({
                let c = old(self).focus_spec().0;
                &&& final(self).orientation_of(c) == old(self).orientation_of(c).inverted()
                &&& final(self).children_of(c) == old(self).children_of(c)
                &&& final(self).subtree_laid_out(c)
                &&& old(self).kept_except(*final(self), set![c])
                &&& final(self).root_spec() == old(self).root_spec()
                &&& final(self).focus_spec() == old(self).focus_spec()
            }),
    {
        let ghost before = *self;
        proof {
            before.lemma_focus_container();
        }
        let c = self.focus.0;
        let o = self.tree_ref(c).orientation.invert();
        self.set_orientation(c, o);
        let ghost mid = *self;
        self.update_geometries(c);
        proof {
            assert(mid.parent_of(c) == before.parent_of(c));
            mid.lemma_relayout(*self, c);
            assert(before.kept_except(mid, set![c])) by {
                assert forall|id: NodeId| !set![c].contains(id) implies (#[trigger] mid.has(id)
                    == before.has(id)) && (before.has(id) ==> mid.get(id) == before.get(id).with_geometry(
                    mid.geometry_of(id),
                )) by {
                    if before.has(id) {
                        before.get(id).lemma_with_own_geometry();
                    }
                }
            }
            before.lemma_kept_trans(mid, *self, set![c]);
            assert(self.orientation_of(c) == before.orientation_of(c).inverted());
            assert(self.children_of(c) == before.children_of(c));
            assert(self.root_spec() == before.root_spec());
            assert(self.focus_spec() == before.focus_spec());
        }
    }

    /// The queued updates, as they are reported: one entry per queued id that
    /// names a leaf, in queue order, with the leaf's payload, its rectangle and
    /// whether it is the focused leaf.
    pub open spec fn reported(self, ids: Seq<NodeId>) -> Seq<(T, Rectangle, bool)>
        decreases ids.len(),
    {
        if ids.len() == 0 {
            Seq::empty()
        } else {
            let rest = self.reported(ids.drop_last());
            let id = ids.last();
            if self.is_leaf(id) {
                match self.get(id) {
                    Node::Leaf(l) => rest.push(
                        (l.data, l.geometry, self.focus_spec().1 == Some(id)),
                    ),
                    Node::Tree(_) => rest,
                }
            } else {
                rest
            }
        }
    }
}

impl<T: Copy> Tree<T> {
    /// Drains the queue of updated ids into (payload, rectangle, focused)
    /// entries for the leaves among them; ids of containers and of nodes that
    /// are gone are skipped.
    pub fn get_pending_updates(&mut self) -> (r: Vec<(T, Rectangle, bool)>)
        requires
            old(self).wf(),
        ensures
            final(self).wf(),
            r@ == old(self).reported(old(self).pending()),
            final(self).pending().len() == 0,
            final(self).slots() == old(self).slots(),
            final(self).root_spec() == old(self).root_spec(),
            final(self).focus_spec() == old(self).focus_spec(),
            final(self).last_id_spec() == old(self).last_id_spec(),
            old(self).same_ranks(*final(self)),
    {
        let ghost before = *self;
        let mut ids: Vec<NodeId> = Vec::new();
        std::mem::swap(&mut ids, &mut self.pending_update);
        proof {
            assert forall|i: int| #[trigger] self.node_ok(i) by {
                assert(before.node_ok(i));
            }
        }
        let mut out: Vec<(T, Rectangle, bool)> = Vec::new();
        let focused = self.focus.1;
        let mut k: usize = 0;
        while k < ids.len()
            invariant
                self.wf(),
                before.wf(),
                ids@ == before.pending(),
                self.slots() == before.slots(),
                self.focus_spec() == before.focus_spec(),
                self.root_spec() == before.root_spec(),
                focused == before.focus_spec().1,
                0 <= k <= ids@.len(),
                out@ == before.reported(ids@.subrange(0, k as int)),
            decreases ids@.len() - k,
        {
            let id = ids[k];
            proof {
                assert(ids@.subrange(0, k + 1).drop_last() =~= ids@.subrange(0, k as int));
            }
            let i = id.value() as usize;
            if i < self.nodes.len() {
                match &self.nodes[i] {
                    Some(Node::Leaf(l)) => {
                        proof {
                            assert(before.node_ok(i as int));
                        }
                        if l.id == id {
                            let active = match focused {
                                Some(f) => f == id,
                                None => false,
                            };
                            out.push((l.data, l.geometry, active));
                        }
                    },
                    _ => {
                        proof {
                            assert(!before.is_leaf(id) || before.slots()[i as int] is Some);
                            if before.is_leaf(id) {
                                assert(before.node_ok(i as int));
                            }
                        }
                    },
                }
            }
            k = k + 1;
        }
        proof {
            assert(ids@.subrange(0, ids@.len() as int) =~= ids@);
        }
        out
    }

    /// The payload of the focused leaf, if a leaf is focused.
    pub fn get_focus(&self) -> (r: Option<T>)
        requires
            self.wf(),
        ensures
            match self.focus_spec().1 {
                None => r is None,
                Some(l) => self.get(l) is Leaf && r == Some(self.get(l)->Leaf_0.data),
            },
    {
        match self.focus.1 {
            None => None,
            Some(l) => {
                assert(self.node_ok(l.value_spec() as int));
                Some(self.leaf_ref(l).data)
            },
        }
    }
}

} // verus!

verus! {

impl<T> Tree<T> {
    /// The root container.
    pub fn root(&self) -> (r: NodeId)
        ensures
            r == self.root_spec(),
    {
        self.root
    }

    /// The last id handed out; `insert` needs one more id to be left, and
    /// `split_insert` two.
    pub fn last_id(&self) -> (r: u32)
        ensures
            r == self.last_id_spec(),
    {
        self.last_id
    }

    /// The focused container and, if any, the focused leaf in it.
    pub fn focus(&self) -> (r: (NodeId, Option<NodeId>))
        ensures
            r == self.focus_spec(),
    {
        self.focus
    }

    /// The node named by `id`.
    pub fn get_node(&self, id: NodeId) -> (r: Result<&Node<T>, TreeError>)
        requires
            self.wf(),
        ensures
            match r {
                Ok(n) => self.has(id) && *n == self.get(id),
                Err(e) => !self.has(id) && e == TreeError::InvalidNodeReference,
            },
    {
        let i = id.value() as usize;
        if i >= self.nodes.len() {
            return Err(TreeError::InvalidNodeReference);
        }
        match &self.nodes[i] {
            Some(n) => {
                if n.id() == id {
                    Ok(n)
                } else {
                    Err(TreeError::InvalidNodeReference)
                }
            },
            None => Err(TreeError::InvalidNodeReference),
        }
    }

    /// The container named by `id`.
    pub fn get_tree(&self, id: NodeId) -> (r: Result<&TreeNode, TreeError>)
        requires
            self.wf(),
        ensures
            match r {
                Ok(t) => self.is_container(id) && Node::<T>::Tree(*t) == self.get(id),
                Err(e) => !self.is_container(id) && (e == TreeError::WrongNodeKind <==> id is Leaf),
            },
    {
        if id.is_leaf_id() {
            return Err(TreeError::WrongNodeKind);
        }
        match self.get_node(id) {
            Ok(n) => {
                proof {
                    assert(self.node_ok(id.value_spec() as int));
                }
                match n {
                    Node::Tree(t) => Ok(t),
                    Node::Leaf(_) => unreached(),
                }
            },
            Err(e) => Err(e),
        }
    }

    /// The leaf named by `id`.
    pub fn get_leaf(&self, id: NodeId) -> (r: Result<&Leaf<T>, TreeError>)
        requires
            self.wf(),
        ensures
            match r {
                Ok(l) => self.is_leaf(id) && Node::Leaf(*l) == self.get(id),
                Err(e) => !self.is_leaf(id) && (e == TreeError::WrongNodeKind <==> id is Tree),
            },
    {
        if !id.is_leaf_id() {
            return Err(TreeError::WrongNodeKind);
        }
        match self.get_node(id) {
            Ok(n) => {
                proof {
                    assert(self.node_ok(id.value_spec() as int));
                }
                match n {
                    Node::Leaf(l) => Ok(l),
                    Node::Tree(_) => unreached(),
                }
            },
            Err(e) => Err(e),
        }
    }

    /// Focuses leaf `leaf` in its container `tree`. Both are queued for an
    /// update, and so is the leaf that had the focus before.
    pub fn set_focus(&mut self, target: (NodeId, NodeId)) -> (r: Result<(), TreeError>)
        requires
            old(self).wf(),
        ensures
            final(self).wf(),
            ({
                let (tree, leaf) = target;
                let valid = old(self).is_leaf(leaf) && old(self).parent_of(leaf) == Some(tree);
                &&& (r is Ok) == valid
                &&& (tree is Leaf || leaf is Tree) ==> r == Err::<(), TreeError>(TreeError::WrongNodeKind)
                &&& (tree is Tree && leaf is Leaf && !valid) ==> r == Err::<(), TreeError>(
                    TreeError::InvalidNodeReference,
                )
                &&& r is Ok ==> final(self).focus_spec() == (tree, Some(leaf))
                &&& r is Ok ==> final(self).pending() == match old(self).focus_spec().1 {
                    Some(f) => old(self).pending().push(f).push(leaf),
                    None => old(self).pending().push(leaf),
                }
                &&& r is Err ==> *final(self) == *old(self)
                &&& final(self).slots() == old(self).slots()
                &&& final(self).root_spec() == old(self).root_spec()
                &&& final(self).last_id_spec() == old(self).last_id_spec()
            }),
    {
        let (tree, leaf) = target;
        proof {
            assert(self.node_ok(leaf.value_spec() as int));
        }
        if tree.is_leaf_id() || !leaf.is_leaf_id() {
            return Err(TreeError::WrongNodeKind);
        }
        let parent = match self.get_leaf(leaf) {
            Ok(l) => l.parent,
            Err(_) => {
                return Err(TreeError::InvalidNodeReference);
            },
        };
        match parent {
            Some(p) => {
                if p != tree {
                    return Err(TreeError::InvalidNodeReference);
                }
            },
            None => {
                return Err(TreeError::InvalidNodeReference);
            },
        }
        let ghost before = *self;
        if let Some(f) = self.focus.1 {
            self.pending_update.push(f);
        }
        self.focus = (tree, Some(leaf));
        self.pending_update.push(leaf);
        proof {
            assert forall|i: int| #[trigger] self.node_ok(i) by {
                assert(before.node_ok(i));
            }
        }
        Ok(())
    }
}

impl<T: Copy + PartialEq + vstd::std_specs::cmp::PartialEqSpec> Tree<T> {
    /// The leaf in slot `i` holds a payload equal to `data`.
    pub open spec fn holds_at(self, i: int, data: T) -> bool {
        &&& self.slot(i) matches Some(Node::Leaf(l))
        &&& self.slot(i)->0->Leaf_0.data.eq_spec(&data)
    }

    /// The container and id of the first leaf, by id, whose payload equals
    /// `data`.
    pub fn get_node_for_data(&self, data: &T) -> (r: Option<(NodeId, NodeId)>)
        requires
            self.wf(),
        ensures
            match r {
                None => T::obeys_eq_spec() ==> forall|i: int| !self.holds_at(i, *data),
                Some((c, l)) => {
                    &&& self.is_leaf(l)
                    &&& self.parent_of(l) == Some(c)
                    &&& T::obeys_eq_spec() ==> self.holds_at(l.value_spec() as int, *data)
                    &&& T::obeys_eq_spec() ==> forall|i: int| i < l.value_spec() ==> !self.holds_at(i, *data)
                },
            },
    {
        let mut i: usize = 0;
        while i < self.nodes.len()
            invariant
                self.wf(),
                0 <= i <= self.slots().len(),
                T::obeys_eq_spec() ==> forall|j: int| j < i ==> !self.holds_at(j, *data),
            decreases self.slots().len() - i,
        {
            match &self.nodes[i] {
                Some(Node::Leaf(l)) => {
                    if l.data == *data {
                        proof {
                            assert(self.node_ok(i as int));
                            assert(self.has(l.id));
                        }
                        match l.parent {
                            Some(p) => {
                                return Some((p, l.id));
                            },
                            None => {
                                proof {
                                    assert(self.root_spec() is Tree);
                                }
                                return unreached();
                            },
                        }
                    }
                },
                _ => {},
            }
            i = i + 1;
        }
        None
    }

    /// Focuses the first leaf, by id, whose payload equals `data`; leaves the
    /// focus as it is when there is none.
    pub fn set_focus_matching(&mut self, data: &T)
        requires
            old(self).wf(),
        ensures
            final(self).wf(),
            final(self).slots() == old(self).slots(),
            final(self).root_spec() == old(self).root_spec(),
            final(self).pending() == old(self).pending(),
            final(self).last_id_spec() == old(self).last_id_spec(),
            T::obeys_eq_spec() && (exists|i: int| old(self).holds_at(i, *data)) ==> ({
                let (c, fl) = final(self).focus_spec();
                &&& fl is Some
                &&& old(self).parent_of(fl->0) == Some(c)
                &&& old(self).holds_at(fl->0.value_spec() as int, *data)
                &&& forall|i: int| i < fl->0.value_spec() ==> !old(self).holds_at(i, *data)
            }),
            T::obeys_eq_spec() && (forall|i: int| !old(self).holds_at(i, *data)) ==> final(self).focus_spec() == old(self).focus_spec(),
    {
        let ghost before = *self;
        if let Some((c, l)) = self.get_node_for_data(data) {
            self.focus = (c, Some(l));
            proof {
                assert forall|i: int| #[trigger] self.node_ok(i) by {
                    assert(before.node_ok(i));
                }
            }
        }
    }
}

} // verus!

verus! {

impl<T> Tree<T> {
    /// Adds a container with a fresh id under `parent`, in a new slot, one
    /// rank below it.
    fn push_tree(&mut self, parent: NodeId, children: Vec<NodeId>, orientation: Orientation) -> (n:
        NodeId)
        requires
            old(self).slots().len() == old(self).last_id_spec() + 1,
            old(self).can_allocate(1),
        ensures
            n == NodeId::Tree((old(self).last_id_spec() + 1) as u32),
            final(self).slots() == old(self).slots().push(
                Some(
                    Node::Tree(
                        TreeNode {
                            id: n,
                            parent: Some(parent),
                            children,
                            geometry: Rectangle::zero_spec(),
                            ratio: None,
                            orientation,
                        },
                    ),
                ),
            ),
            final(self).last_id_spec() == old(self).last_id_spec() + 1,
            final(self).root_spec() == old(self).root_spec(),
            final(self).focus_spec() == old(self).focus_spec(),
            final(self).pending() == old(self).pending(),
            final(self).rank_limit() == old(self).rank_limit() + 1,
            forall|i: int| i != n.value_spec() ==> #[trigger] final(self).rank_of(i) == old(self).rank_of(i),
            final(self).rank_of(n.value_spec() as int) == old(self).rank_id(parent) + 1,
    {
        let n = NodeId::Tree(next(&mut self.last_id));
        self.nodes.push(
            Some(
                Node::Tree(
                    TreeNode {
                        id: n,
                        parent: Some(parent),
                        children,
                        geometry: Rectangle::zero(),
                        ratio: None,
                        orientation,
                    },
                ),
            ),
        );
        proof {
            let pr = self.rank@[parent.value_spec() as int];
            self.rank@ = self.rank@.insert(n.value_spec() as int, (pr + 1) as nat);
            self.rank_bound@ = (self.rank_bound@ + 1) as nat;
        }
        n
    }

    /// Moves leaf `l` under `parent`, one rank below it, and clears its ratio.
    fn relink_leaf(&mut self, l: NodeId, parent: NodeId)
        requires
            old(self).has(l),
            old(self).get(l) is Leaf,
        ensures
            final(self).slots() == old(self).slots().update(
                l.value_spec() as int,
                Some(old(self).get(l).with_parent(Some(parent)).with_ratio(None)),
            ),
            final(self).last_id_spec() == old(self).last_id_spec(),
            final(self).root_spec() == old(self).root_spec(),
            final(self).focus_spec() == old(self).focus_spec(),
            final(self).pending() == old(self).pending(),
            final(self).rank_limit() == old(self).rank_limit(),
            forall|i: int| i != l.value_spec() ==> #[trigger] final(self).rank_of(i) == old(self).rank_of(i),
            final(self).rank_id(l) == old(self).rank_id(parent) + 1,
    {
        let mut n = self.take_node(l);
        match &mut n {
            Node::Leaf(x) => {
                x.parent = Some(parent);
                x.ratio = None;
            },
            Node::Tree(_) => {},
        }
        self.put_node(n);
        proof {
            let pr = self.rank@[parent.value_spec() as int];
            self.rank@ = self.rank@.insert(l.value_spec() as int, (pr + 1) as nat);
        }
    }

    /// Replaces the child at position `pos` of container `c` by `x`.
    pub(crate) fn replace_child(&mut self, c: NodeId, pos: usize, x: NodeId)
        requires
            old(self).has(c),
            old(self).get(c) is Tree,
            pos < old(self).children_of(c).len(),
        ensures
            final(self).has(c),
            final(self).get(c) is Tree,
            old(self).fields_kept(*final(self), c),
            final(self).children_of(c) == old(self).children_of(c).update(pos as int, x),
            final(self).slots() == old(self).slots().update(
                c.value_spec() as int,
                final(self).slots()[c.value_spec() as int],
            ),
            final(self).root_spec() == old(self).root_spec(),
            final(self).focus_spec() == old(self).focus_spec(),
            final(self).last_id_spec() == old(self).last_id_spec(),
            final(self).pending() == old(self).pending(),
            old(self).same_ranks(*final(self)),
    {
        let mut t = self.take_node(c);
        match &mut t {
            Node::Tree(tn) => {
                tn.children.set(pos, x);
            },
            Node::Leaf(_) => {},
        }
        self.put_node(t);
    }
}

} // verus!

verus! {

impl<T> Tree<T> {
    /// Gives leaf `l` the parent `parent`, one rank below it.
    fn reparent_leaf(&mut self, l: NodeId, parent: NodeId)
        requires
            old(self).has(l),
            old(self).get(l) is Leaf,
        ensures
            final(self).slots() == old(self).slots().update(
                l.value_spec() as int,
                Some(old(self).get(l).with_parent(Some(parent))),
            ),
            final(self).last_id_spec() == old(self).last_id_spec(),
            final(self).root_spec() == old(self).root_spec(),
            final(self).focus_spec() == old(self).focus_spec(),
            final(self).pending() == old(self).pending(),
            final(self).rank_limit() == old(self).rank_limit(),
            forall|i: int| i != l.value_spec() ==> #[trigger] final(self).rank_of(i) == old(self).rank_of(i),
            final(self).rank_id(l) == old(self).rank_id(parent) + 1,
    {
        let mut n = self.take_node(l);
        n.set_parent_id(&parent);
        self.put_node(n);
        proof {
            let pr = self.rank@[parent.value_spec() as int];
            self.rank@ = self.rank@.insert(l.value_spec() as int, (pr + 1) as nat);
        }
    }

    /// Swapping leaf `a` of container `ca` (at `i`) with leaf `b` of another
    /// container `cb` (at `j`) leaves the nodes well-formed.
    proof fn lemma_exchange_wf(self, mid: Tree<T>, ca: NodeId, a: NodeId, i: int, cb: NodeId, b: NodeId, j: int)
        requires
            self.wf(),
            self.is_leaf(a),
            self.is_leaf(b),
            self.parent_of(a) == Some(ca),
            self.parent_of(b) == Some(cb),
            ca != cb,
            0 <= i < self.children_of(ca).len(),
            self.children_of(ca)[i] == a,
            0 <= j < self.children_of(cb).len(),
            self.children_of(cb)[j] == b,
            mid.slots().len() == self.slots().len(),
            forall|k: int|
                0 <= k < self.slots().len() && k != ca.value_spec() && k != cb.value_spec() && k
                    != a.value_spec() && k != b.value_spec() ==> #[trigger] mid.slots()[k] == self.slots()[k],
            mid.slots()[a.value_spec() as int] == Some(self.get(a).with_parent(Some(cb))),
            mid.slots()[b.value_spec() as int] == Some(self.get(b).with_parent(Some(ca))),
            mid.slots()[ca.value_spec() as int] is Some,
            mid.get(ca) is Tree,
            mid.get(ca).id_spec() == ca,
            self.fields_kept(mid, ca),
            mid.children_of(ca) == self.children_of(ca).update(i, b),
            mid.slots()[cb.value_spec() as int] is Some,
            mid.get(cb) is Tree,
            mid.get(cb).id_spec() == cb,
            self.fields_kept(mid, cb),
            mid.children_of(cb) == self.children_of(cb).update(j, a),
            mid.root_spec() == self.root_spec(),
            mid.last_id_spec() == self.last_id_spec(),
            mid.rank_limit() == self.rank_limit(),
            forall|k: int| k != a.value_spec() && k != b.value_spec() ==> #[trigger] mid.rank_of(k) == self.rank_of(k),
            mid.rank_id(a) == self.rank_id(cb) + 1,
            mid.rank_id(b) == self.rank_id(ca) + 1,
        ensures
            mid.wf_nodes(),
            forall|id: NodeId|
                id != a && id != b && id != ca && id != cb ==> (#[trigger] mid.has(id) == self.has(id)) && (
                self.has(id) ==> mid.get(id) == self.get(id)),
    {
        let ai = a.value_spec() as int;
        let bi = b.value_spec() as int;
        let cai = ca.value_spec() as int;
        let cbi = cb.value_spec() as int;
        assert(self.node_ok(ai));
        assert(self.node_ok(bi));
        assert(self.node_ok(cai));
        assert(self.node_ok(cbi));
        let xs = self.children_of(ca);
        let ys = self.children_of(cb);
        let nxs = mid.children_of(ca);
        let nys = mid.children_of(cb);
        assert(!xs.contains(b)) by {
            if xs.contains(b) {
                let k = choose|k: int| 0 <= k < xs.len() && xs[k] == b;
                assert(self.has(xs[k]));
            }
        }
        assert(!ys.contains(a)) by {
            if ys.contains(a) {
                let k = choose|k: int| 0 <= k < ys.len() && ys[k] == a;
                assert(self.has(ys[k]));
            }
        }
        assert(nxs.no_duplicates()) by {
            assert forall|p: int, q: int| 0 <= p < nxs.len() && 0 <= q < nxs.len() && p != q implies nxs[p] != nxs[q] by {
                if p != i { assert(nxs[p] == xs[p]); assert(xs.contains(xs[p])); }
                if q != i { assert(nxs[q] == xs[q]); assert(xs.contains(xs[q])); }
            }
        }
        assert(nys.no_duplicates()) by {
            assert forall|p: int, q: int| 0 <= p < nys.len() && 0 <= q < nys.len() && p != q implies nys[p] != nys[q] by {
                if p != j { assert(nys[p] == ys[p]); assert(ys.contains(ys[p])); }
                if q != j { assert(nys[q] == ys[q]); assert(ys.contains(ys[q])); }
            }
        }
        assert forall|id: NodeId|
            id != a && id != b && id != ca && id != cb implies (#[trigger] mid.has(id) == self.has(id)) && (
            self.has(id) ==> mid.get(id) == self.get(id)) by {
            let k = id.value_spec() as int;
            if k == ai || k == bi || k == cai || k == cbi {
                assert(!self.has(id));
                assert(!mid.has(id));
            } else if 0 <= k < self.slots().len() {
                assert(mid.slots()[k] == self.slots()[k]);
            }
        }
        assert(mid.has(a) && mid.has(b) && mid.has(ca) && mid.has(cb));
        assert forall|k: int| #[trigger] mid.node_ok(k) by {
            assert(self.node_ok(k));
            if k == ai {
                assert(nys[j] == a);
                assert(mid.rank_id(cb) == self.rank_id(cb));
                assert(self.rank_id(cb) < self.rank_id(b));
            } else if k == bi {
                assert(nxs[i] == b);
                assert(mid.rank_id(ca) == self.rank_id(ca));
                assert(self.rank_id(ca) < self.rank_id(a));
            } else if k == cai || k == cbi {
                let c = if k == cai { ca } else { cb };
                if c != self.root_spec() {
                    let q = self.parent_of(c)->0;
                    assert(self.node_ok(q.value_spec() as int));
                    assert(q != a && q != b);
                    assert(mid.has(q));
                    if q == ca {
                        assert(xs.contains(c));
                        let p = choose|p: int| 0 <= p < xs.len() && xs[p] == c;
                        assert(nxs[p] == c);
                    } else if q == cb {
                        assert(ys.contains(c));
                        let p = choose|p: int| 0 <= p < ys.len() && ys[p] == c;
                        assert(nys[p] == c);
                    }
                }
                let ch = mid.children_of(c);
                assert forall|p: int| 0 <= p < ch.len() implies mid.has(#[trigger] ch[p]) && mid.parent_of(ch[p]) == Some(c) by {
                    let old_ch = self.children_of(c);
                    if (c == ca && p == i) || (c == cb && p == j) {
                    } else {
                        assert(ch[p] == old_ch[p]);
                        assert(self.has(old_ch[p]));
                        if old_ch[p] == a {
                            assert(c == ca);
                            assert(xs[i] == a);
                        }
                        if old_ch[p] == b {
                            assert(c == cb);
                            assert(ys[j] == b);
                        }
                    }
                }
            } else if 0 <= k < self.slots().len() && self.slots()[k] is Some {
                let nd = self.slots()[k]->0;
                let id = nd.id_spec();
                assert(mid.slots()[k] == self.slots()[k]);
                if id != self.root_spec() {
                    let q = nd.parent_spec()->0;
                    assert(self.node_ok(q.value_spec() as int));
                    assert(q != a && q != b);
                    assert(mid.has(q));
                    if q == ca {
                        assert(xs.contains(id));
                        let p = choose|p: int| 0 <= p < xs.len() && xs[p] == id;
                        assert(p != i);
                        assert(nxs[p] == id);
                    } else if q == cb {
                        assert(ys.contains(id));
                        let p = choose|p: int| 0 <= p < ys.len() && ys[p] == id;
                        assert(p != j);
                        assert(nys[p] == id);
                    }
                }
                if nd is Tree {
                    let ch = mid.children_of(id);
                    assert forall|p: int| 0 <= p < ch.len() implies mid.has(#[trigger] ch[p]) && mid.parent_of(ch[p]) == Some(id) by {
                        assert(self.has(ch[p]));
                        if ch[p] == a || ch[p] == b {
                            assert(false);
                        }
                        if ch[p] == ca || ch[p] == cb {
                            assert(mid.parent_of(ch[p]) == self.parent_of(ch[p]));
                        }
                    }
                }
            }
        }
    }
}

} // verus!

verus! {

impl<T> Tree<T> {
    /// Gives node `id` the ratio `ratio`.
    pub(crate) fn set_ratio_of(&mut self, id: NodeId, ratio: u32)
        requires
            old(self).wf(),
            old(self).has(id),
        ensures
            final(self).wf(),
            final(self).ratio_of(id) == Some(ratio),
            final(self).get(id) == old(self).get(id).with_ratio(Some(ratio)),
            forall|x: NodeId| #[trigger] final(self).has(x) == old(self).has(x),
            forall|x: NodeId|
                old(self).has(x) ==> #[trigger] final(self).parent_of(x) == old(self).parent_of(x)
                    && final(self).children_of(x) == old(self).children_of(x),
            forall|x: NodeId| x.value_spec() != id.value_spec() ==> #[trigger] final(self).get(x) == old(self).get(x),
            final(self).root_spec() == old(self).root_spec(),
            final(self).focus_spec() == old(self).focus_spec(),
            final(self).last_id_spec() == old(self).last_id_spec(),
            final(self).pending() == old(self).pending(),
            old(self).same_ranks(*final(self)),
            forall|d: NodeId, x: NodeId| old(self).descends(d, x) == final(self).descends(d, x),
    {
        let ghost before = *self;
        proof {
            assert(self.node_ok(id.value_spec() as int));
        }
        let mut n = self.take_node(id);
        n.set_ratio(ratio);
        self.put_node(n);
        proof {
            let ii = id.value_spec() as int;
            assert(self.slots() == before.slots().update(ii, self.slots()[ii]));
            before.lemma_retuned_wf(*self, id);
        }
    }
}

} // verus!

verus! {

impl<T> Tree<T> {
    /// Every container at or below `a` has its children laid out.
    #[verifier::opaque]
    pub open spec fn subtree_laid_out(self, a: NodeId) -> bool {
        &&& self.laid_out(a)
        &&& forall|d: NodeId| #[trigger] self.descends(d, a) && self.is_container(d) ==> self.laid_out(d)
    }

    /// The subtrees of two distinct siblings share no node.
    pub(crate) proof fn lemma_disjoint_subtrees(self, x: NodeId, a: NodeId, b: NodeId, p: NodeId)
        requires
            self.wf(),
            self.has(x),
            self.has(a),
            self.has(b),
            a != b,
            self.parent_of(a) == Some(p),
            self.parent_of(b) == Some(p),
            x == a || self.descends(x, a),
        ensures
            x != b,
            !self.descends(x, b),
        decreases self.rank_id(x),
    {
        self.lemma_sibling_not_below(a, b, p);
        self.lemma_sibling_not_below(b, a, p);
        if x != a {
            assert(self.node_ok(x.value_spec() as int));
            let q = self.parent_of(x)->0;
            assert(self.node_ok(q.value_spec() as int));
            if self.descends(x, b) {
                if q != a {
                    self.lemma_disjoint_subtrees(q, a, b, p);
                } else {
                    assert(q != b);
                    assert(self.descends(q, b));
                }
            }
        }
    }

    /// A node below `a` is a child of `a` or below one.
    pub(crate) proof fn lemma_below_some_child(self, d: NodeId, a: NodeId) -> (c: NodeId)
        requires
            self.wf(),
            self.has(d),
            self.descends(d, a),
        ensures
            self.has(c),
            self.parent_of(c) == Some(a),
            self.children_of(a).contains(c),
            d == c || self.descends(d, c),
        decreases self.rank_id(d),
    {
        assert(self.node_ok(d.value_spec() as int));
        let q = self.parent_of(d)->0;
        assert(self.node_ok(q.value_spec() as int));
        if q == a {
            d
        } else {
            let c = self.lemma_below_some_child(q, a);
            assert(self.node_ok(c.value_spec() as int));
            if q != c {
                assert(self.descends(d, c));
            }
            c
        }
    }

    /// Layout of `d` carries over to a tree that keeps the geometries of `d`
    /// and of its children.
    pub(crate) proof fn lemma_laid_out_frame(self, b: Tree<T>, d: NodeId)
        requires
            self.wf(),
            self.is_container(d),
            self.reshaped(b),
            self.laid_out(d),
            b.geometry_of(d) == self.geometry_of(d),
            forall|k: int|
                0 <= k < self.children_of(d).len() ==> b.geometry_of(#[trigger] self.children_of(d)[k])
                    == self.geometry_of(self.children_of(d)[k]),
        ensures
            b.laid_out(d),
    {
        self.lemma_relayout(b, d);
    }
}

} // verus!

verus! {

impl<T> Tree<T> {
    /// Placing child `c` of `p` keeps the layout of the subtree of its
    /// sibling `cj`.
    proof fn lemma_keeps_subtree(self, fin: Tree<T>, c: NodeId, cj: NodeId, p: NodeId)
        requires
            self.wf(),
            self.reshaped(fin),
            self.has(c),
            self.has(cj),
            c != cj,
            self.parent_of(c) == Some(p),
            self.parent_of(cj) == Some(p),
            forall|j: int|
                0 <= j < self.slots().len() && self.slots()[j] is Some && (#[trigger] fin.slots()[j])->0.geometry_spec()
                    != self.slots()[j]->0.geometry_spec() ==> self.slots()[j]->0.id_spec() == c
                    || self.descends(self.slots()[j]->0.id_spec(), c),
            forall|d: NodeId, x: NodeId| self.descends(d, x) == fin.descends(d, x),
            self.is_container(cj),
            self.subtree_laid_out(cj),
        ensures
            fin.subtree_laid_out(cj),
    {
        reveal(Tree::subtree_laid_out);
        self.lemma_same_ranks_facts(fin);
        assert forall|y: NodeId| self.has(y) && (y == cj || self.descends(y, cj)) implies #[trigger] fin.geometry_of(y)
            == self.geometry_of(y) by {
            self.lemma_disjoint_subtrees(y, cj, c, p);
            let yi = y.value_spec() as int;
            assert(fin.slots()[yi] is Some == self.slots()[yi] is Some);
        }
        assert forall|d: NodeId| (d == cj || self.descends(d, cj)) && self.is_container(d) implies fin.laid_out(d) by {
            assert(self.node_ok(d.value_spec() as int));
            if d != cj {
                assert(self.laid_out(d));
            }
            assert forall|k: int| 0 <= k < self.children_of(d).len() implies fin.geometry_of(
                #[trigger] self.children_of(d)[k],
            ) == self.geometry_of(self.children_of(d)[k]) by {
                let x = self.children_of(d)[k];
                assert(self.has(x) && self.parent_of(x) == Some(d));
                assert(self.node_ok(x.value_spec() as int));
                assert(self.descends(x, cj));
            }
            self.lemma_laid_out_frame(fin, d);
        }
        assert forall|d: NodeId| #[trigger] fin.descends(d, cj) && fin.is_container(d) implies fin.laid_out(d) by {
            let dd = d.value_spec() as int;
            assert(fin.slots()[dd] is Some == self.slots()[dd] is Some);
            assert(self.descends(d, cj));
        }
    }
}

} // verus!
