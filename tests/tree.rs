use wzm_comp::config::{ResizeDirection, ResizeType};
use wzm_comp::geometry::{Orientation, Rectangle};
use wzm_comp::node::{NodeId, TreeError};
use wzm_comp::siblings::SiblingDirection;
use wzm_comp::tree::{Direction, Tree};

fn rect(x: i32, y: i32, w: i32, h: i32) -> Rectangle {
    Rectangle::from_loc_and_size(x, y, w, h)
}

fn children<T>(tree: &Tree<T>, id: NodeId) -> Vec<NodeId> {
    tree.get_tree(id).unwrap().children.clone()
}

fn geometry<T>(tree: &Tree<T>, id: NodeId) -> Rectangle {
    tree.get_node(id).unwrap().geometry()
}

#[test]
fn should_insert_in_root() {
    let mut tree: Tree<()> = Tree::new(Rectangle::zero(), Orientation::Horizontal);
    tree.insert(());
    tree.get_pending_updates();
    tree.insert(());
    tree.get_pending_updates();

    assert_eq!(children(&tree, tree.root()), [NodeId::Leaf(2), NodeId::Leaf(3)]);
    assert!(tree.get_node(NodeId::Leaf(2)).is_ok());
    assert!(tree.get_node(NodeId::Leaf(3)).is_ok());
}

#[test]
fn should_insert_remove_in_root() {
    let mut tree: Tree<()> = Tree::new(Rectangle::zero(), Orientation::Horizontal);
    tree.insert(());
    tree.get_pending_updates();
    tree.insert(());
    tree.get_pending_updates();
    tree.insert(());
    tree.get_pending_updates();

    tree.remove();

    assert_eq!(children(&tree, tree.root()), [NodeId::Leaf(2), NodeId::Leaf(3)]);
    assert!(tree.get_node(NodeId::Tree(1)).is_ok());
    assert!(tree.get_node(NodeId::Leaf(2)).is_ok());
    assert!(tree.get_node(NodeId::Leaf(3)).is_ok());
    assert!(tree.get_node(NodeId::Leaf(4)).is_err());
}

#[test]
fn should_split_insert() {
    let mut tree: Tree<()> = Tree::new(Rectangle::zero(), Orientation::Horizontal);
    tree.insert(());
    tree.get_pending_updates();
    tree.insert(());
    tree.get_pending_updates();
    tree.split_insert((), Orientation::Vertical);
    tree.get_pending_updates();

    assert_eq!(children(&tree, tree.root()), [NodeId::Leaf(2), NodeId::Tree(4)]);
    assert_eq!(children(&tree, NodeId::Tree(4)), [NodeId::Leaf(3), NodeId::Leaf(5)]);
    for id in [NodeId::Tree(1), NodeId::Leaf(2), NodeId::Leaf(3), NodeId::Tree(4), NodeId::Leaf(5)] {
        assert!(tree.get_node(id).is_ok());
    }
    assert_eq!(tree.focus(), (NodeId::Tree(4), Some(NodeId::Leaf(5))));
}

#[test]
fn should_get_neighbours() {
    let mut tree: Tree<()> = Tree::new(Rectangle::zero(), Orientation::Horizontal);
    tree.insert(());
    tree.insert(());
    tree.split_insert((), Orientation::Vertical);
    tree.get_pending_updates();

    assert_eq!(tree.neighbour(&NodeId::Leaf(5), Direction::Before), Some(NodeId::Leaf(3)));
    assert_eq!(tree.neighbour(&NodeId::Leaf(3), Direction::Before), Some(NodeId::Leaf(2)));
    assert_eq!(tree.neighbour(&NodeId::Leaf(2), Direction::Before), None);
    assert_eq!(tree.neighbour(&NodeId::Leaf(2), Direction::After), Some(NodeId::Leaf(3)));
    assert_eq!(tree.neighbour(&NodeId::Leaf(5), Direction::After), None);
}

#[test]
fn should_clean_up_empty_nodes() {
    let mut tree: Tree<()> = Tree::new(Rectangle::zero(), Orientation::Horizontal);
    tree.insert(());
    tree.get_pending_updates();
    tree.insert(());
    tree.get_pending_updates();
    tree.split_insert((), Orientation::Vertical);
    tree.get_pending_updates();
    tree.remove();
    tree.get_pending_updates();
    tree.remove();
    tree.get_pending_updates();

    assert_eq!(children(&tree, tree.root()), [NodeId::Leaf(2)]);
    assert!(tree.get_node(NodeId::Leaf(3)).is_err());
    assert!(tree.get_node(NodeId::Tree(4)).is_err());
    assert!(tree.get_node(NodeId::Leaf(5)).is_err());
}

#[test]
fn should_update_geometries() {
    let mut tree: Tree<u32> = Tree::new(rect(0, 0, 100, 200), Orientation::Horizontal);

    tree.insert(2);
    assert_eq!(tree.get_pending_updates(), vec![(2, rect(0, 0, 100, 200), true)]);
    assert_eq!(geometry(&tree, NodeId::Tree(1)), rect(0, 0, 100, 200));
    assert_eq!(geometry(&tree, NodeId::Leaf(2)), rect(0, 0, 100, 200));

    tree.insert(3);
    assert_eq!(
        tree.get_pending_updates(),
        vec![(2, rect(0, 0, 50, 200), false), (3, rect(50, 0, 50, 200), true)]
    );
    assert_eq!(geometry(&tree, NodeId::Tree(1)), rect(0, 0, 100, 200));
    assert_eq!(geometry(&tree, NodeId::Leaf(2)), rect(0, 0, 50, 200));
    assert_eq!(geometry(&tree, NodeId::Leaf(3)), rect(50, 0, 50, 200));

    tree.split_insert(5, Orientation::Vertical);
    assert_eq!(
        tree.get_pending_updates(),
        vec![
            (2, rect(0, 0, 50, 200), false),
            (3, rect(50, 0, 50, 100), false),
            (5, rect(50, 100, 50, 100), true)
        ]
    );
    assert_eq!(geometry(&tree, NodeId::Tree(1)), rect(0, 0, 100, 200));
    assert_eq!(geometry(&tree, NodeId::Leaf(2)), rect(0, 0, 50, 200));
    assert_eq!(geometry(&tree, NodeId::Tree(4)), rect(50, 0, 50, 200));
    assert_eq!(geometry(&tree, NodeId::Leaf(3)), rect(50, 0, 50, 100));
    assert_eq!(geometry(&tree, NodeId::Leaf(5)), rect(50, 100, 50, 100));
}

#[test]
fn should_update_focus_on_removal() {
    let mut tree: Tree<()> = Tree::new(Rectangle::zero(), Orientation::Horizontal);
    tree.insert(());
    tree.get_pending_updates();
    tree.insert(());
    tree.get_pending_updates();
    tree.split_insert((), Orientation::Vertical);
    tree.get_pending_updates();
    assert_eq!(tree.set_focus((NodeId::Tree(1), NodeId::Leaf(2))), Ok(()));
    tree.get_pending_updates();
    tree.split_insert((), Orientation::Vertical);
    tree.get_pending_updates();
    assert_eq!(tree.focus(), (NodeId::Tree(6), Some(NodeId::Leaf(7))));

    tree.remove();
    tree.get_pending_updates();
    assert_eq!(tree.focus(), (NodeId::Tree(1), Some(NodeId::Leaf(2))));
    assert_eq!(children(&tree, tree.root()), [NodeId::Leaf(2), NodeId::Tree(4)]);

    tree.remove();
    tree.get_pending_updates();
    assert_eq!(tree.focus(), (NodeId::Tree(1), None));
    assert_eq!(children(&tree, tree.root()), [NodeId::Tree(4)]);
}

#[test]
fn get_siblings() {
    let mut tree: Tree<()> = Tree::new(Rectangle::zero(), Orientation::Horizontal);
    tree.insert(());
    tree.insert(());
    tree.split_insert((), Orientation::Vertical);
    tree.set_focus((NodeId::Tree(1), NodeId::Leaf(2))).unwrap();
    tree.split_insert((), Orientation::Vertical);
    tree.set_focus((NodeId::Tree(6), NodeId::Leaf(7))).unwrap();
    tree.split_insert((), Orientation::Horizontal);

    //      1
    //     / \
    //    6   4
    //   / \ / \
    //  2  8 3  5
    //    / \
    //   7   9
    let tree1 = NodeId::Tree(1);
    let leaf2 = NodeId::Leaf(2);
    let leaf3 = NodeId::Leaf(3);
    let tree4 = NodeId::Tree(4);
    let leaf5 = NodeId::Leaf(5);
    let tree6 = NodeId::Tree(6);
    let leaf7 = NodeId::Leaf(7);
    let tree8 = NodeId::Tree(8);
    let leaf9 = NodeId::Leaf(9);

    let find_siblings = |id| {
        (
            tree.find_sibling(id, SiblingDirection::Left),
            tree.find_sibling(id, SiblingDirection::Up),
            tree.find_sibling(id, SiblingDirection::Right),
            tree.find_sibling(id, SiblingDirection::Down),
        )
    };

    assert_eq!(find_siblings(&tree1), (None, None, None, None));
    assert_eq!(find_siblings(&leaf2), (None, None, Some(tree4), Some(tree8)));
    assert_eq!(find_siblings(&leaf3), (Some(tree6), None, None, Some(leaf5)));
    assert_eq!(find_siblings(&tree4), (Some(tree6), None, None, None));
    assert_eq!(find_siblings(&leaf5), (Some(tree6), Some(leaf3), None, None));
    assert_eq!(find_siblings(&tree6), (None, None, Some(tree4), None));
    assert_eq!(find_siblings(&leaf7), (None, Some(leaf2), Some(leaf9), None));
    assert_eq!(find_siblings(&tree8), (None, Some(leaf2), Some(tree4), None));
    assert_eq!(find_siblings(&leaf9), (Some(leaf7), Some(leaf2), Some(tree4), None));
}

#[test]
fn get_first_parent_with_inverted_orientation() {
    let mut tree: Tree<()> = Tree::new(Rectangle::zero(), Orientation::Horizontal);
    tree.insert(());
    tree.insert(());
    tree.split_insert((), Orientation::Vertical);
    tree.split_insert((), Orientation::Vertical);

    let (ancestor, horizontal_parent) =
        tree.first_parent_with_orientation(&NodeId::Leaf(7), Orientation::Horizontal);
    assert_eq!(ancestor, NodeId::Tree(4));
    assert_eq!(horizontal_parent, Some(NodeId::Tree(1)));
}
