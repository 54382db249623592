use wzm_comp::config::{Action, Direction as KeyDirection, KeyAction, Mode, ResizeDirection, ResizeType};
use wzm_comp::geometry::{layout_children, Orientation, Rectangle, RATIO_SCALE};
use wzm_comp::node::{Node, NodeId, TreeError};
use wzm_comp::resize::MIN_SIZE;
use wzm_comp::siblings::SiblingDirection;
use wzm_comp::tree::{next, Direction, Tree};

fn rect(x: i32, y: i32, w: i32, h: i32) -> Rectangle {
    Rectangle::from_loc_and_size(x, y, w, h)
}

fn kids<T>(tree: &Tree<T>, id: NodeId) -> Vec<NodeId> {
    tree.get_tree(id).unwrap().children.clone()
}

fn geom<T>(tree: &Tree<T>, id: NodeId) -> Rectangle {
    tree.get_node(id).unwrap().geometry()
}

fn two_windows() -> Tree<u32> {
    let mut tree = Tree::new(rect(0, 0, 100, 200), Orientation::Horizontal);
    tree.insert(1);
    tree.get_pending_updates();
    tree.insert(2);
    tree.get_pending_updates();
    tree
}

#[test]
fn two_inserts_split_the_root() {
    let tree = two_windows();
    assert_eq!(kids(&tree, NodeId::Tree(1)), [NodeId::Leaf(2), NodeId::Leaf(3)]);
    assert_eq!(geom(&tree, NodeId::Leaf(2)), rect(0, 0, 50, 200));
    assert_eq!(geom(&tree, NodeId::Leaf(3)), rect(50, 0, 50, 200));
    assert_eq!(tree.get_focus(), Some(2));
}

#[test]
fn split_insert_wraps_the_focused_leaf() {
    let mut tree = two_windows();
    tree.split_insert(3, Orientation::Vertical);
    assert_eq!(kids(&tree, NodeId::Tree(1)), [NodeId::Leaf(2), NodeId::Tree(4)]);
    assert_eq!(kids(&tree, NodeId::Tree(4)), [NodeId::Leaf(3), NodeId::Leaf(5)]);
    assert_eq!(geom(&tree, NodeId::Leaf(3)), rect(50, 0, 50, 100));
    assert_eq!(geom(&tree, NodeId::Leaf(5)), rect(50, 100, 50, 100));
    assert_eq!(tree.get_focus(), Some(3));
}

#[test]
fn remove_collapses_a_single_child_container() {
    let mut tree = two_windows();
    tree.split_insert(3, Orientation::Vertical);
    tree.get_pending_updates();
    let removed = tree.remove();
    match removed {
        Some(Node::Leaf(l)) => assert_eq!(l.data, 3),
        _ => panic!("a leaf was expected"),
    }
    assert_eq!(kids(&tree, NodeId::Tree(1)), [NodeId::Leaf(2), NodeId::Leaf(3)]);
    assert!(tree.get_node(NodeId::Tree(4)).is_err());
    assert_eq!(tree.get_leaf(NodeId::Leaf(3)).unwrap().parent, Some(NodeId::Tree(1)));
    assert_eq!(geom(&tree, NodeId::Leaf(2)), rect(0, 0, 50, 200));
    assert_eq!(geom(&tree, NodeId::Leaf(3)), rect(50, 0, 50, 200));
    assert_eq!(tree.focus(), (NodeId::Tree(1), Some(NodeId::Leaf(3))));
}

fn three_siblings(width: i32) -> Tree<u32> {
    let mut tree = Tree::new(rect(0, 0, width, 100), Orientation::Horizontal);
    tree.insert(1);
    tree.insert(2);
    tree.insert(3);
    tree.set_focus((NodeId::Tree(1), NodeId::Leaf(3))).unwrap();
    tree.get_pending_updates();
    tree
}

fn widths(tree: &Tree<u32>) -> Vec<i32> {
    kids(tree, NodeId::Tree(1)).iter().map(|id| geom(tree, *id).width).collect()
}

#[test]
fn default_ratios_share_the_edge_equally() {
    let tree = three_siblings(300);
    assert_eq!(widths(&tree), [100, 100, 100]);
}

#[test]
fn grow_is_held_at_the_floor_of_the_neighbours() {
    let mut tree = three_siblings(300);
    tree.resize(ResizeType::Grow, ResizeDirection::Width, 40);
    let w = widths(&tree);
    assert_eq!(w, [100, 100, 100]);
    assert!(w.iter().all(|x| *x as i64 >= MIN_SIZE));
}

#[test]
fn grow_takes_half_the_amount_from_each_neighbour() {
    let mut tree = three_siblings(600);
    assert_eq!(widths(&tree), [200, 200, 200]);
    tree.resize(ResizeType::Grow, ResizeDirection::Width, 40);
    assert_eq!(widths(&tree), [180, 240, 180]);
    assert_eq!(tree.get_leaf(NodeId::Leaf(3)).unwrap().ratio, Some(400_000));
    assert_eq!(tree.get_leaf(NodeId::Leaf(2)).unwrap().ratio, Some(300_000));
    tree.resize(ResizeType::Shrink, ResizeDirection::Width, 40);
    assert_eq!(widths(&tree), [200, 200, 200]);
}

#[test]
fn resize_across_the_axis_does_nothing_without_a_container() {
    let mut tree = three_siblings(600);
    tree.resize(ResizeType::Grow, ResizeDirection::Height, 40);
    assert_eq!(widths(&tree), [200, 200, 200]);
    assert_eq!(geom(&tree, NodeId::Leaf(3)), rect(200, 0, 200, 100));
}

#[test]
fn resize_never_goes_below_the_floor() {
    let mut tree = three_siblings(600);
    tree.resize(ResizeType::Shrink, ResizeDirection::Width, 500);
    let w = widths(&tree);
    assert_eq!(w[1], 100);
    assert!(w.iter().all(|x| *x as i64 >= MIN_SIZE));
}

#[test]
fn find_sibling_past_the_root_is_none() {
    let mut tree: Tree<u32> = Tree::new(rect(0, 0, 100, 100), Orientation::Horizontal);
    assert_eq!(tree.find_sibling(&NodeId::Tree(1), SiblingDirection::Left), None);
    tree.insert(1);
    for d in [SiblingDirection::Left, SiblingDirection::Right, SiblingDirection::Up, SiblingDirection::Down] {
        assert_eq!(tree.find_sibling(&NodeId::Leaf(2), d), None);
    }
    tree.insert(2);
    assert_eq!(tree.find_sibling(&NodeId::Leaf(2), SiblingDirection::Up), None);
    assert_eq!(tree.find_sibling(&NodeId::Leaf(3), SiblingDirection::Right), None);
    assert_eq!(tree.find_sibling(&NodeId::Leaf(3), SiblingDirection::Left), Some(NodeId::Leaf(2)));
}

#[test]
fn insert_then_remove_restores_the_tree() {
    let mut tree = two_windows();
    tree.split_insert(3, Orientation::Vertical);
    tree.get_pending_updates();
    let before_root = kids(&tree, NodeId::Tree(1));
    let before_sub = kids(&tree, NodeId::Tree(4));
    let ids = [NodeId::Tree(1), NodeId::Leaf(2), NodeId::Leaf(3), NodeId::Tree(4), NodeId::Leaf(5)];
    let before_geoms: Vec<Rectangle> = ids.iter().map(|id| geom(&tree, *id)).collect();
    let before_focus = tree.focus();

    tree.insert(9);
    tree.get_pending_updates();
    assert_eq!(kids(&tree, NodeId::Tree(4)).len(), 3);
    let removed = tree.remove();
    assert!(matches!(removed, Some(Node::Leaf(_))));

    assert_eq!(kids(&tree, NodeId::Tree(1)), before_root);
    assert_eq!(kids(&tree, NodeId::Tree(4)), before_sub);
    let after_geoms: Vec<Rectangle> = ids.iter().map(|id| geom(&tree, *id)).collect();
    assert_eq!(after_geoms, before_geoms);
    assert_eq!(tree.focus(), before_focus);
    assert!(tree.get_node(NodeId::Leaf(6)).is_err());
}

#[test]
fn draining_twice_gives_nothing_the_second_time() {
    let mut tree = two_windows();
    tree.insert(3);
    let first = tree.get_pending_updates();
    assert_eq!(first.len(), 3);
    assert_eq!(first[2], (3, rect(66, 0, 33, 200), true));
    assert!(tree.get_pending_updates().is_empty());
}

#[test]
fn set_focus_checks_its_ids() {
    let mut tree = two_windows();
    assert_eq!(tree.set_focus((NodeId::Leaf(2), NodeId::Leaf(3))), Err(TreeError::WrongNodeKind));
    assert_eq!(tree.set_focus((NodeId::Tree(1), NodeId::Tree(1))), Err(TreeError::WrongNodeKind));
    assert_eq!(tree.set_focus((NodeId::Tree(1), NodeId::Leaf(7))), Err(TreeError::InvalidNodeReference));
    assert_eq!(tree.set_focus((NodeId::Tree(5), NodeId::Leaf(2))), Err(TreeError::InvalidNodeReference));
    assert_eq!(tree.focus(), (NodeId::Tree(1), Some(NodeId::Leaf(3))));
    assert_eq!(tree.set_focus((NodeId::Tree(1), NodeId::Leaf(2))), Ok(()));
    assert_eq!(tree.get_focus(), Some(1));
    let updates = tree.get_pending_updates();
    assert_eq!(updates, vec![(2, rect(50, 0, 50, 200), false), (1, rect(0, 0, 50, 200), true)]);
}

#[test]
fn typed_accessors_report_the_wrong_kind() {
    let tree = two_windows();
    assert!(matches!(tree.get_tree(NodeId::Leaf(2)), Err(TreeError::WrongNodeKind)));
    assert!(matches!(tree.get_leaf(NodeId::Tree(1)), Err(TreeError::WrongNodeKind)));
    assert!(matches!(tree.get_leaf(NodeId::Leaf(42)), Err(TreeError::InvalidNodeReference)));
    assert!(matches!(tree.get_node(NodeId::Tree(2)), Err(TreeError::InvalidNodeReference)));
    assert!(tree.get_node(NodeId::Leaf(2)).unwrap().is_leaf());
}

#[test]
fn remove_without_focus_does_nothing() {
    let mut tree: Tree<u32> = Tree::new(rect(0, 0, 100, 100), Orientation::Vertical);
    assert!(tree.remove().is_none());
    tree.insert(1);
    assert!(tree.remove().is_some());
    assert_eq!(tree.focus(), (NodeId::Tree(1), None));
    assert!(tree.remove().is_none());
    assert!(kids(&tree, NodeId::Tree(1)).is_empty());
}

#[test]
fn move_node_swaps_within_a_container() {
    let mut tree = two_windows();
    assert_eq!(tree.move_node(NodeId::Tree(1), NodeId::Leaf(2)), Ok(()));
    assert_eq!(kids(&tree, NodeId::Tree(1)), [NodeId::Leaf(3), NodeId::Leaf(2)]);
    assert_eq!(geom(&tree, NodeId::Leaf(3)), rect(0, 0, 50, 200));
    assert_eq!(tree.focus(), (NodeId::Tree(1), Some(NodeId::Leaf(3))));
}

#[test]
fn move_node_exchanges_across_containers() {
    let mut tree = two_windows();
    tree.split_insert(3, Orientation::Vertical);
    tree.get_pending_updates();
    // focus is leaf 5 in container 4; exchange it with leaf 2 of the root
    assert_eq!(tree.move_node(NodeId::Tree(1), NodeId::Leaf(2)), Ok(()));
    assert_eq!(kids(&tree, NodeId::Tree(1)), [NodeId::Leaf(5), NodeId::Tree(4)]);
    assert_eq!(kids(&tree, NodeId::Tree(4)), [NodeId::Leaf(3), NodeId::Leaf(2)]);
    assert_eq!(tree.focus(), (NodeId::Tree(1), Some(NodeId::Leaf(5))));
    assert_eq!(geom(&tree, NodeId::Leaf(5)), rect(0, 0, 50, 200));
    assert_eq!(geom(&tree, NodeId::Leaf(2)), rect(50, 100, 50, 100));
    assert_eq!(tree.move_node(NodeId::Tree(4), NodeId::Leaf(5)), Err(TreeError::InvalidNodeReference));
    assert_eq!(tree.move_node(NodeId::Leaf(3), NodeId::Leaf(5)), Err(TreeError::WrongNodeKind));
}

#[test]
fn toggle_layout_flips_the_focused_container() {
    let mut tree = two_windows();
    tree.toggle_layout();
    assert_eq!(tree.get_tree(NodeId::Tree(1)).unwrap().orientation, Orientation::Vertical);
    assert_eq!(geom(&tree, NodeId::Leaf(2)), rect(0, 0, 100, 100));
    assert_eq!(geom(&tree, NodeId::Leaf(3)), rect(0, 100, 100, 100));
}

#[test]
fn split_insert_on_an_empty_tree_sets_the_root_orientation() {
    let mut tree: Tree<u32> = Tree::new(rect(0, 0, 100, 200), Orientation::Horizontal);
    tree.split_insert(1, Orientation::Vertical);
    assert_eq!(tree.get_tree(NodeId::Tree(1)).unwrap().orientation, Orientation::Vertical);
    assert_eq!(kids(&tree, NodeId::Tree(1)), [NodeId::Leaf(2)]);
    tree.insert(2);
    assert_eq!(geom(&tree, NodeId::Leaf(3)), rect(0, 100, 100, 100));
}

#[test]
fn payload_lookup_and_focus_by_payload() {
    let mut tree = two_windows();
    assert_eq!(tree.get_node_for_data(&1), Some((NodeId::Tree(1), NodeId::Leaf(2))));
    assert_eq!(tree.get_node_for_data(&7), None);
    tree.set_focus_matching(&1);
    assert_eq!(tree.focus(), (NodeId::Tree(1), Some(NodeId::Leaf(2))));
    tree.set_focus_matching(&7);
    assert_eq!(tree.focus(), (NodeId::Tree(1), Some(NodeId::Leaf(2))));
}

#[test]
fn layout_shares_ratios_and_clamps_degenerate_ones() {
    let r = layout_children(rect(0, 0, 300, 10), Orientation::Horizontal, &vec![None, None, None]);
    assert_eq!(r, vec![rect(0, 0, 100, 10), rect(100, 0, 100, 10), rect(200, 0, 100, 10)]);
    let r = layout_children(rect(10, 20, 100, 10), Orientation::Horizontal, &vec![Some(500_000), None, None]);
    assert_eq!(r, vec![rect(10, 20, 50, 10), rect(60, 20, 25, 10), rect(85, 20, 25, 10)]);
    let r = layout_children(rect(0, 0, 10, 100), Orientation::Vertical, &vec![Some(800_000), Some(700_000), None]);
    assert_eq!(r, vec![rect(0, 0, 10, 80), rect(0, 80, 10, 20), rect(0, 100, 10, 0)]);
    assert_eq!(RATIO_SCALE, 1_000_000);
    let total: i32 = r.iter().map(|x| x.height).sum();
    assert!(total <= 100);
}

#[test]
fn ids_come_from_a_counter() {
    let mut c: u32 = 0;
    assert_eq!(next(&mut c), 1);
    assert_eq!(next(&mut c), 2);
    assert_eq!(c, 2);
}

#[test]
fn directions_invert() {
    assert_eq!(Direction::Before.invert(), Direction::After);
    assert_eq!(Orientation::Vertical.invert(), Orientation::Horizontal);
    assert_eq!(KeyDirection::Left.invert(), KeyDirection::Right);
    assert_eq!(KeyDirection::Up.invert(), KeyDirection::Down);
    assert_eq!(Mode::default(), Mode::Normal);
}

#[test]
fn actions_become_key_actions() {
    assert_eq!(
        KeyAction::from(Action::Resize(ResizeDirection::Width, ResizeType::Grow, 10)),
        KeyAction::Resize(ResizeType::Grow, ResizeDirection::Width, 10)
    );
    assert_eq!(KeyAction::from(Action::MoveFocusUp), KeyAction::MoveFocus(KeyDirection::Up));
    assert_eq!(
        KeyAction::from(Action::Run { env: vec![("A".to_string(), "b".to_string())], command: "alacritty".to_string() }),
        KeyAction::Run("alacritty".to_string(), vec![("A".to_string(), "b".to_string())])
    );
    assert_eq!(KeyAction::from(Action::MoveToWorkspace(3)), KeyAction::MoveToWorkspace(3));
}

#[test]
fn neighbour_descends_into_a_container() {
    let mut tree = two_windows();
    tree.split_insert(3, Orientation::Vertical);
    tree.set_focus((NodeId::Tree(1), NodeId::Leaf(2))).unwrap();
    // root: [leaf 2, tree 4 [leaf 3, leaf 5]]
    assert_eq!(tree.descendant_leaf(&NodeId::Tree(4), Direction::After), Some(NodeId::Leaf(5)));
    assert_eq!(tree.descendant_leaf(&NodeId::Tree(1), Direction::Before), Some(NodeId::Leaf(2)));
    assert_eq!(tree.neighbour(&NodeId::Leaf(2), Direction::After), Some(NodeId::Leaf(3)));
    tree.move_node(NodeId::Tree(4), NodeId::Leaf(5)).unwrap();
    // root: [leaf 5, tree 4 [leaf 3, leaf 2]]; the focus follows leaf 2
    assert_eq!(tree.focus(), (NodeId::Tree(4), Some(NodeId::Leaf(2))));
    assert_eq!(tree.neighbour(&NodeId::Leaf(3), Direction::Before), Some(NodeId::Leaf(5)));
}

#[test]
fn nodes_report_their_edge_and_ids_their_count() {
    let tree = two_windows();
    let leaf = tree.get_node(NodeId::Leaf(3)).unwrap();
    assert_eq!(leaf.edge(Orientation::Horizontal), 50);
    assert_eq!(leaf.edge(Orientation::Vertical), 200);
    assert_eq!(leaf.id(), NodeId::Leaf(3));
    assert_eq!(leaf.parent_id(), Some(NodeId::Tree(1)));
    assert_eq!(leaf.ratio(), None);
    assert_eq!(tree.get_tree(NodeId::Tree(1)).unwrap().edge(), 100);
    assert_eq!(tree.last_id(), 3);
    assert_eq!(NodeId::Tree(7).value(), 7);
}
