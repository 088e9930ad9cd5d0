use lib::node::{Color, Mod, ModKind, Node, Side};
use lib::tree::{find_min, find_node, find_parent_for_insertion, left_rotate, right_rotate};

fn leaf(value: i32, color: Color) -> Node {
    Node { value, left: None, right: None, color, parent: None, mods: Vec::new() }
}

/// 20 at the root with 10 on the left and 30 on the right.
fn small_tree() -> Vec<Node> {
    let mut nodes = vec![leaf(20, Color::Black), leaf(10, Color::Red), leaf(30, Color::Red)];
    nodes[0].left = Some(1);
    nodes[0].right = Some(2);
    nodes[1].parent = Some((0, Side::Left));
    nodes[2].parent = Some((0, Side::Right));
    nodes
}

#[test]
fn getters_read_the_latest_change_up_to_the_version() {
    let mut n = leaf(5, Color::Red);
    n.mods.push(Mod { version: 2, kind: ModKind::Value(6) });
    n.mods.push(Mod { version: 3, kind: ModKind::Color(Color::Black) });
    n.mods.push(Mod { version: 4, kind: ModKind::Position(Side::Left, Some(9)) });
    n.mods.push(Mod { version: 5, kind: ModKind::Value(7) });
    n.mods.push(Mod { version: 6, kind: ModKind::Position(Side::Right, Some(3)) });
    assert_eq!(n.get_value(1), 5);
    assert_eq!(n.get_value(2), 6);
    assert_eq!(n.get_value(4), 6);
    assert_eq!(n.get_value(5), 7);
    assert_eq!(n.get_value(100), 7);
    assert_eq!(n.get_color(2), Color::Red);
    assert_eq!(n.get_color(3), Color::Black);
    assert_eq!(n.get_left(3), None);
    assert_eq!(n.get_left(4), Some(9));
    assert_eq!(n.get_right(5), None);
    assert_eq!(n.get_right(6), Some(3));
    assert_eq!(n.get_field_by_side(Side::Left, 10), Some(9));
    assert_eq!(n.get_field_by_side(Side::Right, 10), Some(3));
}

#[test]
fn update_appends_while_the_log_has_room() {
    let mut nodes = small_tree();
    let (r, root) = Node::update_with_node(&mut nodes, 1, ModKind::Color(Color::Black), 1);
    assert_eq!((r, root), (1, None));
    assert_eq!(nodes.len(), 3);
    assert_eq!(nodes[1].mods, vec![Mod { version: 1, kind: ModKind::Color(Color::Black) }]);
    assert_eq!(nodes[1].get_color(0), Color::Red);
    assert_eq!(nodes[1].get_color(1), Color::Black);
}

#[test]
fn update_of_a_child_moves_the_parent_pointers() {
    let mut nodes = small_tree();
    nodes.push(leaf(25, Color::Red));
    let root = Node::update(&mut nodes, 0, ModKind::Position(Side::Right, Some(3)), 1);
    assert_eq!(root, None);
    assert_eq!(nodes[0].get_right(1), Some(3));
    assert_eq!(nodes[0].get_right(0), Some(2));
    assert_eq!(nodes[3].parent, Some((0, Side::Right)));
    assert_eq!(nodes[2].parent, None);
}

#[test]
fn update_copies_a_full_node_and_hangs_the_copy_under_its_parent() {
    let mut nodes = small_tree();
    for v in 1..=10u32 {
        let (r, root) = Node::update_with_node(&mut nodes, 2, ModKind::Value(30 + v as i32), v);
        assert_eq!((r, root), (2, None));
    }
    let (r, root) = Node::update_with_node(&mut nodes, 2, ModKind::Color(Color::Black), 11);
    assert_eq!(r, 3);
    assert_eq!(root, None);
    assert_eq!(nodes.len(), 4);
    assert_eq!(nodes[3].value, 40);
    assert_eq!(nodes[3].color, Color::Black);
    assert!(nodes[3].mods.is_empty());
    assert_eq!(nodes[3].parent, Some((0, Side::Right)));
    assert_eq!(nodes[0].get_right(11), Some(3));
    assert_eq!(nodes[0].get_right(10), Some(2));
    assert_eq!(nodes[2].get_value(5), 35);
}

#[test]
fn copying_a_full_root_gives_a_new_root() {
    let mut nodes = small_tree();
    for v in 1..=10u32 {
        Node::update_with_node(&mut nodes, 0, ModKind::Color(Color::Black), v);
    }
    let (r, root) = Node::update_with_node(&mut nodes, 0, ModKind::Value(21), 11);
    assert_eq!(r, 3);
    assert_eq!(root, Some(3));
    assert_eq!(nodes[3].value, 21);
    assert_eq!(nodes[3].left, Some(1));
    assert_eq!(nodes[3].right, Some(2));
    assert_eq!(nodes[1].parent, Some((3, Side::Left)));
    assert_eq!(nodes[2].parent, Some((3, Side::Right)));
    assert_eq!(nodes[0].get_value(11), 20);
}

#[test]
fn left_rotation_at_the_root() {
    let mut nodes = small_tree();
    let (root, nx) = left_rotate(&mut nodes, 0, 1);
    assert_eq!(root, Some(2));
    assert_eq!(nx, 0);
    assert_eq!(nodes[2].get_left(1), Some(0));
    assert_eq!(nodes[0].get_right(1), None);
    assert_eq!(nodes[0].get_left(1), Some(1));
    assert_eq!(nodes[0].parent, Some((2, Side::Left)));
    assert_eq!(nodes[2].parent, None);
    // version 0 is untouched
    assert_eq!(nodes[0].get_right(0), Some(2));
    assert_eq!(nodes[2].get_left(0), None);
}

#[test]
fn right_rotation_below_a_parent() {
    // 20 with left child 10, whose left child is 5
    let mut nodes = small_tree();
    nodes.push(leaf(5, Color::Red));
    nodes[1].left = Some(3);
    nodes[3].parent = Some((1, Side::Left));
    let (root, ny) = right_rotate(&mut nodes, 1, 1);
    assert_eq!(root, None);
    assert_eq!(ny, 1);
    assert_eq!(nodes[0].get_left(1), Some(3));
    assert_eq!(nodes[3].get_right(1), Some(1));
    assert_eq!(nodes[1].get_left(1), None);
    assert_eq!(nodes[3].parent, Some((0, Side::Left)));
    assert_eq!(nodes[1].parent, Some((3, Side::Right)));
}

#[test]
fn searches_follow_the_version() {
    let nodes = small_tree();
    assert_eq!(find_node(&nodes, Some(0), 30, 0), Some(2));
    assert_eq!(find_node(&nodes, Some(0), 20, 0), Some(0));
    assert_eq!(find_node(&nodes, Some(0), 25, 0), None);
    assert_eq!(find_node(&nodes, None, 25, 0), None);
    assert_eq!(find_parent_for_insertion(&nodes, Some(0), 25, 0, None), Some(2));
    assert_eq!(find_parent_for_insertion(&nodes, Some(0), 20, 0, None), Some(1));
    assert_eq!(find_parent_for_insertion(&nodes, None, 20, 0, Some(7)), Some(7));
    assert_eq!(find_min(&nodes, 0, 0), 1);
    assert_eq!(find_min(&nodes, 2, 0), 2);
}

#[test]
fn copying_cascades_through_a_full_parent_to_a_new_root() {
    let mut nodes = small_tree();
    for v in 1..=10u32 {
        Node::update_with_node(&mut nodes, 0, ModKind::Color(Color::Black), v);
        Node::update_with_node(&mut nodes, 2, ModKind::Color(Color::Red), v);
    }
    let (r, root) = Node::update_with_node(&mut nodes, 2, ModKind::Value(31), 11);
    // the copy of 30 has an empty log and hangs on the right of the copy of the root
    assert_eq!(r, 3);
    assert_eq!(root, Some(4));
    assert_eq!(nodes.len(), 5);
    assert!(nodes[3].mods.is_empty());
    assert!(nodes[4].mods.is_empty());
    assert_eq!(nodes[3].get_value(11), 31);
    assert_eq!(nodes[3].parent, Some((4, Side::Right)));
    assert_eq!(nodes[4].get_right(11), Some(3));
    assert_eq!(nodes[4].get_left(11), Some(1));
    assert_eq!(nodes[4].parent, None);
    assert_eq!(nodes[1].parent, Some((4, Side::Left)));
    // the old nodes still read as before at earlier versions
    assert_eq!(nodes[0].get_right(10), Some(2));
    assert_eq!(nodes[2].get_value(10), 30);
}
