use lib::node::{Color, Node, Side};
use lib::tree::{insert, rb_delete_fixup, rb_insert_fixup, remove};

fn fresh_leaf(value: i32, color: Color) -> Node {
    Node { value, left: None, right: None, color, parent: None, mods: Vec::new() }
}

/// 20 (black) at the root with 10 on the left and 30 on the right, both of `child_color`.
fn three_node_tree(child_color: Color) -> Vec<Node> {
    let mut nodes = vec![fresh_leaf(20, Color::Black), fresh_leaf(10, child_color), fresh_leaf(30, child_color)];
    nodes[0].left = Some(1);
    nodes[0].right = Some(2);
    nodes[1].parent = Some((0, Side::Left));
    nodes[2].parent = Some((0, Side::Right));
    nodes
}

#[test]
fn insert_under_a_black_parent_only_hangs_the_node() {
    let mut nodes = three_node_tree(Color::Black);
    let root = insert(&mut nodes, 0, 25, 1);
    assert_eq!(root, None);
    assert_eq!(nodes.len(), 4);
    assert_eq!(nodes[2].get_left(1), Some(3));
    assert_eq!(nodes[2].get_left(0), None);
    assert_eq!(nodes[3].parent, Some((2, Side::Left)));
    assert_eq!(nodes[3].get_color(1), Color::Red);
    assert_eq!(nodes[0].get_color(1), Color::Black);
}

#[test]
fn insert_with_a_red_uncle_recolours() {
    let mut nodes = three_node_tree(Color::Red);
    let root = insert(&mut nodes, 0, 5, 1);
    assert_eq!(root, None);
    assert_eq!(nodes[1].get_left(1), Some(3));
    assert_eq!(nodes[0].get_color(1), Color::Black);
    assert_eq!(nodes[1].get_color(1), Color::Black);
    assert_eq!(nodes[2].get_color(1), Color::Black);
    assert_eq!(nodes[3].get_color(1), Color::Red);
    // version 0 is as it was
    assert_eq!(nodes[1].get_color(0), Color::Red);
    assert_eq!(nodes[1].get_left(0), None);
}

#[test]
fn insert_with_a_black_uncle_rotates() {
    // 20 black, 10 red on the left; inserting 5 rotates 10 to the root
    let mut nodes = vec![fresh_leaf(20, Color::Black), fresh_leaf(10, Color::Red)];
    nodes[0].left = Some(1);
    nodes[1].parent = Some((0, Side::Left));
    let root = insert(&mut nodes, 0, 5, 1);
    assert_eq!(root, Some(1));
    assert_eq!(nodes[1].get_left(1), Some(2));
    assert_eq!(nodes[1].get_right(1), Some(0));
    assert_eq!(nodes[1].get_color(1), Color::Black);
    assert_eq!(nodes[0].get_color(1), Color::Red);
    assert_eq!(nodes[0].get_left(1), None);
    assert_eq!(nodes[1].parent, None);
}

#[test]
fn insert_fixup_paints_a_red_root_black() {
    let mut nodes = vec![fresh_leaf(7, Color::Red)];
    let root = rb_insert_fixup(&mut nodes, 0, 3, 0);
    assert_eq!(root, None);
    assert_eq!(nodes[0].get_color(3), Color::Black);
    assert_eq!(nodes[0].get_color(2), Color::Red);
}

#[test]
fn insert_fixup_under_a_black_parent_changes_nothing() {
    let mut nodes = three_node_tree(Color::Red);
    let root = rb_insert_fixup(&mut nodes, 1, 1, 0);
    assert_eq!(root, None);
    assert!(nodes.iter().all(|n| n.mods.is_empty()));
}

#[test]
fn delete_fixup_paints_a_red_node_black() {
    let mut nodes = three_node_tree(Color::Red);
    let root = rb_delete_fixup(&mut nodes, Some(2), 1, None);
    assert_eq!(root, None);
    assert_eq!(nodes[2].get_color(1), Color::Black);
    assert_eq!(nodes[2].get_color(0), Color::Red);
}

#[test]
fn delete_fixup_without_node_or_place_does_nothing() {
    let mut nodes = three_node_tree(Color::Red);
    assert_eq!(rb_delete_fixup(&mut nodes, None, 1, None), None);
    assert!(nodes.iter().all(|n| n.mods.is_empty()));
}

#[test]
fn delete_fixup_of_an_empty_place_with_a_black_sibling() {
    // 20 black with black children 10 and 30; 10 was taken out
    let mut nodes = three_node_tree(Color::Black);
    nodes[0].left = None;
    nodes[1].parent = None;
    let root = rb_delete_fixup(&mut nodes, None, 1, Some((0, Side::Left)));
    assert_eq!(root, None);
    assert_eq!(nodes[2].get_color(1), Color::Red);
    assert_eq!(nodes[0].get_color(1), Color::Black);
}

#[test]
fn remove_a_red_leaf_under_a_parent() {
    let mut nodes = three_node_tree(Color::Red);
    let root = remove(&mut nodes, 2, 1);
    assert_eq!(root, None);
    assert_eq!(nodes[0].get_right(1), None);
    assert_eq!(nodes[0].get_right(0), Some(2));
    assert_eq!(nodes[2].parent, None);
}

#[test]
fn remove_a_node_with_two_children_takes_its_successor_value() {
    let mut nodes = three_node_tree(Color::Red);
    let root = remove(&mut nodes, 0, 1);
    assert_eq!(root, None);
    assert_eq!(nodes[0].get_value(1), 30);
    assert_eq!(nodes[0].get_value(0), 20);
    assert_eq!(nodes[0].get_right(1), None);
    assert_eq!(nodes[0].get_left(1), Some(1));
    // no other node's value changed
    assert_eq!(nodes[1].get_value(1), 10);
    assert_eq!(nodes[2].get_value(1), 30);
}

#[test]
fn remove_a_childless_root_gives_no_root() {
    let mut nodes = vec![fresh_leaf(4, Color::Black)];
    assert_eq!(remove(&mut nodes, 0, 1), None);
    assert!(nodes[0].mods.is_empty());
}

#[test]
fn right_rotation_undoes_left_rotation() {
    let mut nodes = three_node_tree(Color::Red);
    nodes.push(fresh_leaf(25, Color::Black));
    nodes[2].left = Some(3);
    nodes[3].parent = Some((2, Side::Left));
    let (r1, nx) = lib::tree::left_rotate(&mut nodes, 0, 1);
    assert_eq!((r1, nx), (Some(2), 0));
    assert_eq!(nodes[0].get_right(1), Some(3));
    assert_eq!(nodes[3].parent, Some((0, Side::Right)));
    let (r2, ny) = lib::tree::right_rotate(&mut nodes, 2, 1);
    assert_eq!((r2, ny), (Some(0), 2));
    assert_eq!(nodes[0].get_left(1), Some(1));
    assert_eq!(nodes[0].get_right(1), Some(2));
    assert_eq!(nodes[2].get_left(1), Some(3));
    assert_eq!(nodes[2].get_right(1), None);
    assert_eq!(nodes[0].parent, None);
    assert_eq!(nodes[2].parent, Some((0, Side::Right)));
    assert_eq!(nodes[3].parent, Some((2, Side::Left)));
}

#[test]
fn removing_a_red_leaf_takes_only_its_value_out() {
    let mut s = lib::persistent::PersistentStructure::new();
    for v in [20, 10, 30] {
        s.insert(v);
    }
    assert_eq!(s.remove(10), Ok(()));
    assert_eq!(s.inorder_listing(4), vec![(20, 0, 'N'), (30, 1, 'R')]);
    assert_eq!(s.inorder_listing(3), vec![(10, 1, 'R'), (20, 0, 'N'), (30, 1, 'R')]);
}

#[test]
fn inserting_under_a_black_parent_adds_the_value() {
    let mut s = lib::persistent::PersistentStructure::new();
    for v in [20, 10, 30, 5] {
        s.insert(v);
    }
    // 10 and 30 are black now; 25 goes under 30
    s.insert(25);
    assert_eq!(s.inorder_listing(5), vec![(5, 2, 'R'), (10, 1, 'N'), (20, 0, 'N'), (25, 2, 'R'), (30, 1, 'N')]);
    assert_eq!(s.sucessor(20, 5), Some(25));
    assert_eq!(s.sucessor(30, 5), None);
}

#[test]
fn inserting_a_value_twice_keeps_both_copies() {
    let mut s = lib::persistent::PersistentStructure::new();
    s.insert(5);
    s.insert(5);
    assert_eq!(s.inorder_listing(2), vec![(5, 1, 'R'), (5, 0, 'N')]);
    assert_eq!(s.inorder_listing(1), vec![(5, 0, 'N')]);
}
