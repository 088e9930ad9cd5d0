use vstd::prelude::*;
use vstd::multiset::Multiset;

use crate::node::{
    child_at, color_at, color_sel, keeps_history, kind_ok, last_match, lemma_keeps_history_refl,
    lemma_keeps_history_trans, lemma_plain_growth, lemma_reads_ok, left_at, link_ok, node_history, node_ok, right_at,
    store_ok, update_effect, value_at, versions_upto, lemma_reads_after, value_sel, Color, Link, Mod, ModKind, Node, Side,
    MAX_MODS_SIZE, WALK_LIMIT, values_kept, lemma_values_kept_trans, lemma_update_keeps_values,
    lemma_update_keeps_other_values, colors_kept, lemma_colors_kept_trans, lemma_update_keeps_colors,
    climb, cascade_effect, lemma_climb_after_push, kind_link, links_up, lemma_climb_stop, copy_reads,
};

verus! {

/// `new` is a well-formed store that extends `old` by changes made at `version`.
pub open spec fn grows(old: Seq<Node>, new: Seq<Node>, version: u32) -> bool {
    &&& store_ok(new)
    &&& keeps_history(old, new, version)
}

/// Growing by changes at one version composes.
pub proof fn lemma_grows_trans(a: Seq<Node>, b: Seq<Node>, c: Seq<Node>, version: u32)
    requires
        grows(a, b, version),
        grows(b, c, version),
    ensures
        grows(a, c, version),
{
    lemma_keeps_history_trans(a, b, c, version);
}

/// A well-formed store grows into itself.
pub proof fn lemma_grows_refl(a: Seq<Node>, version: u32)
    requires
        store_ok(a),
    ensures
        grows(a, a, version),
{
    lemma_keeps_history_refl(a, version);
}

/// The first of `a` and `b` that is present (`a.or(b)`).
pub open spec fn or_link(a: Link, b: Link) -> Link {
    if a is Some {
        a
    } else {
        b
    }
}

/// The log of `n` has room for one more change, so updating it copies nothing.
pub open spec fn has_room(n: Node) -> bool {
    n.mods.len() < MAX_MODS_SIZE
}

/// A rotation at `top` that lifts its child `child`, and moves `inner` (the child's
/// subtree that changes sides) under `top`, copies no node: the three nodes and `top`'s
/// parent, if any, are distinct, and the logs of all but `inner` have room.
pub open spec fn rotation_in_place(nodes: Seq<Node>, top: usize, child: usize, inner: Link) -> bool {
    &&& top != child
    &&& inner != Some(top)
    &&& inner != Some(child)
    &&& has_room(nodes[top as int])
    &&& has_room(nodes[child as int])
    &&& (nodes[top as int].parent matches Some((p, _)) ==> p != top && p != child && inner != Some(p) && has_room(
        nodes[p as int],
    ))
}

/// Two nodes with the same log and created fields read the same at every version.
proof fn lemma_same_reads(a: Node, b: Node, v: u32)
    requires
        a.mods@ == b.mods@,
        a.left == b.left,
        a.right == b.right,
        a.value == b.value,
        a.color == b.color,
    ensures
        left_at(a, v) == left_at(b, v),
        right_at(a, v) == right_at(b, v),
        value_at(a, v) == value_at(b, v),
        color_at(a, v) == color_at(b, v),
        child_at(a, Side::Left, v) == child_at(b, Side::Left, v),
        child_at(a, Side::Right, v) == child_at(b, Side::Right, v),
{
}

/// Changes of children appended to a log leave the value and colour read from it as they were.
proof fn lemma_position_appends(a: Node, b: Node, v: u32)
    requires
        a.mods.len() <= b.mods.len(),
        forall|j: int| 0 <= j < a.mods.len() ==> #[trigger] b.mods@[j] == a.mods@[j],
        forall|j: int| a.mods.len() <= j < b.mods.len() ==> (#[trigger] b.mods@[j]).kind is Position,
        a.value == b.value,
        a.color == b.color,
    ensures
        value_at(b, v) == value_at(a, v),
        color_at(b, v) == color_at(a, v),
{
    lemma_last_match_prefix(a.mods@, b.mods@, v);
}

/// The value and colour selections ignore appended changes of children.
proof fn lemma_last_match_prefix(a: Seq<Mod>, b: Seq<Mod>, v: u32)
    requires
        a.len() <= b.len(),
        forall|j: int| 0 <= j < a.len() ==> #[trigger] b[j] == a[j],
        forall|j: int| a.len() <= j < b.len() ==> (#[trigger] b[j]).kind is Position,
    ensures
        last_match(b, v, value_sel()) == last_match(a, v, value_sel()),
        last_match(b, v, color_sel()) == last_match(a, v, color_sel()),
    decreases b.len(),
{
    if b.len() == a.len() {
        assert(a =~= b);
    } else {
        assert(b[b.len() - 1].kind is Position);
        lemma_last_match_prefix(a, b.drop_last(), v);
    }
}

/// When the left rotation at `x` copies no node, its exact effect at `version`: `x`'s
/// right child `y` takes `x`'s place under `x`'s parent (or becomes the root), `x` becomes
/// `y`'s left child, `y`'s former left subtree `b` becomes `x`'s right one, and the parent
/// links follow.
pub open spec fn left_rotated(o: Seq<Node>, f: Seq<Node>, x: usize, version: u32, res: (Link, usize)) -> bool {
    let y = right_at(o[x as int], version)->0;
    let b = left_at(o[y as int], version);
    rotation_in_place(o, x, y, b) ==> {
        &&& res.1 == x
        &&& f[x as int].parent == Some((y, Side::Left))
        &&& f[y as int].parent == o[x as int].parent
        &&& (b is Some ==> f[b->0 as int].parent == Some((x, Side::Right)))
        &&& value_at(f[y as int], version) == value_at(o[y as int], version)
        &&& color_at(f[y as int], version) == color_at(o[y as int], version)
        &&& f.len() == o.len()
        &&& right_at(f[x as int], version) == left_at(o[y as int], version)
        &&& left_at(f[x as int], version) == left_at(o[x as int], version)
        &&& left_at(f[y as int], version) == Some(x)
        &&& right_at(f[y as int], version) == right_at(o[y as int], version)
        &&& (o[x as int].parent matches Some((p, s)) ==> res.0 is None && child_at(f[p as int], s, version) == Some(y)
            && child_at(f[p as int], other_side(s), version) == child_at(o[p as int], other_side(s), version))
        &&& (o[x as int].parent is None ==> res.0 == Some(y))
    }
}

/// When the right rotation at `y` copies no node, its exact effect at `version`: `y`'s
/// left child `x` takes `y`'s place under `y`'s parent (or becomes the root), `y` becomes
/// `x`'s right child, `x`'s former right subtree `b` becomes `y`'s left one, and the
/// parent links follow.
pub open spec fn right_rotated(o: Seq<Node>, f: Seq<Node>, y: usize, version: u32, res: (Link, usize)) -> bool {
    let x = left_at(o[y as int], version)->0;
    let b = right_at(o[x as int], version);
    rotation_in_place(o, y, x, b) ==> {
        &&& res.1 == y
        &&& f[y as int].parent == Some((x, Side::Right))
        &&& f[x as int].parent == o[y as int].parent
        &&& (b is Some ==> f[b->0 as int].parent == Some((y, Side::Left)))
        &&& value_at(f[x as int], version) == value_at(o[x as int], version)
        &&& color_at(f[x as int], version) == color_at(o[x as int], version)
        &&& f.len() == o.len()
        &&& left_at(f[y as int], version) == right_at(o[x as int], version)
        &&& right_at(f[y as int], version) == right_at(o[y as int], version)
        &&& right_at(f[x as int], version) == Some(y)
        &&& left_at(f[x as int], version) == left_at(o[x as int], version)
        &&& (o[y as int].parent matches Some((p, s)) ==> res.0 is None && child_at(f[p as int], s, version) == Some(x)
            && child_at(f[p as int], other_side(s), version) == child_at(o[p as int], other_side(s), version))
        &&& (o[y as int].parent is None ==> res.0 == Some(x))
    }
}

/// A right rotation at the node lifted by a left rotation undoes it, when neither copies
/// a node: the two nodes, the moved subtree and the parent read at `version`, and link to
/// each other, as before the left rotation; the lifted node points back at the restored
/// top.
pub proof fn lemma_right_rotate_undoes_left_rotate(
    o: Seq<Node>,
    m: Seq<Node>,
    f: Seq<Node>,
    x: usize,
    version: u32,
    r1: (Link, usize),
    r2: (Link, usize),
)
    requires
        x < o.len(),
        right_at(o[x as int], version) is Some,
        left_rotated(o, m, x, version, r1),
        rotation_in_place(o, x, right_at(o[x as int], version)->0, left_at(o[right_at(o[x as int], version)->0 as int], version)),
        right_rotated(m, f, right_at(o[x as int], version)->0, version, r2),
        rotation_in_place(m, right_at(o[x as int], version)->0, x, right_at(m[x as int], version)),
    ensures
        ({
            let y = right_at(o[x as int], version)->0;
            let b = left_at(o[y as int], version);
            &&& f.len() == o.len()
            &&& left_at(f[x as int], version) == left_at(o[x as int], version)
            &&& right_at(f[x as int], version) == right_at(o[x as int], version)
            &&& left_at(f[y as int], version) == left_at(o[y as int], version)
            &&& right_at(f[y as int], version) == right_at(o[y as int], version)
            &&& f[x as int].parent == o[x as int].parent
            &&& f[y as int].parent == Some((x, Side::Right))
            &&& (b is Some ==> f[b->0 as int].parent == Some((y, Side::Left)))
            &&& (o[x as int].parent matches Some((p, s)) ==> r2.0 is None && child_at(f[p as int], s, version) == Some(x)
                && child_at(f[p as int], other_side(s), version) == child_at(o[p as int], other_side(s), version))
            &&& (o[x as int].parent is None ==> r2.0 == Some(x))
        }),
{
}

/// Changing only parents keeps every value read.
proof fn lemma_parent_change_keeps_values(o: Seq<Node>, f: Seq<Node>, v: u32)
    requires
        o.len() == f.len(),
        forall|i: int| 0 <= i < o.len() ==> (#[trigger] f[i]).mods@ == o[i].mods@ && f[i].value == o[i].value,
    ensures
        values_kept(o, f, v),
{
    assert forall|i: int| 0 <= i < o.len() implies #[trigger] value_at(f[i], v) == value_at(o[i], v) by {
        assert(f[i].mods@ == o[i].mods@);
    }
}

/// Rotates left around `x` at `version`: its right child `y` takes its place under `x`'s
/// parent (or becomes the root), `x` becomes `y`'s left child and takes `y`'s former left
/// subtree as its right child. Returns the new root, if the rotation or the copying it
/// caused produced one, and the node that now stands for `x`.
pub fn left_rotate(nodes: &mut Vec<Node>, x: usize, version: u32) -> (res: (Link, usize))
    requires
        store_ok(old(nodes)@),
        x < old(nodes).len(),
        right_at(old(nodes)[x as int], version) is Some,
    ensures
        grows(old(nodes)@, final(nodes)@, version),
        link_ok(res.0, final(nodes).len() as nat),
        res.1 < final(nodes).len(),
        res.1 == x || old(nodes).len() <= res.1,
        value_at(final(nodes)@[res.1 as int], version) == value_at(old(nodes)@[x as int], version),
        color_at(final(nodes)@[res.1 as int], version) == color_at(old(nodes)@[x as int], version),
        left_rotated(old(nodes)@, final(nodes)@, x, version, res),
        // in every case, no node's value or colour changes
        values_kept(old(nodes)@, final(nodes)@, version),
        colors_kept(old(nodes)@, final(nodes)@, version),
{
    let ghost orig = nodes@;
    proof {
        assert(node_ok(orig[x as int], orig.len() as nat));
        lemma_reads_ok(orig[x as int], version, orig.len() as nat);
    }
    let y = nodes[x].get_right(version).unwrap();
    proof {
        assert(node_ok(orig[y as int], orig.len() as nat));
        lemma_reads_ok(orig[y as int], version, orig.len() as nat);
    }
    let b = nodes[y].get_left(version);
    let mut root_acc: Link = None;
    let parent_info = nodes[x].parent;
    if let Some((p, side)) = parent_info {
        let (q_p, r_p) = Node::update_with_node(nodes, p, ModKind::Position(side, Some(y)), version);
        proof {
            lemma_update_keeps_values(orig, nodes@, p, ModKind::Position(side, Some(y)), version, (q_p, r_p));
            lemma_update_keeps_colors(orig, nodes@, p, ModKind::Position(side, Some(y)), version, (q_p, r_p));
        }
        root_acc = if r_p.is_some() { r_p } else { root_acc };
    } else {
        nodes[y].parent = None;
        root_acc = Some(y);
        proof {
            lemma_plain_growth(orig, nodes@, version);
            lemma_parent_change_keeps_values(orig, nodes@, version);
        }
    }
    let ghost s1 = nodes@;
    let (q_y, r_y) = Node::update_with_node(nodes, y, ModKind::Position(Side::Left, Some(x)), version);
    root_acc = if r_y.is_some() { r_y } else { root_acc };
    let ghost s2 = nodes@;
    proof {
        lemma_grows_trans(orig, s1, s2, version);
        lemma_update_keeps_values(s1, s2, y, ModKind::Position(Side::Left, Some(x)), version, (q_y, r_y));
        lemma_values_kept_trans(orig, s1, s2, version);
        lemma_update_keeps_colors(s1, s2, y, ModKind::Position(Side::Left, Some(x)), version, (q_y, r_y));
        lemma_colors_kept_trans(orig, s1, s2, version);
    }
    let (nx, r_x) = Node::update_with_node(nodes, x, ModKind::Position(Side::Right, b), version);
    root_acc = if r_x.is_some() { r_x } else { root_acc };
    proof {
        let s3 = nodes@;
        lemma_update_keeps_values(s2, s3, x, ModKind::Position(Side::Right, b), version, (nx, r_x));
        lemma_values_kept_trans(orig, s2, s3, version);
        lemma_update_keeps_colors(s2, s3, x, ModKind::Position(Side::Right, b), version, (nx, r_x));
        lemma_colors_kept_trans(orig, s2, s3, version);
        lemma_grows_trans(orig, s2, s3, version);
        assert(node_history(orig[x as int], s1[x as int], version));
        assert(node_history(s1[x as int], s2[x as int], version));
        assert forall|j: int| orig[x as int].mods.len() <= j < s2[x as int].mods.len() implies (#[trigger] s2[x as int].mods@[j]).kind is Position by {
            if j < s1[x as int].mods.len() {
                assert(s2[x as int].mods@[j] == s1[x as int].mods@[j]);
            }
        }
        lemma_position_appends(orig[x as int], s2[x as int], version);
        if rotation_in_place(orig, x, y, b) {
            if let Some((p, side)) = parent_info {
                assert(node_history(s1[p as int], s2[p as int], version));
                assert(node_history(s2[p as int], s3[p as int], version));
                assert(s1[y as int].mods@ == orig[y as int].mods@);
                assert(s1[x as int].mods@ == orig[x as int].mods@);
                lemma_same_reads(s1[p as int], s2[p as int], version);
                lemma_same_reads(s2[p as int], s3[p as int], version);
            } else {
                lemma_same_reads(s1[y as int], orig[y as int], version);
            }
            assert(node_history(orig[y as int], s1[y as int], version));
            assert(node_history(orig[x as int], s1[x as int], version));
            lemma_same_reads(s1[x as int], orig[x as int], version);
            lemma_same_reads(s1[y as int], orig[y as int], version);
            assert(s2[x as int].mods@ == s1[x as int].mods@);
            lemma_same_reads(s2[x as int], s1[x as int], version);
            assert(node_history(s2[y as int], s3[y as int], version));
            lemma_same_reads(s3[y as int], s2[y as int], version);
        }
    }
    (root_acc, nx)
}

/// Rotates right around `y` at `version`: its left child `x` takes its place under `y`'s
/// parent (or becomes the root), `y` becomes `x`'s right child and takes `x`'s former right
/// subtree as its left child. Returns the new root, if the rotation or the copying it
/// caused produced one, and the node that now stands for `y`.
pub fn right_rotate(nodes: &mut Vec<Node>, y: usize, version: u32) -> (res: (Link, usize))
    requires
        store_ok(old(nodes)@),
        y < old(nodes).len(),
        left_at(old(nodes)[y as int], version) is Some,
    ensures
        grows(old(nodes)@, final(nodes)@, version),
        link_ok(res.0, final(nodes).len() as nat),
        res.1 < final(nodes).len(),
        res.1 == y || old(nodes).len() <= res.1,
        value_at(final(nodes)@[res.1 as int], version) == value_at(old(nodes)@[y as int], version),
        color_at(final(nodes)@[res.1 as int], version) == color_at(old(nodes)@[y as int], version),
        right_rotated(old(nodes)@, final(nodes)@, y, version, res),
        // in every case, no node's value or colour changes
        values_kept(old(nodes)@, final(nodes)@, version),
        colors_kept(old(nodes)@, final(nodes)@, version),
{
    let ghost orig = nodes@;
    proof {
        assert(node_ok(orig[y as int], orig.len() as nat));
        lemma_reads_ok(orig[y as int], version, orig.len() as nat);
    }
    let x = nodes[y].get_left(version).unwrap();
    proof {
        assert(node_ok(orig[x as int], orig.len() as nat));
        lemma_reads_ok(orig[x as int], version, orig.len() as nat);
    }
    let b = nodes[x].get_right(version);
    let mut root_acc: Link = None;
    let parent_info = nodes[y].parent;
    if let Some((p, side)) = parent_info {
        let (q_p, r_parent) = Node::update_with_node(nodes, p, ModKind::Position(side, Some(x)), version);
        proof {
            lemma_update_keeps_values(orig, nodes@, p, ModKind::Position(side, Some(x)), version, (q_p, r_parent));
            lemma_update_keeps_colors(orig, nodes@, p, ModKind::Position(side, Some(x)), version, (q_p, r_parent));
        }
        root_acc = if r_parent.is_some() { r_parent } else { root_acc };
    } else {
        nodes[x].parent = None;
        root_acc = Some(x);
        proof {
            lemma_plain_growth(orig, nodes@, version);
            lemma_parent_change_keeps_values(orig, nodes@, version);
        }
    }
    let ghost s1 = nodes@;
    let r_x = Node::update(nodes, x, ModKind::Position(Side::Right, Some(y)), version);
    root_acc = if r_x.is_some() { r_x } else { root_acc };
    let ghost s2 = nodes@;
    proof {
        lemma_grows_trans(orig, s1, s2, version);
    }
    let (ny, r_y) = Node::update_with_node(nodes, y, ModKind::Position(Side::Left, b), version);
    root_acc = if r_y.is_some() { r_y } else { root_acc };
    proof {
        let s3 = nodes@;
        lemma_grows_trans(orig, s2, s3, version);
        let rx = choose|r: usize| update_effect(s1, s2, x, ModKind::Position(Side::Right, Some(y)), version, (r, r_x));
        lemma_update_keeps_values(s1, s2, x, ModKind::Position(Side::Right, Some(y)), version, (rx, r_x));
        lemma_update_keeps_values(s2, s3, y, ModKind::Position(Side::Left, b), version, (ny, r_y));
        lemma_values_kept_trans(orig, s1, s2, version);
        lemma_values_kept_trans(orig, s2, s3, version);
        lemma_update_keeps_colors(s1, s2, x, ModKind::Position(Side::Right, Some(y)), version, (rx, r_x));
        lemma_update_keeps_colors(s2, s3, y, ModKind::Position(Side::Left, b), version, (ny, r_y));
        lemma_colors_kept_trans(orig, s1, s2, version);
        lemma_colors_kept_trans(orig, s2, s3, version);
        assert(node_history(orig[y as int], s1[y as int], version));
        assert(node_history(s1[y as int], s2[y as int], version));
        assert forall|j: int| orig[y as int].mods.len() <= j < s2[y as int].mods.len() implies (#[trigger] s2[y as int].mods@[j]).kind is Position by {
            if j < s1[y as int].mods.len() {
                assert(s2[y as int].mods@[j] == s1[y as int].mods@[j]);
            }
        }
        lemma_position_appends(orig[y as int], s2[y as int], version);
        if rotation_in_place(orig, y, x, b) {
            if let Some((p, side)) = parent_info {
                assert(node_history(s1[p as int], s2[p as int], version));
                assert(node_history(s2[p as int], s3[p as int], version));
                assert(s1[y as int].mods@ == orig[y as int].mods@);
                assert(s1[x as int].mods@ == orig[x as int].mods@);
                lemma_same_reads(s1[p as int], s2[p as int], version);
                lemma_same_reads(s2[p as int], s3[p as int], version);
            } else {
                lemma_same_reads(s1[x as int], orig[x as int], version);
            }
            assert(node_history(orig[y as int], s1[y as int], version));
            assert(node_history(orig[x as int], s1[x as int], version));
            lemma_same_reads(s1[x as int], orig[x as int], version);
            lemma_same_reads(s1[y as int], orig[y as int], version);
            assert(s2[y as int].mods@ == s1[y as int].mods@);
            lemma_same_reads(s2[y as int], s1[y as int], version);
            assert(node_history(s2[x as int], s3[x as int], version));
            lemma_same_reads(s3[x as int], s2[x as int], version);
        }
    }
    (root_acc, ny)
}

/// The last node of the path that a search for where `value` goes takes from `link` at
/// `version` (to the left while `value` is at most a node's value), `last` if the path is
/// empty. At most `fuel` nodes are visited.
pub open spec fn insertion_parent(nodes: Seq<Node>, link: Link, value: i32, version: u32, last: Link, fuel: nat) -> Link
    decreases fuel,
{
    match link {
        None => last,
        Some(n) => if fuel == 0 || n >= nodes.len() {
            last
        } else if value <= value_at(nodes[n as int], version) {
            insertion_parent(nodes, left_at(nodes[n as int], version), value, version, Some(n), (fuel - 1) as nat)
        } else {
            insertion_parent(nodes, right_at(nodes[n as int], version), value, version, Some(n), (fuel - 1) as nat)
        },
    }
}

/// The node holding `value` that a binary search from `link` at `version` reaches, if any.
/// At most `fuel` nodes are visited.
pub open spec fn search(nodes: Seq<Node>, link: Link, value: i32, version: u32, fuel: nat) -> Link
    decreases fuel,
{
    match link {
        None => None,
        Some(n) => if fuel == 0 || n >= nodes.len() {
            None
        } else if value < value_at(nodes[n as int], version) {
            search(nodes, left_at(nodes[n as int], version), value, version, (fuel - 1) as nat)
        } else if value > value_at(nodes[n as int], version) {
            search(nodes, right_at(nodes[n as int], version), value, version, (fuel - 1) as nat)
        } else {
            Some(n)
        },
    }
}

/// The node reached from `n` by following left children at `version`, at most `fuel` steps.
pub open spec fn leftmost(nodes: Seq<Node>, n: usize, version: u32, fuel: nat) -> usize
    decreases fuel,
{
    if fuel == 0 || n >= nodes.len() {
        n
    } else {
        match left_at(nodes[n as int], version) {
            Some(l) => leftmost(nodes, l, version, (fuel - 1) as nat),
            None => n,
        }
    }
}

pub proof fn lemma_insertion_parent_ok(nodes: Seq<Node>, link: Link, value: i32, version: u32, last: Link, fuel: nat)
    requires
        store_ok(nodes),
        link_ok(link, nodes.len()),
        link_ok(last, nodes.len()),
    ensures
        link_ok(insertion_parent(nodes, link, value, version, last, fuel), nodes.len()),
        link is Some && fuel > 0 ==> insertion_parent(nodes, link, value, version, last, fuel) is Some,
    decreases fuel,
{
    if let Some(n) = link {
        if fuel > 0 {
            assert(node_ok(nodes[n as int], nodes.len()));
            lemma_reads_ok(nodes[n as int], version, nodes.len());
            lemma_insertion_parent_ok(nodes, left_at(nodes[n as int], version), value, version, Some(n), (fuel - 1) as nat);
            lemma_insertion_parent_ok(nodes, right_at(nodes[n as int], version), value, version, Some(n), (fuel - 1) as nat);
        }
    }
}

pub proof fn lemma_search_ok(nodes: Seq<Node>, link: Link, value: i32, version: u32, fuel: nat)
    requires
        store_ok(nodes),
        link_ok(link, nodes.len()),
    ensures
        link_ok(search(nodes, link, value, version, fuel), nodes.len()),
    decreases fuel,
{
    if let Some(n) = link {
        if fuel > 0 {
            assert(node_ok(nodes[n as int], nodes.len()));
            lemma_reads_ok(nodes[n as int], version, nodes.len());
            lemma_search_ok(nodes, left_at(nodes[n as int], version), value, version, (fuel - 1) as nat);
            lemma_search_ok(nodes, right_at(nodes[n as int], version), value, version, (fuel - 1) as nat);
        }
    }
}

/// A node found by the binary search holds the value searched for.
pub proof fn lemma_search_finds_value(nodes: Seq<Node>, link: Link, value: i32, version: u32, fuel: nat)
    ensures
        search(nodes, link, value, version, fuel) matches Some(n) ==> n < nodes.len() && value_at(
            nodes[n as int],
            version,
        ) == value,
    decreases fuel,
{
    if let Some(n) = link {
        if fuel > 0 && n < nodes.len() {
            lemma_search_finds_value(nodes, left_at(nodes[n as int], version), value, version, (fuel - 1) as nat);
            lemma_search_finds_value(nodes, right_at(nodes[n as int], version), value, version, (fuel - 1) as nat);
        }
    }
}

/// The values at version `v` of the subtree at `link`, going at most `fuel` levels down.
pub open spec fn values_at(nodes: Seq<Node>, link: Link, v: u32, fuel: nat) -> Set<i32>
    decreases fuel,
{
    match link {
        None => Set::empty(),
        Some(n) => if fuel == 0 || n >= nodes.len() {
            Set::empty()
        } else {
            values_at(nodes, left_at(nodes[n as int], v), v, (fuel - 1) as nat)
                .union(values_at(nodes, right_at(nodes[n as int], v), v, (fuel - 1) as nat))
                .insert(value_at(nodes[n as int], v))
        },
    }
}

/// The subtree at `link` is, at version `v`, a search tree of height at most `fuel`: at
/// every node, the values on the left are at most its value and those on the right at
/// least its value.
pub open spec fn is_search_tree_at(nodes: Seq<Node>, link: Link, v: u32, fuel: nat) -> bool
    decreases fuel,
{
    match link {
        None => true,
        Some(n) => {
            &&& fuel > 0
            &&& n < nodes.len()
            &&& (forall|k: i32| #[trigger] values_at(nodes, left_at(nodes[n as int], v), v, (fuel - 1) as nat).contains(k) ==> k <= value_at(nodes[n as int], v))
            &&& (forall|k: i32| #[trigger] values_at(nodes, right_at(nodes[n as int], v), v, (fuel - 1) as nat).contains(k) ==> k >= value_at(nodes[n as int], v))
            &&& is_search_tree_at(nodes, left_at(nodes[n as int], v), v, (fuel - 1) as nat)
            &&& is_search_tree_at(nodes, right_at(nodes[n as int], v), v, (fuel - 1) as nat)
        },
    }
}

/// On a search tree the binary search finds a node exactly when the tree holds the value.
pub proof fn lemma_search_complete(nodes: Seq<Node>, link: Link, value: i32, version: u32, fuel: nat)
    requires
        is_search_tree_at(nodes, link, version, fuel),
    ensures
        search(nodes, link, value, version, fuel) is Some <==> values_at(nodes, link, version, fuel).contains(value),
    decreases fuel,
{
    if let Some(n) = link {
        let nv = value_at(nodes[n as int], version);
        let l = left_at(nodes[n as int], version);
        let r = right_at(nodes[n as int], version);
        let f1 = (fuel - 1) as nat;
        lemma_search_complete(nodes, l, value, version, f1);
        lemma_search_complete(nodes, r, value, version, f1);
        if value < nv {
            assert(!values_at(nodes, r, version, f1).contains(value));
        } else if value > nv {
            assert(!values_at(nodes, l, version, f1).contains(value));
        }
    }
}

/// The subtree at `link` has height at most `fuel` at version `v`.
pub open spec fn height_within(nodes: Seq<Node>, link: Link, v: u32, fuel: nat) -> bool
    decreases fuel,
{
    match link {
        None => true,
        Some(n) => {
            &&& fuel > 0
            &&& n < nodes.len()
            &&& height_within(nodes, left_at(nodes[n as int], v), v, (fuel - 1) as nat)
            &&& height_within(nodes, right_at(nodes[n as int], v), v, (fuel - 1) as nat)
        },
    }
}

/// The side of `n` on which `value` goes: left when it is at most `n`'s value at `v`.
pub open spec fn side_for(value: i32, n: Node, v: u32) -> Side {
    if value <= value_at(n, v) {
        Side::Left
    } else {
        Side::Right
    }
}

/// A search tree of height at most `fuel` has height at most `fuel`.
pub proof fn lemma_search_tree_height(nodes: Seq<Node>, link: Link, v: u32, fuel: nat)
    requires
        is_search_tree_at(nodes, link, v, fuel),
    ensures
        height_within(nodes, link, v, fuel),
    decreases fuel,
{
    if let Some(n) = link {
        lemma_search_tree_height(nodes, left_at(nodes[n as int], v), v, (fuel - 1) as nat);
        lemma_search_tree_height(nodes, right_at(nodes[n as int], v), v, (fuel - 1) as nat);
    }
}

/// On a tree of bounded height, the insertion search ends at a node whose child on the
/// side where the value goes is empty.
pub proof fn lemma_insertion_parent_has_room(nodes: Seq<Node>, link: Link, value: i32, version: u32, last: Link, fuel: nat)
    requires
        height_within(nodes, link, version, fuel),
        link is Some,
    ensures
        insertion_parent(nodes, link, value, version, last, fuel) matches Some(p) && p < nodes.len()
            && child_at(nodes[p as int], side_for(value, nodes[p as int], version), version) is None,
    decreases fuel,
{
    let n = link->0;
    let next = child_at(nodes[n as int], side_for(value, nodes[n as int], version), version);
    assert(insertion_parent(nodes, link, value, version, last, fuel) == insertion_parent(
        nodes,
        next,
        value,
        version,
        Some(n),
        (fuel - 1) as nat,
    ));
    if next is Some {
        lemma_insertion_parent_has_room(nodes, next, value, version, Some(n), (fuel - 1) as nat);
    }
}

/// On a tree of bounded height, following left children ends at a node without a left
/// child; on a search tree, that node holds the least value of the tree.
pub proof fn lemma_leftmost_least(nodes: Seq<Node>, n: usize, version: u32, fuel: nat)
    requires
        height_within(nodes, Some(n), version, fuel),
    ensures
        left_at(nodes[leftmost(nodes, n, version, fuel) as int], version) is None,
        is_search_tree_at(nodes, Some(n), version, fuel) ==> {
            let m = value_at(nodes[leftmost(nodes, n, version, fuel) as int], version);
            &&& values_at(nodes, Some(n), version, fuel).contains(m)
            &&& forall|k: i32| #[trigger] values_at(nodes, Some(n), version, fuel).contains(k) ==> m <= k
        },
    decreases fuel,
{
    let f1 = (fuel - 1) as nat;
    let nv = value_at(nodes[n as int], version);
    let vs = values_at(nodes, Some(n), version, fuel);
    let vl = values_at(nodes, left_at(nodes[n as int], version), version, f1);
    let vr = values_at(nodes, right_at(nodes[n as int], version), version, f1);
    assert(vs == vl.union(vr).insert(nv));
    if let Some(l) = left_at(nodes[n as int], version) {
        lemma_leftmost_least(nodes, l, version, f1);
        if is_search_tree_at(nodes, Some(n), version, fuel) {
            let m = value_at(nodes[leftmost(nodes, n, version, fuel) as int], version);
            assert(vl.contains(m));
            assert forall|k: i32| #[trigger] vs.contains(k) implies m <= k by {
                if vl.contains(k) {
                } else if vr.contains(k) {
                    assert(k >= nv);
                } else {
                }
            }
        }
    } else {
        assert(vl =~= Set::<i32>::empty());
        if is_search_tree_at(nodes, Some(n), version, fuel) {
            assert forall|k: i32| #[trigger] vs.contains(k) implies nv <= k by {
                if vr.contains(k) {
                }
            }
        }
    }
}

pub proof fn lemma_leftmost_ok(nodes: Seq<Node>, n: usize, version: u32, fuel: nat)
    requires
        store_ok(nodes),
        n < nodes.len(),
    ensures
        leftmost(nodes, n, version, fuel) < nodes.len(),
    decreases fuel,
{
    if fuel > 0 {
        assert(node_ok(nodes[n as int], nodes.len()));
        lemma_reads_ok(nodes[n as int], version, nodes.len());
        if let Some(l) = left_at(nodes[n as int], version) {
            lemma_leftmost_ok(nodes, l, version, (fuel - 1) as nat);
        }
    }
}

fn insertion_parent_walk(nodes: &Vec<Node>, root: Link, value: i32, version: u32, last_parent: Link, fuel: usize) -> (r: Link)
    requires
        store_ok(nodes@),
        link_ok(root, nodes.len() as nat),
    ensures
        r == insertion_parent(nodes@, root, value, version, last_parent, fuel as nat),
    decreases fuel,
{
    match root {
        Some(node) => {
            if fuel == 0 {
                return last_parent;
            }
            proof {
                assert(node_ok(nodes@[node as int], nodes.len() as nat));
                lemma_reads_ok(nodes@[node as int], version, nodes.len() as nat);
            }
            let v = nodes[node].get_value(version);
            if value <= v {
                insertion_parent_walk(nodes, nodes[node].get_left(version), value, version, Some(node), fuel - 1)
            } else {
                insertion_parent_walk(nodes, nodes[node].get_right(version), value, version, Some(node), fuel - 1)
            }
        },
        None => last_parent,
    }
}

/// The node under which `value` would be inserted into the tree `root` at `version`: the
/// last node of the search path, which goes left while `value` is at most a node's value;
/// `last_parent` if `root` is empty. The search visits at most `WALK_LIMIT` nodes.
pub fn find_parent_for_insertion(nodes: &Vec<Node>, root: Link, value: i32, version: u32, last_parent: Link) -> (r: Link)
    requires
        store_ok(nodes@),
        link_ok(root, nodes.len() as nat),
    ensures
        r == insertion_parent(nodes@, root, value, version, last_parent, WALK_LIMIT as nat),
        height_within(nodes@, root, version, WALK_LIMIT as nat) && root is Some ==> (r matches Some(p) && p < nodes.len()
            && child_at(nodes@[p as int], side_for(value, nodes@[p as int], version), version) is None),
{
    proof {
        if height_within(nodes@, root, version, WALK_LIMIT as nat) && root is Some {
            lemma_insertion_parent_has_room(nodes@, root, value, version, last_parent, WALK_LIMIT as nat);
        }
    }
    insertion_parent_walk(nodes, root, value, version, last_parent, WALK_LIMIT)
}

fn search_walk(nodes: &Vec<Node>, root: Link, value: i32, version: u32, fuel: usize) -> (r: Link)
    requires
        store_ok(nodes@),
        link_ok(root, nodes.len() as nat),
    ensures
        r == search(nodes@, root, value, version, fuel as nat),
    decreases fuel,
{
    match root {
        Some(node) => {
            if fuel == 0 {
                return None;
            }
            proof {
                assert(node_ok(nodes@[node as int], nodes.len() as nat));
                lemma_reads_ok(nodes@[node as int], version, nodes.len() as nat);
            }
            let v = nodes[node].get_value(version);
            if value < v {
                search_walk(nodes, nodes[node].get_left(version), value, version, fuel - 1)
            } else if value > v {
                search_walk(nodes, nodes[node].get_right(version), value, version, fuel - 1)
            } else {
                Some(node)
            }
        },
        None => None,
    }
}

/// The node holding `value` in the tree `root` at `version`, found by binary search;
/// `None` if the search ends without one. The search visits at most `WALK_LIMIT` nodes.
pub fn find_node(nodes: &Vec<Node>, root: Link, value: i32, version: u32) -> (r: Link)
    requires
        store_ok(nodes@),
        link_ok(root, nodes.len() as nat),
    ensures
        r == search(nodes@, root, value, version, WALK_LIMIT as nat),
        r matches Some(n) ==> n < nodes.len() && value_at(nodes@[n as int], version) == value,
{
    proof {
        lemma_search_finds_value(nodes@, root, value, version, WALK_LIMIT as nat);
    }
    search_walk(nodes, root, value, version, WALK_LIMIT)
}

fn leftmost_walk(nodes: &Vec<Node>, root: usize, version: u32, fuel: usize) -> (r: usize)
    requires
        store_ok(nodes@),
        root < nodes.len(),
    ensures
        r == leftmost(nodes@, root, version, fuel as nat),
    decreases fuel,
{
    if fuel == 0 {
        return root;
    }
    proof {
        assert(node_ok(nodes@[root as int], nodes.len() as nat));
        lemma_reads_ok(nodes@[root as int], version, nodes.len() as nat);
    }
    if let Some(left) = nodes[root].get_left(version) {
        leftmost_walk(nodes, left, version, fuel - 1)
    } else {
        root
    }
}

/// The node with the smallest value under `root` at `version`: the one reached by
/// following left children. The walk takes at most `WALK_LIMIT` steps.
pub fn find_min(nodes: &Vec<Node>, root: usize, version: u32) -> (r: usize)
    requires
        store_ok(nodes@),
        root < nodes.len(),
    ensures
        r == leftmost(nodes@, root, version, WALK_LIMIT as nat),
        r < nodes.len(),
        height_within(nodes@, Some(root), version, WALK_LIMIT as nat) ==> left_at(nodes@[r as int], version) is None,
        is_search_tree_at(nodes@, Some(root), version, WALK_LIMIT as nat) ==> {
            &&& values_at(nodes@, Some(root), version, WALK_LIMIT as nat).contains(value_at(nodes@[r as int], version))
            &&& forall|k: i32| #[trigger] values_at(nodes@, Some(root), version, WALK_LIMIT as nat).contains(k)
                ==> value_at(nodes@[r as int], version) <= k
        },
{
    proof {
        if height_within(nodes@, Some(root), version, WALK_LIMIT as nat) {
            lemma_leftmost_least(nodes@, root, version, WALK_LIMIT as nat);
        }
        if is_search_tree_at(nodes@, Some(root), version, WALK_LIMIT as nat) {
            lemma_search_tree_height(nodes@, Some(root), version, WALK_LIMIT as nat);
            lemma_leftmost_least(nodes@, root, version, WALK_LIMIT as nat);
        }
        lemma_leftmost_ok(nodes@, root, version, WALK_LIMIT as nat);
    }
    leftmost_walk(nodes, root, version, WALK_LIMIT)
}


/// Changes the colour of node `n` at `version` (see `Node::update_with_node`); the store
/// stays an extension of `orig`.
fn paint(nodes: &mut Vec<Node>, n: usize, c: Color, version: u32, Ghost(orig): Ghost<Seq<Node>>) -> (res: (usize, Link))
    requires
        grows(orig, old(nodes)@, version),
        values_kept(orig, old(nodes)@, version),
        n < old(nodes).len(),
    ensures
        grows(orig, final(nodes)@, version),
        values_kept(orig, final(nodes)@, version),
        res.0 < final(nodes).len(),
        link_ok(res.1, final(nodes).len() as nat),
        old(nodes).len() <= final(nodes).len(),
        color_at(final(nodes)@[res.0 as int], version) == c,
{
    let ghost before = nodes@;
    let res = Node::update_with_node(nodes, n, ModKind::Color(c), version);
    proof {
        lemma_grows_trans(orig, before, nodes@, version);
        lemma_update_keeps_values(before, nodes@, n, ModKind::Color(c), version, res);
        lemma_values_kept_trans(orig, before, nodes@, version);
    }
    res
}

/// The colour of a possibly empty subtree at `version`: empty subtrees are black.
fn link_color(nodes: &Vec<Node>, l: Link, version: u32) -> (c: Color)
    requires
        link_ok(l, nodes.len() as nat),
    ensures
        c == match l {
            Some(n) => color_at(nodes@[n as int], version),
            None => Color::Black,
        },
{
    match l {
        Some(n) => nodes[n].get_color(version),
        None => Color::Black,
    }
}

/// The node `z` has no parent, or a black one, at `version`: nothing to repair below the root.
pub open spec fn insert_needs_no_fixup(nodes: Seq<Node>, z: usize, version: u32) -> bool {
    match nodes[z as int].parent {
        Some((p, _)) => color_at(nodes[p as int], version) == Color::Black,
        None => true,
    }
}

/// Restores the red-black properties at `version` after the red node `z` was hung into
/// the tree whose root is `current_root`, following the insertion fix-up of Cormen et
/// al.: while the parent of the current node is red, either recolour (red uncle) and
/// move up two levels, or rotate once or twice (black uncle) and stop; finally the root
/// is painted black. Returns the root of the version if it changed. Where the tree does
/// not have the shape the algorithm relies on (a grandparent, or the child a rotation
/// needs), the fix-up stops there; and it makes at most `WALK_LIMIT` passes.
pub fn rb_insert_fixup(nodes: &mut Vec<Node>, z: usize, version: u32, current_root: usize) -> (root: Link)
    requires
        store_ok(old(nodes)@),
        z < old(nodes).len(),
        current_root < old(nodes).len(),
    ensures
        grows(old(nodes)@, final(nodes)@, version),
        link_ok(root, final(nodes).len() as nat),
        // colours and links change, values never do
        values_kept(old(nodes)@, final(nodes)@, version),
        // a new node under a black parent, or at the root, breaks nothing but the colour
        // of the root: only the root is painted black, if it is red
        insert_needs_no_fixup(old(nodes)@, z, version) ==> {
            &&& color_at(old(nodes)@[current_root as int], version) == Color::Black ==> final(nodes)@ == old(nodes)@ && root is None
            &&& color_at(old(nodes)@[current_root as int], version) == Color::Red ==> exists|r: usize|
                update_effect(old(nodes)@, final(nodes)@, current_root, ModKind::Color(Color::Black), version, (r, root))
        },
{
    let ghost orig = nodes@;
    let ghost quiet = insert_needs_no_fixup(orig, z, version);
    proof {
        lemma_grows_refl(orig, version);
    }
    let mut current = z;
    let mut root_acc: Link = None;
    let mut steps = WALK_LIMIT;
    loop
        invariant_except_break
            quiet ==> steps == WALK_LIMIT && nodes@ == orig && root_acc is None && current == z,
        invariant
            quiet == insert_needs_no_fixup(orig, z, version),
            z < orig.len(),
            grows(orig, nodes@, version),
            values_kept(orig, nodes@, version),
            current < nodes.len(),
            link_ok(root_acc, nodes.len() as nat),
            orig.len() <= nodes.len(),
            current_root < orig.len(),
        ensures
            grows(orig, nodes@, version),
            values_kept(orig, nodes@, version),
            link_ok(root_acc, nodes.len() as nat),
            orig.len() <= nodes.len(),
            quiet ==> nodes@ == orig && root_acc is None,
        decreases steps,
    {
        if steps == 0 {
            break;
        }
        steps = steps - 1;
        proof {
            assert(node_ok(nodes@[current as int], nodes.len() as nat));
        }
        let p = match nodes[current].parent {
            Some((p, _)) => p,
            None => break,
        };
        if nodes[p].get_color(version) == Color::Black {
            break;
        }
        proof {
            assert(node_ok(nodes@[p as int], nodes.len() as nat));
        }
        let gp_info = nodes[p].parent;
        if gp_info.is_none() {
            let (new_p, r) = paint(nodes, p, Color::Black, version, Ghost(orig));
            root_acc = if r.is_some() { r } else { Some(new_p) };
            break;
        }
        let (gp, side_p_to_gp) = gp_info.unwrap();
        proof {
            assert(node_ok(nodes@[gp as int], nodes.len() as nat));
            lemma_reads_ok(nodes@[gp as int], version, nodes.len() as nat);
        }
        let uncle_side = match side_p_to_gp {
            Side::Left => Side::Right,
            Side::Right => Side::Left,
        };
        let y = nodes[gp].get_field_by_side(uncle_side, version);
        if link_color(nodes, y, version) == Color::Red {
            // red uncle: recolour and move up
            if let Some(uncle) = y {
                let (_, r2) = paint(nodes, uncle, Color::Black, version, Ghost(orig));
                if r2.is_some() {
                    root_acc = r2;
                }
            }
            let (new_p, r1) = paint(nodes, p, Color::Black, version, Ghost(orig));
            if r1.is_some() {
                root_acc = r1;
            }
            proof {
                assert(node_ok(nodes@[new_p as int], nodes.len() as nat));
            }
            let gp_fresh = match nodes[new_p].parent {
                Some((g, _)) => g,
                None => break,
            };
            let (new_gp, r3) = paint(nodes, gp_fresh, Color::Red, version, Ghost(orig));
            if r3.is_some() {
                root_acc = r3;
            }
            current = new_gp;
        } else {
            // black uncle: bring the new node to the outside, then rotate the grandparent
            let inner_side = uncle_side;
            let is_inner = match nodes[current].parent {
                Some((_, s)) => s == inner_side,
                None => false,
            };
            if is_inner {
                current = p;
                let ghost before = nodes@;
                proof {
                    assert(node_ok(nodes@[current as int], nodes.len() as nat));
                }
                let rot_child = nodes[current].get_field_by_side(inner_side, version);
                if rot_child.is_none() {
                    break;
                }
                let (new_r, updated_node) = match side_p_to_gp {
                    Side::Left => left_rotate(nodes, current, version),
                    Side::Right => right_rotate(nodes, current, version),
                };
                proof {
                    lemma_grows_trans(orig, before, nodes@, version);
                    lemma_values_kept_trans(orig, before, nodes@, version);
                }
                if new_r.is_some() {
                    root_acc = new_r;
                }
                current = updated_node;
            }
            proof {
                assert(node_ok(nodes@[current as int], nodes.len() as nat));
            }
            let p_f = match nodes[current].parent {
                Some((q, _)) => q,
                None => break,
            };
            let (new_p, r_p) = paint(nodes, p_f, Color::Black, version, Ghost(orig));
            if r_p.is_some() {
                root_acc = r_p;
            }
            proof {
                assert(node_ok(nodes@[new_p as int], nodes.len() as nat));
            }
            let gp_f = match nodes[new_p].parent {
                Some((g, _)) => g,
                None => break,
            };
            let (gp_red, r_gp) = paint(nodes, gp_f, Color::Red, version, Ghost(orig));
            if r_gp.is_some() {
                root_acc = r_gp;
            }
            proof {
                assert(node_ok(nodes@[gp_red as int], nodes.len() as nat));
            }
            let outer_child = nodes[gp_red].get_field_by_side(side_p_to_gp, version);
            if outer_child.is_none() {
                break;
            }
            let ghost before = nodes@;
            let (new_r, _) = match side_p_to_gp {
                Side::Left => right_rotate(nodes, gp_red, version),
                Side::Right => left_rotate(nodes, gp_red, version),
            };
            proof {
                lemma_grows_trans(orig, before, nodes@, version);
                lemma_values_kept_trans(orig, before, nodes@, version);
            }
            if new_r.is_some() {
                root_acc = new_r;
            }
            break;
        }
    }
    let final_root = match root_acc {
        Some(r) => r,
        None => current_root,
    };
    proof {
        assert(node_ok(nodes@[final_root as int], nodes.len() as nat));
    }
    if nodes[final_root].get_color(version) == Color::Red {
        let ghost before = nodes@;
        let root_after_final_paint = Node::update(nodes, final_root, ModKind::Color(Color::Black), version);
        assert(quiet ==> before == orig);
        proof {
            lemma_grows_trans(orig, before, nodes@, version);
            let q = choose|q: usize| update_effect(before, nodes@, final_root, ModKind::Color(Color::Black), version, (q, root_after_final_paint));
            lemma_update_keeps_values(before, nodes@, final_root, ModKind::Color(Color::Black), version, (q, root_after_final_paint));
            lemma_values_kept_trans(orig, before, nodes@, version);
        }
        if root_after_final_paint.is_some() {
            root_after_final_paint
        } else {
            root_acc
        }
    } else {
        root_acc
    }
}


/// Node `target` lies in the subtree at `link` at version `v` with at least one more level
/// below it within `fuel` levels.
pub open spec fn reaches(nodes: Seq<Node>, link: Link, target: usize, v: u32, fuel: nat) -> bool
    decreases fuel,
{
    match link {
        None => false,
        Some(n) => {
            &&& fuel > 0
            &&& n < nodes.len()
            &&& ((n == target && fuel > 1) || reaches(nodes, left_at(nodes[n as int], v), target, v, (fuel - 1) as nat)
                || reaches(nodes, right_at(nodes[n as int], v), target, v, (fuel - 1) as nat))
        },
    }
}

/// The link names a red node at version `v`.
pub open spec fn is_red_link(nodes: Seq<Node>, link: Link, v: u32) -> bool {
    link matches Some(n) && n < nodes.len() && color_at(nodes[n as int], v) == Color::Red
}

/// The black height at version `v` of the subtree at `link`, counting the black nodes on
/// any path down to an empty subtree, if the subtree is a red-black tree of height at most
/// `fuel`: no red node has a red child and every path has the same number of black nodes.
/// `None` otherwise.
pub open spec fn black_height(nodes: Seq<Node>, link: Link, v: u32, fuel: nat) -> Option<nat>
    decreases fuel,
{
    match link {
        None => Some(0),
        Some(n) => if fuel == 0 || n >= nodes.len() {
            None
        } else {
            let l = left_at(nodes[n as int], v);
            let r = right_at(nodes[n as int], v);
            let hl = black_height(nodes, l, v, (fuel - 1) as nat);
            let hr = black_height(nodes, r, v, (fuel - 1) as nat);
            let red = color_at(nodes[n as int], v) == Color::Red;
            if hl is Some && hl == hr && (red ==> !is_red_link(nodes, l, v) && !is_red_link(nodes, r, v)) {
                Some(hl->0 + if red { 0nat } else { 1nat })
            } else {
                None
            }
        },
    }
}

/// The tree at `root` is, at version `v`, a red-black tree of height at most `fuel` with
/// a black root.
pub open spec fn red_black_at(nodes: Seq<Node>, root: usize, v: u32, fuel: nat) -> bool {
    &&& black_height(nodes, Some(root), v, fuel) is Some
    &&& !is_red_link(nodes, Some(root), v)
}

/// `f` is `o` with a new leaf `z` holding `value` hung at version `v` on the empty side
/// `side` of node `p`; every other node reads as before.
pub open spec fn leaf_hung(o: Seq<Node>, f: Seq<Node>, p: usize, side: Side, z: usize, value: i32, v: u32) -> bool {
    &&& z == o.len()
    &&& f.len() == o.len() + 1
    &&& p < o.len()
    &&& (forall|i: int| 0 <= i < o.len() && i != p ==> {
        &&& left_at(#[trigger] f[i], v) == left_at(o[i], v)
        &&& right_at(f[i], v) == right_at(o[i], v)
        &&& value_at(f[i], v) == value_at(o[i], v)
        &&& color_at(f[i], v) == color_at(o[i], v)
    })
    &&& value_at(f[p as int], v) == value_at(o[p as int], v)
    &&& color_at(f[p as int], v) == color_at(o[p as int], v)
    &&& child_at(o[p as int], side, v) is None
    &&& child_at(f[p as int], side, v) == Some(z)
    &&& child_at(f[p as int], other_side(side), v) == child_at(o[p as int], other_side(side), v)
    &&& left_at(f[z as int], v) is None
    &&& right_at(f[z as int], v) is None
    &&& value_at(f[z as int], v) == value
    &&& color_at(f[z as int], v) == Color::Red
}

/// A bound on the height holds for any larger bound.
pub proof fn lemma_height_mono(nodes: Seq<Node>, link: Link, v: u32, f1: nat, f2: nat)
    requires
        height_within(nodes, link, v, f1),
        f1 <= f2,
    ensures
        height_within(nodes, link, v, f2),
    decreases f1,
{
    if let Some(n) = link {
        lemma_height_mono(nodes, left_at(nodes[n as int], v), v, (f1 - 1) as nat, (f2 - 1) as nat);
        lemma_height_mono(nodes, right_at(nodes[n as int], v), v, (f1 - 1) as nat, (f2 - 1) as nat);
    }
}

/// Following left children gives the same node at any later version, when the store
/// holds no change for versions after `cur`.
pub proof fn lemma_leftmost_after(nodes: Seq<Node>, n: usize, cur: u32, w: u32, fuel: nat)
    requires
        versions_upto(nodes, cur),
        cur <= w,
    ensures
        leftmost(nodes, n, w, fuel) == leftmost(nodes, n, cur, fuel),
    decreases fuel,
{
    if fuel > 0 && n < nodes.len() {
        assert forall|j: int| 0 <= j < nodes[n as int].mods.len() implies (#[trigger] nodes[n as int].mods@[j]).version <= cur by {}
        lemma_reads_after(nodes[n as int], cur, w);
        if let Some(l) = left_at(nodes[n as int], cur) {
            lemma_leftmost_after(nodes, l, cur, w, (fuel - 1) as nat);
        }
    }
}

/// In a store whose changes are for versions up to `cur`, the walks at a later version
/// `w` see what they see at `cur`.
pub proof fn lemma_walks_after(nodes: Seq<Node>, link: Link, cur: u32, w: u32, value: i32, last: Link, fuel: nat)
    requires
        versions_upto(nodes, cur),
        cur <= w,
    ensures
        values_at(nodes, link, w, fuel) == values_at(nodes, link, cur, fuel),
        height_within(nodes, link, w, fuel) == height_within(nodes, link, cur, fuel),
        insertion_parent(nodes, link, value, w, last, fuel) == insertion_parent(nodes, link, value, cur, last, fuel),
        black_height(nodes, link, w, fuel) == black_height(nodes, link, cur, fuel),
        is_red_link(nodes, link, w) == is_red_link(nodes, link, cur),
        value_counts(nodes, link, w, fuel) == value_counts(nodes, link, cur, fuel),
        forall|t: usize| #[trigger] visits(nodes, link, t, w, fuel) == visits(nodes, link, t, cur, fuel),
    decreases fuel,
{
    if let Some(n) = link {
        if n < nodes.len() {
            assert forall|j: int| 0 <= j < nodes[n as int].mods.len() implies (#[trigger] nodes[n as int].mods@[j]).version <= cur by {}
            lemma_reads_after(nodes[n as int], cur, w);
        }
        if fuel > 0 && n < nodes.len() {
            let f1 = (fuel - 1) as nat;
            let l = left_at(nodes[n as int], cur);
            let r = right_at(nodes[n as int], cur);
            if let Some(a) = l {
                if a < nodes.len() {
                    assert forall|j: int| 0 <= j < nodes[a as int].mods.len() implies (#[trigger] nodes[a as int].mods@[j]).version <= cur by {}
                    lemma_reads_after(nodes[a as int], cur, w);
                }
            }
            if let Some(b) = r {
                if b < nodes.len() {
                    assert forall|j: int| 0 <= j < nodes[b as int].mods.len() implies (#[trigger] nodes[b as int].mods@[j]).version <= cur by {}
                    lemma_reads_after(nodes[b as int], cur, w);
                }
            }
        }
        if fuel > 0 && n < nodes.len() {
            assert forall|j: int| 0 <= j < nodes[n as int].mods.len() implies (#[trigger] nodes[n as int].mods@[j]).version <= cur by {}
            lemma_reads_after(nodes[n as int], cur, w);
            let f1 = (fuel - 1) as nat;
            lemma_walks_after(nodes, left_at(nodes[n as int], cur), cur, w, value, Some(n), f1);
            lemma_walks_after(nodes, right_at(nodes[n as int], cur), cur, w, value, Some(n), f1);
            assert forall|t: usize| #[trigger] visits(nodes, link, t, w, fuel) == visits(nodes, link, t, cur, fuel) by {
                assert(visits(nodes, left_at(nodes[n as int], cur), t, w, f1) == visits(nodes, left_at(nodes[n as int], cur), t, cur, f1));
                assert(visits(nodes, right_at(nodes[n as int], cur), t, w, f1) == visits(nodes, right_at(nodes[n as int], cur), t, cur, f1));
            }
        }
    }
}

/// `f` is `o` with the leaf `l` cut at version `v` from side `side` of node `p`; every
/// other node reads as before.
pub open spec fn leaf_cut(o: Seq<Node>, f: Seq<Node>, p: usize, side: Side, l: usize, v: u32) -> bool {
    &&& o.len() <= f.len()
    &&& p < o.len()
    &&& l < o.len()
    &&& l != p
    &&& (forall|i: int| 0 <= i < o.len() && i != p ==> {
        &&& left_at(#[trigger] f[i], v) == left_at(o[i], v)
        &&& right_at(f[i], v) == right_at(o[i], v)
        &&& value_at(f[i], v) == value_at(o[i], v)
        &&& color_at(f[i], v) == color_at(o[i], v)
    })
    &&& value_at(f[p as int], v) == value_at(o[p as int], v)
    &&& color_at(f[p as int], v) == color_at(o[p as int], v)
    &&& child_at(o[p as int], side, v) == Some(l)
    &&& child_at(f[p as int], side, v) is None
    &&& child_at(f[p as int], other_side(side), v) == child_at(o[p as int], other_side(side), v)
    &&& left_at(o[l as int], v) is None
    &&& right_at(o[l as int], v) is None
}

/// Cutting a red leaf keeps the black height of every red-black subtree, on trees whose
/// nodes all have a level to spare within `fuel`.
proof fn lemma_black_height_after_cutting(o: Seq<Node>, f: Seq<Node>, p: usize, side: Side, l: usize, v: u32, link: Link, fuel: nat)
    requires
        leaf_cut(o, f, p, side, l, v),
        color_at(o[l as int], v) == Color::Red,
        store_ok(o),
        link_ok(link, o.len()),
        height_within(o, link, v, (fuel - 1) as nat),
        fuel > 0,
        black_height(o, link, v, fuel) is Some,
    ensures
        black_height(f, link, v, fuel) == black_height(o, link, v, fuel),
        is_red_link(f, link, v) == is_red_link(o, link, v),
    decreases fuel,
{
    if let Some(n) = link {
        assert(node_ok(o[n as int], o.len()));
        lemma_reads_ok(o[n as int], v, o.len());
        let f1 = (fuel - 1) as nat;
        let ol = left_at(o[n as int], v);
        let or = right_at(o[n as int], v);
        if ol is Some {
            lemma_black_height_after_cutting(o, f, p, side, l, v, ol, f1);
        }
        if or is Some {
            lemma_black_height_after_cutting(o, f, p, side, l, v, or, f1);
        }
        if n == p {
            assert(f1 > 0);
            assert(black_height(o, None, v, (f1 - 1) as nat) == Some(0nat));
            assert(black_height(o, Some(l), v, f1) == Some(0nat));
            assert(black_height(f, None, v, f1) == Some(0nat));
            match side {
                Side::Left => {
                    assert(left_at(f[p as int], v) is None);
                    assert(right_at(f[p as int], v) == or);
                    assert(ol == Some(l));
                },
                Side::Right => {
                    assert(right_at(f[p as int], v) is None);
                    assert(left_at(f[p as int], v) == ol);
                    assert(or == Some(l));
                },
            }
        } else {
            assert(left_at(f[n as int], v) == ol);
            assert(right_at(f[n as int], v) == or);
        }
    }
}

/// The values at version `v` of the subtree at `link`, each counted once for every node
/// met that holds it, going at most `fuel` levels down.
pub open spec fn value_counts(nodes: Seq<Node>, link: Link, v: u32, fuel: nat) -> Multiset<i32>
    decreases fuel,
{
    match link {
        None => Multiset::empty(),
        Some(n) => if fuel == 0 || n >= nodes.len() {
            Multiset::empty()
        } else {
            value_counts(nodes, left_at(nodes[n as int], v), v, (fuel - 1) as nat)
                .add(value_counts(nodes, right_at(nodes[n as int], v), v, (fuel - 1) as nat))
                .insert(value_at(nodes[n as int], v))
        },
    }
}

/// How many times the walk of the subtree at `link` at version `v` meets node `target` with
/// a level to spare, going at most `fuel` levels down.
pub open spec fn visits(nodes: Seq<Node>, link: Link, target: usize, v: u32, fuel: nat) -> nat
    decreases fuel,
{
    match link {
        None => 0,
        Some(n) => if fuel == 0 || n >= nodes.len() {
            0
        } else {
            (if n == target && fuel > 1 { 1nat } else { 0nat }) + visits(nodes, left_at(nodes[n as int], v), target, v, (fuel - 1) as nat)
                + visits(nodes, right_at(nodes[n as int], v), target, v, (fuel - 1) as nat)
        },
    }
}

/// The links at version `v` under `link` form a tree: no node is met twice.
pub open spec fn meets_each_once(nodes: Seq<Node>, link: Link, v: u32, fuel: nat) -> bool {
    forall|t: usize| #[trigger] visits(nodes, link, t, v, fuel) <= 1
}

/// More levels show at least the values fewer levels show.
pub proof fn lemma_values_mono(nodes: Seq<Node>, link: Link, v: u32, f1: nat, f2: nat)
    requires
        f1 <= f2,
    ensures
        values_at(nodes, link, v, f1).subset_of(values_at(nodes, link, v, f2)),
    decreases f1,
{
    if let Some(n) = link {
        if f1 > 0 && n < nodes.len() {
            lemma_values_mono(nodes, left_at(nodes[n as int], v), v, (f1 - 1) as nat, (f2 - 1) as nat);
            lemma_values_mono(nodes, right_at(nodes[n as int], v), v, (f1 - 1) as nat, (f2 - 1) as nat);
        }
    }
}

/// A node that hangs, parent after parent, under `top` within `k` steps has its subtree's
/// values among those of `top`, `k` levels more down.
pub proof fn lemma_links_up_values(nodes: Seq<Node>, c: usize, top: usize, v: u32, k: nat, g: nat)
    requires
        links_up(nodes, c, top, v, k),
        store_ok(nodes),
        c < nodes.len(),
    ensures
        values_at(nodes, Some(c), v, g).subset_of(values_at(nodes, Some(top), v, g + k)),
    decreases k,
{
    if c == top {
        lemma_values_mono(nodes, Some(c), v, g, g + k);
    } else {
        let (p, s) = nodes[c as int].parent->0;
        assert(node_ok(nodes[c as int], nodes.len() as nat));
        assert(p < nodes.len());
        lemma_links_up_values(nodes, p, top, v, (k - 1) as nat, g + 1);
        assert(values_at(nodes, Some(c), v, g).subset_of(values_at(nodes, Some(p), v, g + 1))) by {
            assert(child_at(nodes[p as int], s, v) == Some(c));
            assert(values_at(nodes, Some(p), v, g + 1) == values_at(nodes, left_at(nodes[p as int], v), v, g)
                .union(values_at(nodes, right_at(nodes[p as int], v), v, g)).insert(value_at(nodes[p as int], v)));
        }
        assert((g + 1) + (k - 1) == g + k);
    }
}

/// A value is counted in a subtree exactly when the subtree holds it.
pub proof fn lemma_counts_hold_values(nodes: Seq<Node>, link: Link, v: u32, fuel: nat)
    ensures
        forall|x: i32| #[trigger] value_counts(nodes, link, v, fuel).count(x) > 0 <==> values_at(nodes, link, v, fuel).contains(x),
    decreases fuel,
{
    broadcast use vstd::multiset::group_multiset_axioms;
    if let Some(n) = link {
        if fuel > 0 && n < nodes.len() {
            let l = left_at(nodes[n as int], v);
            let r = right_at(nodes[n as int], v);
            let f1 = (fuel - 1) as nat;
            lemma_counts_hold_values(nodes, l, v, f1);
            lemma_counts_hold_values(nodes, r, v, f1);
            let x0 = value_at(nodes[n as int], v);
            assert(value_counts(nodes, link, v, fuel) == value_counts(nodes, l, v, f1).add(value_counts(nodes, r, v, f1)).insert(x0));
            assert(values_at(nodes, link, v, fuel) == values_at(nodes, l, v, f1).union(values_at(nodes, r, v, f1)).insert(x0));
        } else {
            assert(value_counts(nodes, link, v, fuel) == Multiset::<i32>::empty());
        }
    } else {
        assert(value_counts(nodes, link, v, fuel) == Multiset::<i32>::empty());
    }
}

/// A node that a walk reaches is met at least once.
proof fn lemma_reaches_visits(nodes: Seq<Node>, link: Link, target: usize, v: u32, fuel: nat)
    requires
        reaches(nodes, link, target, v, fuel),
    ensures
        visits(nodes, link, target, v, fuel) >= 1,
    decreases fuel,
{
    let n = link->0;
    if !(n == target && fuel > 1) {
        if reaches(nodes, left_at(nodes[n as int], v), target, v, (fuel - 1) as nat) {
            lemma_reaches_visits(nodes, left_at(nodes[n as int], v), target, v, (fuel - 1) as nat);
        } else {
            lemma_reaches_visits(nodes, right_at(nodes[n as int], v), target, v, (fuel - 1) as nat);
        }
    }
}

/// Cutting a leaf takes its value out once for every time the walk meets its parent.
proof fn lemma_counts_after_cutting(o: Seq<Node>, f: Seq<Node>, p: usize, side: Side, l: usize, v: u32, link: Link, fuel: nat)
    requires
        leaf_cut(o, f, p, side, l, v),
        store_ok(o),
        link_ok(link, o.len()),
    ensures
        forall|x: i32| #[trigger] value_counts(o, link, v, fuel).count(x)
            == value_counts(f, link, v, fuel).count(x) + (if x == value_at(o[l as int], v) { visits(o, link, p, v, fuel) } else { 0 }),
    decreases fuel,
{
    broadcast use vstd::multiset::group_multiset_axioms;
    if let Some(n) = link {
        if fuel > 0 {
            assert(node_ok(o[n as int], o.len()));
            lemma_reads_ok(o[n as int], v, o.len());
            let f1 = (fuel - 1) as nat;
            let ol = left_at(o[n as int], v);
            let or = right_at(o[n as int], v);
            let fl = left_at(f[n as int], v);
            let fr = right_at(f[n as int], v);
            let vn = value_at(o[n as int], v);
            assert(value_at(f[n as int], v) == vn);
            assert(value_counts(f, link, v, fuel) == value_counts(f, fl, v, f1).add(value_counts(f, fr, v, f1)).insert(vn));
            assert(value_counts(o, link, v, fuel) == value_counts(o, ol, v, f1).add(value_counts(o, or, v, f1)).insert(vn));
            let here: nat = if n == p && fuel > 1 { 1nat } else { 0nat };
            assert(visits(o, link, p, v, fuel) == here + visits(o, ol, p, v, f1) + visits(o, or, p, v, f1));
            if n != p {
                assert(fl == ol && fr == or);
                lemma_counts_after_cutting(o, f, p, side, l, v, ol, f1);
                lemma_counts_after_cutting(o, f, p, side, l, v, or, f1);
            } else {
                // the side that loses the leaf is empty now; the other is as before
                let lc = value_counts(o, Some(l), v, f1);
                assert(value_counts(f, None, v, f1) =~= Multiset::<i32>::empty());
                assert(visits(o, Some(l), p, v, f1) == 0) by {
                    if f1 > 0 {
                        assert(visits(o, None, p, v, (f1 - 1) as nat) == 0);
                    }
                }
                if f1 > 0 {
                    assert(value_counts(o, None, v, (f1 - 1) as nat) =~= Multiset::<i32>::empty());
                    assert(lc =~= Multiset::<i32>::empty().add(Multiset::<i32>::empty()).insert(value_at(o[l as int], v)));
                } else {
                    assert(lc =~= Multiset::<i32>::empty());
                }
                match side {
                    Side::Left => {
                        assert(ol == Some(l) && fl is None && fr == or);
                        lemma_counts_after_cutting(o, f, p, side, l, v, or, f1);
                    },
                    Side::Right => {
                        assert(or == Some(l) && fr is None && fl == ol);
                        lemma_counts_after_cutting(o, f, p, side, l, v, ol, f1);
                    },
                }
            }
        }
    }
}

/// Hanging a leaf adds its value once for every time the walk meets its parent.
proof fn lemma_counts_after_hanging(
    o: Seq<Node>,
    f: Seq<Node>,
    p: usize,
    side: Side,
    z: usize,
    value: i32,
    v: u32,
    link: Link,
    fuel: nat,
)
    requires
        leaf_hung(o, f, p, side, z, value, v),
        store_ok(o),
        link_ok(link, o.len()),
    ensures
        forall|x: i32| #[trigger] value_counts(f, link, v, fuel).count(x)
            == value_counts(o, link, v, fuel).count(x) + (if x == value { visits(o, link, p, v, fuel) } else { 0 }),
    decreases fuel,
{
    broadcast use vstd::multiset::group_multiset_axioms;
    if let Some(n) = link {
        if fuel > 0 {
            assert(node_ok(o[n as int], o.len()));
            lemma_reads_ok(o[n as int], v, o.len());
            let f1 = (fuel - 1) as nat;
            let ol = left_at(o[n as int], v);
            let or = right_at(o[n as int], v);
            let fl = left_at(f[n as int], v);
            let fr = right_at(f[n as int], v);
            let vn = value_at(o[n as int], v);
            assert(value_at(f[n as int], v) == vn);
            let cf = value_counts(f, link, v, fuel);
            let co = value_counts(o, link, v, fuel);
            assert(cf == value_counts(f, fl, v, f1).add(value_counts(f, fr, v, f1)).insert(vn));
            assert(co == value_counts(o, ol, v, f1).add(value_counts(o, or, v, f1)).insert(vn));
            let here: nat = if n == p && fuel > 1 { 1nat } else { 0nat };
            assert(visits(o, link, p, v, fuel) == here + visits(o, ol, p, v, f1) + visits(o, or, p, v, f1));
            if n != p {
                assert(fl == ol && fr == or);
                lemma_counts_after_hanging(o, f, p, side, z, value, v, ol, f1);
                lemma_counts_after_hanging(o, f, p, side, z, value, v, or, f1);
            } else {
                // the side that gets the leaf was empty; the other is as before
                let zc = value_counts(f, Some(z), v, f1);
                assert(value_counts(o, None, v, f1) =~= Multiset::<i32>::empty());
                assert(visits(o, None, p, v, f1) == 0);
                if f1 > 0 {
                    assert(value_counts(f, None, v, (f1 - 1) as nat) =~= Multiset::<i32>::empty());
                    assert(zc =~= Multiset::<i32>::empty().add(Multiset::<i32>::empty()).insert(value));
                } else {
                    assert(zc =~= Multiset::<i32>::empty());
                }
                match side {
                    Side::Left => {
                        assert(fl == Some(z) && ol is None && fr == or);
                        lemma_counts_after_hanging(o, f, p, side, z, value, v, or, f1);
                    },
                    Side::Right => {
                        assert(fr == Some(z) && or is None && fl == ol);
                        lemma_counts_after_hanging(o, f, p, side, z, value, v, ol, f1);
                    },
                }
            }
        }
    }
}

/// Cutting a leaf takes at most its value out of every subtree, and adds none.
proof fn lemma_values_after_cutting(
    o: Seq<Node>,
    f: Seq<Node>,
    p: usize,
    side: Side,
    l: usize,
    v: u32,
    link: Link,
    fuel: nat,
)
    requires
        leaf_cut(o, f, p, side, l, v),
        store_ok(o),
        link_ok(link, o.len()),
    ensures
        values_at(f, link, v, fuel).subset_of(values_at(o, link, v, fuel)),
        values_at(o, link, v, fuel).subset_of(values_at(f, link, v, fuel).insert(value_at(o[l as int], v))),
    decreases fuel,
{
    if let Some(n) = link {
        if fuel > 0 {
            assert(node_ok(o[n as int], o.len()));
            lemma_reads_ok(o[n as int], v, o.len());
            let f1 = (fuel - 1) as nat;
            let x = value_at(o[l as int], v);
            lemma_values_after_cutting(o, f, p, side, l, v, left_at(o[n as int], v), f1);
            lemma_values_after_cutting(o, f, p, side, l, v, right_at(o[n as int], v), f1);
            if n == p {
                let other = child_at(o[p as int], other_side(side), v);
                lemma_values_after_cutting(o, f, p, side, l, v, other, f1);
                assert(values_at(o, Some(l), v, f1).subset_of(Set::<i32>::empty().insert(x))) by {
                    if f1 > 0 {
                        assert(values_at(o, None, v, (f1 - 1) as nat) =~= Set::<i32>::empty());
                    }
                }
                assert(values_at(f, None, v, f1) =~= Set::<i32>::empty());
            }
        }
    }
}

/// Hanging a leaf adds its value to exactly the subtrees that reach its parent.
proof fn lemma_values_after_hanging(
    o: Seq<Node>,
    f: Seq<Node>,
    p: usize,
    side: Side,
    z: usize,
    value: i32,
    v: u32,
    link: Link,
    fuel: nat,
)
    requires
        leaf_hung(o, f, p, side, z, value, v),
        store_ok(o),
        link_ok(link, o.len()),
    ensures
        values_at(f, link, v, fuel) == (if reaches(o, link, p, v, fuel) {
            values_at(o, link, v, fuel).insert(value)
        } else {
            values_at(o, link, v, fuel)
        }),
    decreases fuel,
{
    if let Some(n) = link {
        if fuel > 0 {
            assert(node_ok(o[n as int], o.len()));
            lemma_reads_ok(o[n as int], v, o.len());
            let f1 = (fuel - 1) as nat;
            let ol = left_at(o[n as int], v);
            let or = right_at(o[n as int], v);
            lemma_values_after_hanging(o, f, p, side, z, value, v, ol, f1);
            lemma_values_after_hanging(o, f, p, side, z, value, v, or, f1);
            if n == p {
                let zv = values_at(f, Some(z), v, f1);
                assert(values_at(f, None, v, (f1 - 1) as nat) =~= Set::<i32>::empty()) by {
                }
                if f1 > 0 {
                    assert(zv =~= Set::<i32>::empty().insert(value));
                } else {
                    assert(zv =~= Set::<i32>::empty());
                }
                assert(values_at(o, None, v, f1) =~= Set::<i32>::empty());
                match side {
                    Side::Left => {
                        assert(values_at(f, link, v, fuel) =~= (if reaches(o, link, p, v, fuel) {
                            values_at(o, link, v, fuel).insert(value)
                        } else {
                            values_at(o, link, v, fuel)
                        }));
                    },
                    Side::Right => {
                        assert(values_at(f, link, v, fuel) =~= (if reaches(o, link, p, v, fuel) {
                            values_at(o, link, v, fuel).insert(value)
                        } else {
                            values_at(o, link, v, fuel)
                        }));
                    },
                }
            } else {
                assert(values_at(f, link, v, fuel) =~= (if reaches(o, link, p, v, fuel) {
                    values_at(o, link, v, fuel).insert(value)
                } else {
                    values_at(o, link, v, fuel)
                }));
            }
        }
    }
}

/// Hanging a red leaf under a black node keeps every subtree's black height, on trees
/// whose nodes all have a level to spare within `fuel`.
proof fn lemma_black_height_after_hanging(
    o: Seq<Node>,
    f: Seq<Node>,
    p: usize,
    side: Side,
    z: usize,
    value: i32,
    v: u32,
    link: Link,
    fuel: nat,
)
    requires
        leaf_hung(o, f, p, side, z, value, v),
        color_at(o[p as int], v) == Color::Black,
        store_ok(o),
        link_ok(link, o.len()),
        height_within(o, link, v, (fuel - 1) as nat),
        fuel > 0,
    ensures
        black_height(f, link, v, fuel) == black_height(o, link, v, fuel),
        is_red_link(f, link, v) == is_red_link(o, link, v),
    decreases fuel,
{
    if let Some(n) = link {
        assert(node_ok(o[n as int], o.len()));
        lemma_reads_ok(o[n as int], v, o.len());
        let f1 = (fuel - 1) as nat;
        let ol = left_at(o[n as int], v);
        let or = right_at(o[n as int], v);
        if ol is Some {
            lemma_black_height_after_hanging(o, f, p, side, z, value, v, ol, f1);
        }
        if or is Some {
            lemma_black_height_after_hanging(o, f, p, side, z, value, v, or, f1);
        }
        if n == p {
            assert(f1 > 0);
            assert(black_height(f, None, v, (f1 - 1) as nat) == Some(0nat));
            assert(black_height(f, Some(z), v, f1) == Some(0nat));
            assert(is_red_link(f, Some(z), v));
        }
    }
}

/// On a tree of bounded height, the node the insertion search ends at is in the tree
/// with a level to spare below it.
proof fn lemma_insertion_parent_reached(nodes: Seq<Node>, link: Link, value: i32, version: u32, last: Link, fuel: nat)
    requires
        link is Some,
        fuel > 0,
        height_within(nodes, link, version, (fuel - 1) as nat),
    ensures
        insertion_parent(nodes, link, value, version, last, fuel) matches Some(p) && reaches(nodes, link, p, version, fuel),
    decreases fuel,
{
    let n = link->0;
    let next = child_at(nodes[n as int], side_for(value, nodes[n as int], version), version);
    assert(insertion_parent(nodes, link, value, version, last, fuel) == insertion_parent(
        nodes,
        next,
        value,
        version,
        Some(n),
        (fuel - 1) as nat,
    ));
    if next is Some {
        lemma_insertion_parent_reached(nodes, next, value, version, Some(n), (fuel - 1) as nat);
    }
}

/// Recording a change of child at `p` (with new child `link`) at `v` copies `p` and every
/// node above it up to a root, which is black.
pub open spec fn copies_to_black_root(o: Seq<Node>, p: usize, link: Link, v: u32) -> bool {
    match climb(o, p, link, Set::empty(), Set::empty(), v, WALK_LIMIT as nat) {
        Some((true, t)) => color_at(o[t as int], v) == Color::Black,
        _ => false,
    }
}

/// Hanging a new node under a black parent whose copying climbs to a black root: the
/// new root made is black and without a parent, the new node's parent is black, and the
/// new root's tree holds the new node's value.
proof fn lemma_hang_to_root(
    o: Seq<Node>,
    s1: Seq<Node>,
    s2: Seq<Node>,
    p: usize,
    side: Side,
    z: usize,
    value: i32,
    version: u32,
    root: Link,
)
    requires
        store_ok(o),
        store_ok(s1),
        z == o.len(),
        s1.len() == o.len() + 1,
        s1.len() <= usize::MAX,
        forall|i: int| 0 <= i < o.len() ==> #[trigger] s1[i] == o[i],
        p < o.len(),
        value_at(s2[z as int], version) == value,
        exists|r: usize| {
            &&& update_effect(s1, s2, p, ModKind::Position(side, Some(z)), version, (r, root))
            &&& cascade_effect(s1, s2, p, ModKind::Position(side, Some(z)), version, (r, root), WALK_LIMIT as nat)
        },
        color_at(o[p as int], version) == Color::Black,
        copies_to_black_root(o, p, Some(z), version),
    ensures
        root is Some,
        s1.len() <= root->0,
        s2[root->0 as int].parent is None,
        color_at(s2[root->0 as int], version) == Color::Black,
        insert_needs_no_fixup(s2, z, version),
        exists|k: nat| values_at(s2, root, version, k).contains(value),
{
    let kind = ModKind::Position(side, Some(z));
    let r = choose|r: usize| {
        &&& update_effect(s1, s2, p, kind, version, (r, root))
        &&& cascade_effect(s1, s2, p, kind, version, (r, root), WALK_LIMIT as nat)
    };
    lemma_climb_after_push(o, s1, p, Some(z), version, WALK_LIMIT as nat);
    let c = climb(s1, p, Some(z), Set::empty(), Set::empty(), version, WALK_LIMIT as nat);
    assert(c is Some);
    let t = (c->0).1;
    assert(s1[p as int] == o[p as int]);
    assert(node_ok(o[p as int], o.len() as nat));
    lemma_reads_ok(o[p as int], version, o.len() as nat);
    assert(right_at(s1[p as int], version) != Some(z));
    assert(s2[z as int].parent == Some((r, side)));
    assert(child_at(s2[r as int], side, version) == Some(z));
    let top = root->0;
    assert(links_up(s2, r, top, version, WALK_LIMIT as nat));
    assert(links_up(s2, z, top, version, (WALK_LIMIT + 1) as nat));
    lemma_climb_stop(o, p, Some(z), Set::empty(), Set::empty(), version, WALK_LIMIT as nat);
    assert(s1[t as int] == o[t as int]);
    assert(color_at(s2[top as int], version) == Color::Black);
    assert(color_at(s2[r as int], version) == Color::Black);
    lemma_links_up_values(s2, z, top, version, (WALK_LIMIT + 1) as nat, 1);
    assert(values_at(s2, Some(z), version, 1).contains(value));
    assert(values_at(s2, root, version, (1 + WALK_LIMIT + 1) as nat).contains(value));
}

/// Inserts `value` at `version` into the tree whose root is `root`: a new red node is hung
/// under the node that the insertion search ends at (to its left if `value` is at most
/// that node's value), and the red-black properties are restored by `rb_insert_fixup`.
/// Returns the root of the version if it changed. The new node is the last one of the
/// store.
pub fn insert(nodes: &mut Vec<Node>, root: usize, value: i32, version: u32) -> (r: Link)
    requires
        store_ok(old(nodes)@),
        root < old(nodes).len(),
    ensures
        grows(old(nodes)@, final(nodes)@, version),
        link_ok(r, final(nodes).len() as nat),
        old(nodes).len() < final(nodes).len(),
        final(nodes)[old(nodes).len() as int].value == value,
        final(nodes)[old(nodes).len() as int].left is None,
        final(nodes)[old(nodes).len() as int].right is None,
        final(nodes)[old(nodes).len() as int].color == Color::Red,
        // under a black parent, when hanging the node copies the parent and every node
        // above it up to a black root: the new root that copying made is reported, it has
        // no parent, and its tree holds `value`
        ({
            let o = old(nodes)@;
            let f = final(nodes)@;
            let p = insertion_parent(o, Some(root), value, version, None, WALK_LIMIT as nat)->0;
            (color_at(o[p as int], version) == Color::Black && copies_to_black_root(o, p, Some(o.len() as usize), version)) ==> {
                &&& r is Some
                &&& o.len() < r->0
                &&& f[r->0 as int].parent is None
                &&& exists|k: nat| values_at(f, r, version, k).contains(value)
            }
        }),
        // under a black parent with room, in a tree whose red root has a full log and no
        // parent, painting the root black copies it, and the copy is reported as the new root
        ({
            let o = old(nodes)@;
            let p = insertion_parent(o, Some(root), value, version, None, WALK_LIMIT as nat)->0;
            (color_at(o[p as int], version) == Color::Black && has_room(o[p as int]) && color_at(o[root as int], version)
                == Color::Red && !has_room(o[root as int]) && o[root as int].parent is None) ==> {
                &&& r is Some
                &&& o.len() < r->0
            }
        }),
        // when hanging the node copies its parent and every node above it up to a root,
        // the insertion reports a new root
        ({
            let o = old(nodes)@;
            let p = insertion_parent(o, Some(root), value, version, None, WALK_LIMIT as nat)->0;
            climb(o, p, Some(o.len() as usize), Set::empty(), Set::empty(), version, WALK_LIMIT as nat) matches Some((true, _))
                ==> r is Some
        }),
        // no node's value changes, and the new node holds `value`
        values_kept(old(nodes)@, final(nodes)@, version),
        value_at(final(nodes)@[old(nodes).len() as int], version) == value,
        // under a black parent whose log has room, in a tree with a black root, the new
        // node is just hung on the side the search took
        ({
            let o = old(nodes)@;
            let f = final(nodes)@;
            let p = insertion_parent(o, Some(root), value, version, None, WALK_LIMIT as nat)->0;
            let side = if value <= value_at(o[p as int], version) { Side::Left } else { Side::Right };
            let z = o.len() as usize;
            (color_at(o[p as int], version) == Color::Black && has_room(o[p as int]) && color_at(o[root as int], version)
                == Color::Black) ==> {
                &&& r is None
                &&& f.len() == o.len() + 1
                &&& child_at(f[p as int], side, version) == Some(z)
                &&& child_at(f[p as int], other_side(side), version) == child_at(o[p as int], other_side(side), version)
                &&& f[z as int].parent == Some((p, side))
                &&& f[z as int].mods.len() == 0
                &&& forall|i: int| 0 <= i < o.len() && i != p ==> (#[trigger] f[i]).mods@ == o[i].mods@
                // the values of the tree are the old ones and `value`
                &&& height_within(o, Some(root), version, (WALK_LIMIT - 1) as nat) ==> values_at(
                    f,
                    Some(root),
                    version,
                    WALK_LIMIT as nat,
                ) == values_at(o, Some(root), version, WALK_LIMIT as nat).insert(value)
                // counted with repeats, in a tree that meets each node once: one more `value`
                &&& (height_within(o, Some(root), version, (WALK_LIMIT - 1) as nat) && meets_each_once(
                    o,
                    Some(root),
                    version,
                    WALK_LIMIT as nat,
                )) ==> value_counts(f, Some(root), version, WALK_LIMIT as nat) == value_counts(
                    o,
                    Some(root),
                    version,
                    WALK_LIMIT as nat,
                ).insert(value)
                // and a red-black tree stays one, with the same black height
                &&& (height_within(o, Some(root), version, (WALK_LIMIT - 1) as nat) && red_black_at(o, root, version, WALK_LIMIT as nat))
                    ==> red_black_at(f, root, version, WALK_LIMIT as nat) && black_height(f, Some(root), version, WALK_LIMIT as nat)
                        == black_height(o, Some(root), version, WALK_LIMIT as nat)
            }
        }),
{
    let ghost orig = nodes@;
    proof {
        lemma_insertion_parent_ok(orig, Some(root), value, version, None, WALK_LIMIT as nat);
    }
    if let Some(parent) = find_parent_for_insertion(nodes, Some(root), value, version, None) {
        let parent_value = nodes[parent].get_value(version);
        let new_node = nodes.len();
        nodes.push(Node { value, color: Color::Red, left: None, right: None, parent: None, mods: Vec::new() });
        let ghost s1 = nodes@;
        proof {
            lemma_plain_growth(orig, s1, version);
        }
        let side = if value <= parent_value {
            Side::Left
        } else {
            Side::Right
        };
        let final_root = Node::update(nodes, parent, ModKind::Position(side, Some(new_node)), version);
        let ghost s2 = nodes@;
        proof {
            lemma_grows_trans(orig, s1, s2, version);
            assert(node_history(s1[new_node as int], s2[new_node as int], version));
        }
        let final_root_unwrapped = match final_root {
            Some(r) => r,
            None => root,
        };
        proof {
            if color_at(orig[parent as int], version) == Color::Black && has_room(orig[parent as int])
                && color_at(orig[root as int], version) == Color::Black {
                let q = choose|q: usize| update_effect(s1, s2, parent, ModKind::Position(side, Some(new_node)), version, (q, final_root));
                assert(s1[parent as int] == orig[parent as int]);
                assert(s2[new_node as int].parent == Some((parent, side)));
                assert(insert_needs_no_fixup(s2, new_node, version));
                if root != parent {
                    assert(node_history(s1[root as int], s2[root as int], version));
                    assert(s1[root as int] == orig[root as int]);
                    lemma_same_reads(s2[root as int], s1[root as int], version);
                }
            }
        }
        proof {
            let p0 = insertion_parent(orig, Some(root), value, version, None, WALK_LIMIT as nat)->0;
            if climb(orig, p0, Some(orig.len() as usize), Set::empty(), Set::empty(), version, WALK_LIMIT as nat) matches Some((true, _)) {
                lemma_climb_after_push(orig, s1, parent, Some(new_node), version, WALK_LIMIT as nat);
                let q = choose|q: usize| cascade_effect(s1, s2, parent, ModKind::Position(side, Some(new_node)), version, (q, final_root), WALK_LIMIT as nat);
                assert(climb(s1, parent, Some(new_node), Set::empty(), Set::empty(), version, WALK_LIMIT as nat) is Some);
                assert(final_root is Some);
            }
        }
        let ghost copied_to_black_root = color_at(orig[parent as int], version) == Color::Black
            && copies_to_black_root(orig, parent, Some(orig.len() as usize), version);
        proof {
            if copied_to_black_root {
                let q1 = choose|q: usize| update_effect(s1, s2, parent, ModKind::Position(side, Some(new_node)), version, (q, final_root));
                lemma_update_keeps_values(s1, s2, parent, ModKind::Position(side, Some(new_node)), version, (q1, final_root));
                assert(s1[new_node as int].mods@ =~= Seq::<Mod>::empty());
                assert(value_at(s2[new_node as int], version) == value_at(s1[new_node as int], version));
                assert forall|i: int| 0 <= i < orig.len() implies #[trigger] s1[i] == orig[i] by {}
                lemma_hang_to_root(orig, s1, s2, parent, side, new_node, value, version, final_root);
            }
        }
        let ghost red_full_root = color_at(orig[parent as int], version) == Color::Black && has_room(orig[parent as int])
            && color_at(orig[root as int], version) == Color::Red && !has_room(orig[root as int]) && orig[root as int].parent is None;
        proof {
            if red_full_root {
                let q1 = choose|q: usize| update_effect(s1, s2, parent, ModKind::Position(side, Some(new_node)), version, (q, final_root));
                assert(s1[parent as int] == orig[parent as int]);
                assert(s1[root as int] == orig[root as int]);
                assert(root != parent);
                assert(final_root is None);
                assert(node_history(s1[root as int], s2[root as int], version));
                assert(s2[root as int].mods@ == s1[root as int].mods@);
                lemma_same_reads(s2[root as int], s1[root as int], version);
                assert(s2[new_node as int].parent == Some((parent, side)));
                assert(node_history(s1[parent as int], s2[parent as int], version));
                assert(color_at(s2[parent as int], version) == Color::Black);
                assert(insert_needs_no_fixup(s2, new_node, version));
                assert(s2[root as int].parent is None);
            }
        }
        let root_fixup = rb_insert_fixup(nodes, new_node, version, final_root_unwrapped);
        proof {
            if copied_to_black_root {
                assert(nodes@ == s2 && root_fixup is None);
            }
            if red_full_root {
                let q2 = choose|q: usize| update_effect(s2, nodes@, root, ModKind::Color(Color::Black), version, (q, root_fixup));
                assert(root_fixup is Some);
            }
        }
        proof {
            let q0 = choose|q: usize| update_effect(s1, s2, parent, ModKind::Position(side, Some(new_node)), version, (q, final_root));
            lemma_update_keeps_values(s1, s2, parent, ModKind::Position(side, Some(new_node)), version, (q0, final_root));
            assert(values_kept(orig, s1, version)) by {
                assert forall|i: int| 0 <= i < orig.len() implies #[trigger] value_at(s1[i], version) == value_at(orig[i], version) by {
                    assert(s1[i] == orig[i]);
                }
            }
            lemma_values_kept_trans(orig, s1, s2, version);
            lemma_values_kept_trans(orig, s2, nodes@, version);
            assert(s1[new_node as int].mods@ =~= Seq::<Mod>::empty());
            assert(value_at(nodes@[new_node as int], version) == value_at(s2[new_node as int], version));
            assert(value_at(s2[new_node as int], version) == value_at(s1[new_node as int], version));
            lemma_grows_trans(orig, s2, nodes@, version);
            assert(node_history(s2[new_node as int], nodes@[new_node as int], version));
            let f = nodes@;
            if color_at(orig[parent as int], version) == Color::Black && has_room(orig[parent as int])
                && color_at(orig[root as int], version) == Color::Black
                && height_within(orig, Some(root), version, (WALK_LIMIT - 1) as nat) {
                lemma_height_mono(orig, Some(root), version, (WALK_LIMIT - 1) as nat, WALK_LIMIT as nat);
                lemma_insertion_parent_has_room(orig, Some(root), value, version, None, WALK_LIMIT as nat);
                lemma_insertion_parent_reached(orig, Some(root), value, version, None, WALK_LIMIT as nat);
                assert forall|i: int| 0 <= i < orig.len() && i != parent implies {
                    &&& left_at(#[trigger] f[i], version) == left_at(orig[i], version)
                    &&& right_at(f[i], version) == right_at(orig[i], version)
                    &&& value_at(f[i], version) == value_at(orig[i], version)
                    &&& color_at(f[i], version) == color_at(orig[i], version)
                } by {
                    assert(node_history(orig[i], f[i], version));
                    lemma_same_reads(f[i], orig[i], version);
                }
                assert(node_history(orig[parent as int], s1[parent as int], version));
                assert(f[new_node as int].mods@.len() == 0);
                assert(f[new_node as int].mods@ =~= Seq::<Mod>::empty());
                assert(color_at(f[new_node as int], version) == Color::Red);
                assert(leaf_hung(orig, f, parent, side, new_node, value, version));
                lemma_values_after_hanging(orig, f, parent, side, new_node, value, version, Some(root), WALK_LIMIT as nat);
                lemma_counts_after_hanging(orig, f, parent, side, new_node, value, version, Some(root), WALK_LIMIT as nat);
                if meets_each_once(orig, Some(root), version, WALK_LIMIT as nat) {
                    broadcast use vstd::multiset::group_multiset_axioms;
                    lemma_reaches_visits(orig, Some(root), parent, version, WALK_LIMIT as nat);
                    assert(visits(orig, Some(root), parent, version, WALK_LIMIT as nat) <= 1);
                    let cf = value_counts(f, Some(root), version, WALK_LIMIT as nat);
                    let co = value_counts(orig, Some(root), version, WALK_LIMIT as nat);
                    assert forall|x: i32| #[trigger] cf.count(x) == co.insert(value).count(x) by {}
                    assert(cf =~= co.insert(value));
                }
                lemma_black_height_after_hanging(orig, f, parent, side, new_node, value, version, Some(root), WALK_LIMIT as nat);
            }
        }
        if root_fixup.is_some() {
            root_fixup
        } else {
            final_root
        }
    } else {
        None
    }
}


pub open spec fn other_side(s: Side) -> Side {
    match s {
        Side::Left => Side::Right,
        Side::Right => Side::Left,
    }
}

fn opposite(s: Side) -> (o: Side)
    ensures
        o == other_side(s),
{
    match s {
        Side::Left => Side::Right,
        Side::Right => Side::Left,
    }
}

/// Rotates `n` towards `s`: a left rotation for `Side::Left`, a right one for
/// `Side::Right`. The store stays an extension of `orig`.
fn rotate_toward(nodes: &mut Vec<Node>, s: Side, n: usize, version: u32, Ghost(orig): Ghost<Seq<Node>>) -> (res: (Link, usize))
    requires
        grows(orig, old(nodes)@, version),
        values_kept(orig, old(nodes)@, version),
        n < old(nodes).len(),
        child_at(old(nodes)@[n as int], other_side(s), version) is Some,
    ensures
        grows(orig, final(nodes)@, version),
        values_kept(orig, final(nodes)@, version),
        link_ok(res.0, final(nodes).len() as nat),
        res.1 < final(nodes).len(),
        old(nodes).len() <= final(nodes).len(),
{
    let ghost before = nodes@;
    let res = match s {
        Side::Left => left_rotate(nodes, n, version),
        Side::Right => right_rotate(nodes, n, version),
    };
    proof {
        lemma_grows_trans(orig, before, nodes@, version);
        lemma_values_kept_trans(orig, before, nodes@, version);
    }
    res
}

/// The parent of node `n`, if it has one.
fn parent_of(nodes: &Vec<Node>, n: usize) -> (p: Option<usize>)
    requires
        store_ok(nodes@),
        n < nodes.len(),
    ensures
        p == match nodes@[n as int].parent {
            Some((q, _)) => Some(q),
            None => None::<usize>,
        },
        p matches Some(q) ==> q < nodes.len(),
{
    proof {
        assert(node_ok(nodes@[n as int], nodes.len() as nat));
    }
    match nodes[n].parent {
        Some((q, _)) => Some(q),
        None => None,
    }
}

/// The node `x_init` that took the place of a black node is red or the root at `version`:
/// painting it black is all the repair needed.
pub open spec fn delete_needs_no_fixup(nodes: Seq<Node>, x_init: Link, version: u32) -> bool {
    x_init matches Some(x) && (color_at(nodes[x as int], version) == Color::Red || nodes[x as int].parent is None)
}

/// Restores the red-black properties at `version` after a black node was taken out,
/// following the deletion fix-up of Cormen et al.: `x_init` is the node that took its
/// place, and `parent_of_none` says under which node and on which side it stands when it
/// is an empty subtree. While `x` is a black non-root node: a red sibling is turned black
/// by a rotation; a sibling with two black children is painted red and `x` moves up;
/// otherwise one or two rotations end the fix-up. The node `x` stops at is painted black.
/// Returns the root of the version if it changed. Where the tree does not have the shape
/// the algorithm relies on (a sibling, a parent, or the child a rotation needs), the
/// fix-up stops there; and it makes at most `WALK_LIMIT` passes.
pub fn rb_delete_fixup(nodes: &mut Vec<Node>, x_init: Link, version: u32, parent_of_none: Option<(usize, Side)>) -> (root: Link)
    requires
        store_ok(old(nodes)@),
        link_ok(x_init, old(nodes).len() as nat),
        parent_of_none matches Some((p, _)) ==> p < old(nodes).len(),
    ensures
        grows(old(nodes)@, final(nodes)@, version),
        link_ok(root, final(nodes).len() as nat),
        // nothing to repair: no node and no place
        x_init is None && parent_of_none is None ==> final(nodes)@ == old(nodes)@ && root is None,
        // a red node, or the root, that took the place is just painted black
        delete_needs_no_fixup(old(nodes)@, x_init, version) ==> exists|r: usize|
            update_effect(old(nodes)@, final(nodes)@, x_init->0, ModKind::Color(Color::Black), version, (r, root)),
        // colours and links change, values never do
        values_kept(old(nodes)@, final(nodes)@, version),
{
    let ghost orig = nodes@;
    let ghost calm = delete_needs_no_fixup(orig, x_init, version) || (x_init is None && parent_of_none is None);
    proof {
        lemma_grows_refl(orig, version);
    }
    let mut current_x = x_init;
    let mut current_parent_info = parent_of_none;
    let mut root_acc: Link = None;
    let mut steps = WALK_LIMIT;
    loop
        invariant_except_break
            calm ==> steps == WALK_LIMIT && nodes@ == orig && root_acc is None && current_x == x_init
                && current_parent_info == parent_of_none,
        invariant
            calm == (delete_needs_no_fixup(orig, x_init, version) || (x_init is None && parent_of_none is None)),
            link_ok(x_init, orig.len() as nat),
            grows(orig, nodes@, version),
            values_kept(orig, nodes@, version),
            link_ok(current_x, nodes.len() as nat),
            current_parent_info matches Some((p, _)) ==> p < nodes.len(),
            link_ok(root_acc, nodes.len() as nat),
            orig.len() <= nodes.len(),
        ensures
            grows(orig, nodes@, version),
            values_kept(orig, nodes@, version),
            link_ok(current_x, nodes.len() as nat),
            link_ok(root_acc, nodes.len() as nat),
            orig.len() <= nodes.len(),
            calm ==> nodes@ == orig && root_acc is None && current_x == x_init,
        decreases steps,
    {
        if steps == 0 {
            break;
        }
        steps = steps - 1;
        if let Some(node) = current_x {
            let color = nodes[node].get_color(version);
            if color == Color::Red || parent_of(nodes, node).is_none() {
                break;
            }
        }
        let (cp, side) = if let Some(node) = current_x {
            proof {
                assert(node_ok(nodes@[node as int], nodes.len() as nat));
            }
            match nodes[node].parent {
                Some(info) => info,
                None => break,
            }
        } else if let Some(info) = current_parent_info {
            info
        } else {
            break;
        };
        let far = opposite(side);
        proof {
            assert(node_ok(nodes@[cp as int], nodes.len() as nat));
            lemma_reads_ok(nodes@[cp as int], version, nodes.len() as nat);
        }
        let mut w = match nodes[cp].get_field_by_side(far, version) {
            Some(w) => w,
            None => break,
        };
        if nodes[w].get_color(version) == Color::Red {
            // red sibling: make it black and rotate it above the parent
            let (new_w, r1) = paint(nodes, w, Color::Black, version, Ghost(orig));
            if r1.is_some() {
                root_acc = r1;
            }
            let p_f = match parent_of(nodes, new_w) {
                Some(q) => q,
                None => break,
            };
            let (new_p, r2) = paint(nodes, p_f, Color::Red, version, Ghost(orig));
            if r2.is_some() {
                root_acc = r2;
            }
            proof {
                assert(node_ok(nodes@[new_p as int], nodes.len() as nat));
            }
            if nodes[new_p].get_field_by_side(far, version).is_none() {
                break;
            }
            let (new_root, new_p_post) = rotate_toward(nodes, side, new_p, version, Ghost(orig));
            if new_root.is_some() {
                root_acc = new_root;
            }
            proof {
                assert(node_ok(nodes@[new_p_post as int], nodes.len() as nat));
                lemma_reads_ok(nodes@[new_p_post as int], version, nodes.len() as nat);
            }
            w = match nodes[new_p_post].get_field_by_side(far, version) {
                Some(w2) => w2,
                None => break,
            };
        }
        proof {
            assert(node_ok(nodes@[w as int], nodes.len() as nat));
            lemma_reads_ok(nodes@[w as int], version, nodes.len() as nat);
        }
        let near_c = link_color(nodes, nodes[w].get_field_by_side(side, version), version);
        let far_c = link_color(nodes, nodes[w].get_field_by_side(far, version), version);
        if near_c == Color::Black && far_c == Color::Black {
            // sibling with two black children: paint it red and move up
            let (new_w, r) = paint(nodes, w, Color::Red, version, Ghost(orig));
            if r.is_some() {
                root_acc = r;
            }
            let p_f = match parent_of(nodes, new_w) {
                Some(q) => q,
                None => break,
            };
            current_x = Some(p_f);
            current_parent_info = None;
        } else {
            if far_c == Color::Black {
                // the near child of the sibling is red: rotate it into the sibling's place
                if let Some(wn) = nodes[w].get_field_by_side(side, version) {
                    let (_, r) = paint(nodes, wn, Color::Black, version, Ghost(orig));
                    if r.is_some() {
                        root_acc = r;
                    }
                }
                let (new_w, r) = paint(nodes, w, Color::Red, version, Ghost(orig));
                if r.is_some() {
                    root_acc = r;
                }
                proof {
                    assert(node_ok(nodes@[new_w as int], nodes.len() as nat));
                }
                if nodes[new_w].get_field_by_side(side, version).is_none() {
                    break;
                }
                let (new_root, node_below) = rotate_toward(nodes, far, new_w, version, Ghost(orig));
                if new_root.is_some() {
                    root_acc = new_root;
                }
                w = match parent_of(nodes, node_below) {
                    Some(q) => q,
                    None => break,
                };
            }
            // the far child of the sibling is red: the final rotation
            let p_actual = if let Some(node) = current_x {
                match parent_of(nodes, node) {
                    Some(q) => q,
                    None => break,
                }
            } else {
                match current_parent_info {
                    Some((q, _)) => q,
                    None => break,
                }
            };
            let p_color = nodes[p_actual].get_color(version);
            let (new_w, r1) = paint(nodes, w, p_color, version, Ghost(orig));
            if r1.is_some() {
                root_acc = r1;
            }
            let mut final_w = new_w;
            proof {
                assert(node_ok(nodes@[final_w as int], nodes.len() as nat));
                lemma_reads_ok(nodes@[final_w as int], version, nodes.len() as nat);
            }
            if let Some(wf) = nodes[final_w].get_field_by_side(far, version) {
                let (new_wf, r3) = paint(nodes, wf, Color::Black, version, Ghost(orig));
                if r3.is_some() {
                    root_acc = r3;
                }
                final_w = match parent_of(nodes, new_wf) {
                    Some(q) => q,
                    None => break,
                };
            }
            let p_f_last = match parent_of(nodes, final_w) {
                Some(q) => q,
                None => break,
            };
            let (new_p_final, r2) = paint(nodes, p_f_last, Color::Black, version, Ghost(orig));
            if r2.is_some() {
                root_acc = r2;
            }
            proof {
                assert(node_ok(nodes@[new_p_final as int], nodes.len() as nat));
            }
            if nodes[new_p_final].get_field_by_side(far, version).is_none() {
                break;
            }
            let (new_root, _) = rotate_toward(nodes, side, new_p_final, version, Ghost(orig));
            if new_root.is_some() {
                root_acc = new_root;
            }
            current_x = root_acc;
            break;
        }
    }
    if let Some(x) = current_x {
        let ghost before = nodes@;
        let (q, r) = Node::update_with_node(nodes, x, ModKind::Color(Color::Black), version);
        proof {
            lemma_grows_trans(orig, before, nodes@, version);
            lemma_update_keeps_values(before, nodes@, x, ModKind::Color(Color::Black), version, (q, r));
            lemma_values_kept_trans(orig, before, nodes@, version);
        }
        if r.is_some() {
            return r;
        }
        return root_acc;
    }
    root_acc
}


/// After a node with two children took the value of its successor (the leftmost node
/// under `right_node`): every other node reads the value it read before, and the node,
/// if its log had room, reads the successor's value.
pub open spec fn successor_value_taken(o: Seq<Node>, f: Seq<Node>, n: usize, right_node: usize, version: u32) -> bool {
    &&& o.len() <= f.len()
    &&& forall|i: int| 0 <= i < o.len() && i != n ==> #[trigger] value_at(f[i], version) == value_at(o[i], version)
    &&& has_room(o[n as int]) ==> value_at(f[n as int], version)
        == value_at(o[leftmost(o, right_node, version, WALK_LIMIT as nat) as int], version)
}

/// Keeping values after the successor's value was taken keeps that.
proof fn lemma_successor_value_kept(o: Seq<Node>, m: Seq<Node>, f: Seq<Node>, n: usize, right_node: usize, version: u32)
    requires
        successor_value_taken(o, m, n, right_node, version),
        values_kept(m, f, version),
        n < o.len(),
    ensures
        successor_value_taken(o, f, n, right_node, version),
{
    assert forall|i: int| 0 <= i < o.len() && i != n implies #[trigger] value_at(f[i], version) == value_at(o[i], version) by {
        assert(value_at(f[i], version) == value_at(m[i], version));
    }
    assert(value_at(f[n as int], version) == value_at(m[n as int], version));
}

/// Takes out a node with two children at `version`: it gets the value of its successor
/// (the leftmost node of its right subtree `right_node`), the successor is replaced by
/// its right subtree, and if the successor was black the deletion fix-up runs from there.
/// Returns the root of the version if it changed; `None` also where the successor has
/// no parent, which a tree never shows.
fn remove_with_successor(nodes: &mut Vec<Node>, node_to_remove: usize, right_node: usize, version: u32) -> (root: Link)
    requires
        store_ok(old(nodes)@),
        node_to_remove < old(nodes).len(),
        right_node < old(nodes).len(),
    ensures
        grows(old(nodes)@, final(nodes)@, version),
        link_ok(root, final(nodes).len() as nat),
        successor_value_taken(old(nodes)@, final(nodes)@, node_to_remove, right_node, version),
{
    let ghost orig = nodes@;
    proof {
        lemma_grows_refl(orig, version);
    }
    let succ = find_min(nodes, right_node, version);
    let color_y = nodes[succ].get_color(version);
    let val = nodes[succ].get_value(version);
    let root_after_update = Node::update(nodes, node_to_remove, ModKind::Value(val), version);
    let ghost s1 = nodes@;
    proof {
        let q = choose|q: usize| update_effect(orig, s1, node_to_remove, ModKind::Value(val), version, (q, root_after_update));
        lemma_update_keeps_other_values(orig, s1, node_to_remove, ModKind::Value(val), version, (q, root_after_update));
        assert(successor_value_taken(orig, s1, node_to_remove, right_node, version));
        lemma_grows_trans(orig, orig, s1, version);
        assert(node_ok(nodes@[succ as int], nodes.len() as nat));
        lemma_reads_ok(nodes@[succ as int], version, nodes.len() as nat);
    }
    let (succ_parent, s_side) = match nodes[succ].parent {
        Some(info) => info,
        None => return None,
    };
    let x = nodes[succ].get_right(version);
    let root_after_removal = Node::update(nodes, succ_parent, ModKind::Position(s_side, x), version);
    let ghost s2 = nodes@;
    proof {
        lemma_grows_trans(orig, s1, s2, version);
        let q = choose|q: usize| update_effect(s1, s2, succ_parent, ModKind::Position(s_side, x), version, (q, root_after_removal));
        lemma_update_keeps_values(s1, s2, succ_parent, ModKind::Position(s_side, x), version, (q, root_after_removal));
        lemma_successor_value_kept(orig, s1, s2, node_to_remove, right_node, version);
    }
    let final_root = if root_after_removal.is_some() {
        root_after_removal
    } else {
        root_after_update
    };
    if color_y == Color::Black {
        let fixup_root = rb_delete_fixup(nodes, x, version, Some((succ_parent, s_side)));
        proof {
            lemma_grows_trans(orig, s2, nodes@, version);
            lemma_successor_value_kept(orig, s2, nodes@, node_to_remove, right_node, version);
        }
        if fixup_root.is_some() {
            fixup_root
        } else {
            final_root
        }
    } else {
        final_root
    }
}

/// Giving `p` the child `x` on `side`, when that copies `p` and every node above it up to a
/// root: the new root is reported and has no parent, and the node standing for `p` hangs
/// under it, holding `x` there, with its other child and its value as before.
proof fn lemma_cut_to_root(o: Seq<Node>, f: Seq<Node>, p: usize, side: Side, x: Link, version: u32, root: Link)
    requires
        store_ok(o),
        p < o.len(),
        exists|r: usize| {
            &&& update_effect(o, f, p, ModKind::Position(side, x), version, (r, root))
            &&& cascade_effect(o, f, p, ModKind::Position(side, x), version, (r, root), WALK_LIMIT as nat)
            &&& copy_reads(o, f, p, ModKind::Position(side, x), version, r)
        },
        climb(o, p, x, Set::empty(), Set::empty(), version, WALK_LIMIT as nat) matches Some((true, _)),
    ensures
        root is Some,
        o.len() <= root->0,
        f[root->0 as int].parent is None,
        exists|q: usize, k: nat| {
            &&& links_up(f, q, root->0, version, k)
            &&& child_at(f[q as int], side, version) == x
            &&& child_at(f[q as int], other_side(side), version) == child_at(o[p as int], other_side(side), version)
            &&& value_at(f[q as int], version) == value_at(o[p as int], version)
        },
{
    let kind = ModKind::Position(side, x);
    let r = choose|r: usize| {
        &&& update_effect(o, f, p, kind, version, (r, root))
        &&& cascade_effect(o, f, p, kind, version, (r, root), WALK_LIMIT as nat)
        &&& copy_reads(o, f, p, kind, version, r)
    };
    let c = climb(o, p, x, Set::empty(), Set::empty(), version, WALK_LIMIT as nat);
    assert(c is Some);
    assert(o[p as int].mods.len() >= MAX_MODS_SIZE);
    assert(links_up(f, r, root->0, version, WALK_LIMIT as nat));
    match side {
        Side::Left => {
            assert(child_at(f[r as int], side, version) == x);
        },
        Side::Right => {
            assert(child_at(f[r as int], side, version) == x);
        },
    }
}

/// An update whose copying climbs to a root hands back a new root.
proof fn lemma_copy_to_root_reported(o: Seq<Node>, f: Seq<Node>, this: usize, kind: ModKind, version: u32, root: Link)
    requires
        exists|q: usize| cascade_effect(o, f, this, kind, version, (q, root), WALK_LIMIT as nat),
    ensures
        climb(o, this, kind_link(kind), Set::empty(), Set::empty(), version, WALK_LIMIT as nat) matches Some((true, _))
            ==> root is Some,
{
    let q = choose|q: usize| cascade_effect(o, f, this, kind, version, (q, root), WALK_LIMIT as nat);
    if climb(o, this, kind_link(kind), Set::empty(), Set::empty(), version, WALK_LIMIT as nat) is Some {
    }
}

/// Takes out node `node_to_remove`, which has at most one child `x` and hangs on `side` of
/// `parent`: `x` takes its place, and when a black node left, `rb_delete_fixup` repairs.
fn cut_out(
    nodes: &mut Vec<Node>,
    node_to_remove: usize,
    parent: usize,
    side: Side,
    x: Link,
    color_removed: Color,
    version: u32,
) -> (root: Link)
    requires
        store_ok(old(nodes)@),
        node_to_remove < old(nodes).len(),
        old(nodes)@[node_to_remove as int].parent == Some((parent, side)),
        !(left_at(old(nodes)@[node_to_remove as int], version) is Some && right_at(old(nodes)@[node_to_remove as int], version) is Some),
        x == or_link(left_at(old(nodes)@[node_to_remove as int], version), right_at(old(nodes)@[node_to_remove as int], version)),
        color_removed == color_at(old(nodes)@[node_to_remove as int], version),
    ensures
        grows(old(nodes)@, final(nodes)@, version),
        link_ok(root, final(nodes).len() as nat),
        values_kept(old(nodes)@, final(nodes)@, version),
        color_removed == Color::Red ==> exists|q: usize|
            update_effect(old(nodes)@, final(nodes)@, parent, ModKind::Position(side, x), version, (q, root)),
        (color_removed == Color::Red && x is None && parent != node_to_remove && has_room(old(nodes)@[parent as int])
            && child_at(old(nodes)@[parent as int], side, version) == Some(node_to_remove)) ==> forall|link: Link, fuel: nat|
            link_ok(link, old(nodes)@.len()) ==> {
                &&& (#[trigger] values_at(final(nodes)@, link, version, fuel)).subset_of(values_at(old(nodes)@, link, version, fuel))
                &&& values_at(old(nodes)@, link, version, fuel).subset_of(
                    values_at(final(nodes)@, link, version, fuel).insert(value_at(old(nodes)@[node_to_remove as int], version)),
                )
                &&& forall|x: i32| #[trigger] value_counts(old(nodes)@, link, version, fuel).count(x)
                    == value_counts(final(nodes)@, link, version, fuel).count(x) + (if x == value_at(old(nodes)@[node_to_remove as int], version) {
                        visits(old(nodes)@, link, parent, version, fuel)
                    } else {
                        0
                    })
                &&& (fuel > 0 && height_within(old(nodes)@, link, version, (fuel - 1) as nat) && black_height(old(nodes)@, link, version, fuel) is Some)
                    ==> black_height(final(nodes)@, link, version, fuel) == black_height(old(nodes)@, link, version, fuel)
                        && is_red_link(final(nodes)@, link, version) == is_red_link(old(nodes)@, link, version)
            },
        climb(old(nodes)@, parent, x, Set::empty(), Set::empty(), version, WALK_LIMIT as nat) matches Some((true, _)) ==> root is Some,
        (color_removed == Color::Red && climb(old(nodes)@, parent, x, Set::empty(), Set::empty(), version, WALK_LIMIT as nat) matches Some((true, _))) ==> {
            &&& root is Some
            &&& old(nodes)@.len() <= root->0
            &&& final(nodes)@[root->0 as int].parent is None
            &&& exists|q: usize, k: nat| {
                &&& links_up(final(nodes)@, q, root->0, version, k)
                &&& child_at(final(nodes)@[q as int], side, version) == x
                &&& child_at(final(nodes)@[q as int], other_side(side), version) == child_at(old(nodes)@[parent as int], other_side(side), version)
                &&& value_at(final(nodes)@[q as int], version) == value_at(old(nodes)@[parent as int], version)
            }
        },
{
    let ghost orig = nodes@;
    proof {
        assert(node_ok(orig[node_to_remove as int], orig.len() as nat));
        lemma_reads_ok(orig[node_to_remove as int], version, orig.len() as nat);
        lemma_grows_refl(orig, version);
    }
    let root_after_pos = Node::update(nodes, parent, ModKind::Position(side, x), version);
    let ghost s1 = nodes@;
    proof {
        lemma_grows_trans(orig, orig, s1, version);
        let q0 = choose|q: usize| update_effect(orig, s1, parent, ModKind::Position(side, x), version, (q, root_after_pos));
        lemma_update_keeps_values(orig, s1, parent, ModKind::Position(side, x), version, (q0, root_after_pos));
        lemma_copy_to_root_reported(orig, s1, parent, ModKind::Position(side, x), version, root_after_pos);
        if color_removed == Color::Red && climb(orig, parent, x, Set::empty(), Set::empty(), version, WALK_LIMIT as nat) matches Some((true, _)) {
            assert({
                &&& root_after_pos is Some
                &&& orig.len() <= root_after_pos->0
                &&& s1[root_after_pos->0 as int].parent is None
                &&& exists|q: usize, k: nat| {
                    &&& links_up(s1, q, root_after_pos->0, version, k)
                    &&& child_at(s1[q as int], side, version) == x
                    &&& child_at(s1[q as int], other_side(side), version) == child_at(orig[parent as int], other_side(side), version)
                    &&& value_at(s1[q as int], version) == value_at(orig[parent as int], version)
                }
            }) by {
                lemma_cut_to_root(orig, s1, parent, side, x, version, root_after_pos);
            }
        }
        if color_removed == Color::Red && x is None && parent != node_to_remove && has_room(orig[parent as int])
            && child_at(orig[parent as int], side, version) == Some(node_to_remove) {
            let q = choose|q: usize| update_effect(orig, s1, parent, ModKind::Position(side, x), version, (q, root_after_pos));
            assert forall|i: int| 0 <= i < orig.len() && i != parent implies {
                &&& left_at(#[trigger] s1[i], version) == left_at(orig[i], version)
                &&& right_at(s1[i], version) == right_at(orig[i], version)
                &&& value_at(s1[i], version) == value_at(orig[i], version)
                &&& color_at(s1[i], version) == color_at(orig[i], version)
            } by {
                assert(node_history(orig[i], s1[i], version));
                lemma_same_reads(s1[i], orig[i], version);
            }
            assert(leaf_cut(orig, s1, parent, side, node_to_remove, version));
            assert forall|link: Link, fuel: nat| link_ok(link, orig.len()) implies {
                &&& (#[trigger] values_at(s1, link, version, fuel)).subset_of(values_at(orig, link, version, fuel))
                &&& values_at(orig, link, version, fuel).subset_of(
                    values_at(s1, link, version, fuel).insert(value_at(orig[node_to_remove as int], version)),
                )
                &&& forall|x: i32| #[trigger] value_counts(orig, link, version, fuel).count(x)
                    == value_counts(s1, link, version, fuel).count(x) + (if x == value_at(orig[node_to_remove as int], version) {
                        visits(orig, link, parent, version, fuel)
                    } else {
                        0
                    })
                &&& (fuel > 0 && height_within(orig, link, version, (fuel - 1) as nat) && black_height(orig, link, version, fuel) is Some)
                    ==> black_height(s1, link, version, fuel) == black_height(orig, link, version, fuel)
                        && is_red_link(s1, link, version) == is_red_link(orig, link, version)
            } by {
                lemma_values_after_cutting(orig, s1, parent, side, node_to_remove, version, link, fuel);
                lemma_counts_after_cutting(orig, s1, parent, side, node_to_remove, version, link, fuel);
                if fuel > 0 && height_within(orig, link, version, (fuel - 1) as nat) && black_height(orig, link, version, fuel) is Some {
                    lemma_black_height_after_cutting(orig, s1, parent, side, node_to_remove, version, link, fuel);
                }
            }
        }
    }
    if color_removed == Color::Black {
        let fixup_root = rb_delete_fixup(nodes, x, version, Some((parent, side)));
        proof {
            lemma_grows_trans(orig, s1, nodes@, version);
            lemma_values_kept_trans(orig, s1, nodes@, version);
        }
        if fixup_root.is_some() {
            fixup_root
        } else {
            root_after_pos
        }
    } else {
        proof {
            let q0 = choose|q: usize| update_effect(orig, s1, parent, ModKind::Position(side, x), version, (q, root_after_pos));
            assert(update_effect(orig, nodes@, parent, ModKind::Position(side, x), version, (q0, root_after_pos)));
        }
        root_after_pos
    }
}

/// Takes node `node_to_remove` out of its tree at `version`, as Cormen et al. do: a node
/// with at most one child is replaced by that child under its parent (a root by the child,
/// which loses its parent); a node with two children takes the value of its successor,
/// which is taken out in its place. When a black node left the tree, `rb_delete_fixup`
/// restores the red-black properties. Returns the root of the version if it changed;
/// taking out a childless root gives `None`.
pub fn remove(nodes: &mut Vec<Node>, node_to_remove: usize, version: u32) -> (root: Link)
    requires
        store_ok(old(nodes)@),
        node_to_remove < old(nodes).len(),
    ensures
        grows(old(nodes)@, final(nodes)@, version),
        link_ok(root, final(nodes).len() as nat),
        // a red node under a parent: its child takes its place, nothing else happens
        ({
            let o = old(nodes)@;
            let n = o[node_to_remove as int];
            let x = or_link(left_at(n, version), right_at(n, version));
            !(left_at(n, version) is Some && right_at(n, version) is Some) ==> ((n.parent is Some && color_at(n, version) == Color::Red ==> exists|q: usize|
                    update_effect(o, final(nodes)@, (n.parent->0).0, ModKind::Position((n.parent->0).1, x), version, (q, root))))
        }),
        // a red leaf that its parent (whose log has room) holds: at most its value
        // leaves any subtree, and no value comes in
        ({
            let o = old(nodes)@;
            let n = o[node_to_remove as int];
            let x = or_link(left_at(n, version), right_at(n, version));
            !(left_at(n, version) is Some && right_at(n, version) is Some) ==> (((n.parent is Some && color_at(n, version) == Color::Red && x is None
                    && (n.parent->0).0 != node_to_remove && has_room(o[(n.parent->0).0 as int])
                    && child_at(o[(n.parent->0).0 as int], (n.parent->0).1, version) == Some(node_to_remove))
                    ==> forall|link: Link, fuel: nat| link_ok(link, o.len()) ==> {
                        &&& (#[trigger] values_at(final(nodes)@, link, version, fuel)).subset_of(values_at(o, link, version, fuel))
                        &&& values_at(o, link, version, fuel).subset_of(
                            values_at(final(nodes)@, link, version, fuel).insert(value_at(n, version)),
                        )
                        // counted with repeats: its value leaves once for each time the walk
                        // meets the parent
                        &&& forall|x: i32| #[trigger] value_counts(o, link, version, fuel).count(x)
                            == value_counts(final(nodes)@, link, version, fuel).count(x) + (if x == value_at(n, version) {
                                visits(o, link, (n.parent->0).0, version, fuel)
                            } else {
                                0
                            })
                        // red-black subtrees keep their black height
                        &&& (fuel > 0 && height_within(o, link, version, (fuel - 1) as nat) && black_height(o, link, version, fuel) is Some)
                            ==> black_height(final(nodes)@, link, version, fuel) == black_height(o, link, version, fuel)
                                && is_red_link(final(nodes)@, link, version) == is_red_link(o, link, version)
                    }))
        }),
        // a childless root: nothing happens
        ({
            let o = old(nodes)@;
            let n = o[node_to_remove as int];
            let x = or_link(left_at(n, version), right_at(n, version));
            !(left_at(n, version) is Some && right_at(n, version) is Some) ==> ((n.parent is None && x is None ==> final(nodes)@ == o && root is None))
        }),
        // a red root with one child: the child becomes the root
        ({
            let o = old(nodes)@;
            let n = o[node_to_remove as int];
            let x = or_link(left_at(n, version), right_at(n, version));
            !(left_at(n, version) is Some && right_at(n, version) is Some) ==> ((n.parent is None && color_at(n, version) == Color::Red && x is Some ==> root == x
                    && final(nodes)@ == o.update(x->0 as int, Node { parent: None, ..o[x->0 as int] })))
        }),
        // links and colours change, no value does
        ({
            let o = old(nodes)@;
            let n = o[node_to_remove as int];
            let x = or_link(left_at(n, version), right_at(n, version));
            !(left_at(n, version) is Some && right_at(n, version) is Some) ==> (values_kept(o, final(nodes)@, version))
        }),
        // when cutting the node out copies its parent and every node above it up to a
        // root, the removal reports a new root
        ({
            let o = old(nodes)@;
            let n = o[node_to_remove as int];
            let x = or_link(left_at(n, version), right_at(n, version));
            (n.parent is Some && !(left_at(n, version) is Some && right_at(n, version) is Some) && climb(
                o,
                (n.parent->0).0,
                x,
                Set::empty(),
                Set::empty(),
                version,
                WALK_LIMIT as nat,
            ) matches Some((true, _))) ==> root is Some
        }),
        // a red node with at most one child, when cutting it out copies its parent and
        // every node above it up to a root: the new root is reported and has no parent,
        // and the node standing for the parent hangs under it, holding the removed node's
        // child in its place, with its other child and its value as before
        ({
            let o = old(nodes)@;
            let f = final(nodes)@;
            let n = o[node_to_remove as int];
            let x = or_link(left_at(n, version), right_at(n, version));
            let (pp, side) = n.parent->0;
            (n.parent is Some && color_at(n, version) == Color::Red && !(left_at(n, version) is Some && right_at(n, version) is Some)
                && climb(o, pp, x, Set::empty(), Set::empty(), version, WALK_LIMIT as nat) matches Some((true, _))) ==> {
                &&& root is Some
                &&& o.len() <= root->0
                &&& f[root->0 as int].parent is None
                &&& exists|q: usize, k: nat| {
                    &&& links_up(f, q, root->0, version, k)
                    &&& child_at(f[q as int], side, version) == x
                    &&& child_at(f[q as int], other_side(side), version) == child_at(o[pp as int], other_side(side), version)
                    &&& value_at(f[q as int], version) == value_at(o[pp as int], version)
                }
            }
        }),
        // a node with two children takes the value of its successor, which leaves in its
        // place; no other node's value changes
        ({
            let o = old(nodes)@;
            let n = o[node_to_remove as int];
            (left_at(n, version) is Some && right_at(n, version) is Some) ==> successor_value_taken(
                o,
                final(nodes)@,
                node_to_remove,
                right_at(n, version)->0,
                version,
            )
        }),
{
    let ghost orig = nodes@;
    proof {
        lemma_grows_refl(orig, version);
        assert(node_ok(orig[node_to_remove as int], orig.len() as nat));
        lemma_reads_ok(orig[node_to_remove as int], version, orig.len() as nat);
    }
    let color_removed = nodes[node_to_remove].get_color(version);
    let left_child = nodes[node_to_remove].get_left(version);
    let right_child = nodes[node_to_remove].get_right(version);
    let parent_info = nodes[node_to_remove].parent;
    if let Some((parent, side)) = parent_info {
        if left_child.is_some() && right_child.is_some() {
            remove_with_successor(nodes, node_to_remove, right_child.unwrap(), version)
        } else {
            let x = if left_child.is_some() {
                left_child
            } else {
                right_child
            };
            cut_out(nodes, node_to_remove, parent, side, x, color_removed, version)
        }
    } else {
        if left_child.is_some() && right_child.is_some() {
            remove_with_successor(nodes, node_to_remove, right_child.unwrap(), version)
        } else {
            let x = if left_child.is_some() {
                left_child
            } else {
                right_child
            };
            if let Some(x_node) = x {
                nodes[x_node].parent = None;
                proof {
                    lemma_plain_growth(orig, nodes@, version);
                    lemma_parent_change_keeps_values(orig, nodes@, version);
                }
                if color_removed == Color::Black {
                    let ghost s1 = nodes@;
                    let fixup_root = rb_delete_fixup(nodes, Some(x_node), version, None);
                    proof {
                        lemma_grows_trans(orig, s1, nodes@, version);
                        lemma_values_kept_trans(orig, s1, nodes@, version);
                    }
                    return if fixup_root.is_some() {
                        fixup_root
                    } else {
                        x
                    };
                }
                return Some(x_node);
            }
            None
        }
    }
}

} // verus!
