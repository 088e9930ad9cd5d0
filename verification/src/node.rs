use vstd::prelude::*;

verus! {

/// At most this many modifications are stored in a node before it is copied.
pub const MAX_MODS_SIZE: usize = 10;

/// The most steps a walk up or down a tree takes. A tree of this height would need far
/// more nodes than a memory holds, so only a chain of links that loops meets the limit.
pub const WALK_LIMIT: usize = 0xffff_ffff;

/// Which child of a node a link is.
#[derive(Clone, Copy, Debug, PartialEq, Eq, Structural)]
pub enum Side {
    Left,
    Right,
}

/// The colour of a red-black node.
#[derive(Clone, Copy, Debug, PartialEq, Eq, Structural)]
pub enum Color {
    Red,
    Black,
}

/// A handle to a node: its index in the node store, or `None` for an empty subtree.
pub type Link = Option<usize>;

/// One change recorded in a node for a version.
#[derive(Clone, Copy, Debug, PartialEq, Eq, Structural)]
pub enum ModKind {
    Position(Side, Link),
    Color(Color),
    Value(i32),
}

/// A change together with the version from which it is visible.
#[derive(Clone, Copy, Debug, PartialEq, Eq, Structural)]
pub struct Mod {
    pub version: u32,
    pub kind: ModKind,
}

/// A fat node: its fields as created, plus a log of later changes.
/// `parent` is not versioned: it always describes the latest version.
pub struct Node {
    pub value: i32,
    pub left: Link,
    pub right: Link,
    pub color: Color,
    pub parent: Option<(usize, Side)>,
    pub mods: Vec<Mod>,
}

/// The latest change in `mods` that `p` selects and whose version is at most `v`.
pub open spec fn last_match(mods: Seq<Mod>, v: u32, p: spec_fn(ModKind) -> bool) -> Option<ModKind>
    decreases mods.len(),
{
    if mods.len() == 0 {
        None
    } else if mods.last().version <= v && p(mods.last().kind) {
        Some(mods.last().kind)
    } else {
        last_match(mods.drop_last(), v, p)
    }
}

pub open spec fn is_left_mod(k: ModKind) -> bool {
    k matches ModKind::Position(Side::Left, _)
}

pub open spec fn is_right_mod(k: ModKind) -> bool {
    k matches ModKind::Position(Side::Right, _)
}

pub open spec fn is_value_mod(k: ModKind) -> bool {
    k is Value
}

pub open spec fn is_color_mod(k: ModKind) -> bool {
    k is Color
}

pub open spec fn left_sel() -> spec_fn(ModKind) -> bool {
    |k: ModKind| is_left_mod(k)
}

pub open spec fn right_sel() -> spec_fn(ModKind) -> bool {
    |k: ModKind| is_right_mod(k)
}

pub open spec fn value_sel() -> spec_fn(ModKind) -> bool {
    |k: ModKind| is_value_mod(k)
}

pub open spec fn color_sel() -> spec_fn(ModKind) -> bool {
    |k: ModKind| is_color_mod(k)
}

/// The left child of `n` as seen at version `v`.
pub open spec fn left_at(n: Node, v: u32) -> Link {
    match last_match(n.mods@, v, left_sel()) {
        Some(ModKind::Position(_, l)) => l,
        _ => n.left,
    }
}

/// The right child of `n` as seen at version `v`.
pub open spec fn right_at(n: Node, v: u32) -> Link {
    match last_match(n.mods@, v, right_sel()) {
        Some(ModKind::Position(_, r)) => r,
        _ => n.right,
    }
}

/// The value of `n` as seen at version `v`.
pub open spec fn value_at(n: Node, v: u32) -> i32 {
    match last_match(n.mods@, v, value_sel()) {
        Some(ModKind::Value(x)) => x,
        _ => n.value,
    }
}

/// The colour of `n` as seen at version `v`.
pub open spec fn color_at(n: Node, v: u32) -> Color {
    match last_match(n.mods@, v, color_sel()) {
        Some(ModKind::Color(c)) => c,
        _ => n.color,
    }
}

/// The child of `n` on `side` as seen at version `v`.
pub open spec fn child_at(n: Node, side: Side, v: u32) -> Link {
    match side {
        Side::Left => left_at(n, v),
        Side::Right => right_at(n, v),
    }
}

pub open spec fn link_ok(l: Link, len: nat) -> bool {
    l matches Some(i) ==> i < len
}

pub open spec fn kind_ok(k: ModKind, len: nat) -> bool {
    k matches ModKind::Position(_, l) ==> link_ok(l, len)
}

/// Every handle held by `n` names a node of a store of `len` nodes, and its log is not
/// longer than `MAX_MODS_SIZE`.
pub open spec fn node_ok(n: Node, len: nat) -> bool {
    &&& link_ok(n.left, len)
    &&& link_ok(n.right, len)
    &&& (n.parent matches Some((p, _)) ==> p < len)
    &&& n.mods.len() <= MAX_MODS_SIZE
    &&& forall|j: int| 0 <= j < n.mods.len() ==> #[trigger] kind_ok(n.mods@[j].kind, len)
}

/// The well-formedness of a node store: every handle in it names one of its nodes.
pub open spec fn store_ok(nodes: Seq<Node>) -> bool {
    forall|i: int| 0 <= i < nodes.len() ==> #[trigger] node_ok(nodes[i], nodes.len())
}

/// `b` is `a` with changes appended to its log, all of them for version `ver`;
/// its created fields are those of `a`.
pub open spec fn node_history(a: Node, b: Node, ver: u32) -> bool {
    &&& b.value == a.value
    &&& b.left == a.left
    &&& b.right == a.right
    &&& b.color == a.color
    &&& a.mods.len() <= b.mods.len()
    &&& forall|j: int| 0 <= j < a.mods.len() ==> #[trigger] b.mods@[j] == a.mods@[j]
    &&& forall|j: int| a.mods.len() <= j < b.mods.len() ==> #[trigger] b.mods@[j].version == ver
}

/// `new` extends `old` by a change made at version `ver`: nodes are only added, and all
/// changes in the logs of `new` that `old` does not hold are for `ver`.
pub open spec fn keeps_history(old: Seq<Node>, new: Seq<Node>, ver: u32) -> bool {
    &&& old.len() <= new.len()
    &&& forall|i: int| 0 <= i < old.len() ==> #[trigger] node_history(old[i], new[i], ver)
    &&& forall|i: int, j: int| old.len() <= i < new.len() && 0 <= j < new[i].mods.len() ==> (#[trigger] new[i].mods@[j]).version == ver
}

/// `b` is `a` with changes appended to its log, all of them for versions after `cur`;
/// its created fields are those of `a`.
pub open spec fn node_extends(a: Node, b: Node, cur: u32) -> bool {
    &&& b.value == a.value
    &&& b.left == a.left
    &&& b.right == a.right
    &&& b.color == a.color
    &&& a.mods.len() <= b.mods.len()
    &&& forall|j: int| 0 <= j < a.mods.len() ==> #[trigger] b.mods@[j] == a.mods@[j]
    &&& forall|j: int| a.mods.len() <= j < b.mods.len() ==> #[trigger] b.mods@[j].version > cur
}

/// `new` grew out of `old` by changes for versions after `cur`: nodes are only added, and
/// the nodes of `old` only get changes for later versions appended to their logs.
pub open spec fn extends(old: Seq<Node>, new: Seq<Node>, cur: u32) -> bool {
    &&& old.len() <= new.len()
    &&& forall|i: int| 0 <= i < old.len() ==> #[trigger] node_extends(old[i], new[i], cur)
}

proof fn lemma_last_match_step(mods: Seq<Mod>, v: u32, p: spec_fn(ModKind) -> bool, i: int)
    requires
        0 < i <= mods.len(),
    ensures
        last_match(mods.take(i), v, p) == (if mods[i - 1].version <= v && p(mods[i - 1].kind) {
            Some(mods[i - 1].kind)
        } else {
            last_match(mods.take(i - 1), v, p)
        }),
{
    assert(mods.take(i).drop_last() =~= mods.take(i - 1));
}

/// Changes appended at versions later than `w` are invisible at `w`.
proof fn lemma_last_match_later(a: Seq<Mod>, b: Seq<Mod>, w: u32, p: spec_fn(ModKind) -> bool)
    requires
        a.len() <= b.len(),
        forall|j: int| 0 <= j < a.len() ==> #[trigger] b[j] == a[j],
        forall|j: int| a.len() <= j < b.len() ==> #[trigger] b[j].version > w,
    ensures
        last_match(b, w, p) == last_match(a, w, p),
    decreases b.len(),
{
    if b.len() == a.len() {
        assert(a =~= b);
    } else {
        assert(b[b.len() - 1].version > w);
        lemma_last_match_later(a, b.drop_last(), w, p);
    }
}

/// A change that `p` does not select leaves the reading through `p` as it was.
pub proof fn lemma_last_match_push_other(a: Seq<Mod>, m: Mod, v: u32, p: spec_fn(ModKind) -> bool)
    requires
        !p(m.kind),
    ensures
        last_match(a.push(m), v, p) == last_match(a, v, p),
{
    assert(a.push(m).drop_last() =~= a);
}

/// A change appended last, at the version read, is what the reading gives.
pub proof fn lemma_last_match_push_same(a: Seq<Mod>, m: Mod, p: spec_fn(ModKind) -> bool)
    requires
        p(m.kind),
    ensures
        last_match(a.push(m), m.version, p) == Some(m.kind),
{
}

/// What `last_match` finds is one of the changes in the log.
proof fn lemma_last_match_in(mods: Seq<Mod>, v: u32, p: spec_fn(ModKind) -> bool)
    ensures
        last_match(mods, v, p) matches Some(k) ==> exists|j: int|
            0 <= j < mods.len() && #[trigger] mods[j].kind == k && p(k),
    decreases mods.len(),
{
    if mods.len() > 0 {
        lemma_last_match_in(mods.drop_last(), v, p);
        if !(mods.last().version <= v && p(mods.last().kind)) {
            if let Some(k) = last_match(mods, v, p) {
                let j = choose|j: int| 0 <= j < mods.drop_last().len() && #[trigger] mods.drop_last()[j].kind == k && p(k);
                assert(mods[j].kind == k);
            }
        }
    }
}

/// The children read from a well-formed node are handles of the store.
pub proof fn lemma_reads_ok(n: Node, v: u32, len: nat)
    requires
        node_ok(n, len),
    ensures
        link_ok(left_at(n, v), len),
        link_ok(right_at(n, v), len),
        link_ok(child_at(n, Side::Left, v), len),
        link_ok(child_at(n, Side::Right, v), len),
{
    lemma_last_match_in(n.mods@, v, left_sel());
    lemma_last_match_in(n.mods@, v, right_sel());
    if let Some(k) = last_match(n.mods@, v, left_sel()) {
        let j = choose|j: int| 0 <= j < n.mods@.len() && #[trigger] n.mods@[j].kind == k && left_sel()(k);
        assert(kind_ok(n.mods@[j].kind, len));
    }
    if let Some(k) = last_match(n.mods@, v, right_sel()) {
        let j = choose|j: int| 0 <= j < n.mods@.len() && #[trigger] n.mods@[j].kind == k && right_sel()(k);
        assert(kind_ok(n.mods@[j].kind, len));
    }
}

/// A store keeps its own history.
pub proof fn lemma_keeps_history_refl(s: Seq<Node>, ver: u32)
    ensures
        keeps_history(s, s, ver),
{
    assert forall|i: int| 0 <= i < s.len() implies #[trigger] node_history(s[i], s[i], ver) by {}
}

/// Keeping the history of changes at one version composes.
pub proof fn lemma_keeps_history_trans(a: Seq<Node>, b: Seq<Node>, c: Seq<Node>, ver: u32)
    requires
        keeps_history(a, b, ver),
        keeps_history(b, c, ver),
    ensures
        keeps_history(a, c, ver),
{
    assert forall|i: int, j: int| a.len() <= i < c.len() && 0 <= j < c[i].mods.len() implies (#[trigger] c[i].mods@[j]).version == ver by {
        if i < b.len() {
            assert(node_history(b[i], c[i], ver));
            if j < b[i].mods.len() {
                assert(c[i].mods@[j] == b[i].mods@[j]);
            }
        }
    }
    assert forall|i: int| 0 <= i < a.len() implies #[trigger] node_history(a[i], c[i], ver) by {
        assert(node_history(a[i], b[i], ver));
        assert(node_history(b[i], c[i], ver));
        assert forall|j: int| 0 <= j < a[i].mods.len() implies #[trigger] c[i].mods@[j] == a[i].mods@[j] by {
            assert(c[i].mods@[j] == b[i].mods@[j]);
        }
        assert forall|j: int| a[i].mods.len() <= j < c[i].mods.len() implies #[trigger] c[i].mods@[j].version == ver by {
            if j < b[i].mods.len() {
                assert(b[i].mods@[j].version == ver);
                assert(c[i].mods@[j] == b[i].mods@[j]);
            }
        }
    }
}

impl Node {
    /// The left child at `version`: the latest left-child change whose version is at most
    /// `version`, or the left child the node was created with.
    pub fn get_left(&self, version: u32) -> (r: Link)
        ensures
            r == left_at(*self, version),
    {
        let mut i = self.mods.len();
        proof {
            assert(self.mods@.take(i as int) =~= self.mods@);
        }
        while i > 0
            invariant
                i <= self.mods.len(),
                last_match(self.mods@, version, left_sel()) == last_match(
                    self.mods@.take(i as int),
                    version,
                    left_sel(),
                ),
            decreases i,
        {
            proof {
                lemma_last_match_step(self.mods@, version, left_sel(), i as int);
            }
            let m = self.mods[i - 1];
            if m.version <= version {
                if let ModKind::Position(Side::Left, l) = m.kind {
                    return l;
                }
            }
            i = i - 1;
        }
        self.left
    }

    /// The right child at `version`: the latest right-child change whose version is at
    /// most `version`, or the right child the node was created with.
    pub fn get_right(&self, version: u32) -> (r: Link)
        ensures
            r == right_at(*self, version),
    {
        let mut i = self.mods.len();
        proof {
            assert(self.mods@.take(i as int) =~= self.mods@);
        }
        while i > 0
            invariant
                i <= self.mods.len(),
                last_match(self.mods@, version, right_sel()) == last_match(
                    self.mods@.take(i as int),
                    version,
                    right_sel(),
                ),
            decreases i,
        {
            proof {
                lemma_last_match_step(self.mods@, version, right_sel(), i as int);
            }
            let m = self.mods[i - 1];
            if m.version <= version {
                if let ModKind::Position(Side::Right, r) = m.kind {
                    return r;
                }
            }
            i = i - 1;
        }
        self.right
    }

    /// The value at `version`: the latest value change whose version is at most
    /// `version`, or the value the node was created with.
    pub fn get_value(&self, version: u32) -> (r: i32)
        ensures
            r == value_at(*self, version),
    {
        let mut i = self.mods.len();
        proof {
            assert(self.mods@.take(i as int) =~= self.mods@);
        }
        while i > 0
            invariant
                i <= self.mods.len(),
                last_match(self.mods@, version, value_sel()) == last_match(
                    self.mods@.take(i as int),
                    version,
                    value_sel(),
                ),
            decreases i,
        {
            proof {
                lemma_last_match_step(self.mods@, version, value_sel(), i as int);
            }
            let m = self.mods[i - 1];
            if m.version <= version {
                if let ModKind::Value(v) = m.kind {
                    return v;
                }
            }
            i = i - 1;
        }
        self.value
    }

    /// The colour at `version`: the latest colour change whose version is at most
    /// `version`, or the colour the node was created with.
    pub fn get_color(&self, version: u32) -> (r: Color)
        ensures
            r == color_at(*self, version),
    {
        let mut i = self.mods.len();
        proof {
            assert(self.mods@.take(i as int) =~= self.mods@);
        }
        while i > 0
            invariant
                i <= self.mods.len(),
                last_match(self.mods@, version, color_sel()) == last_match(
                    self.mods@.take(i as int),
                    version,
                    color_sel(),
                ),
            decreases i,
        {
            proof {
                lemma_last_match_step(self.mods@, version, color_sel(), i as int);
            }
            let m = self.mods[i - 1];
            if m.version <= version {
                if let ModKind::Color(c) = m.kind {
                    return c;
                }
            }
            i = i - 1;
        }
        self.color
    }

    /// The child on `side` at `version`.
    pub fn get_field_by_side(&self, side: Side, version: u32) -> (r: Link)
        ensures
            r == child_at(*self, side, version),
    {
        match side {
            Side::Left => self.get_left(version),
            Side::Right => self.get_right(version),
        }
    }
}


/// No change in the log is selected by `p`: the reading falls back to the created field.
proof fn lemma_last_match_none(mods: Seq<Mod>, v: u32, p: spec_fn(ModKind) -> bool)
    requires
        forall|j: int| 0 <= j < mods.len() ==> !p(#[trigger] mods[j].kind),
    ensures
        last_match(mods, v, p) is None,
    decreases mods.len(),
{
    if mods.len() > 0 {
        assert(!p(mods[mods.len() - 1].kind));
        lemma_last_match_none(mods.drop_last(), v, p);
    }
}

/// The parent a node has after `this` takes `new_child` in place of `old_child`:
/// the new child points back at `this`, the old one is detached if it pointed at `this`.
pub open spec fn parent_after(
    old: Seq<Node>,
    this: usize,
    side: Side,
    new_child: Link,
    old_child: Link,
    k: int,
) -> Option<(usize, Side)> {
    if new_child == Some(k as usize) {
        Some((this, side))
    } else if old_child == Some(k as usize) && (old[k].parent matches Some((q, _)) && q == this) {
        None
    } else {
        old[k].parent
    }
}

/// The fields of the copy of `n` made when a change `kind` finds its log full: the fields
/// read at `version`, with `kind` applied.
pub open spec fn copy_value(n: Node, kind: ModKind, version: u32) -> i32 {
    match kind {
        ModKind::Value(x) => x,
        _ => value_at(n, version),
    }
}

pub open spec fn copy_color(n: Node, kind: ModKind, version: u32) -> Color {
    match kind {
        ModKind::Color(c) => c,
        _ => color_at(n, version),
    }
}

pub open spec fn copy_left(n: Node, kind: ModKind, version: u32) -> Link {
    match kind {
        ModKind::Position(Side::Left, l) => l,
        _ => left_at(n, version),
    }
}

pub open spec fn copy_right(n: Node, kind: ModKind, version: u32) -> Link {
    match kind {
        ModKind::Position(Side::Right, r) => r,
        _ => right_at(n, version),
    }
}

/// The children of the copy `r` of `n` made for `kind` point back at it in `new`.
pub open spec fn copies_children_point_back(n: Node, kind: ModKind, version: u32, new: Seq<Node>, r: usize) -> bool {
    let l = copy_left(n, kind, version);
    let rt = copy_right(n, kind, version);
    &&& (l is Some && rt != l ==> new[l->0 as int].parent == Some((r, Side::Left)))
    &&& (rt is Some ==> new[rt->0 as int].parent == Some((r, Side::Right)))
}

/// When the log of `this` is full, the copy takes its place: its log is empty, its
/// children point back at it, and it is hung under the parent of `this` (whose log has
/// room) on the same side, or, without a parent, becomes the new root.
pub open spec fn copy_takes_place(
    old: Seq<Node>,
    new: Seq<Node>,
    this: usize,
    kind: ModKind,
    version: u32,
    res: (usize, Link),
) -> bool {
    let p = (old[this as int].parent->0).0;
    let s = (old[this as int].parent->0).1;
    old[this as int].mods.len() >= MAX_MODS_SIZE ==> {
        &&& (old[this as int].parent is None ==> {
            &&& res.1 == Some(res.0)
            &&& new[res.0 as int].mods.len() == 0
            &&& copies_children_point_back(old[this as int], kind, version, new, res.0)
        })
        &&& (old[this as int].parent is Some && p != this && old[p as int].mods.len() < MAX_MODS_SIZE ==> {
            &&& res.1 is None
            &&& new[res.0 as int].mods.len() == 0
            &&& new[res.0 as int].parent == Some((p, s))
            &&& child_at(new[p as int], s, version) == Some(res.0)
            &&& copies_children_point_back(old[this as int], kind, version, new, res.0)
        })
    }
}

/// The node a link names, as a set of at most one node.
pub open spec fn link_set(l: Link) -> Set<usize> {
    match l {
        Some(i) => Set::empty().insert(i),
        None => Set::empty(),
    }
}

/// The new child that a change names, if it is a change of a child.
pub open spec fn kind_link(kind: ModKind) -> Link {
    match kind {
        ModKind::Position(_, l) => l,
        _ => None,
    }
}

/// The children of `n` at `v`, as a set.
pub open spec fn children_at(n: Node, v: u32) -> Set<usize> {
    link_set(left_at(n, v)).union(link_set(right_at(n, v)))
}

/// The nodes whose parent may be redirected when `n` is copied for `kind` at `v`: its
/// children at `v` and the new child that `kind` names.
pub open spec fn copy_moves(n: Node, kind: ModKind, v: u32) -> Set<usize> {
    children_at(n, v).union(link_set(kind_link(kind)))
}

/// The climb that an update starting at node `c` makes in `nodes` at version `v`: while
/// the node's log is full it is copied and the update moves to its parent, the change
/// being the new copy (the next node of the store) as child. `Some((reached_root, stop))`
/// says that the climb ends at node `stop`, where either the log has room or, if
/// `reached_root`, there is no parent. `None` when the climb comes back to a node it
/// already passed (`visited`) or to one whose parent an earlier step redirected
/// (`moved`), when a node's children include such a node, or when it runs out of `fuel`.
pub open spec fn climb(
    nodes: Seq<Node>,
    c: usize,
    link: Link,
    visited: Set<usize>,
    moved: Set<usize>,
    v: u32,
    fuel: nat,
) -> Option<(bool, usize)>
    decreases fuel,
{
    let step = copy_moves(nodes[c as int], ModKind::Position(Side::Left, link), v);
    if c >= nodes.len() || visited.contains(c) || moved.contains(c) || !children_at(nodes[c as int], v).disjoint(moved) {
        None
    } else if nodes[c as int].mods.len() < MAX_MODS_SIZE {
        Some((false, c))
    } else if left_at(nodes[c as int], v) == Some(c) || right_at(nodes[c as int], v) == Some(c) {
        None
    } else {
        match nodes[c as int].parent {
            None => Some((true, c)),
            Some((p, _)) => if fuel == 0 {
                None
            } else {
                climb(nodes, p, Some(nodes.len() as usize), visited.insert(c), moved.union(step), v, (fuel - 1) as nat)
            },
        }
    }
}

/// The nodes whose parent the climb from `c` may redirect: at each step the children of
/// the node and the new child it takes.
pub open spec fn climb_moves(nodes: Seq<Node>, c: usize, link: Link, v: u32, fuel: nat) -> Set<usize>
    decreases fuel,
{
    let step = copy_moves(nodes[c as int], ModKind::Position(Side::Left, link), v);
    if c >= nodes.len() || nodes[c as int].mods.len() < MAX_MODS_SIZE {
        step
    } else {
        match nodes[c as int].parent {
            Some((p, _)) => if fuel == 0 {
                step
            } else {
                step.union(climb_moves(nodes, p, Some(nodes.len() as usize), v, (fuel - 1) as nat))
            },
            None => step,
        }
    }
}

/// Following parents from `c` reaches `top` within `k` steps, each step a parent that
/// holds the node as its child at `v`.
pub open spec fn links_up(nodes: Seq<Node>, c: usize, top: usize, v: u32, k: nat) -> bool
    decreases k,
{
    if c == top {
        true
    } else {
        &&& k > 0
        &&& nodes[c as int].parent is Some
        &&& child_at(nodes[(nodes[c as int].parent->0).0 as int], (nodes[c as int].parent->0).1, v) == Some(c)
        &&& links_up(nodes, (nodes[c as int].parent->0).0, top, v, (k - 1) as nat)
    }
}

/// The effect of an update on the climb it makes: a new root comes back exactly when the
/// climb reached a root; every node it creates has an empty log; only the node where the
/// climb stops gets a change appended; only the nodes the climb moves get another parent;
/// a new child named by the change points back at the node handed back, which holds it;
/// and a copy of `this` has an empty log, its children point back at it, and it hangs on
/// the side of `this` under the parent of `this` or the copy made of that parent.
pub open spec fn cascade_effect(old: Seq<Node>, new: Seq<Node>, this: usize, kind: ModKind, version: u32, res: (usize, Link), fuel: nat) -> bool {
    forall|visited: Set<usize>, moved: Set<usize>| #[trigger] climb(old, this, kind_link(kind), visited, moved, version, fuel) is Some ==> {
        let (reached, stop) = climb(old, this, kind_link(kind), visited, moved, version, fuel)->0;
        &&& (res.1 is Some <==> reached)
        &&& forall|i: int| old.len() <= i < new.len() ==> (#[trigger] new[i]).mods.len() == 0
        &&& forall|i: int| 0 <= i < old.len() && i != stop ==> (#[trigger] new[i]).mods@ == old[i].mods@
        &&& forall|i: int| 0 <= i < old.len() && !climb_moves(old, this, kind_link(kind), version, fuel).contains(i as usize)
            ==> (#[trigger] new[i]).parent == old[i].parent
        &&& match kind {
            ModKind::Position(sd, Some(c)) => (sd == Side::Right || right_at(old[this as int], version) != Some(c)) ==> {
                &&& new[c as int].parent == Some((res.0, sd))
                &&& child_at(new[res.0 as int], sd, version) == Some(c)
            },
            _ => true,
        }
        &&& (old[this as int].mods.len() >= MAX_MODS_SIZE ==> {
            &&& new[res.0 as int].mods.len() == 0
            &&& copies_children_point_back(old[this as int], kind, version, new, res.0)
        })
        &&& (old[this as int].mods.len() >= MAX_MODS_SIZE && old[this as int].parent is Some ==> {
            let (p, s) = old[this as int].parent->0;
            exists|q: usize| {
                &&& new[res.0 as int].parent == Some((q, s))
                &&& child_at(new[q as int], s, version) == Some(res.0)
                &&& (q == p || old.len() <= q)
            }
        })
        // when the climb reached a root, the node handed back hangs, parent after parent,
        // under the new root, which reads the colour of the root copied
        &&& (reached ==> links_up(new, res.0, res.1->0, version, fuel))
        &&& (reached && !(kind is Color) ==> color_at(new[res.1->0 as int], version) == color_at(old[stop as int], version))
    }
}

/// Where the climb stops is a node of the store, and the nodes the climb moves are, among
/// the nodes of the store, apart from those moved before it but for its first new child.
pub proof fn lemma_climb_stop(nodes: Seq<Node>, c: usize, link: Link, visited: Set<usize>, moved: Set<usize>, v: u32, fuel: nat)
    requires
        climb(nodes, c, link, visited, moved, v, fuel) is Some,
        store_ok(nodes),
        nodes.len() <= usize::MAX,
    ensures
        (climb(nodes, c, link, visited, moved, v, fuel)->0).1 < nodes.len(),
        forall|i: usize| i < nodes.len() && #[trigger] climb_moves(nodes, c, link, v, fuel).contains(i) && moved.contains(i)
            ==> link_set(link).contains(i),
    decreases fuel,
{
    let step = copy_moves(nodes[c as int], ModKind::Position(Side::Left, link), v);
    if nodes[c as int].mods.len() >= MAX_MODS_SIZE {
        if let Some((p, _)) = nodes[c as int].parent {
            if fuel > 0 && !(left_at(nodes[c as int], v) == Some(c) || right_at(nodes[c as int], v) == Some(c)) {
                let m2 = moved.union(step);
                lemma_climb_stop(nodes, p, Some(nodes.len() as usize), visited.insert(c), m2, v, (fuel - 1) as nat);
                assert forall|i: usize| i < nodes.len() && #[trigger] climb_moves(nodes, c, link, v, fuel).contains(i) && moved.contains(i)
                    implies link_set(link).contains(i) by {
                    if climb_moves(nodes, p, Some(nodes.len() as usize), v, (fuel - 1) as nat).contains(i) {
                        assert(m2.contains(i));
                        assert(link_set(Some(nodes.len() as usize)).contains(i) ==> i == nodes.len());
                    }
                }
            }
        }
    }
}

/// The climb sees the same in a grown store that agrees with the old one on every old
/// node it may visit, and moves the same old nodes.
proof fn lemma_climb_transfer(
    o: Seq<Node>,
    m: Seq<Node>,
    c: usize,
    lo: Link,
    lm: Link,
    vis: Set<usize>,
    mo: Set<usize>,
    mm: Set<usize>,
    v: u32,
    fuel: nat,
)
    requires
        climb(o, c, lo, vis, mo, v, fuel) is Some,
        store_ok(o),
        o.len() <= m.len(),
        m.len() <= usize::MAX,
        forall|i: usize| i < o.len() ==> (#[trigger] mo.contains(i) <==> mm.contains(i)),
        forall|i: usize| i < o.len() ==> (#[trigger] link_set(lo).contains(i) <==> link_set(lm).contains(i)),
        forall|i: int|
            0 <= i < o.len() && !mo.contains(i as usize) && !vis.contains(i as usize) ==> {
                &&& (#[trigger] m[i]).mods@ == o[i].mods@
                &&& m[i].parent == o[i].parent
                &&& m[i].left == o[i].left
                &&& m[i].right == o[i].right
            },
    ensures
        climb(m, c, lm, vis, mm, v, fuel) == climb(o, c, lo, vis, mo, v, fuel),
        forall|i: usize| i < o.len() ==> (#[trigger] climb_moves(m, c, lm, v, fuel).contains(i)
            <==> climb_moves(o, c, lo, v, fuel).contains(i)),
    decreases fuel,
{
    assert(mo.contains(c) == mm.contains(c));
    assert(m[c as int].mods@ == o[c as int].mods@);
    assert(left_at(m[c as int], v) == left_at(o[c as int], v));
    assert(right_at(m[c as int], v) == right_at(o[c as int], v));
    assert(node_ok(o[c as int], o.len() as nat));
    lemma_reads_ok(o[c as int], v, o.len() as nat);
    let ch = children_at(o[c as int], v);
    assert(children_at(m[c as int], v) == ch);
    assert forall|i: usize| #[trigger] ch.contains(i) implies i < o.len() by {}
    assert(ch.disjoint(mm)) by {
        assert forall|i: usize| ch.contains(i) implies !#[trigger] mm.contains(i) by {
            assert(!mo.contains(i));
        }
    }
    let so = copy_moves(o[c as int], ModKind::Position(Side::Left, lo), v);
    let sm = copy_moves(m[c as int], ModKind::Position(Side::Left, lm), v);
    assert forall|i: usize| i < o.len() implies (#[trigger] sm.contains(i) <==> so.contains(i)) by {
        assert(link_set(lo).contains(i) <==> link_set(lm).contains(i));
    }
    if o[c as int].mods.len() >= MAX_MODS_SIZE {
        if let Some((p, _)) = o[c as int].parent {
            if fuel > 0 && !(left_at(o[c as int], v) == Some(c) || right_at(o[c as int], v) == Some(c)) {
                let mo2 = mo.union(so);
                let mm2 = mm.union(sm);
                assert forall|i: usize| i < o.len() implies (#[trigger] mo2.contains(i) <==> mm2.contains(i)) by {
                    assert(mo.contains(i) <==> mm.contains(i));
                    assert(sm.contains(i) <==> so.contains(i));
                }
                assert forall|i: usize| i < o.len() implies (#[trigger] link_set(Some(o.len() as usize)).contains(i) <==> link_set(
                    Some(m.len() as usize),
                ).contains(i)) by {}
                lemma_climb_transfer(o, m, p, Some(o.len() as usize), Some(m.len() as usize), vis.insert(c), mo2, mm2, v, (fuel - 1) as nat);
                assert(climb_moves(o, c, lo, v, fuel) == so.union(climb_moves(o, p, Some(o.len() as usize), v, (fuel - 1) as nat)));
                assert(climb_moves(m, c, lm, v, fuel) == sm.union(climb_moves(m, p, Some(m.len() as usize), v, (fuel - 1) as nat)));
            }
        }
    }
}

/// A copy made along a climb that passes no node twice reads, at `version`, the copied
/// fields with the change applied.
pub open spec fn copy_reads(o: Seq<Node>, f: Seq<Node>, this: usize, kind: ModKind, version: u32, r: usize) -> bool {
    (o[this as int].mods.len() >= MAX_MODS_SIZE && climb(o, this, kind_link(kind), Set::empty(), Set::empty(), version, WALK_LIMIT as nat) is Some)
        ==> {
        &&& left_at(f[r as int], version) == copy_left(o[this as int], kind, version)
        &&& right_at(f[r as int], version) == copy_right(o[this as int], kind, version)
        &&& value_at(f[r as int], version) == copy_value(o[this as int], kind, version)
        &&& color_at(f[r as int], version) == copy_color(o[this as int], kind, version)
    }
}

/// Adding a node at the end of the store leaves a climb through the old nodes as it was.
pub proof fn lemma_climb_after_push(o: Seq<Node>, s: Seq<Node>, c: usize, link: Link, v: u32, fuel: nat)
    requires
        store_ok(o),
        s.len() == o.len() + 1,
        s.len() <= usize::MAX,
        forall|i: int| 0 <= i < o.len() ==> #[trigger] s[i] == o[i],
        climb(o, c, link, Set::empty(), Set::empty(), v, fuel) is Some,
    ensures
        climb(s, c, link, Set::empty(), Set::empty(), v, fuel) == climb(o, c, link, Set::empty(), Set::empty(), v, fuel),
{
    lemma_climb_transfer(o, s, c, link, link, Set::empty(), Set::empty(), Set::empty(), v, fuel);
}

/// A climb reads the same at any version after the last one the store holds changes for.
pub proof fn lemma_climb_after(nodes: Seq<Node>, c: usize, link: Link, vis: Set<usize>, mv: Set<usize>, cur: u32, w: u32, fuel: nat)
    requires
        versions_upto(nodes, cur),
        cur <= w,
    ensures
        climb(nodes, c, link, vis, mv, w, fuel) == climb(nodes, c, link, vis, mv, cur, fuel),
    decreases fuel,
{
    if c < nodes.len() {
        assert forall|j: int| 0 <= j < nodes[c as int].mods.len() implies (#[trigger] nodes[c as int].mods@[j]).version <= cur by {}
        lemma_reads_after(nodes[c as int], cur, w);
        let sw = copy_moves(nodes[c as int], ModKind::Position(Side::Left, link), w);
        let sc = copy_moves(nodes[c as int], ModKind::Position(Side::Left, link), cur);
        assert(sw == sc);
        assert(children_at(nodes[c as int], w) == children_at(nodes[c as int], cur));
        if let Some((p, _)) = nodes[c as int].parent {
            if fuel > 0 {
                lemma_climb_after(nodes, p, Some(nodes.len() as usize), vis.insert(c), mv.union(sc), cur, w, (fuel - 1) as nat);
            }
        }
    }
}

/// What an update of node `this` with `kind` at `version` does to the store `old`,
/// giving `new` and the result `res` (the node that now carries the change, and the
/// new root if the change reached one).
pub open spec fn update_effect(
    old: Seq<Node>,
    new: Seq<Node>,
    this: usize,
    kind: ModKind,
    version: u32,
    res: (usize, Link),
) -> bool {
    &&& store_ok(new)
    &&& keeps_history(old, new, version)
    &&& res.0 < new.len()
    &&& link_ok(res.1, new.len())
    // the node handed back reads, at `version`, the written field, and its other
    // value and colour as before
    &&& (kind matches ModKind::Value(x) ==> value_at(new[res.0 as int], version) == x)
    &&& (kind matches ModKind::Color(c) ==> color_at(new[res.0 as int], version) == c)
    &&& (!(kind is Value) ==> value_at(new[res.0 as int], version) == value_at(old[this as int], version))
    &&& (!(kind is Color) ==> color_at(new[res.0 as int], version) == color_at(old[this as int], version))
    // only position changes are made anywhere else
    &&& (kind is Position ==> forall|i: int, j: int|
        0 <= i < old.len() && old[i].mods.len() <= j < new[i].mods.len()
            ==> (#[trigger] new[i].mods@[j]).kind is Position)
    &&& forall|i: int, j: int|
        0 <= i < old.len() && old[i].mods.len() <= j < new[i].mods.len()
            ==> (#[trigger] new[i].mods@[j]).kind is Position || (i == this && new[i].mods@[j].kind == kind)
    &&& forall|i: int, j: int|
        old.len() <= i < new.len() && 0 <= j < new[i].mods.len() ==> (#[trigger] new[i].mods@[j]).kind is Position
    // the fields a node was made with never change
    &&& forall|i: int| 0 <= i < old.len() ==> {
        &&& (#[trigger] new[i]).left == old[i].left
        &&& new[i].right == old[i].right
        &&& new[i].value == old[i].value
        &&& new[i].color == old[i].color
    }
    // room in the log: the change is appended there, nothing is copied
    &&& (old[this as int].mods.len() < MAX_MODS_SIZE ==> {
        &&& res == (this, None::<usize>)
        &&& new.len() == old.len()
        &&& new[this as int].mods@ == old[this as int].mods@.push(Mod { version, kind })
        &&& forall|i: int| 0 <= i < old.len() && i != this ==> (#[trigger] new[i]).mods@ == old[i].mods@
        &&& forall|i: int| 0 <= i < old.len() ==> #[trigger] new[i].parent == match kind {
            ModKind::Position(side, l) => parent_after(old, this, side, l, child_at(old[this as int], side, version), i),
            _ => old[i].parent,
        }
        &&& (kind matches ModKind::Position(side, l) ==> child_at(new[this as int], side, version) == l)
        &&& (kind matches ModKind::Position(Side::Left, _) ==> right_at(new[this as int], version) == right_at(old[this as int], version))
        &&& (kind matches ModKind::Position(Side::Right, _) ==> left_at(new[this as int], version) == left_at(old[this as int], version))
    })
    // full log: a copy is made, its parent is redirected to it
    &&& (old[this as int].mods.len() >= MAX_MODS_SIZE ==> {
        &&& res.0 == old.len()
        &&& new[res.0 as int].value == copy_value(old[this as int], kind, version)
        &&& new[res.0 as int].color == copy_color(old[this as int], kind, version)
        &&& new[res.0 as int].left == copy_left(old[this as int], kind, version)
        &&& new[res.0 as int].right == copy_right(old[this as int], kind, version)
        &&& (old[this as int].parent is None ==> res.1 == Some(res.0) && new.len() == old.len() + 1)
    })
    // a new root is always a fresh copy without a parent
    &&& (res.1 matches Some(r) ==> old.len() <= r && new[r as int].parent is None)
}

/// Clears the parent of `child` if it is `p`.
fn detach_if_parent_is(nodes: &mut Vec<Node>, child: usize, p: usize)
    requires
        child < old(nodes).len(),
    ensures
        final(nodes).len() == old(nodes).len(),
        forall|i: int| 0 <= i < old(nodes).len() && i != child ==> #[trigger] final(nodes)[i] == old(nodes)[i],
        final(nodes)[child as int].parent == (if old(nodes)[child as int].parent matches Some((q, _)) && q == p {
            None
        } else {
            old(nodes)[child as int].parent
        }),
        final(nodes)[child as int].value == old(nodes)[child as int].value,
        final(nodes)[child as int].left == old(nodes)[child as int].left,
        final(nodes)[child as int].right == old(nodes)[child as int].right,
        final(nodes)[child as int].color == old(nodes)[child as int].color,
        final(nodes)[child as int].mods@ == old(nodes)[child as int].mods@,
{
    let is_p = match nodes[child].parent {
        Some((q, _)) => q == p,
        None => false,
    };
    if is_p {
        nodes[child].parent = None;
    }
}


impl Node {
    /// The case of `update_with_node` where the log of `this` has room.
    fn append_change(nodes: &mut Vec<Node>, this: usize, kind: ModKind, version: u32)
        requires
            store_ok(old(nodes)@),
            this < old(nodes).len(),
            kind_ok(kind, old(nodes).len() as nat),
            old(nodes)[this as int].mods.len() < MAX_MODS_SIZE,
        ensures
            update_effect(old(nodes)@, final(nodes)@, this, kind, version, (this, None)),
    {
        let ghost old_nodes = nodes@;
        proof {
            assert(node_ok(old_nodes[this as int], old_nodes.len() as nat));
            lemma_reads_ok(old_nodes[this as int], version, old_nodes.len() as nat);
        }
        if let ModKind::Position(side, new_child) = kind {
            let old_child = nodes[this].get_field_by_side(side, version);
            if let Some(oc) = old_child {
                detach_if_parent_is(nodes, oc, this);
            }
            if let Some(nc) = new_child {
                nodes[nc].parent = Some((this, side));
            }
        }
        nodes[this].mods.push(Mod { version, kind });
        proof {
            let new_nodes = nodes@;
            let m = Mod { version, kind };
            assert(new_nodes[this as int].mods@ == old_nodes[this as int].mods@.push(m));
            assert forall|i: int| 0 <= i < new_nodes.len() implies #[trigger] node_ok(new_nodes[i], new_nodes.len() as nat) by {
                assert(node_ok(old_nodes[i], old_nodes.len() as nat));
                if i == this {
                    assert forall|j: int| 0 <= j < new_nodes[i].mods.len() implies #[trigger] kind_ok(new_nodes[i].mods@[j].kind, new_nodes.len() as nat) by {
                        if j < old_nodes[i].mods.len() {
                            assert(kind_ok(old_nodes[i].mods@[j].kind, old_nodes.len() as nat));
                        }
                    }
                }
            }
            assert forall|i: int| 0 <= i < old_nodes.len() implies #[trigger] node_history(old_nodes[i], new_nodes[i], version) by {}
            if kind is Value {
                lemma_last_match_push_same(old_nodes[this as int].mods@, m, value_sel());
            } else {
                lemma_last_match_push_other(old_nodes[this as int].mods@, m, version, value_sel());
            }
            if kind is Color {
                lemma_last_match_push_same(old_nodes[this as int].mods@, m, color_sel());
            } else {
                lemma_last_match_push_other(old_nodes[this as int].mods@, m, version, color_sel());
            }
            if is_left_mod(kind) {
                lemma_last_match_push_same(old_nodes[this as int].mods@, m, left_sel());
            } else {
                lemma_last_match_push_other(old_nodes[this as int].mods@, m, version, left_sel());
            }
            if is_right_mod(kind) {
                lemma_last_match_push_same(old_nodes[this as int].mods@, m, right_sel());
            } else {
                lemma_last_match_push_other(old_nodes[this as int].mods@, m, version, right_sel());
            }
        }
    }

    /// The first step of `update_with_node` when the log of `this` is full: a copy of
    /// `this` with `kind` applied is added, and the children of the copy point to it.
    #[verifier::rlimit(40)]
    fn push_copy(nodes: &mut Vec<Node>, this: usize, kind: ModKind, version: u32) -> (new_id: usize)
        requires
            store_ok(old(nodes)@),
            this < old(nodes).len(),
            kind_ok(kind, old(nodes).len() as nat),
        ensures
            store_ok(final(nodes)@),
            keeps_history(old(nodes)@, final(nodes)@, version),
            new_id == old(nodes).len(),
            final(nodes).len() == old(nodes).len() + 1,
            final(nodes)[new_id as int].mods.len() == 0,
            forall|i: int| 0 <= i < old(nodes).len() ==> (#[trigger] final(nodes)[i]).mods@ == old(nodes)[i].mods@,
            final(nodes)[new_id as int].value == copy_value(old(nodes)[this as int], kind, version),
            final(nodes)[new_id as int].color == copy_color(old(nodes)[this as int], kind, version),
            final(nodes)[new_id as int].left == copy_left(old(nodes)[this as int], kind, version),
            final(nodes)[new_id as int].right == copy_right(old(nodes)[this as int], kind, version),
            old(nodes)[this as int].parent is None ==> final(nodes)[new_id as int].parent is None,
            old(nodes)[this as int].parent is Some && (old(nodes)[this as int].parent->0).0 != this
                ==> final(nodes)[new_id as int].parent == old(nodes)[this as int].parent,
            copies_children_point_back(old(nodes)@[this as int], kind, version, final(nodes)@, new_id),
            forall|i: int|
                0 <= i < old(nodes).len() && !copy_moves(old(nodes)@[this as int], kind, version).contains(i as usize)
                    ==> (#[trigger] final(nodes)[i]).parent == old(nodes)[i].parent,
            forall|i: int| 0 <= i < old(nodes).len() ==> (#[trigger] final(nodes)[i]).left == old(nodes)[i].left
                && final(nodes)[i].right == old(nodes)[i].right && final(nodes)[i].value == old(nodes)[i].value
                && final(nodes)[i].color == old(nodes)[i].color,
    {
        let ghost old_nodes = nodes@;
        proof {
            assert(node_ok(old_nodes[this as int], old_nodes.len() as nat));
            lemma_reads_ok(old_nodes[this as int], version, old_nodes.len() as nat);
        }
        let mut value = nodes[this].get_value(version);
        let mut left = nodes[this].get_left(version);
        let mut right = nodes[this].get_right(version);
        let mut color = nodes[this].get_color(version);
        match kind {
            ModKind::Position(Side::Left, l) => {
                if let Some(ol) = left {
                    detach_if_parent_is(nodes, ol, this);
                }
                left = l;
            },
            ModKind::Position(Side::Right, r) => {
                if let Some(or) = right {
                    detach_if_parent_is(nodes, or, this);
                }
                right = r;
            },
            ModKind::Value(v) => {
                value = v;
            },
            ModKind::Color(c) => {
                color = c;
            },
        }
        let parent_info = nodes[this].parent;
        let new_id = nodes.len();
        nodes.push(Node { value, left, right, color, parent: parent_info, mods: Vec::new() });
        if let Some(l) = left {
            nodes[l].parent = Some((new_id, Side::Left));
        }
        if let Some(r) = right {
            nodes[r].parent = Some((new_id, Side::Right));
        }
        proof {
            let mid = nodes@;
            assert forall|i: int| 0 <= i < mid.len() implies #[trigger] node_ok(mid[i], mid.len() as nat) by {
                if i < old_nodes.len() {
                    assert(node_ok(old_nodes[i], old_nodes.len() as nat));
                    assert forall|j: int| 0 <= j < mid[i].mods.len() implies #[trigger] kind_ok(mid[i].mods@[j].kind, mid.len() as nat) by {
                        assert(kind_ok(old_nodes[i].mods@[j].kind, old_nodes.len() as nat));
                    }
                }
            }
            assert forall|i: int| 0 <= i < old_nodes.len() implies #[trigger] node_history(old_nodes[i], mid[i], version) by {
                assert(mid[i].mods@ == old_nodes[i].mods@);
            }
        }
        new_id
    }

    /// `update_with_node`, walking up at most `fuel` parents.
    fn update_walk(nodes: &mut Vec<Node>, this: usize, kind: ModKind, version: u32, fuel: usize) -> (res: (usize, Link))
        requires
            store_ok(old(nodes)@),
            this < old(nodes).len(),
            kind_ok(kind, old(nodes).len() as nat),
        ensures
            update_effect(old(nodes)@, final(nodes)@, this, kind, version, res),
            fuel > 0 ==> copy_takes_place(old(nodes)@, final(nodes)@, this, kind, version, res),
            cascade_effect(old(nodes)@, final(nodes)@, this, kind, version, res, fuel as nat),
        decreases fuel,
    {
        if nodes[this].mods.len() < MAX_MODS_SIZE {
            let ghost o = nodes@;
            Node::append_change(nodes, this, kind, version);
            proof {
                let f = nodes@;
                let link = kind_link(kind);
                assert forall|vis: Set<usize>, mv: Set<usize>| #[trigger] climb(o, this, link, vis, mv, version, fuel as nat) is Some implies
                    forall|i: int| 0 <= i < o.len() && !climb_moves(o, this, link, version, fuel as nat).contains(i as usize)
                        ==> (#[trigger] f[i]).parent == o[i].parent by {
                    assert forall|i: int| 0 <= i < o.len() && !climb_moves(o, this, link, version, fuel as nat).contains(i as usize)
                        implies (#[trigger] f[i]).parent == o[i].parent by {
                        if let ModKind::Position(side, l) = kind {
                            assert(l != Some(i as usize));
                            assert(child_at(o[this as int], side, version) != Some(i as usize));
                        }
                    }
                }
            }
            return (this, None);
        }
        let ghost old_nodes = nodes@;
        let new_id = Node::push_copy(nodes, this, kind, version);
        let ghost mid = nodes@;
        let parent_info = nodes[new_id].parent;
        proof {
            lemma_last_match_none(mid[new_id as int].mods@, version, value_sel());
            lemma_last_match_none(mid[new_id as int].mods@, version, color_sel());
            lemma_last_match_none(mid[new_id as int].mods@, version, left_sel());
            lemma_last_match_none(mid[new_id as int].mods@, version, right_sel());
            assert(node_ok(mid[new_id as int], mid.len() as nat));
            assert(node_ok(old_nodes[this as int], old_nodes.len() as nat));
            lemma_reads_ok(old_nodes[this as int], version, old_nodes.len() as nat);
            assert(copy_moves(old_nodes[this as int], ModKind::Position(Side::Left, kind_link(kind)), version) =~= copy_moves(
                old_nodes[this as int],
                kind,
                version,
            ));
        }
        if let Some((p, side)) = parent_info {
            if fuel > 0 {
                let (q, root) = Node::update_walk(nodes, p, ModKind::Position(side, Some(new_id)), version, fuel - 1);
                proof {
                    let fin = nodes@;
                    lemma_keeps_history_trans(old_nodes, mid, fin, version);
                    assert(node_history(mid[new_id as int], fin[new_id as int], version));
                    assert forall|j: int| 0 <= j < fin[new_id as int].mods.len() implies !value_sel()(#[trigger] fin[new_id as int].mods@[j].kind) by {
                        assert(fin[new_id as int].mods@[j].kind is Position);
                    }
                    assert forall|j: int| 0 <= j < fin[new_id as int].mods.len() implies !color_sel()(#[trigger] fin[new_id as int].mods@[j].kind) by {
                        assert(fin[new_id as int].mods@[j].kind is Position);
                    }
                    lemma_last_match_none(fin[new_id as int].mods@, version, value_sel());
                    lemma_last_match_none(fin[new_id as int].mods@, version, color_sel());
                    assert forall|i: int, j: int|
                        old_nodes.len() <= i < fin.len() && 0 <= j < fin[i].mods.len() implies (#[trigger] fin[i].mods@[j]).kind is Position by {
                        if i == new_id {
                            assert(mid[i].mods.len() == 0);
                        }
                    }
                    assert forall|i: int, j: int|
                        0 <= i < old_nodes.len() && old_nodes[i].mods.len() <= j < fin[i].mods.len()
                            implies (#[trigger] fin[i].mods@[j]).kind is Position by {
                        assert(mid[i].mods@ == old_nodes[i].mods@);
                    }
                    let op = old_nodes[this as int].parent;
                    if op is Some && (op->0).0 != this && old_nodes[(op->0).0 as int].mods.len() < MAX_MODS_SIZE {
                        assert(p == (op->0).0 && side == (op->0).1);
                        assert(p < old_nodes.len());
                        assert(mid[p as int].mods@ == old_nodes[p as int].mods@);
                        assert(fin[new_id as int].mods@ == mid[new_id as int].mods@);
                        let cl = copy_left(old_nodes[this as int], kind, version);
                        let cr = copy_right(old_nodes[this as int], kind, version);
                        if cl is Some {
                            assert(fin[cl->0 as int].parent == mid[cl->0 as int].parent);
                        }
                        if cr is Some {
                            assert(fin[cr->0 as int].parent == mid[cr->0 as int].parent);
                        }
                    }
                }
                proof {
                    Node::lemma_walk_cascade(old_nodes, mid, nodes@, this, kind, version, fuel as nat, new_id, p, side, (q, root));
                }
                return (new_id, root);
            }
            proof {
                let op = old_nodes[this as int].parent;
                assert(op is Some);
            }
            return (new_id, None);
        }
        proof {
            Node::lemma_root_cascade(old_nodes, nodes@, this, kind, version, fuel as nat, new_id);
        }
        (new_id, Some(new_id))
    }

    /// What copying a node whose climb reaches no parent does to the climb.
    proof fn lemma_root_cascade(old_nodes: Seq<Node>, mid: Seq<Node>, this: usize, kind: ModKind, version: u32, fuel: nat, new_id: usize)
        requires
            store_ok(old_nodes),
            this < old_nodes.len(),
            kind_ok(kind, old_nodes.len() as nat),
            old_nodes[this as int].mods.len() >= MAX_MODS_SIZE,
            old_nodes[this as int].parent is None || (old_nodes[this as int].parent->0).0 == this,
            new_id == old_nodes.len(),
            mid.len() == old_nodes.len() + 1,
            mid[new_id as int].mods.len() == 0,
            forall|i: int| 0 <= i < old_nodes.len() ==> (#[trigger] mid[i]).mods@ == old_nodes[i].mods@,
            mid[new_id as int].left == copy_left(old_nodes[this as int], kind, version),
            mid[new_id as int].right == copy_right(old_nodes[this as int], kind, version),
            mid[new_id as int].color == copy_color(old_nodes[this as int], kind, version),
            copies_children_point_back(old_nodes[this as int], kind, version, mid, new_id),
            forall|i: int|
                0 <= i < old_nodes.len() && !copy_moves(old_nodes[this as int], kind, version).contains(i as usize)
                    ==> (#[trigger] mid[i]).parent == old_nodes[i].parent,
        ensures
            cascade_effect(old_nodes, mid, this, kind, version, (new_id, Some(new_id)), fuel),
    {
        let link = kind_link(kind);
        let f = mid;
        let step = copy_moves(old_nodes[this as int], ModKind::Position(Side::Left, link), version);
        assert(node_ok(old_nodes[this as int], old_nodes.len() as nat));
        lemma_reads_ok(old_nodes[this as int], version, old_nodes.len() as nat);
        lemma_last_match_none(mid[new_id as int].mods@, version, left_sel());
        lemma_last_match_none(mid[new_id as int].mods@, version, right_sel());
        assert(step =~= copy_moves(old_nodes[this as int], kind, version));
        assert forall|vis: Set<usize>, mv: Set<usize>| #[trigger] climb(old_nodes, this, link, vis, mv, version, fuel) is Some implies {
            &&& climb(old_nodes, this, link, vis, mv, version, fuel) == Some((true, this))
            &&& climb_moves(old_nodes, this, link, version, fuel) == step
        } by {
            let op = old_nodes[this as int].parent;
            if op is Some {
                assert((op->0).0 == this);
                if fuel > 0 {
                    assert(vis.insert(this).contains(this));
                    assert(climb(old_nodes, this, Some(old_nodes.len() as usize), vis.insert(this), mv.union(step), version, (fuel - 1) as nat) is None);
                }
                assert(false);
            }
        }
        assert forall|i: int| 0 <= i < old_nodes.len() && !step.contains(i as usize) implies (#[trigger] f[i]).parent == old_nodes[i].parent by {}
        if let ModKind::Position(sd, Some(c)) = kind {
            if sd == Side::Right || right_at(old_nodes[this as int], version) != Some(c) {
                assert(f[c as int].parent == Some((new_id, sd)));
                assert(child_at(f[new_id as int], sd, version) == Some(c));
            }
        }
        assert forall|i: int| old_nodes.len() <= i < f.len() implies (#[trigger] f[i]).mods.len() == 0 by {}
        assert forall|vis: Set<usize>, mv: Set<usize>| #[trigger] climb(old_nodes, this, link, vis, mv, version, fuel) is Some implies {
            let (reached, stop) = climb(old_nodes, this, link, vis, mv, version, fuel)->0;
            &&& (Some(new_id) is Some <==> reached)
            &&& forall|i: int| old_nodes.len() <= i < f.len() ==> (#[trigger] f[i]).mods.len() == 0
            &&& forall|i: int| 0 <= i < old_nodes.len() && i != stop ==> (#[trigger] f[i]).mods@ == old_nodes[i].mods@
            &&& forall|i: int| 0 <= i < old_nodes.len() && !climb_moves(old_nodes, this, link, version, fuel).contains(i as usize)
                ==> (#[trigger] f[i]).parent == old_nodes[i].parent
            &&& (old_nodes[this as int].mods.len() >= MAX_MODS_SIZE ==> {
                &&& f[new_id as int].mods.len() == 0
                &&& copies_children_point_back(old_nodes[this as int], kind, version, f, new_id)
            })
            &&& (old_nodes[this as int].mods.len() >= MAX_MODS_SIZE && old_nodes[this as int].parent is Some ==> false)
            &&& (reached ==> links_up(f, new_id, new_id, version, fuel))
            &&& (reached && !(kind is Color) ==> color_at(f[new_id as int], version) == color_at(old_nodes[stop as int], version))
        } by {
            lemma_last_match_none(mid[new_id as int].mods@, version, color_sel());
            assert(climb(old_nodes, this, link, vis, mv, version, fuel) == Some((true, this)));
            if old_nodes[this as int].parent is Some {
                assert((old_nodes[this as int].parent->0).0 == this);
                if fuel > 0 {
                    assert(vis.insert(this).contains(this));
                    assert(climb(old_nodes, this, Some(old_nodes.len() as usize), vis.insert(this), mv.union(step), version, (fuel - 1) as nat) is None);
                }
            }
        }
    }

    /// What a copy and the update of its parent (`p`, on `side`) together do to the climb
    /// that starts at `this`.
    proof fn lemma_walk_cascade(
        old_nodes: Seq<Node>,
        mid: Seq<Node>,
        fin: Seq<Node>,
        this: usize,
        kind: ModKind,
        version: u32,
        fuel: nat,
        new_id: usize,
        p: usize,
        side: Side,
        r: (usize, Link),
    )
        requires
            store_ok(old_nodes),
            store_ok(mid),
            this < old_nodes.len(),
            kind_ok(kind, old_nodes.len() as nat),
            old_nodes[this as int].mods.len() >= MAX_MODS_SIZE,
            fuel > 0,
            new_id == old_nodes.len(),
            mid.len() == old_nodes.len() + 1,
            mid[new_id as int].mods.len() == 0,
            forall|i: int| 0 <= i < old_nodes.len() ==> (#[trigger] mid[i]).mods@ == old_nodes[i].mods@,
            mid[new_id as int].left == copy_left(old_nodes[this as int], kind, version),
            mid[new_id as int].right == copy_right(old_nodes[this as int], kind, version),
            mid[new_id as int].parent == Some((p, side)),
            old_nodes[this as int].parent is Some && (old_nodes[this as int].parent->0).0 != this
                ==> mid[new_id as int].parent == old_nodes[this as int].parent,
            old_nodes[this as int].parent is None ==> mid[new_id as int].parent is None,
            copies_children_point_back(old_nodes[this as int], kind, version, mid, new_id),
            forall|i: int|
                0 <= i < old_nodes.len() && !copy_moves(old_nodes[this as int], kind, version).contains(i as usize)
                    ==> (#[trigger] mid[i]).parent == old_nodes[i].parent,
            forall|i: int| 0 <= i < old_nodes.len() ==> (#[trigger] mid[i]).left == old_nodes[i].left
                && mid[i].right == old_nodes[i].right && mid[i].color == old_nodes[i].color,
            mid.len() <= usize::MAX,
            update_effect(mid, fin, p, ModKind::Position(side, Some(new_id)), version, r),
            cascade_effect(mid, fin, p, ModKind::Position(side, Some(new_id)), version, r, (fuel - 1) as nat),
        ensures
            cascade_effect(old_nodes, fin, this, kind, version, (new_id, r.1), fuel),
    {
        let link = kind_link(kind);
        let step = copy_moves(old_nodes[this as int], ModKind::Position(Side::Left, link), version);
        assert(step =~= copy_moves(old_nodes[this as int], kind, version));
        assert(node_ok(old_nodes[this as int], old_nodes.len() as nat));
        lemma_reads_ok(old_nodes[this as int], version, old_nodes.len() as nat);
        assert forall|vis: Set<usize>, mv: Set<usize>| #[trigger] climb(old_nodes, this, link, vis, mv, version, fuel) is Some implies {
            let (reached, stop) = climb(old_nodes, this, link, vis, mv, version, fuel)->0;
            &&& (r.1 is Some <==> reached)
            &&& forall|i: int| old_nodes.len() <= i < fin.len() ==> (#[trigger] fin[i]).mods.len() == 0
            &&& forall|i: int| 0 <= i < old_nodes.len() && i != stop ==> (#[trigger] fin[i]).mods@ == old_nodes[i].mods@
            &&& forall|i: int| 0 <= i < old_nodes.len() && !climb_moves(old_nodes, this, link, version, fuel).contains(i as usize)
                ==> (#[trigger] fin[i]).parent == old_nodes[i].parent
            &&& match kind {
                ModKind::Position(sd, Some(c)) => (sd == Side::Right || right_at(old_nodes[this as int], version) != Some(c)) ==> {
                    &&& fin[c as int].parent == Some((new_id, sd))
                    &&& child_at(fin[new_id as int], sd, version) == Some(c)
                },
                _ => true,
            }
            &&& (old_nodes[this as int].mods.len() >= MAX_MODS_SIZE ==> {
                &&& fin[new_id as int].mods.len() == 0
                &&& copies_children_point_back(old_nodes[this as int], kind, version, fin, new_id)
            })
            &&& (old_nodes[this as int].mods.len() >= MAX_MODS_SIZE && old_nodes[this as int].parent is Some ==> {
                let (p0, s) = old_nodes[this as int].parent->0;
                exists|q: usize| {
                    &&& fin[new_id as int].parent == Some((q, s))
                    &&& child_at(fin[q as int], s, version) == Some(new_id)
                    &&& (q == p0 || old_nodes.len() <= q)
                }
            })
            &&& (reached ==> links_up(fin, new_id, r.1->0, version, fuel))
            &&& (reached && !(kind is Color) ==> color_at(fin[r.1->0 as int], version) == color_at(old_nodes[stop as int], version))
        } by {
            let op = old_nodes[this as int].parent;
            assert(op is Some);
            let p0 = (op->0).0;
            let vis1 = vis.insert(this);
            let mv1 = mv.union(step);
            if p0 == this {
                assert(climb(old_nodes, this, Some(old_nodes.len() as usize), vis1, mv1, version, (fuel - 1) as nat) is None);
                assert(false);
            }
            assert(p == p0 && side == (op->0).1);
            assert(climb(old_nodes, this, link, vis, mv, version, fuel) == climb(
                old_nodes, p, Some(old_nodes.len() as usize), vis1, mv1, version, (fuel - 1) as nat,
            ));
            assert(climb_moves(old_nodes, this, link, version, fuel) == step.union(
                climb_moves(old_nodes, p, Some(old_nodes.len() as usize), version, (fuel - 1) as nat),
            ));
            lemma_climb_transfer(old_nodes, mid, p, Some(old_nodes.len() as usize), Some(new_id), vis1, mv1, mv1, version, (fuel - 1) as nat);
            lemma_climb_stop(old_nodes, p, Some(old_nodes.len() as usize), vis1, mv1, version, (fuel - 1) as nat);
            let kl = kind_link(ModKind::Position(side, Some(new_id)));
            assert(climb(mid, p, kl, vis1, mv1, version, (fuel - 1) as nat) is Some);
            let stop = (climb(old_nodes, p, Some(old_nodes.len() as usize), vis1, mv1, version, (fuel - 1) as nat)->0).1;
            let cm = climb_moves(mid, p, kl, version, (fuel - 1) as nat);
            // the old nodes the first step moves are not moved again
            assert forall|i: usize| i < old_nodes.len() && #[trigger] step.contains(i) implies !cm.contains(i) by {
                assert(mv1.contains(i));
                if climb_moves(old_nodes, p, Some(old_nodes.len() as usize), version, (fuel - 1) as nat).contains(i) {
                    assert(link_set(Some(old_nodes.len() as usize)).contains(i));
                }
            }
            assert(fin[new_id as int].mods@ == mid[new_id as int].mods@);
            assert(fin[new_id as int].left == mid[new_id as int].left);
            assert(fin[new_id as int].right == mid[new_id as int].right);
            lemma_last_match_none(fin[new_id as int].mods@, version, left_sel());
            lemma_last_match_none(fin[new_id as int].mods@, version, right_sel());
            assert forall|i: int| 0 <= i < old_nodes.len() && i != stop implies (#[trigger] fin[i]).mods@ == old_nodes[i].mods@ by {
                assert(mid[i].mods@ == old_nodes[i].mods@);
            }
            assert forall|i: int| old_nodes.len() <= i < fin.len() implies (#[trigger] fin[i]).mods.len() == 0 by {}
            assert forall|i: int| 0 <= i < old_nodes.len() && !climb_moves(old_nodes, this, link, version, fuel).contains(i as usize)
                implies (#[trigger] fin[i]).parent == old_nodes[i].parent by {
                assert(!cm.contains(i as usize));
                assert(mid[i].parent == old_nodes[i].parent);
            }
            if let ModKind::Position(sd, Some(c)) = kind {
                if sd == Side::Right || right_at(old_nodes[this as int], version) != Some(c) {
                    assert(step.contains(c));
                    assert(!cm.contains(c));
                    assert(fin[c as int].parent == mid[c as int].parent);
                }
            }
            let cl = copy_left(old_nodes[this as int], kind, version);
            let cr = copy_right(old_nodes[this as int], kind, version);
            if cl is Some {
                assert(step.contains(cl->0));
                assert(!cm.contains(cl->0));
                assert(fin[cl->0 as int].parent == mid[cl->0 as int].parent);
            }
            if cr is Some {
                assert(step.contains(cr->0));
                assert(!cm.contains(cr->0));
                assert(fin[cr->0 as int].parent == mid[cr->0 as int].parent);
            }
            // the copy hangs under what now stands for the parent
            assert(node_ok(old_nodes[p as int], old_nodes.len() as nat));
            lemma_reads_ok(old_nodes[p as int], version, old_nodes.len() as nat);
            assert(right_at(mid[p as int], version) == right_at(old_nodes[p as int], version));
            assert(mid[p as int].mods@ == old_nodes[p as int].mods@);
            let q = r.0;
            assert(fin[new_id as int].parent == Some((q, side)));
            assert(child_at(fin[q as int], side, version) == Some(new_id));
            assert(q == p0 || old_nodes.len() <= q);
            let reached = (climb(old_nodes, this, link, vis, mv, version, fuel)->0).0;
            if reached {
                assert(links_up(fin, q, r.1->0, version, (fuel - 1) as nat));
                assert(links_up(fin, new_id, r.1->0, version, fuel));
                assert(mid[stop as int].mods@ == old_nodes[stop as int].mods@);
                assert(mid[stop as int].color == old_nodes[stop as int].color);
                assert(color_at(mid[stop as int], version) == color_at(old_nodes[stop as int], version));
            }
        }
    }

    /// Records `kind` in node `this` for `version`. If its log has room, the change is
    /// appended there and `(this, None)` comes back. Otherwise the node is copied with the
    /// change applied, and the copy is hung under `this`'s parent by the same kind of
    /// update, up the parent chain; the copy comes back, with the new root if the copying
    /// reached the root. The walk up stops after `WALK_LIMIT` parents.
    pub fn update_with_node(nodes: &mut Vec<Node>, this: usize, kind: ModKind, version: u32) -> (res: (usize, Link))
        requires
            store_ok(old(nodes)@),
            this < old(nodes).len(),
            kind_ok(kind, old(nodes).len() as nat),
        ensures
            update_effect(old(nodes)@, final(nodes)@, this, kind, version, res),
            copy_takes_place(old(nodes)@, final(nodes)@, this, kind, version, res),
            cascade_effect(old(nodes)@, final(nodes)@, this, kind, version, res, WALK_LIMIT as nat),
            copy_reads(old(nodes)@, final(nodes)@, this, kind, version, res.0),
    {
        let ghost o = nodes@;
        let res = Node::update_walk(nodes, this, kind, version, WALK_LIMIT);
        proof {
            let f = nodes@;
            if o[this as int].mods.len() >= MAX_MODS_SIZE && climb(o, this, kind_link(kind), Set::empty(), Set::empty(), version, WALK_LIMIT as nat) is Some {
                assert(f[res.0 as int].mods.len() == 0);
                assert(f[res.0 as int].mods@ =~= Seq::<Mod>::empty());
            }
        }
        res
    }

    /// `update_with_node`, keeping only the new root.
    pub fn update(nodes: &mut Vec<Node>, this: usize, kind: ModKind, version: u32) -> (root: Link)
        requires
            store_ok(old(nodes)@),
            this < old(nodes).len(),
            kind_ok(kind, old(nodes).len() as nat),
        ensures
            exists|r: usize| {
                &&& update_effect(old(nodes)@, final(nodes)@, this, kind, version, (r, root))
                &&& copy_takes_place(old(nodes)@, final(nodes)@, this, kind, version, (r, root))
                &&& cascade_effect(old(nodes)@, final(nodes)@, this, kind, version, (r, root), WALK_LIMIT as nat)
                &&& copy_reads(old(nodes)@, final(nodes)@, this, kind, version, r)
            },
    {
        let (_r, root) = Node::update_with_node(nodes, this, kind, version);
        root
    }
}


/// Reading a node at a version up to `cur` gives the same answer before and after
/// changes for versions after `cur` were appended.
pub proof fn lemma_node_extends_reads(a: Node, b: Node, cur: u32, w: u32)
    requires
        node_extends(a, b, cur),
        w <= cur,
    ensures
        left_at(b, w) == left_at(a, w),
        right_at(b, w) == right_at(a, w),
        value_at(b, w) == value_at(a, w),
        color_at(b, w) == color_at(a, w),
{
    lemma_last_match_later(a.mods@, b.mods@, w, left_sel());
    lemma_last_match_later(a.mods@, b.mods@, w, right_sel());
    lemma_last_match_later(a.mods@, b.mods@, w, value_sel());
    lemma_last_match_later(a.mods@, b.mods@, w, color_sel());
}

/// A change made at version `ver` is a change for a version after any `cur` below `ver`.
pub proof fn lemma_history_extends(a: Seq<Node>, b: Seq<Node>, ver: u32, cur: u32)
    requires
        keeps_history(a, b, ver),
        cur < ver,
    ensures
        extends(a, b, cur),
{
    assert forall|i: int| 0 <= i < a.len() implies #[trigger] node_extends(a[i], b[i], cur) by {
        assert(node_history(a[i], b[i], ver));
    }
}

/// A store extends itself.
pub proof fn lemma_extends_refl(a: Seq<Node>, cur: u32)
    ensures
        extends(a, a, cur),
{
    assert forall|i: int| 0 <= i < a.len() implies #[trigger] node_extends(a[i], a[i], cur) by {}
}

/// Extensions compose, keeping the earlier bound.
pub proof fn lemma_extends_trans(a: Seq<Node>, b: Seq<Node>, c: Seq<Node>, c1: u32, c2: u32)
    requires
        extends(a, b, c1),
        extends(b, c, c2),
        c1 <= c2,
    ensures
        extends(a, c, c1),
{
    assert forall|i: int| 0 <= i < a.len() implies #[trigger] node_extends(a[i], c[i], c1) by {
        assert(node_extends(a[i], b[i], c1));
        assert(node_extends(b[i], c[i], c2));
        assert forall|j: int| 0 <= j < a[i].mods.len() implies #[trigger] c[i].mods@[j] == a[i].mods@[j] by {
            assert(c[i].mods@[j] == b[i].mods@[j]);
        }
        assert forall|j: int| a[i].mods.len() <= j < c[i].mods.len() implies #[trigger] c[i].mods@[j].version > c1 by {
            if j < b[i].mods.len() {
                assert(b[i].mods@[j].version > c1);
                assert(c[i].mods@[j] == b[i].mods@[j]);
            }
        }
    }
}


/// A store that only adds well-formed nodes to `old` and redirects parents to nodes of
/// the store stays well-formed and keeps the history of `old` (it appends no change).
pub proof fn lemma_plain_growth(old: Seq<Node>, new: Seq<Node>, ver: u32)
    requires
        store_ok(old),
        old.len() <= new.len(),
        forall|i: int|
            0 <= i < old.len() ==> {
                &&& (#[trigger] new[i]).value == old[i].value
                &&& new[i].left == old[i].left
                &&& new[i].right == old[i].right
                &&& new[i].color == old[i].color
                &&& new[i].mods@ == old[i].mods@
                &&& (new[i].parent == old[i].parent || new[i].parent is None || (new[i].parent matches Some((p, _)) ==> p < new.len()))
            },
        forall|i: int| old.len() <= i < new.len() ==> node_ok(#[trigger] new[i], new.len() as nat),
        forall|i: int| old.len() <= i < new.len() ==> (#[trigger] new[i]).mods.len() == 0,
    ensures
        store_ok(new),
        keeps_history(old, new, ver),
{
    assert forall|i: int| 0 <= i < new.len() implies #[trigger] node_ok(new[i], new.len() as nat) by {
        if i < old.len() {
            assert(node_ok(old[i], old.len() as nat));
            assert forall|j: int| 0 <= j < new[i].mods.len() implies #[trigger] kind_ok(new[i].mods@[j].kind, new.len() as nat) by {
                assert(kind_ok(old[i].mods@[j].kind, old.len() as nat));
            }
        }
    }
    assert forall|i: int| 0 <= i < old.len() implies #[trigger] node_history(old[i], new[i], ver) by {}
}


/// Every node of `old` reads, at `v`, the same value in `new`.
pub open spec fn values_kept(old: Seq<Node>, new: Seq<Node>, v: u32) -> bool {
    &&& old.len() <= new.len()
    &&& forall|i: int| 0 <= i < old.len() ==> #[trigger] value_at(new[i], v) == value_at(old[i], v)
}

/// Keeping values composes.
pub proof fn lemma_values_kept_trans(a: Seq<Node>, b: Seq<Node>, c: Seq<Node>, v: u32)
    requires
        values_kept(a, b, v),
        values_kept(b, c, v),
    ensures
        values_kept(a, c, v),
{
    assert forall|i: int| 0 <= i < a.len() implies #[trigger] value_at(c[i], v) == value_at(a[i], v) by {
        assert(value_at(c[i], v) == value_at(b[i], v));
    }
}

/// Changes appended that `p` does not select leave the reading through `p` as it was.
proof fn lemma_last_match_unselected(a: Seq<Mod>, b: Seq<Mod>, w: u32, p: spec_fn(ModKind) -> bool)
    requires
        a.len() <= b.len(),
        forall|j: int| 0 <= j < a.len() ==> #[trigger] b[j] == a[j],
        forall|j: int| a.len() <= j < b.len() ==> !p(#[trigger] b[j].kind),
    ensures
        last_match(b, w, p) == last_match(a, w, p),
    decreases b.len(),
{
    if b.len() == a.len() {
        assert(a =~= b);
    } else {
        assert(!p(b[b.len() - 1].kind));
        lemma_last_match_unselected(a, b.drop_last(), w, p);
    }
}

/// An update keeps the value that every node but the one updated reads at its version.
pub proof fn lemma_update_keeps_other_values(old: Seq<Node>, new: Seq<Node>, this: usize, kind: ModKind, version: u32, res: (usize, Link))
    requires
        update_effect(old, new, this, kind, version, res),
    ensures
        forall|i: int| 0 <= i < old.len() && i != this ==> #[trigger] value_at(new[i], version) == value_at(old[i], version),
{
    assert forall|i: int| 0 <= i < old.len() && i != this implies #[trigger] value_at(new[i], version) == value_at(old[i], version) by {
        assert(node_history(old[i], new[i], version));
        assert forall|j: int| old[i].mods.len() <= j < new[i].mods.len() implies !value_sel()(#[trigger] new[i].mods@[j].kind) by {
            assert(new[i].mods@[j].kind is Position);
        }
        lemma_last_match_unselected(old[i].mods@, new[i].mods@, version, value_sel());
    }
}

/// Every node of `old` reads, at `v`, the same colour in `new`.
pub open spec fn colors_kept(old: Seq<Node>, new: Seq<Node>, v: u32) -> bool {
    &&& old.len() <= new.len()
    &&& forall|i: int| 0 <= i < old.len() ==> #[trigger] color_at(new[i], v) == color_at(old[i], v)
}

/// Keeping colours composes.
pub proof fn lemma_colors_kept_trans(a: Seq<Node>, b: Seq<Node>, c: Seq<Node>, v: u32)
    requires
        colors_kept(a, b, v),
        colors_kept(b, c, v),
    ensures
        colors_kept(a, c, v),
{
    assert forall|i: int| 0 <= i < a.len() implies #[trigger] color_at(c[i], v) == color_at(a[i], v) by {
        assert(color_at(c[i], v) == color_at(b[i], v));
    }
}

/// An update of a child keeps the colour every node reads at its version.
pub proof fn lemma_update_keeps_colors(old: Seq<Node>, new: Seq<Node>, this: usize, kind: ModKind, version: u32, res: (usize, Link))
    requires
        update_effect(old, new, this, kind, version, res),
        kind is Position,
    ensures
        colors_kept(old, new, version),
{
    assert forall|i: int| 0 <= i < old.len() implies #[trigger] color_at(new[i], version) == color_at(old[i], version) by {
        assert(node_history(old[i], new[i], version));
        assert forall|j: int| old[i].mods.len() <= j < new[i].mods.len() implies !color_sel()(#[trigger] new[i].mods@[j].kind) by {
            assert(new[i].mods@[j].kind is Position);
        }
        lemma_last_match_unselected(old[i].mods@, new[i].mods@, version, color_sel());
    }
}

/// An update that writes no value keeps the value every node reads at its version.
pub proof fn lemma_update_keeps_values(old: Seq<Node>, new: Seq<Node>, this: usize, kind: ModKind, version: u32, res: (usize, Link))
    requires
        update_effect(old, new, this, kind, version, res),
        !(kind is Value),
    ensures
        values_kept(old, new, version),
{
    assert forall|i: int| 0 <= i < old.len() implies #[trigger] value_at(new[i], version) == value_at(old[i], version) by {
        assert(node_history(old[i], new[i], version));
        assert forall|j: int| old[i].mods.len() <= j < new[i].mods.len() implies !value_sel()(#[trigger] new[i].mods@[j].kind) by {
            assert(new[i].mods@[j].kind is Position || (i == this && new[i].mods@[j].kind == kind));
        }
        lemma_last_match_unselected(old[i].mods@, new[i].mods@, version, value_sel());
    }
}

/// Every change recorded in the store is for version `cur` or an earlier one.
pub open spec fn versions_upto(nodes: Seq<Node>, cur: u32) -> bool {
    forall|i: int, j: int| 0 <= i < nodes.len() && 0 <= j < nodes[i].mods.len() ==> (#[trigger] nodes[i].mods@[j]).version <= cur
}

/// Changes for `ver` added to a store whose changes are for versions up to `ver` keep it so.
pub proof fn lemma_versions_upto_grow(old: Seq<Node>, new: Seq<Node>, cur: u32, ver: u32)
    requires
        versions_upto(old, cur),
        cur <= ver,
        keeps_history(old, new, ver),
    ensures
        versions_upto(new, ver),
{
    assert forall|i: int, j: int| 0 <= i < new.len() && 0 <= j < new[i].mods.len() implies (#[trigger] new[i].mods@[j]).version <= ver by {
        if i < old.len() {
            assert(node_history(old[i], new[i], ver));
            if j < old[i].mods.len() {
                assert(new[i].mods@[j] == old[i].mods@[j]);
            }
        }
    }
}

proof fn lemma_last_match_after(mods: Seq<Mod>, cur: u32, w: u32, p: spec_fn(ModKind) -> bool)
    requires
        forall|j: int| 0 <= j < mods.len() ==> (#[trigger] mods[j]).version <= cur,
        cur <= w,
    ensures
        last_match(mods, w, p) == last_match(mods, cur, p),
    decreases mods.len(),
{
    if mods.len() > 0 {
        assert(mods[mods.len() - 1].version <= cur);
        lemma_last_match_after(mods.drop_last(), cur, w, p);
    }
}

/// When every change of a node is for version `cur` or earlier, it reads at any later
/// version as at `cur`.
pub proof fn lemma_reads_after(n: Node, cur: u32, w: u32)
    requires
        forall|j: int| 0 <= j < n.mods.len() ==> (#[trigger] n.mods@[j]).version <= cur,
        cur <= w,
    ensures
        left_at(n, w) == left_at(n, cur),
        right_at(n, w) == right_at(n, cur),
        value_at(n, w) == value_at(n, cur),
        color_at(n, w) == color_at(n, cur),
        child_at(n, Side::Left, w) == child_at(n, Side::Left, cur),
        child_at(n, Side::Right, w) == child_at(n, Side::Right, cur),
{
    lemma_last_match_after(n.mods@, cur, w, left_sel());
    lemma_last_match_after(n.mods@, cur, w, right_sel());
    lemma_last_match_after(n.mods@, cur, w, value_sel());
    lemma_last_match_after(n.mods@, cur, w, color_sel());
}

} // verus!
