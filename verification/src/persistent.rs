use std::collections::HashMap;

use vstd::prelude::*;
use vstd::multiset::Multiset;

use crate::node::{
    color_at, value_at, extends, kind_ok, lemma_extends_refl, lemma_extends_trans, lemma_history_extends,
    lemma_node_extends_reads, lemma_plain_growth, lemma_reads_after, lemma_versions_upto_grow, versions_upto, lemma_reads_ok, left_at, link_ok, node_extends, node_history, node_ok,
    right_at, store_ok, update_effect, child_at, values_kept, Color, Link, ModKind, Node, WALK_LIMIT,
    climb, lemma_climb_after, lemma_climb_stop,
};
use crate::tree::{
    black_height, red_black_at, has_room, height_within, insertion_parent, lemma_insertion_parent_ok, lemma_walks_after, find_node, grows, insert, is_search_tree_at, lemma_search_complete, remove, search, values_at,
    leftmost, lemma_leftmost_after, successor_value_taken, value_counts, visits, meets_each_once, lemma_counts_hold_values,
    copies_to_black_root,
};

verus! {

broadcast use vstd::std_specs::hash::group_hash_axioms;

/// The letter that stands for a colour in a listing: `R` for red, `N` for black.
pub open spec fn color_letter(c: Color) -> char {
    match c {
        Color::Red => 'R',
        Color::Black => 'N',
    }
}

/// The in-order listing at version `v` of the subtree at `link`, whose top lies `depth`
/// levels below the root: for each node its value, its depth and the letter of its colour
/// at `v`. The walk stops at depth `WALK_LIMIT`.
pub open spec fn inorder(nodes: Seq<Node>, link: Link, v: u32, depth: u32) -> Seq<(i32, u32, char)>
    decreases WALK_LIMIT - depth,
{
    match link {
        None => Seq::empty(),
        Some(n) => if n >= nodes.len() || depth >= WALK_LIMIT {
            Seq::empty()
        } else {
            inorder(nodes, left_at(nodes[n as int], v), v, (depth + 1) as u32)
                + seq![(value_at(nodes[n as int], v), depth, color_letter(color_at(nodes[n as int], v)))]
                + inorder(nodes, right_at(nodes[n as int], v), v, (depth + 1) as u32)
        },
    }
}

/// The values of a listing, in its order.
pub open spec fn listed_values(s: Seq<(i32, u32, char)>) -> Seq<i32> {
    s.map_values(|e: (i32, u32, char)| e.0)
}

/// The values of a sequence never decrease along it.
pub open spec fn nondecreasing(s: Seq<i32>) -> bool {
    forall|i: int, j: int| 0 <= i <= j < s.len() ==> s[i] <= s[j]
}

/// The multiset of a one-element sequence holds that element once.
proof fn lemma_single_to_multiset(x: i32)
    ensures
        seq![x].to_multiset() =~= Multiset::<i32>::empty().insert(x),
{
    broadcast use vstd::multiset::group_multiset_axioms;
    let e = Seq::<i32>::empty();
    e.to_multiset_ensures();
    assert(e.to_multiset() =~= Multiset::<i32>::empty()) by {
        assert forall|a: i32| e.to_multiset().count(a) == 0 by {}
    }
    assert(e.push(x) =~= seq![x]);
    vstd::seq_lib::to_multiset_build(e, x);
}

/// The listing of a subtree, whose top lies `depth` levels down, holds each value of the
/// subtree as often as the subtree does, down to depth `WALK_LIMIT`.
pub proof fn lemma_inorder_counts(nodes: Seq<Node>, link: Link, v: u32, depth: u32)
    requires
        depth <= WALK_LIMIT,
    ensures
        listed_values(inorder(nodes, link, v, depth)).to_multiset() == value_counts(nodes, link, v, (WALK_LIMIT - depth) as nat),
    decreases WALK_LIMIT - depth,
{
    broadcast use vstd::multiset::group_multiset_axioms;
    let ls = listed_values(inorder(nodes, link, v, depth));
    let empty_case = match link {
        None => true,
        Some(n) => n >= nodes.len() || depth >= WALK_LIMIT,
    };
    if empty_case {
        let e = Seq::<i32>::empty();
        assert(ls =~= e);
        e.to_multiset_ensures();
        assert(e.to_multiset() =~= Multiset::<i32>::empty()) by {
            assert forall|a: i32| e.to_multiset().count(a) == 0 by {}
        }
    } else {
        let n = link->0;
        let l = left_at(nodes[n as int], v);
        let r = right_at(nodes[n as int], v);
        let x = value_at(nodes[n as int], v);
        let d1 = (depth + 1) as u32;
        lemma_inorder_counts(nodes, l, v, d1);
        lemma_inorder_counts(nodes, r, v, d1);
        let a = listed_values(inorder(nodes, l, v, d1));
        let b = listed_values(inorder(nodes, r, v, d1));
        assert(ls =~= a + seq![x] + b);
        vstd::seq_lib::lemma_multiset_commutative(a + seq![x], b);
        vstd::seq_lib::lemma_multiset_commutative(a, seq![x]);
        lemma_single_to_multiset(x);
        assert(ls.to_multiset() =~= value_counts(nodes, link, v, (WALK_LIMIT - depth) as nat));
    }
}

/// The listing of a search tree lists its values in order.
pub proof fn lemma_inorder_sorted(nodes: Seq<Node>, link: Link, v: u32, depth: u32)
    requires
        depth <= WALK_LIMIT,
        is_search_tree_at(nodes, link, v, (WALK_LIMIT - depth) as nat),
    ensures
        nondecreasing(listed_values(inorder(nodes, link, v, depth))),
    decreases WALK_LIMIT - depth,
{
    let ls = listed_values(inorder(nodes, link, v, depth));
    if let Some(n) = link {
        if n < nodes.len() && depth < WALK_LIMIT {
            let l = left_at(nodes[n as int], v);
            let r = right_at(nodes[n as int], v);
            let x = value_at(nodes[n as int], v);
            let d1 = (depth + 1) as u32;
            let f1 = (WALK_LIMIT - d1) as nat;
            lemma_inorder_sorted(nodes, l, v, d1);
            lemma_inorder_sorted(nodes, r, v, d1);
            lemma_inorder_counts(nodes, l, v, d1);
            lemma_inorder_counts(nodes, r, v, d1);
            lemma_counts_hold_values(nodes, l, v, f1);
            lemma_counts_hold_values(nodes, r, v, f1);
            let a = listed_values(inorder(nodes, l, v, d1));
            let b = listed_values(inorder(nodes, r, v, d1));
            a.to_multiset_ensures();
            b.to_multiset_ensures();
            assert forall|i: int| 0 <= i < a.len() implies a[i] <= x by {
                assert(a.contains(a[i]));
                assert(a.to_multiset().count(a[i]) > 0);
                assert(value_counts(nodes, l, v, f1).count(a[i]) > 0);
                assert(values_at(nodes, l, v, f1).contains(a[i]));
            }
            assert forall|i: int| 0 <= i < b.len() implies b[i] >= x by {
                assert(b.contains(b[i]));
                assert(b.to_multiset().count(b[i]) > 0);
                assert(value_counts(nodes, r, v, f1).count(b[i]) > 0);
                assert(values_at(nodes, r, v, f1).contains(b[i]));
            }
            assert(ls =~= a + seq![x] + b);
            assert forall|i: int, j: int| 0 <= i <= j < ls.len() implies ls[i] <= ls[j] by {
                if j < a.len() {
                } else if i > a.len() {
                    assert(ls[i] == b[i - a.len() - 1]);
                    assert(ls[j] == b[j - a.len() - 1]);
                } else if i < a.len() {
                    assert(ls[i] == a[i]);
                    if j > a.len() {
                        assert(ls[j] == b[j - a.len() - 1]);
                    }
                } else {
                    if j > a.len() {
                        assert(ls[j] == b[j - a.len() - 1]);
                    }
                }
            }
        }
    }
}

/// The answer of the successor search for `x` at version `v` from `link`: going down,
/// every node whose value at `v` exceeds `x` becomes the best answer so far and the
/// search goes left, otherwise right; `best` is the answer found above `link`. At most
/// `fuel` nodes are visited.
pub open spec fn successor_walk(nodes: Seq<Node>, link: Link, x: i32, v: u32, best: Option<i32>, fuel: nat) -> Option<i32>
    decreases fuel,
{
    match link {
        None => best,
        Some(n) => if fuel == 0 || n >= nodes.len() {
            best
        } else if value_at(nodes[n as int], v) > x {
            successor_walk(nodes, left_at(nodes[n as int], v), x, v, Some(value_at(nodes[n as int], v)), (fuel - 1) as nat)
        } else {
            successor_walk(nodes, right_at(nodes[n as int], v), x, v, best, (fuel - 1) as nat)
        },
    }
}

/// Whatever the successor search answers exceeds `x`, given that `best` does.
proof fn lemma_successor_above(nodes: Seq<Node>, link: Link, x: i32, v: u32, best: Option<i32>, fuel: nat)
    requires
        best matches Some(b) ==> b > x,
    ensures
        successor_walk(nodes, link, x, v, best, fuel) matches Some(m) ==> m > x,
    decreases fuel,
{
    if let Some(n) = link {
        if fuel > 0 && n < nodes.len() {
            if value_at(nodes[n as int], v) > x {
                lemma_successor_above(nodes, left_at(nodes[n as int], v), x, v, Some(value_at(nodes[n as int], v)), (fuel - 1) as nat);
            } else {
                lemma_successor_above(nodes, right_at(nodes[n as int], v), x, v, best, (fuel - 1) as nat);
            }
        }
    }
}

/// On a search tree the successor search answers the least value of the subtree above `x`,
/// or `best` when there is none, given that `best` bounds the subtree's values above `x`.
proof fn lemma_successor_least(nodes: Seq<Node>, link: Link, x: i32, v: u32, best: Option<i32>, fuel: nat)
    requires
        is_search_tree_at(nodes, link, v, fuel),
        best matches Some(b) ==> b > x && forall|k: i32| #[trigger] values_at(nodes, link, v, fuel).contains(k) && k > x ==> k <= b,
    ensures
        ({
            let ks = values_at(nodes, link, v, fuel);
            match successor_walk(nodes, link, x, v, best, fuel) {
                Some(m) => (ks.contains(m) || best == Some(m)) && m > x && forall|k: i32| #[trigger] ks.contains(k) && k > x ==> m <= k,
                None => best is None && forall|k: i32| #[trigger] ks.contains(k) ==> k <= x,
            }
        }),
    decreases fuel,
{
    if let Some(n) = link {
        let nv = value_at(nodes[n as int], v);
        let l = left_at(nodes[n as int], v);
        let r = right_at(nodes[n as int], v);
        let f1 = (fuel - 1) as nat;
        let ks = values_at(nodes, link, v, fuel);
        let kl = values_at(nodes, l, v, f1);
        let kr = values_at(nodes, r, v, f1);
        assert(ks == kl.union(kr).insert(nv));
        if nv > x {
            lemma_successor_least(nodes, l, x, v, Some(nv), f1);
            let res = successor_walk(nodes, l, x, v, Some(nv), f1);
            assert(successor_walk(nodes, link, x, v, best, fuel) == res);
            if let Some(m) = res {
                assert(kl.contains(m) || m == nv);
                assert(m <= nv);
                assert forall|k: i32| #[trigger] ks.contains(k) && k > x implies m <= k by {
                    if kl.contains(k) {
                    } else if kr.contains(k) {
                        assert(k >= nv);
                    } else {
                        assert(k == nv);
                    }
                }
            }
        } else {
            if let Some(b) = best {
                assert forall|k: i32| #[trigger] values_at(nodes, r, v, f1).contains(k) && k > x implies k <= b by {
                    assert(values_at(nodes, link, v, fuel).contains(k));
                }
            }
            lemma_successor_least(nodes, r, x, v, best, f1);
            let res = successor_walk(nodes, r, x, v, best, f1);
            assert(successor_walk(nodes, link, x, v, best, fuel) == res);
            assert forall|k: i32| #[trigger] kl.contains(k) implies k <= x by {
                assert(k <= nv);
            }
            if let Some(m) = res {
                assert forall|k: i32| #[trigger] ks.contains(k) && k > x implies m <= k by {
                    if kl.contains(k) {
                        assert(k <= x);
                    } else if kr.contains(k) {
                    } else {
                        assert(k == nv);
                    }
                }
            } else {
                assert forall|k: i32| #[trigger] ks.contains(k) implies k <= x by {
                    if kl.contains(k) {
                    } else if kr.contains(k) {
                    } else {
                        assert(k == nv);
                    }
                }
            }
        }
    }
}

/// Why a removal was refused.
#[derive(Clone, Copy, Debug, PartialEq, Eq, Structural)]
pub enum RemoveError {
    /// No version has a tree yet.
    NoRoot,
    /// The current version does not hold the value.
    NotFound,
}

/// A red-black tree with partial persistence: every insertion or removal makes a new
/// version, and every earlier version can still be read.
pub struct PersistentStructure {
    nodes: Vec<Node>,
    roots: HashMap<u32, usize>,
    current_version: u32,
}

impl PersistentStructure {
    /// The store is well-formed, and there is one root entry per version up to the
    /// current one: none for version 0, one for every later version.
    pub closed spec fn wf(&self) -> bool {
        &&& store_ok(self.nodes@)
        &&& versions_upto(self.nodes@, self.current_version)
        &&& forall|v: u32| #[trigger] self.roots@.contains_key(v) <==> 1 <= v <= self.current_version
        &&& forall|v: u32| #[trigger] self.roots@.contains_key(v) ==> self.roots@[v] < self.nodes.len()
    }

    /// The latest version.
    pub closed spec fn version(&self) -> u32 {
        self.current_version
    }

    /// The nodes of all versions.
    pub closed spec fn store(&self) -> Seq<Node> {
        self.nodes@
    }

    /// The root of version `v`; none for version 0 and for versions not made yet.
    pub closed spec fn root_at(&self, v: u32) -> Link {
        if self.roots@.contains_key(v) {
            Some(self.roots@[v])
        } else {
            None
        }
    }

    /// The in-order listing of version `v`.
    pub closed spec fn listing(&self, v: u32) -> Seq<(i32, u32, char)> {
        inorder(self.nodes@, self.root_at(v), v, 0)
    }

    /// The answer of the successor search for `x` in version `v`.
    pub closed spec fn successor_at(&self, x: i32, v: u32) -> Option<i32> {
        successor_walk(self.nodes@, self.root_at(v), x, v, None, WALK_LIMIT as nat)
    }

    /// `self` is a later state of `earlier`: its version is no older, the roots of the
    /// versions up to `earlier`'s are the same, and its store grew out of `earlier`'s by
    /// changes for later versions only.
    pub closed spec fn follows(self, earlier: Self) -> bool {
        &&& earlier.current_version <= self.current_version
        &&& forall|w: u32| w <= earlier.current_version ==> #[trigger] self.root_at(w) == earlier.root_at(w)
        &&& extends(earlier.nodes@, self.nodes@, earlier.current_version)
    }

    /// The node a binary search for `value` finds in the latest version.
    pub closed spec fn lookup(&self, value: i32) -> Link {
        search(self.nodes@, self.root_at(self.current_version), value, self.current_version, WALK_LIMIT as nat)
    }

    /// An empty structure at version 0.
    pub fn new() -> (s: Self)
        ensures
            s.wf(),
            s.version() == 0,
            s.store().len() == 0,
            forall|v: u32| #[trigger] s.root_at(v) is None,
    {
        PersistentStructure { nodes: Vec::new(), roots: HashMap::new(), current_version: 0 }
    }

    /// The latest version.
    pub fn current_version(&self) -> (r: u32)
        ensures
            r == self.version(),
    {
        self.current_version
    }

    /// Inserts `value`, making a new version: into an empty structure as a black root,
    /// otherwise by red-black insertion into the latest version (see `tree::insert`).
    pub fn insert(&mut self, value: i32)
        requires
            old(self).wf(),
            old(self).version() < u32::MAX,
        ensures
            final(self).wf(),
            final(self).version() == old(self).version() + 1,
            final(self).follows(*old(self)),
            final(self).root_at(final(self).version()) is Some,
            grows(old(self).store(), final(self).store(), final(self).version()),
            old(self).store().len() < final(self).store().len(),
            final(self).store()[old(self).store().len() as int].value == value,
            // in the new version the new node holds `value`, and every other node the value
            // it held in the latest one
            value_at(final(self).store()[old(self).store().len() as int], final(self).version()) == value,
            forall|i: int| 0 <= i < old(self).store().len() ==> #[trigger] value_at(final(self).store()[i], final(self).version())
                == value_at(old(self).store()[i], old(self).version()),
            old(self).version() == 0 ==> final(self).listing(1) == seq![(value, 0u32, 'N')],
            // in the latest version, under a black parent, when hanging the new node copies
            // the parent and every node above it up to a black root: the new version's root
            // is a node made by this insertion, without a parent, and its tree holds `value`
            ({
                let o = old(self).store();
                let cur = old(self).version();
                let nv = final(self).version();
                let root = old(self).root_at(cur)->0;
                let p = insertion_parent(o, Some(root), value, cur, None, WALK_LIMIT as nat)->0;
                (cur > 0 && color_at(o[p as int], cur) == Color::Black && copies_to_black_root(o, p, Some(o.len() as usize), cur)) ==> {
                    &&& final(self).root_at(nv) is Some
                    &&& o.len() < final(self).root_at(nv)->0
                    &&& final(self).store()[final(self).root_at(nv)->0 as int].parent is None
                    &&& exists|k: nat| values_at(final(self).store(), final(self).root_at(nv), nv, k).contains(value)
                }
            }),
            // in the latest version with a black root, under a black parent whose log has
            // room, the new version holds the values of the latest one and `value`
            ({
                let o = old(self).store();
                let cur = old(self).version();
                let root = old(self).root_at(cur)->0;
                let p = insertion_parent(o, Some(root), value, cur, None, WALK_LIMIT as nat)->0;
                (cur > 0 && color_at(o[p as int], cur) == Color::Black && has_room(o[p as int])
                    && color_at(o[root as int], cur) == Color::Black && height_within(
                    o,
                    Some(root),
                    cur,
                    (WALK_LIMIT - 1) as nat,
                )) ==> {
                    &&& values_at(final(self).store(), final(self).root_at(final(self).version()), final(self).version(), WALK_LIMIT as nat)
                        == values_at(o, Some(root), cur, WALK_LIMIT as nat).insert(value)
                    // counted with repeats, in a tree that meets each node once: one more `value`
                    &&& meets_each_once(o, Some(root), cur, WALK_LIMIT as nat) ==> value_counts(
                        final(self).store(),
                        final(self).root_at(final(self).version()),
                        final(self).version(),
                        WALK_LIMIT as nat,
                    ) == value_counts(o, Some(root), cur, WALK_LIMIT as nat).insert(value)
                    // and a red-black tree stays one
                    &&& final(self).root_at(final(self).version()) == Some(root)
                    &&& red_black_at(o, root, cur, WALK_LIMIT as nat) ==> red_black_at(final(self).store(), root, final(self).version(), WALK_LIMIT as nat)
                }
            }),
    {
        let old_v = self.current_version;
        let new_v = old_v + 1;
        let ghost old_nodes = self.nodes@;
        if let Some(r) = self.roots.get(&old_v) {
            let root = *r;
            proof {
                lemma_insertion_parent_ok(old_nodes, Some(root), value, new_v, None, WALK_LIMIT as nat);
                lemma_walks_after(old_nodes, Some(root), old_v, new_v, value, None, WALK_LIMIT as nat);
                lemma_walks_after(old_nodes, Some(root), old_v, new_v, value, None, (WALK_LIMIT - 1) as nat);
                let pp = insertion_parent(old_nodes, Some(root), value, new_v, None, WALK_LIMIT as nat)->0;
                assert forall|j: int| 0 <= j < old_nodes[pp as int].mods.len() implies (#[trigger] old_nodes[pp as int].mods@[j]).version <= old_v by {}
                assert forall|j: int| 0 <= j < old_nodes[root as int].mods.len() implies (#[trigger] old_nodes[root as int].mods@[j]).version <= old_v by {}
                lemma_reads_after(old_nodes[pp as int], old_v, new_v);
                lemma_reads_after(old_nodes[root as int], old_v, new_v);
                let link = Some(old_nodes.len() as usize);
                lemma_climb_after(old_nodes, pp, link, Set::empty(), Set::empty(), old_v, new_v, WALK_LIMIT as nat);
                if let Some((true, t)) = climb(old_nodes, pp, link, Set::empty(), Set::empty(), old_v, WALK_LIMIT as nat) {
                    lemma_climb_stop(old_nodes, pp, link, Set::empty(), Set::empty(), old_v, WALK_LIMIT as nat);
                    assert forall|j: int| 0 <= j < old_nodes[t as int].mods.len() implies (#[trigger] old_nodes[t as int].mods@[j]).version <= old_v by {}
                    lemma_reads_after(old_nodes[t as int], old_v, new_v);
                }
            }
            let res = insert(&mut self.nodes, root, value, new_v);
            self.roots.insert(new_v, if let Some(r) = res { r } else { root });
        } else {
            let id = self.nodes.len();
            self.nodes.push(Node { value, color: Color::Black, left: None, right: None, parent: None, mods: Vec::new() });
            self.roots.insert(new_v, id);
            proof {
                let s = self.nodes@;
                lemma_plain_growth(old_nodes, s, new_v);
                if old_v == 0 {
                    let n = s[id as int];
                    assert(n.mods@.len() == 0);
                    assert(left_at(n, 1) is None);
                    assert(right_at(n, 1) is None);
                    assert(color_at(n, 1) == Color::Black);
                    assert(id < s.len());
                    assert(inorder(s, None, 1, 1) =~= Seq::<(i32, u32, char)>::empty());
                    assert(inorder(s, Some(id), 1, 0) == inorder(s, None, 1, 1) + seq![(value, 0u32, color_letter(Color::Black))] + inorder(s, None, 1, 1));
                    assert(inorder(s, Some(id), 1, 0) =~= seq![(value, 0u32, 'N')]);
                }
            }
        }
        self.current_version = new_v;
        proof {
            assert forall|i: int| 0 <= i < old_nodes.len() implies #[trigger] value_at(old_nodes[i], new_v) == value_at(old_nodes[i], old_v) by {
                assert forall|j: int| 0 <= j < old_nodes[i].mods.len() implies (#[trigger] old_nodes[i].mods@[j]).version <= old_v by {}
                lemma_reads_after(old_nodes[i], old_v, new_v);
            }
            assert forall|i: int| 0 <= i < old_nodes.len() implies #[trigger] value_at(self.nodes@[i], new_v) == value_at(old_nodes[i], new_v) by {}
            lemma_versions_upto_grow(old_nodes, self.nodes@, old_v, new_v);
            lemma_history_extends(old_nodes, self.nodes@, new_v, old_v);
            assert forall|v: u32| #[trigger] self.roots@.contains_key(v) implies self.roots@[v] < self.nodes.len() by {
                if v != self.current_version {
                    assert(old(self).roots@.contains_key(v));
                }
            }
        }
    }

    /// Removes `value` from the latest version, making a new version, by red-black
    /// deletion (see `tree::remove`) of the node that a binary search for it finds. Without
    /// any version the removal is refused with `NoRoot`, and when the search finds no node
    /// with `NotFound`; nothing changes then. When that node is a root without children,
    /// nothing changes either and no version is made.
    pub fn remove(&mut self, value: i32) -> (r: Result<(), RemoveError>)
        requires
            old(self).wf(),
            old(self).version() < u32::MAX,
        ensures
            final(self).wf(),
            final(self).follows(*old(self)),
            (r == Err::<(), RemoveError>(RemoveError::NoRoot)) <==> old(self).version() == 0,
            (r == Err::<(), RemoveError>(RemoveError::NotFound)) <==> (old(self).version() > 0 && old(self).lookup(value) is None),
            r is Err ==> final(self).version() == old(self).version() && final(self).store() == old(self).store(),
            r is Ok ==> ({
                let n = old(self).lookup(value)->0;
                let cur = old(self).version();
                let childless_root = old(self).store()[n as int].parent is None
                    && left_at(old(self).store()[n as int], cur) is None
                    && right_at(old(self).store()[n as int], cur) is None;
                &&& old(self).lookup(value) is Some
                &&& childless_root ==> final(self).version() == cur && final(self).store() == old(self).store()
                &&& !childless_root ==> final(self).version() == cur + 1
                    && final(self).root_at((cur + 1) as u32) is Some
                    && grows(old(self).store(), final(self).store(), (cur + 1) as u32)
            }),
            // a red leaf that its parent (whose log has room) holds: the new version holds
            // the values of the latest one, but for at most `value`
            ({
                let o = old(self).store();
                let cur = old(self).version();
                let n = old(self).lookup(value)->0;
                let ps = o[n as int].parent->0;
                let vals_old = values_at(o, old(self).root_at(cur), cur, WALK_LIMIT as nat);
                let vals_new = values_at(final(self).store(), final(self).root_at(final(self).version()), final(self).version(), WALK_LIMIT as nat);
                (r is Ok && o[n as int].parent is Some && color_at(o[n as int], cur) == Color::Red
                    && left_at(o[n as int], cur) is None && right_at(o[n as int], cur) is None && ps.0 != n
                    && has_room(o[ps.0 as int]) && child_at(o[ps.0 as int], ps.1, cur) == Some(n)) ==> {
                    &&& vals_new.subset_of(vals_old)
                    &&& vals_old.subset_of(vals_new.insert(value))
                    // counted with repeats: `value` leaves once for each time the walk meets
                    // the parent (once, in a tree that meets each node once)
                    &&& forall|x: i32| #[trigger] value_counts(o, old(self).root_at(cur), cur, WALK_LIMIT as nat).count(x)
                        == value_counts(final(self).store(), final(self).root_at(final(self).version()), final(self).version(), WALK_LIMIT as nat).count(x)
                            + (if x == value { visits(o, old(self).root_at(cur), ps.0, cur, WALK_LIMIT as nat) } else { 0 })
                    // a red-black tree stays one
                    &&& final(self).root_at(final(self).version()) == old(self).root_at(cur)
                    &&& (height_within(o, old(self).root_at(cur), cur, (WALK_LIMIT - 1) as nat)
                        && red_black_at(o, old(self).root_at(cur)->0, cur, WALK_LIMIT as nat))
                        ==> red_black_at(final(self).store(), old(self).root_at(cur)->0, final(self).version(), WALK_LIMIT as nat)
                }
            }),
            // a red node with at most one child, when cutting it out copies its parent and
            // every node above it up to a root: the new version's root is a node made by
            // this removal, without a parent, and the node standing for the parent hangs
            // under it, holding the removed node's child in its place and the parent's value
            ({
                let o = old(self).store();
                let cur = old(self).version();
                let nv = final(self).version();
                let f = final(self).store();
                let n = old(self).lookup(value)->0;
                let x = crate::tree::or_link(left_at(o[n as int], cur), right_at(o[n as int], cur));
                let (pp, side) = o[n as int].parent->0;
                (r is Ok && o[n as int].parent is Some && color_at(o[n as int], cur) == Color::Red
                    && !(left_at(o[n as int], cur) is Some && right_at(o[n as int], cur) is Some)
                    && climb(o, pp, x, Set::empty(), Set::empty(), cur, WALK_LIMIT as nat) matches Some((true, _))) ==> {
                    &&& final(self).root_at(nv) is Some
                    &&& o.len() <= final(self).root_at(nv)->0
                    &&& f[final(self).root_at(nv)->0 as int].parent is None
                    &&& exists|q: usize, k: nat| {
                        &&& crate::node::links_up(f, q, final(self).root_at(nv)->0, nv, k)
                        &&& child_at(f[q as int], side, nv) == x
                        &&& value_at(f[q as int], nv) == value_at(o[pp as int], cur)
                    }
                }
            }),
            // what the nodes read in the new version: a node with two children takes (when
            // its log has room) the value of its successor, the leftmost node of its right
            // subtree; no other node's value changes
            ({
                let o = old(self).store();
                let cur = old(self).version();
                let n = old(self).lookup(value)->0;
                let nv = final(self).version();
                let f = final(self).store();
                let two = left_at(o[n as int], cur) is Some && right_at(o[n as int], cur) is Some;
                (r is Ok && nv == cur + 1) ==> {
                    &&& forall|i: int| 0 <= i < o.len() && i != n ==> #[trigger] value_at(f[i], nv) == value_at(o[i], cur)
                    &&& !two ==> value_at(f[n as int], nv) == value_at(o[n as int], cur)
                    &&& (two && has_room(o[n as int])) ==> value_at(f[n as int], nv) == value_at(
                        o[leftmost(o, right_at(o[n as int], cur)->0, cur, WALK_LIMIT as nat) as int],
                        cur,
                    )
                }
            }),
    {
        let current_version = self.current_version;
        let new_version = current_version + 1;
        let ghost old_nodes = self.nodes@;
        proof {
            lemma_extends_refl(old_nodes, current_version);
        }
        let root_copy = match self.roots.get(&current_version) {
            Some(r) => *r,
            None => return Err(RemoveError::NoRoot),
        };
        let node_to_remove = match find_node(&self.nodes, Some(root_copy), value, current_version) {
            Some(n) => n,
            None => return Err(RemoveError::NotFound),
        };
        proof {
            crate::tree::lemma_search_ok(old_nodes, Some(root_copy), value, current_version, WALK_LIMIT as nat);
        }
        let is_root = self.nodes[node_to_remove].parent.is_none();
        let has_no_children = self.nodes[node_to_remove].get_left(current_version).is_none()
            && self.nodes[node_to_remove].get_right(current_version).is_none();
        if is_root && has_no_children {
            return Ok(());
        }
        let ghost n = old_nodes[node_to_remove as int];
        let ghost leaf_case = n.parent is Some && color_at(n, current_version) == Color::Red
            && left_at(n, current_version) is None && right_at(n, current_version) is None
            && (n.parent->0).0 != node_to_remove && has_room(old_nodes[(n.parent->0).0 as int])
            && child_at(old_nodes[(n.parent->0).0 as int], (n.parent->0).1, current_version) == Some(node_to_remove);
        proof {
            if leaf_case {
                let pp = (n.parent->0).0;
                assert(node_ok(n, old_nodes.len() as nat));
                assert forall|j: int| 0 <= j < n.mods.len() implies (#[trigger] n.mods@[j]).version <= current_version by {}
                assert forall|j: int| 0 <= j < old_nodes[pp as int].mods.len() implies (#[trigger] old_nodes[pp as int].mods@[j]).version <= current_version by {}
                lemma_reads_after(n, current_version, new_version);
                lemma_reads_after(old_nodes[pp as int], current_version, new_version);
                lemma_walks_after(old_nodes, Some(root_copy), current_version, new_version, value, None, WALK_LIMIT as nat);
                lemma_walks_after(old_nodes, Some(root_copy), current_version, new_version, value, None, (WALK_LIMIT - 1) as nat);
            }
            assert forall|j: int| 0 <= j < n.mods.len() implies (#[trigger] n.mods@[j]).version <= current_version by {}
            lemma_reads_after(n, current_version, new_version);
            if let Some((pp, _)) = n.parent {
                assert(node_ok(n, old_nodes.len() as nat));
                assert forall|j: int| 0 <= j < old_nodes[pp as int].mods.len() implies (#[trigger] old_nodes[pp as int].mods@[j]).version <= current_version by {}
                lemma_reads_after(old_nodes[pp as int], current_version, new_version);
                let x = crate::tree::or_link(left_at(n, current_version), right_at(n, current_version));
                lemma_climb_after(old_nodes, pp, x, Set::empty(), Set::empty(), current_version, new_version, WALK_LIMIT as nat);
            }
        }
        let removed_root = remove(&mut self.nodes, node_to_remove, new_version);
        proof {
            let f = self.nodes@;
            assert forall|i: int| 0 <= i < old_nodes.len() implies #[trigger] value_at(old_nodes[i], new_version) == value_at(old_nodes[i], current_version) by {
                assert forall|j: int| 0 <= j < old_nodes[i].mods.len() implies (#[trigger] old_nodes[i].mods@[j]).version <= current_version by {}
                lemma_reads_after(old_nodes[i], current_version, new_version);
            }
            assert forall|j: int| 0 <= j < n.mods.len() implies (#[trigger] n.mods@[j]).version <= current_version by {}
            lemma_reads_after(n, current_version, new_version);
            assert(old_nodes[node_to_remove as int] == n);
            if !(left_at(n, current_version) is Some && right_at(n, current_version) is Some) {
                assert(values_kept(old_nodes, f, new_version));
                assert(value_at(f[node_to_remove as int], new_version) == value_at(old_nodes[node_to_remove as int], new_version));
            } else {
                let rn = right_at(n, current_version)->0;
                lemma_leftmost_after(old_nodes, rn, current_version, new_version, WALK_LIMIT as nat);
                assert(successor_value_taken(old_nodes, f, node_to_remove, rn, new_version));
                if has_room(n) {
                    let lm = leftmost(old_nodes, rn, current_version, WALK_LIMIT as nat);
                    assert(node_ok(n, old_nodes.len() as nat));
                    lemma_reads_ok(n, current_version, old_nodes.len() as nat);
                    crate::tree::lemma_leftmost_ok(old_nodes, rn, current_version, WALK_LIMIT as nat);
                    assert(value_at(old_nodes[lm as int], new_version) == value_at(old_nodes[lm as int], current_version));
                    assert(value_at(f[node_to_remove as int], new_version) == value_at(old_nodes[lm as int], new_version));
                }
            }
        }
        proof {
            if leaf_case {
                let pp = (n.parent->0).0;
                let q = choose|q: usize| update_effect(old_nodes, self.nodes@, pp, ModKind::Position((n.parent->0).1, None), new_version, (q, removed_root));
                assert(removed_root is None);
                assert(link_ok(Some(root_copy), old_nodes.len() as nat));
                assert(values_at(self.nodes@, Some(root_copy), new_version, WALK_LIMIT as nat).subset_of(values_at(old_nodes, Some(root_copy), new_version, WALK_LIMIT as nat)));
                if height_within(old_nodes, Some(root_copy), current_version, (WALK_LIMIT - 1) as nat)
                    && red_black_at(old_nodes, root_copy, current_version, WALK_LIMIT as nat) {
                    assert(black_height(old_nodes, Some(root_copy), new_version, WALK_LIMIT as nat) is Some);
                    assert(black_height(self.nodes@, Some(root_copy), new_version, WALK_LIMIT as nat) == black_height(old_nodes, Some(root_copy), new_version, WALK_LIMIT as nat));
                }
            }
        }
        match removed_root {
            Some(new_physical_root) => {
                self.roots.insert(new_version, new_physical_root);
            },
            None => {
                self.roots.insert(new_version, root_copy);
            },
        }
        self.current_version = new_version;
        proof {
            lemma_versions_upto_grow(old_nodes, self.nodes@, current_version, new_version);
            lemma_history_extends(old_nodes, self.nodes@, new_version, current_version);
            assert forall|v: u32| #[trigger] self.roots@.contains_key(v) implies self.roots@[v] < self.nodes.len() by {
                if v != self.current_version {
                    assert(old(self).roots@.contains_key(v));
                }
            }
            assert(old(self).lookup(value) == Some(node_to_remove));
        }
        Ok(())
    }

    /// The successor search for `x` in version `version`: the smallest value at
    /// `version` greater than `x` met on the way down from the root, `None` if there is none or the
    /// version has no tree.
    pub fn sucessor(&self, x: i32, version: u32) -> (r: Option<i32>)
        requires
            self.wf(),
        ensures
            r == self.successor_at(x, version),
            r matches Some(m) ==> m > x,
    {
        proof {
            let root = self.root_at(version);
            lemma_successor_above(self.nodes@, root, x, version, None, WALK_LIMIT as nat);
        }
        let mut curr = match self.roots.get(&version) {
            Some(r) => Some(*r),
            None => None,
        };
        let mut best: Option<i32> = None;
        let mut steps = WALK_LIMIT;
        while steps > 0
            invariant
                self.wf(),
                link_ok(curr, self.nodes.len() as nat),
                self.successor_at(x, version) matches Some(m) ==> m > x,
                successor_walk(self.nodes@, curr, x, version, best, steps as nat) == self.successor_at(x, version),
            decreases steps,
        {
            match curr {
                Some(node) => {
                    proof {
                        assert(node_ok(self.nodes@[node as int], self.nodes.len() as nat));
                        lemma_reads_ok(self.nodes@[node as int], version, self.nodes.len() as nat);
                    }
                    let node_value = self.nodes[node].get_value(version);
                    if node_value > x {
                        best = Some(node_value);
                        curr = self.nodes[node].get_left(version);
                    } else {
                        curr = self.nodes[node].get_right(version);
                    }
                },
                None => {
                    return best;
                },
            }
            steps = steps - 1;
        }
        best
    }

    /// Appends to `acc` the in-order listing of the subtree at `link` in version `v`,
    /// whose top is `depth` levels below the root: for each node its value at `v`, its
    /// depth, and `R` or `N` for its colour. The walk stops at depth `WALK_LIMIT`.
    pub fn collect_inorder(&self, link: Link, v: u32, depth: u32, acc: &mut Vec<(i32, u32, char)>)
        requires
            self.wf(),
            link_ok(link, self.store().len() as nat),
        ensures
            final(acc)@ == old(acc)@ + inorder(self.store(), link, v, depth),
        decreases WALK_LIMIT - depth,
    {
        if let Some(node) = link {
            if depth as usize >= WALK_LIMIT {
                proof {
                    assert(old(acc)@ + inorder(self.nodes@, link, v, depth) =~= old(acc)@);
                }
                return;
            }
            proof {
                assert(node_ok(self.nodes@[node as int], self.nodes.len() as nat));
                lemma_reads_ok(self.nodes@[node as int], v, self.nodes.len() as nat);
            }
            let ghost a0 = acc@;
            self.collect_inorder(self.nodes[node].get_left(v), v, depth + 1, acc);
            let color_char = match self.nodes[node].get_color(v) {
                Color::Red => 'R',
                Color::Black => 'N',
            };
            acc.push((self.nodes[node].get_value(v), depth, color_char));
            self.collect_inorder(self.nodes[node].get_right(v), v, depth + 1, acc);
            proof {
                assert(acc@ =~= a0 + inorder(self.nodes@, link, v, depth));
            }
        } else {
            proof {
                assert(old(acc)@ + inorder(self.nodes@, link, v, depth) =~= old(acc)@);
            }
        }
    }

    /// The listing of a version holds every value of the version's tree as often as the
    /// tree holds it, and on a search tree lists them in order.
    pub proof fn lemma_listing_complete(&self, v: u32)
        ensures
            listed_values(self.listing(v)).to_multiset() == value_counts(self.store(), self.root_at(v), v, WALK_LIMIT as nat),
            is_search_tree_at(self.store(), self.root_at(v), v, WALK_LIMIT as nat) ==> nondecreasing(listed_values(self.listing(v))),
    {
        lemma_inorder_counts(self.nodes@, self.root_at(v), v, 0);
        if is_search_tree_at(self.store(), self.root_at(v), v, WALK_LIMIT as nat) {
            lemma_inorder_sorted(self.nodes@, self.root_at(v), v, 0);
        }
    }

    /// The in-order listing of version `version` (see `collect_inorder`); empty when the
    /// version has no tree.
    pub fn inorder_listing(&self, version: u32) -> (r: Vec<(i32, u32, char)>)
        requires
            self.wf(),
        ensures
            r@ == self.listing(version),
            // every value of the version, as often as its tree holds it, and on a search
            // tree in order
            listed_values(r@).to_multiset() == value_counts(self.store(), self.root_at(version), version, WALK_LIMIT as nat),
            is_search_tree_at(self.store(), self.root_at(version), version, WALK_LIMIT as nat) ==> nondecreasing(listed_values(r@)),
    {
        proof {
            self.lemma_listing_complete(version);
        }
        let root = match self.roots.get(&version) {
            Some(r) => Some(*r),
            None => None,
        };
        let mut results = Vec::new();
        if root.is_some() {
            self.collect_inorder(root, version, 0, &mut results);
            proof {
                assert(results@ =~= self.listing(version));
            }
        } else {
            proof {
                assert(results@ =~= self.listing(version));
            }
        }
        results
    }
}


/// The listing of a subtree at a version up to `cur` is the same in a store that grew
/// by changes for later versions.
proof fn lemma_inorder_extends(old: Seq<Node>, new: Seq<Node>, cur: u32, link: Link, w: u32, depth: u32)
    requires
        store_ok(old),
        extends(old, new, cur),
        link_ok(link, old.len()),
        w <= cur,
    ensures
        inorder(new, link, w, depth) == inorder(old, link, w, depth),
    decreases WALK_LIMIT - depth,
{
    if let Some(n) = link {
        if depth < WALK_LIMIT {
            assert(node_ok(old[n as int], old.len()));
            lemma_reads_ok(old[n as int], w, old.len());
            assert(node_extends(old[n as int], new[n as int], cur));
            lemma_node_extends_reads(old[n as int], new[n as int], cur, w);
            lemma_inorder_extends(old, new, cur, left_at(old[n as int], w), w, (depth + 1) as u32);
            lemma_inorder_extends(old, new, cur, right_at(old[n as int], w), w, (depth + 1) as u32);
        }
    }
}

/// The successor search at a version up to `cur` answers the same in a store that grew
/// by changes for later versions.
proof fn lemma_successor_extends(
    old: Seq<Node>,
    new: Seq<Node>,
    cur: u32,
    link: Link,
    x: i32,
    w: u32,
    best: Option<i32>,
    fuel: nat,
)
    requires
        store_ok(old),
        extends(old, new, cur),
        link_ok(link, old.len()),
        w <= cur,
    ensures
        successor_walk(new, link, x, w, best, fuel) == successor_walk(old, link, x, w, best, fuel),
    decreases fuel,
{
    if let Some(n) = link {
        if fuel > 0 {
            assert(node_ok(old[n as int], old.len()));
            lemma_reads_ok(old[n as int], w, old.len());
            assert(node_extends(old[n as int], new[n as int], cur));
            lemma_node_extends_reads(old[n as int], new[n as int], cur, w);
            lemma_successor_extends(old, new, cur, left_at(old[n as int], w), x, w, Some(value_at(old[n as int], w)), (fuel - 1) as nat);
            lemma_successor_extends(old, new, cur, right_at(old[n as int], w), x, w, best, (fuel - 1) as nat);
        }
    }
}

impl PersistentStructure {
    /// Every state follows itself.
    pub proof fn lemma_follows_refl(s: Self)
        ensures
            s.follows(s),
    {
        lemma_extends_refl(s.nodes@, s.current_version);
    }

    /// A state that follows one that follows `a` follows `a`: the relation carries over
    /// any sequence of operations.
    pub proof fn lemma_follows_trans(a: Self, b: Self, c: Self)
        requires
            b.follows(a),
            c.follows(b),
        ensures
            c.follows(a),
    {
        lemma_extends_trans(a.nodes@, b.nodes@, c.nodes@, a.current_version, b.current_version);
    }

    /// Partial persistence: after any later operations, every version up to the one
    /// that was current reads as before: its in-order listing and the answer of every
    /// successor search are unchanged.
    pub proof fn lemma_old_versions_unchanged(a: Self, b: Self, w: u32, x: i32)
        requires
            a.wf(),
            b.follows(a),
            w <= a.version(),
        ensures
            b.listing(w) == a.listing(w),
            b.successor_at(x, w) == a.successor_at(x, w),
    {
        assert(b.root_at(w) == a.root_at(w));
        assert(link_ok(a.root_at(w), a.nodes.len() as nat));
        lemma_inorder_extends(a.nodes@, b.nodes@, a.current_version, a.root_at(w), w, 0);
        lemma_successor_extends(a.nodes@, b.nodes@, a.current_version, a.root_at(w), x, w, None, WALK_LIMIT as nat);
    }

    /// Every version from 1 to the latest has a root, a node of the store, and no other
    /// version has one.
    pub proof fn lemma_versions_have_roots(s: Self, v: u32)
        requires
            s.wf(),
        ensures
            s.root_at(v) is Some <==> 1 <= v <= s.version(),
            s.root_at(v) matches Some(r) ==> r < s.store().len(),
    {
    }

    /// Partial persistence, node by node: after any later operations, every node of the
    /// earlier store reads the same children, value and colour at every version up to
    /// the one that was current, and the roots of those versions are the same.
    pub proof fn lemma_old_reads_unchanged(a: Self, b: Self, i: int, w: u32)
        requires
            b.follows(a),
            0 <= i < a.store().len(),
            w <= a.version(),
        ensures
            a.store().len() <= b.store().len(),
            b.root_at(w) == a.root_at(w),
            left_at(b.store()[i], w) == left_at(a.store()[i], w),
            right_at(b.store()[i], w) == right_at(a.store()[i], w),
            value_at(b.store()[i], w) == value_at(a.store()[i], w),
            color_at(b.store()[i], w) == color_at(a.store()[i], w),
    {
        assert(node_extends(a.nodes@[i], b.nodes@[i], a.current_version));
        lemma_node_extends_reads(a.nodes@[i], b.nodes@[i], a.current_version, w);
    }

    /// On a version whose tree is a search tree, the successor
    /// search answers the least value in it that is greater than `x`, and `None` exactly
    /// when no value in it is greater than `x`.
    pub proof fn lemma_successor_is_least_above(s: Self, x: i32, v: u32)
        requires
            is_search_tree_at(s.store(), s.root_at(v), v, WALK_LIMIT as nat),
        ensures
            ({
                let ks = values_at(s.store(), s.root_at(v), v, WALK_LIMIT as nat);
                match s.successor_at(x, v) {
                    Some(m) => ks.contains(m) && m > x && forall|k: i32| #[trigger] ks.contains(k) && k > x ==> m <= k,
                    None => forall|k: i32| #[trigger] ks.contains(k) ==> k <= x,
                }
            }),
    {
        lemma_successor_least(s.nodes@, s.root_at(v), x, v, None, WALK_LIMIT as nat);
    }

    /// On a latest version whose tree is a search tree, the binary search that a removal
    /// starts with finds a node exactly when the version holds the value, so a removal is
    /// refused with `NotFound` exactly for values the version does not hold.
    pub proof fn lemma_lookup_finds_held_values(s: Self, value: i32)
        requires
            is_search_tree_at(s.store(), s.root_at(s.version()), s.version(), WALK_LIMIT as nat),
        ensures
            s.lookup(value) is Some <==> values_at(s.store(), s.root_at(s.version()), s.version(), WALK_LIMIT as nat).contains(value),
    {
        lemma_search_complete(s.nodes@, s.root_at(s.current_version), value, s.current_version, WALK_LIMIT as nat);
    }
}

} // verus!
