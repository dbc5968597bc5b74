//! The B-tree index: an arena of nodes and the handle of the root.
use vstd::prelude::*;
use crate::model::{
    all_present,
    arena_ok,
    below,
    child_fits,
    fits,
    follow,
    holds,
    in_range,
    landing,
    lemma_absorb,
    lemma_descend,
    lemma_follow_height,
    lemma_holds_append,
    lemma_holds_first,
    lemma_holds_in_range,
    lemma_holds_node,
    lemma_holds_rewrite,
    lemma_node_holds_frame,
    lemma_shaped_extend,
    lemma_shaped_views,
    lemma_slot_for,
    lemma_slot_exists,
    lemma_slot_for_bounds,
    on_path,
    node_holds,
    present,
    shaped,
    slot_for,
    SlotInfo,
    split_count,
    splits,
    splits_on_path,
    lemma_on_path_level,
    lemma_path_level,
};
use crate::node::{split_node, Node, NodeIndex, NodeType};
use crate::sorted::{contains_sorted, count_at_most, count_below, sorted};

verus! {

/// Inserting `key` under slot `h`, at height `d`, splits that node: it holds
/// `order - 1` keys already and, unless it is a leaf, the child the key goes
/// into (the number of keys at or below it) splits too.
pub open spec fn path_splits(t: Btree, h: int, key: i32, d: nat) -> bool
    decreases d,
{
    let k = t.keys_of(h);
    let full = k.len() + 1 == t.spec_order();
    if t.is_leaf(h) {
        full
    } else {
        d > 0 && full && path_splits(t, t.children_of(h)[slot_for(k, key)] as int, key, (d - 1) as nat)
    }
}

/// Slot `i` lies on the way down from slot `h`, at height `d`, that an
/// insertion of `key` takes.
pub open spec fn path_visits(t: Btree, h: int, key: i32, d: nat, i: int) -> bool
    decreases d,
{
    i == h || (!t.is_leaf(h) && d > 0
        && path_visits(t, t.children_of(h)[slot_for(t.keys_of(h), key)] as int, key, (d - 1) as nat, i))
}

/// How many nodes split when `key` is inserted under slot `h`, at height `d`.
pub open spec fn path_split_count(t: Btree, h: int, key: i32, d: nat) -> nat
    decreases d,
{
    let here: nat = if path_splits(t, h, key, d) { 1 } else { 0 };
    if t.is_leaf(h) {
        here
    } else if d > 0 {
        here + path_split_count(t, t.children_of(h)[slot_for(t.keys_of(h), key)] as int, key, (d - 1) as nat)
    } else {
        here
    }
}

/// Slot `i` lies on the way down from slot `h`, at height `d`, that an
/// insertion of `key` takes, and splits.
pub open spec fn path_splits_at(t: Btree, h: int, key: i32, d: nat, i: int) -> bool
    decreases d,
{
    (i == h && path_splits(t, h, key, d)) || (!t.is_leaf(h) && d > 0
        && path_splits_at(t, t.children_of(h)[slot_for(t.keys_of(h), key)] as int, key, (d - 1) as nat, i))
}

/// The index: order, arena of nodes, and the handle of the root, if any.
pub struct Btree {
    root: Option<NodeIndex>,
    order: usize,
    nodes: Vec<Node>,
    info: Ghost<Seq<SlotInfo>>,
}

impl View for Btree {
    type V = Set<i32>;

    /// The keys in the leaves reachable from the root.
    closed spec fn view(&self) -> Set<i32> {
        Set::new(|x: i32| self.contains(x))
    }
}

impl Btree {
    /// Every slot of the arena fits its bookkeeping, and the root was created for
    /// the unbounded range.
    pub closed spec fn wf(&self) -> bool {
        &&& self.order >= 3
        &&& arena_ok(self.order, self.nodes@, self.info@)
        &&& all_present(self.nodes@, self.info@)
        &&& match self.root {
            Some(r) => r < self.nodes@.len() && self.info@[r as int].1 is None && self.info@[r as int].2 is None,
            None => true,
        }
    }

    /// The order the tree was made with.
    pub closed spec fn spec_order(&self) -> usize {
        self.order
    }

    /// The handle of the root node, absent while the tree is empty.
    pub closed spec fn root_handle(&self) -> Option<NodeIndex> {
        self.root
    }

    /// Key `x` is in some leaf of the tree.
    pub closed spec fn contains(&self, x: i32) -> bool {
        match self.root {
            Some(r) => holds(self.nodes@, self.info@, r as int, x),
            None => false,
        }
    }

    /// Number of edges from the root down to any leaf (0 while empty).
    pub closed spec fn height(&self) -> nat {
        match self.root {
            Some(r) => self.info@[r as int].0,
            None => 0,
        }
    }

    /// The node reached from the root by following the child positions in `path`.
    pub closed spec fn node_at(&self, path: Seq<int>) -> Option<int> {
        match self.root {
            Some(r) => follow(self.nodes@, r as int, path),
            None => None,
        }
    }

    /// Number of slots in the arena.
    pub closed spec fn spec_arena_len(&self) -> nat {
        self.nodes@.len()
    }

    /// The node in slot `h`.
    pub closed spec fn node_spec(&self, h: int) -> Node {
        self.nodes@[h]
    }

    /// The node in slot `h` is a leaf.
    pub closed spec fn is_leaf(&self, h: int) -> bool {
        self.nodes@[h].node_type == NodeType::Leaf
    }

    /// The keys of the node in slot `h`.
    pub closed spec fn keys_of(&self, h: int) -> Seq<i32> {
        self.nodes@[h].keys@
    }

    /// The node in slot `h` carries a child list.
    pub closed spec fn has_children(&self, h: int) -> bool {
        self.nodes@[h].children is Some
    }

    /// The child handles of the node in slot `h`.
    pub closed spec fn children_of(&self, h: int) -> Seq<NodeIndex> {
        self.nodes@[h].kids()
    }

    /// Key `x` is in a leaf under slot `h`.
    pub closed spec fn holds_under(&self, h: int, x: i32) -> bool {
        holds(self.nodes@, self.info@, h, x)
    }

    /// Height balance: every leaf lies at the same depth, the height of the tree.
    pub proof fn lemma_leaves_at_height(&self, path: Seq<int>)
        requires
            self.wf(),
            self.node_at(path) is Some,
            self.is_leaf(self.node_at(path)->Some_0),
        ensures
            path.len() == self.height(),
    {
        let r = self.root->Some_0 as int;
        lemma_follow_height(self.order, self.nodes@, self.info@, r, path);
        let h = self.node_at(path)->Some_0;
        assert(fits(self.order, self.info@, self.nodes@[h], self.info@[h]));
    }

    /// Node shape: every reachable node passes the node check. It has between
    /// one and `order - 1` keys; a leaf has no child list; an internal node has
    /// one child more than keys.
    pub proof fn lemma_node_shape(&self, path: Seq<int>)
        requires
            self.wf(),
            self.node_at(path) is Some,
        ensures
            ({
                let h = self.node_at(path)->Some_0;
                let k = self.keys_of(h);
                &&& 1 <= k.len() <= self.spec_order() - 1
                &&& self.is_leaf(h) ==> !self.has_children(h)
                &&& !self.is_leaf(h) ==> self.has_children(h) && self.children_of(h).len() == k.len() + 1
                &&& self.node_spec(h).is_valid()
            }),
    {
        let r = self.root->Some_0 as int;
        lemma_follow_height(self.order, self.nodes@, self.info@, r, path);
        let h = self.node_at(path)->Some_0;
        assert(fits(self.order, self.info@, self.nodes@[h], self.info@[h]));
    }

    /// Ordering: the keys of every reachable node are in non-decreasing order, and
    /// a key under child `j` lies between the separators around it, inclusive.
    pub proof fn lemma_node_order(&self, path: Seq<int>, j: int, x: i32)
        requires
            self.wf(),
            self.node_at(path) is Some,
        ensures
            ({
                let h = self.node_at(path)->Some_0;
                let k = self.keys_of(h);
                &&& sorted(k)
                &&& (!self.is_leaf(h) && 0 <= j < self.children_of(h).len()
                    && self.holds_under(self.children_of(h)[j] as int, x)) ==> {
                    &&& j > 0 ==> k[j - 1] <= x
                    &&& j < k.len() ==> x <= k[j]
                }
            }),
    {
        let r = self.root->Some_0 as int;
        lemma_follow_height(self.order, self.nodes@, self.info@, r, path);
        let h = self.node_at(path)->Some_0;
        let n = self.nodes@[h];
        assert(fits(self.order, self.info@, n, self.info@[h]));
        if n.node_type == NodeType::Internal && 0 <= j < n.kids().len() && holds(self.nodes@, self.info@, n.kids()[j] as int, x) {
            assert(child_fits(self.info@, n.kids()[j], self.info@[h], n.keys@, j));
            lemma_holds_in_range(self.order, self.nodes@, self.info@, n.kids()[j] as int, x);
        }
    }

    /// The public path specs agree with the arena's own, on a key within the
    /// range of slot `i`.
    proof fn lemma_path_specs(&self, i: int, key: i32)
        requires
            self.wf(),
            0 <= i < self.nodes@.len(),
            in_range(self.info@[i].1, self.info@[i].2, key),
            below(self.info@[i].2, key),
        ensures
            path_splits(*self, i, key, self.info@[i].0) == splits(self.nodes@, i, key, self.info@[i].0),
            forall|j: int| #[trigger] path_splits_at(*self, i, key, self.info@[i].0, j)
                == splits_on_path(self.nodes@, i, key, self.info@[i].0, j),
            self.nodes@[i].node_type == NodeType::Internal ==> {
                let c = self.nodes@[i].kids()[slot_for(self.nodes@[i].keys@, key)] as int;
                path_splits(*self, c, key, (self.info@[i].0 - 1) as nat) == splits(self.nodes@, c, key, (self.info@[i].0 - 1) as nat)
            },
            path_split_count(*self, i, key, self.info@[i].0) == split_count(self.nodes@, i, key, self.info@[i].0),
            forall|j: int| #[trigger] path_visits(*self, i, key, self.info@[i].0, j) == on_path(self.nodes@, i, key, self.info@[i].0, j),
        decreases self.info@[i].0,
    {
        let n = self.nodes@[i];
        let k = n.keys@;
        let s = self.info@[i];
        assert(fits(self.order, self.info@, n, s));
        if n.node_type == NodeType::Internal {
            let idx0 = lemma_slot_exists(k, key);
            lemma_slot_for(k, key, idx0);
            let idx = slot_for(k, key);
            if idx == n.kids().len() && idx > 0 {
                assert(k[idx - 1] <= key);
            }
            assert(child_fits(self.info@, n.kids()[idx], s, k, idx));
            self.lemma_path_specs(n.kids()[idx] as int, key);
        }
        assert(path_splits(*self, i, key, s.0) == splits(self.nodes@, i, key, s.0));
        assert forall|j: int| #[trigger] path_splits_at(*self, i, key, s.0, j) == splits_on_path(self.nodes@, i, key, s.0, j) by {
            if n.node_type == NodeType::Internal {
                let c = n.kids()[slot_for(k, key)] as int;
                assert(path_splits_at(*self, c, key, (s.0 - 1) as nat, j) == splits_on_path(self.nodes@, c, key, (s.0 - 1) as nat, j));
            }
        }
        assert forall|j: int| #[trigger] path_visits(*self, i, key, s.0, j) == on_path(self.nodes@, i, key, s.0, j) by {
            if n.node_type == NodeType::Internal {
                let c = n.kids()[slot_for(k, key)] as int;
                assert(path_visits(*self, c, key, (s.0 - 1) as nat, j) == on_path(self.nodes@, c, key, (s.0 - 1) as nat, j));
                assert(path_splits_at(*self, c, key, (s.0 - 1) as nat, j) == splits_on_path(self.nodes@, c, key, (s.0 - 1) as nat, j));
            }
        }
    }

    /// A tree without a root holds no key.
    pub proof fn lemma_no_root_no_keys(&self)
        requires
            self.root_handle() is None,
        ensures
            self@ == Set::<i32>::empty(),
    {
        assert(self@ =~= Set::<i32>::empty());
    }

    /// Creates an empty tree whose nodes have at most `order` children.
    pub fn new(order: usize) -> (r: Btree)
        requires
            order >= 3,
        ensures
            r.wf(),
            r.spec_order() == order,
            r.root_handle() is None,
            r.spec_arena_len() == 0,
            r@ == Set::<i32>::empty(),
    {
        let r = Btree { root: None, order, nodes: Vec::with_capacity(1000), info: Ghost(Seq::empty()) };
        assert(r@ =~= Set::<i32>::empty());
        r
    }

    /// The handle of the root node, absent while the tree is empty.
    pub fn root(&self) -> (r: Option<NodeIndex>)
        ensures
            r == self.root_handle(),
    {
        self.root
    }

    /// Number of slots in the arena, superseded ones included.
    pub fn arena_len(&self) -> (r: usize)
        ensures
            r == self.spec_arena_len(),
    {
        self.nodes.len()
    }

    /// The node in slot `h`.
    pub fn node(&self, h: NodeIndex) -> (r: &Node)
        requires
            h < self.spec_arena_len(),
        ensures
            r.key_seq() == self.keys_of(h as int),
            r.kind() == NodeType::Leaf <==> self.is_leaf(h as int),
            r.kids() == self.children_of(h as int),
            *r == self.node_spec(h as int),
    {
        &self.nodes[h]
    }

    /// Whether `key` is in the tree.
    pub fn search(&self, key: i32) -> (r: bool)
        requires
            self.wf(),
        ensures
            r == self@.contains(key),
    {
        match self.root {
            Some(index) => self.search_inner(index, key),
            None => false,
        }
    }

    fn search_inner(&self, n: NodeIndex, key: i32) -> (r: bool)
        requires
            self.wf(),
            n < self.nodes@.len(),
        ensures
            r == holds(self.nodes@, self.info@, n as int, key),
        decreases self.info@[n as int].0,
    {
        let node = &self.nodes[n];
        proof {
            assert(fits(self.order, self.info@, self.nodes@[n as int], self.info@[n as int]));
            lemma_holds_node(self.order, self.nodes@, self.info@, n as int, key);
        }
        match node.node_type {
            NodeType::Leaf => contains_sorted(&node.keys, key),
            NodeType::Internal => {
                let j = count_below(&node.keys, key);
                match &node.children {
                    Some(cs) => {
                        proof {
                            assert(child_fits(self.info@, cs@[j as int], self.info@[n as int], node.keys@, j as int));
                        }
                        let found = self.search_inner(cs[j], key);
                        proof {
                            if found {
                                assert(holds(self.nodes@, self.info@, self.nodes@[n as int].kids()[j as int] as int, key));
                            }
                            if holds(self.nodes@, self.info@, n as int, key) {
                                lemma_descend(self.order, self.nodes@, self.info@, n as int, key, j as int);
                            }
                        }
                        found
                    },
                    None => false,
                }
            },
        }
    }

    /// Inserts `key`; a key already present is inserted once more. Every node
    /// written, in place or new, passes the node check: `wf` includes it.
    pub fn insert(&mut self, key: i32)
        requires
            old(self).wf(),
        ensures
            final(self).wf(),
            final(self).spec_order() == old(self).spec_order(),
            final(self).root_handle() is Some,
            old(self).root_handle() is None ==> final(self).height() == 0,
            old(self).root_handle() is Some ==> {
                ||| final(self).root_handle() == old(self).root_handle() && final(self).height() == old(self).height()
                ||| final(self).root_handle() != old(self).root_handle() && final(self).height() == old(self).height() + 1
                    && final(self).root_handle()->Some_0 >= old(self).spec_arena_len()
            },
            final(self)@ == old(self)@.insert(key),
            old(self).root_handle() is None ==> {
                let h = old(self).spec_arena_len() as int;
                &&& final(self).root_handle() == Some(h as NodeIndex)
                &&& final(self).spec_arena_len() == h + 1
                &&& final(self).is_leaf(h) && !final(self).has_children(h)
                &&& final(self).keys_of(h) == seq![key]
                &&& forall|i: int| 0 <= i < h ==> final(self).keys_of(i) == old(self).keys_of(i)
                    && final(self).children_of(i) == old(self).children_of(i) && final(self).is_leaf(i) == old(self).is_leaf(i)
            },
            old(self).root_handle() matches Some(r) ==> {
                let d = old(self).height();
                let len = final(self).spec_arena_len() as int;
                let q = len - 1;
                let k0 = old(self).keys_of(r as int);
                let k2 = k0.insert(slot_for(k0, key), key);
                let m = (old(self).spec_order() / 2) as int;
                &&& forall|i: int| 0 <= i < old(self).spec_arena_len() && path_visits(*old(self), r as int, key, d, i)
                    && old(self).is_leaf(i) && old(self).keys_of(i).len() + 1 < old(self).spec_order()
                    ==> #[trigger] final(self).keys_of(i) == old(self).keys_of(i).insert(slot_for(old(self).keys_of(i), key), key)
                &&& forall|i: int| 0 <= i < old(self).spec_arena_len() && path_splits_at(*old(self), r as int, key, d, i)
                    ==> final(self).keys_of(i) == old(self).keys_of(i) && final(self).children_of(i) == old(self).children_of(i)
                        && final(self).is_leaf(i) == old(self).is_leaf(i)
                &&& !old(self).is_leaf(r as int) && final(self).root_handle() == old(self).root_handle() ==> {
                    let c0 = old(self).children_of(r as int);
                    let idx = slot_for(k0, key);
                    &&& !final(self).is_leaf(r as int)
                    &&& !path_splits(*old(self), c0[idx] as int, key, (d - 1) as nat) ==>
                        final(self).keys_of(r as int) == k0 && final(self).children_of(r as int) == c0
                    &&& path_splits(*old(self), c0[idx] as int, key, (d - 1) as nat) ==>
                        final(self).keys_of(r as int) == k0.insert(idx, final(self).keys_of(q)[0])
                        && final(self).children_of(r as int) == c0.update(idx, (q - 2) as NodeIndex).insert(idx + 1, (q - 1) as NodeIndex)
                }
                &&& forall|i: int| 0 <= i < old(self).spec_arena_len() && !path_visits(*old(self), r as int, key, d, i)
                    ==> final(self).keys_of(i) == old(self).keys_of(i) && final(self).children_of(i) == old(self).children_of(i)
                        && final(self).is_leaf(i) == old(self).is_leaf(i)
                &&& (final(self).root_handle() != old(self).root_handle()) == path_splits(*old(self), r as int, key, d)
                &&& len == old(self).spec_arena_len() + 3 * path_split_count(*old(self), r as int, key, d)
                &&& final(self).root_handle() != old(self).root_handle() ==> {
                    &&& final(self).root_handle() == Some(q as NodeIndex)
                    &&& !final(self).is_leaf(q)
                    &&& final(self).keys_of(q).len() == 1
                    &&& final(self).children_of(q) == seq![(q - 2) as NodeIndex, (q - 1) as NodeIndex]
                }
                &&& old(self).is_leaf(r as int) ==> {
                    &&& final(self).root_handle() == old(self).root_handle() ==> final(self).keys_of(r as int) == k2
                        && final(self).is_leaf(r as int)
                    &&& final(self).root_handle() != old(self).root_handle() ==> {
                        &&& final(self).keys_of(q - 2) == k2.subrange(0, m + 1)
                        &&& final(self).keys_of(q - 1) == k2.subrange(m + 1, k2.len() as int)
                        &&& final(self).is_leaf(q - 2) && final(self).is_leaf(q - 1)
                        &&& final(self).keys_of(q) == seq![k2[m]]
                    }
                }
            },
    {
        proof {
            if let Some(r) = self.root {
                self.lemma_path_specs(r as int, key);
            }
        }
        self.insert_key(key);
        assert(self@ =~= old(self)@.insert(key));
    }

    fn insert_key(&mut self, key: i32)
        requires
            old(self).wf(),
        ensures
            final(self).wf(),
            final(self).order == old(self).order,
            final(self).root is Some,
            old(self).root is None ==> final(self).height() == 0,
            old(self).root is Some ==> {
                ||| final(self).root == old(self).root && final(self).height() == old(self).height()
                ||| final(self).root != old(self).root && final(self).height() == old(self).height() + 1
                    && final(self).root->Some_0 >= old(self).nodes@.len()
            },
            forall|x: i32| #[trigger] final(self).contains(x) == (old(self).contains(x) || x == key),
            old(self).root is None ==> {
                let h = old(self).nodes@.len();
                &&& final(self).root == Some(h as NodeIndex)
                &&& final(self).nodes@.len() == h + 1
                &&& final(self).nodes@[h as int].node_type == NodeType::Leaf
                &&& final(self).nodes@[h as int].keys@ == seq![key]
                &&& final(self).nodes@[h as int].children is None
                &&& forall|i: int| 0 <= i < h ==> final(self).nodes@[i] == old(self).nodes@[i]
            },
            old(self).root matches Some(r) ==> {
                let d = old(self).info@[r as int].0;
                let f = final(self).nodes@;
                let q = f.len() - 1;
                let k0 = old(self).nodes@[r as int].keys@;
                let k2 = k0.insert(slot_for(k0, key), key);
                let m = (old(self).order / 2) as int;
                &&& (final(self).root != old(self).root) == splits(old(self).nodes@, r as int, key, d)
                &&& forall|i: int| 0 <= i < old(self).nodes@.len() && !on_path(old(self).nodes@, r as int, key, d, i)
                    ==> final(self).nodes@[i] == old(self).nodes@[i]
                &&& forall|i: int| 0 <= i < old(self).nodes@.len() && splits_on_path(old(self).nodes@, r as int, key, d, i)
                    ==> final(self).nodes@[i] == old(self).nodes@[i]
                &&& forall|i: int| 0 <= i < old(self).nodes@.len() && on_path(old(self).nodes@, r as int, key, d, i)
                    && old(self).nodes@[i].node_type == NodeType::Leaf && old(self).nodes@[i].keys@.len() + 1 < old(self).order
                    ==> #[trigger] final(self).nodes@[i].keys@ == old(self).nodes@[i].keys@.insert(
                        slot_for(old(self).nodes@[i].keys@, key), key)
                &&& f.len() == old(self).nodes@.len() + 3 * split_count(old(self).nodes@, r as int, key, d)
                &&& (old(self).nodes@[r as int].node_type == NodeType::Internal && final(self).root == old(self).root) ==> {
                    let c0 = old(self).nodes@[r as int].kids();
                    let idx = slot_for(k0, key);
                    let child_splits = splits(old(self).nodes@, c0[idx] as int, key, (d - 1) as nat);
                    &&& f[r as int].node_type == NodeType::Internal
                    &&& !child_splits ==> f[r as int].keys@ == k0 && f[r as int].kids() == c0
                    &&& child_splits ==> f[r as int].keys@ == k0.insert(idx, f[q].keys@[0])
                        && f[r as int].kids() == c0.update(idx, (q - 2) as NodeIndex).insert(idx + 1, (q - 1) as NodeIndex)
                }
                &&& final(self).root != old(self).root ==> {
                    &&& final(self).root == Some(q as NodeIndex)
                    &&& f[q].node_type == NodeType::Internal
                    &&& f[q].keys@.len() == 1
                    &&& f[q].kids() == seq![(q - 2) as NodeIndex, (q - 1) as NodeIndex]
                }
                &&& old(self).nodes@[r as int].node_type == NodeType::Leaf ==> {
                    &&& final(self).root == old(self).root ==> f[r as int].keys@ == k2 && f[r as int].node_type == NodeType::Leaf
                    &&& final(self).root != old(self).root ==> {
                        &&& f[q - 2].keys@ == k2.subrange(0, m + 1)
                        &&& f[q - 1].keys@ == k2.subrange(m + 1, k2.len() as int)
                        &&& f[q - 2].node_type == NodeType::Leaf && f[q - 1].node_type == NodeType::Leaf
                        &&& f[q].keys@ == seq![k2[m]]
                    }
                }
            },
    {
        match self.root {
            Some(index) => {
                let split = self.insert_inner(index, key);
                match split {
                    Some(p) => {
                        proof {
                            assert(landing(split, index) == p as int);
                        }
                        self.root = Some(p);
                    },
                    None => {
                        proof {
                            assert(landing(split, index) == index as int);
                        }
                    },
                }
            },
            None => {
                let mut leaf = Node::new_leaf(self.order);
                leaf.keys.push(key);
                let root = self.store(leaf, Ghost((0, None, None)));
                proof {
                    assert forall|i: int| 0 <= i < self.nodes@.len() implies fits(self.order, self.info@, #[trigger] self.nodes@[i], self.info@[i]) by {
                        if i < root {
                            assert(fits(self.order, old(self).info@, old(self).nodes@[i], old(self).info@[i]));
                            lemma_shaped_extend(self.order, old(self).info@, self.info@, self.nodes@[i], self.info@[i]);
                        }
                    }
                    lemma_holds_append(self.order, old(self).nodes@, old(self).info@, self.nodes@, self.info@);
                    assert forall|i: int| 0 <= i < self.nodes@.len() implies present(self.nodes@, self.info@, #[trigger] self.nodes@[i]) by {
                        if i < root {
                            let ni = self.nodes@[i];
                            assert(present(old(self).nodes@, old(self).info@, ni));
                            assert(fits(self.order, old(self).info@, ni, old(self).info@[i]));
                            if ni.node_type == NodeType::Internal {
                                assert forall|t: int| 0 <= t < ni.keys@.len() implies t < ni.kids().len()
                                    && #[trigger] holds(self.nodes@, self.info@, ni.kids()[t] as int, ni.keys@[t]) by {
                                    assert(child_fits(old(self).info@, ni.kids()[t], old(self).info@[i], ni.keys@, t));
                                    assert(holds(old(self).nodes@, old(self).info@, ni.kids()[t] as int, ni.keys@[t]));
                                }
                            }
                        }
                    }
                    assert forall|x: i32| #[trigger] holds(self.nodes@, self.info@, root as int, x) == (x == key) by {
                        lemma_holds_node(self.order, self.nodes@, self.info@, root as int, x);
                        assert(self.nodes@[root as int].keys@ =~= seq![key]);
                        if x == key {
                            assert(self.nodes@[root as int].keys@[0] == x);
                        }
                    }
                }
                self.root = Some(root);
            },
        }
    }

    /// What lies under the node that `insert_inner` builds for slot `n`: what lay
    /// under the slot before, and `key`. `halves` holds the two parts that replace
    /// child `idx` when that child split.
    proof fn lemma_absorbed_holds(
        &self,
        n0: Seq<Node>,
        i0: Seq<SlotInfo>,
        n: int,
        node: Node,
        key: i32,
        idx: int,
        halves: Option<(NodeIndex, NodeIndex)>,
    )
        requires
            self.wf(),
            arena_ok(self.order, n0, i0),
            0 <= n < n0.len(),
            node.node_type == n0[n].node_type,
            node.node_type == NodeType::Leaf ==> node.keys@ == n0[n].keys@.insert(idx, key) && 0 <= idx <= n0[n].keys@.len(),
            node.node_type == NodeType::Internal ==> {
                let c0 = n0[n].kids();
                &&& 0 <= idx < c0.len()
                &&& forall|i: int, x: i32| 0 <= i < n0.len() && #[trigger] holds(n0, i0, i, x) ==> holds(self.nodes@, self.info@, i, x)
                &&& forall|i: int, x: i32| 0 <= i < n0.len() && #[trigger] holds(self.nodes@, self.info@, i, x) ==> holds(n0, i0, i, x) || x == key
                &&& match halves {
                    None => node.kids() == c0 && forall|x: i32| #[trigger] holds(self.nodes@, self.info@, c0[idx] as int, x)
                        == (holds(n0, i0, c0[idx] as int, x) || x == key),
                    Some((l, r)) => node.kids() == c0.update(idx, l).insert(idx + 1, r)
                        && forall|x: i32|
                        #![trigger holds(self.nodes@, self.info@, l as int, x)]
                        #![trigger holds(self.nodes@, self.info@, r as int, x)]
                        (holds(self.nodes@, self.info@, l as int, x) || holds(self.nodes@, self.info@, r as int, x))
                        == (holds(n0, i0, c0[idx] as int, x) || x == key),
                }
            },
        ensures
            forall|y: i32| #[trigger] node_holds(self.nodes@, self.info@, node, y) == (holds(n0, i0, n, y) || y == key),
    {
        let ns = self.nodes@;
        let is = self.info@;
        let k0 = n0[n].keys@;
        let c0 = n0[n].kids();
        assert(fits(self.order, i0, n0[n], i0[n]));
        assert forall|y: i32| #[trigger] node_holds(ns, is, node, y) == (holds(n0, i0, n, y) || y == key) by {
            lemma_holds_node(self.order, n0, i0, n, y);
            if node.node_type == NodeType::Leaf {
                let k2 = node.keys@;
                if k2.contains(y) && y != key {
                    let t = choose|t: int| 0 <= t < k2.len() && k2[t] == y;
                    if t < idx { assert(k0[t] == y); } else if t > idx { assert(k0[t - 1] == y); }
                    assert(k0.contains(y));
                    assert(holds(n0, i0, n, y));
                }
                if k0.contains(y) {
                    let t = choose|t: int| 0 <= t < k0.len() && k0[t] == y;
                    if t < idx { assert(k2[t] == y); } else { assert(k2[t + 1] == y); }
                }
                if y == key { assert(k2[idx] == y); }
            } else {
                let k2 = node.kids();
                assert forall|j: int| 0 <= j < c0.len() implies c0[j] < n0.len() by {
                    assert(child_fits(i0, c0[j], i0[n], k0, j));
                }
                if node_holds(ns, is, node, y) && y != key {
                    let j = choose|j: int| 0 <= j < k2.len() && #[trigger] holds(ns, is, k2[j] as int, y);
                    match halves {
                        None => {
                            assert(holds(ns, is, c0[j] as int, y));
                            if j != idx {
                                assert(holds(n0, i0, c0[j] as int, y));
                            }
                            assert(holds(n0, i0, n, y));
                        },
                        Some((l, r)) => {
                            if j < idx {
                                assert(k2[j] == c0[j]);
                                assert(holds(ns, is, c0[j] as int, y));
                                assert(holds(n0, i0, c0[j] as int, y));
                            } else if j > idx + 1 {
                                assert(k2[j] == c0[j - 1]);
                                assert(holds(ns, is, c0[j - 1] as int, y));
                                assert(holds(n0, i0, c0[j - 1] as int, y));
                            } else if j == idx {
                                assert(holds(ns, is, l as int, y));
                                assert(holds(n0, i0, c0[idx] as int, y));
                            } else {
                                assert(holds(ns, is, r as int, y));
                                assert(holds(n0, i0, c0[idx] as int, y));
                            }
                            assert(holds(n0, i0, n, y));
                        },
                    }
                }
                if holds(n0, i0, n, y) || y == key {
                    let j = if y == key { idx } else {
                        choose|j: int| 0 <= j < c0.len() && #[trigger] holds(n0, i0, c0[j] as int, y)
                    };
                    assert(y == key || holds(n0, i0, c0[j] as int, y));
                    match halves {
                        None => {
                            assert(holds(ns, is, k2[j] as int, y));
                        },
                        Some((l, r)) => {
                            if j < idx {
                                assert(k2[j] == c0[j]);
                                assert(holds(ns, is, k2[j] as int, y));
                            } else if j > idx {
                                assert(k2[j + 1] == c0[j]);
                                assert(holds(ns, is, k2[j + 1] as int, y));
                            } else {
                                assert(holds(ns, is, l as int, y) || holds(ns, is, r as int, y));
                                if holds(ns, is, l as int, y) {
                                    assert(holds(ns, is, k2[idx] as int, y));
                                } else {
                                    assert(holds(ns, is, k2[idx + 1] as int, y));
                                }
                            }
                        },
                    }
                }
            }
        }
    }

    /// The node that `insert_inner` builds for slot `n` keeps each key in a leaf
    /// under the child to its left. `halves` and `p` describe the split of child
    /// `idx`, if there was one: the halves, and the parent that held them.
    proof fn lemma_absorbed_present(
        &self,
        n0: Seq<Node>,
        i0: Seq<SlotInfo>,
        n: int,
        node: Node,
        key: i32,
        idx: int,
        halves: Option<(NodeIndex, NodeIndex)>,
        p: int,
    )
        requires
            self.wf(),
            arena_ok(self.order, n0, i0),
            all_present(n0, i0),
            0 <= n < n0.len(),
            n0.len() <= self.nodes@.len(),
            forall|i: int| 0 <= i < i0.len() ==> self.info@[i] == i0[i],
            node.node_type == n0[n].node_type,
            node.node_type == NodeType::Internal ==> {
                let c0 = n0[n].kids();
                let k0 = n0[n].keys@;
                &&& 0 <= idx < c0.len()
                &&& forall|i: int, x: i32| 0 <= i < n0.len() && #[trigger] holds(n0, i0, i, x) ==> holds(self.nodes@, self.info@, i, x)
                &&& match halves {
                    None => node.kids() == c0 && node.keys@ == k0,
                    Some((l, r)) => {
                        let sep = self.nodes@[p].keys@[0];
                        &&& 0 <= p < self.nodes@.len()
                        &&& self.nodes@[p].node_type == NodeType::Internal
                        &&& self.nodes@[p].kids() == seq![l, r]
                        &&& node.kids() == c0.update(idx, l).insert(idx + 1, r)
                        &&& node.keys@ == k0.insert(idx, sep)
                        &&& in_range(i0[c0[idx] as int].1, i0[c0[idx] as int].2, sep)
                        &&& l < self.nodes@.len() && r < self.nodes@.len()
                        &&& self.info@[l as int].2 == Some(sep)
                        &&& self.info@[r as int].1 == Some(sep)
                        &&& self.info@[r as int].2 == i0[c0[idx] as int].2
                        &&& forall|x: i32|
                            #![trigger holds(self.nodes@, self.info@, l as int, x)]
                            #![trigger holds(self.nodes@, self.info@, r as int, x)]
                            (holds(self.nodes@, self.info@, l as int, x) || holds(self.nodes@, self.info@, r as int, x))
                            == (holds(n0, i0, c0[idx] as int, x) || x == key)
                    },
                }
            },
        ensures
            present(self.nodes@, self.info@, node),
    {
        if node.node_type == NodeType::Internal {
            let ns = self.nodes@;
            let is = self.info@;
            let c0 = n0[n].kids();
            let k0 = n0[n].keys@;
            assert(fits(self.order, i0, n0[n], i0[n]));
            assert(present(n0, i0, n0[n]));
            assert forall|t: int| 0 <= t < k0.len() implies #[trigger] holds(ns, is, c0[t] as int, k0[t]) by {
                assert(child_fits(i0, c0[t], i0[n], k0, t));
                assert(holds(n0, i0, c0[t] as int, k0[t]));
            }
            match halves {
                None => {},
                Some((l, r)) => {
                    let sep = ns[p].keys@[0];
                    let k2 = node.keys@;
                    let c2 = node.kids();
                    assert(fits(self.order, is, ns[p], is[p]));
                    assert(present(ns, is, ns[p]));
                    assert(holds(ns, is, ns[p].kids()[0] as int, ns[p].keys@[0]));
                    assert(holds(ns, is, l as int, sep));
                    assert(child_fits(i0, c0[idx], i0[n], k0, idx));
                    if idx < k0.len() {
                        let y = k0[idx];
                        assert(holds(n0, i0, c0[idx] as int, y));
                        if !holds(ns, is, r as int, y) {
                            assert(holds(ns, is, l as int, y));
                            lemma_holds_in_range(self.order, ns, is, l as int, y);
                            assert(sep == y);
                            lemma_holds_first(self.order, ns, is, r as int);
                            assert(fits(self.order, is, ns[r as int], is[r as int]));
                            assert(in_range(is[r as int].1, is[r as int].2, ns[r as int].keys@[0]));
                            assert(ns[r as int].keys@[0] == y);
                        }
                    }
                    assert forall|t: int| 0 <= t < k2.len() implies t < c2.len()
                        && #[trigger] holds(ns, is, c2[t] as int, k2[t]) by {
                        if t < idx {
                            assert(c2[t] == c0[t] && k2[t] == k0[t]);
                        } else if t == idx {
                            assert(c2[t] == l && k2[t] == sep);
                        } else if t == idx + 1 {
                            assert(c2[t] == r && k2[t] == k0[idx]);
                        } else {
                            assert(c2[t] == c0[t - 1] && k2[t] == k0[t - 1]);
                        }
                    }
                },
            }
        }
    }

    /// The promoted key and the two halves held by the parent that a split returned.
    fn halves_of(&self, p: NodeIndex) -> (r: (i32, NodeIndex, NodeIndex))
        requires
            self.wf(),
            p < self.nodes@.len(),
            self.nodes@[p as int].node_type == NodeType::Internal,
            self.nodes@[p as int].keys@.len() == 1,
            self.nodes@[p as int].kids().len() == 2,
        ensures
            ({
                let (sep, l, rt) = r;
                let s = self.info@[p as int];
                &&& sep == self.nodes@[p as int].keys@[0]
                &&& self.nodes@[p as int].kids() == seq![l, rt]
                &&& in_range(s.1, s.2, sep)
                &&& l < self.nodes@.len() && rt < self.nodes@.len()
                &&& self.info@[l as int] == ((s.0 - 1) as nat, s.1, Some(sep))
                &&& self.info@[rt as int] == ((s.0 - 1) as nat, Some(sep), s.2)
                &&& forall|x: i32|
                    #![trigger holds(self.nodes@, self.info@, l as int, x)]
                    #![trigger holds(self.nodes@, self.info@, rt as int, x)]
                    (holds(self.nodes@, self.info@, l as int, x) || holds(self.nodes@, self.info@, rt as int, x))
                    == holds(self.nodes@, self.info@, p as int, x)
            }),
    {
        let sep = self.nodes[p].keys[0];
        let (l, r) = match &self.nodes[p].children {
            Some(cs) => (cs[0], cs[1]),
            None => (0, 0),
        };
        proof {
            let pn = self.nodes@[p as int];
            assert(fits(self.order, self.info@, pn, self.info@[p as int]));
            assert(pn.kids() =~= seq![l, r]);
            assert(child_fits(self.info@, l, self.info@[p as int], pn.keys@, 0));
            assert(child_fits(self.info@, r, self.info@[p as int], pn.keys@, 1));
            assert(in_range(self.info@[p as int].1, self.info@[p as int].2, pn.keys@[0]));
            assert forall|x: i32|
                #![trigger holds(self.nodes@, self.info@, l as int, x)]
                #![trigger holds(self.nodes@, self.info@, r as int, x)]
                (holds(self.nodes@, self.info@, l as int, x) || holds(self.nodes@, self.info@, r as int, x))
                == holds(self.nodes@, self.info@, p as int, x) by {
                lemma_holds_node(self.order, self.nodes@, self.info@, p as int, x);
                if node_holds(self.nodes@, self.info@, pn, x) {
                    let j = choose|j: int| 0 <= j < pn.kids().len() && #[trigger] holds(self.nodes@, self.info@, pn.kids()[j] as int, x);
                    assert(j == 0 || j == 1);
                }
                if holds(self.nodes@, self.info@, l as int, x) {
                    assert(holds(self.nodes@, self.info@, pn.kids()[0] as int, x));
                }
                if holds(self.nodes@, self.info@, r as int, x) {
                    assert(holds(self.nodes@, self.info@, pn.kids()[1] as int, x));
                }
            }
        }
        (sep, l, r)
    }

    /// Writes `node` back into slot `n`. Before, the arena had grown from `n0` by at
    /// most `key` under every old slot; `node` holds what slot `n` held in `n0`, and
    /// `key`. Afterwards the same holds with slot `n` included.
    fn write_back(&mut self, n: NodeIndex, node: Node, Ghost(key): Ghost<i32>, Ghost(n0): Ghost<Seq<Node>>, Ghost(i0): Ghost<Seq<SlotInfo>>)
        requires
            old(self).wf(),
            n < n0.len() <= old(self).nodes@.len(),
            i0.len() == n0.len(),
            forall|i: int| 0 <= i < i0.len() ==> old(self).info@[i] == i0[i],
            fits(old(self).order, old(self).info@, node, old(self).info@[n as int]),
            present(old(self).nodes@, old(self).info@, node),
            forall|y: i32| #[trigger] node_holds(old(self).nodes@, old(self).info@, node, y) == (holds(n0, i0, n as int, y) || y == key),
            forall|i: int, x: i32| 0 <= i < n0.len() && #[trigger] holds(n0, i0, i, x) ==> holds(old(self).nodes@, old(self).info@, i, x),
            forall|i: int, x: i32| 0 <= i < n0.len() && #[trigger] holds(old(self).nodes@, old(self).info@, i, x) ==> holds(n0, i0, i, x) || x == key,
        ensures
            final(self).wf(),
            final(self).order == old(self).order,
            final(self).root == old(self).root,
            final(self).info@ == old(self).info@,
            final(self).nodes@ == old(self).nodes@.update(n as int, node),
            forall|i: int, x: i32| 0 <= i < n0.len() && #[trigger] holds(n0, i0, i, x) ==> holds(final(self).nodes@, final(self).info@, i, x),
            forall|i: int, x: i32| 0 <= i < n0.len() && #[trigger] holds(final(self).nodes@, final(self).info@, i, x) ==> holds(n0, i0, i, x) || x == key,
            forall|x: i32| #[trigger] holds(final(self).nodes@, final(self).info@, n as int, x) == (holds(n0, i0, n as int, x) || x == key),
    {
        let ghost mid = self.nodes@;
        let ghost infos = self.info@;
        self.nodes[n] = node;
        proof {
            let fin = self.nodes@;
            assert forall|i: int| 0 <= i < fin.len() implies fits(self.order, infos, #[trigger] fin[i], infos[i]) by {
                if i != n {
                    assert(fin[i] == mid[i]);
                }
            }
            assert forall|x: i32| #[trigger] holds(fin, infos, n as int, x) == (holds(n0, i0, n as int, x) || x == key) by {
                lemma_holds_node(self.order, fin, infos, n as int, x);
                lemma_node_holds_frame(self.order, mid, infos, fin, n as int, node, x);
            }
            assert forall|y: i32| #[trigger] holds(mid, infos, n as int, y) ==> holds(fin, infos, n as int, y) by {
                if holds(mid, infos, n as int, y) {
                    assert(holds(n0, i0, n as int, y) || y == key);
                }
            }
            assert forall|y: i32| #[trigger] holds(fin, infos, n as int, y) ==> holds(mid, infos, n as int, y) || y == key by {
                if holds(fin, infos, n as int, y) && y != key {
                    assert(holds(n0, i0, n as int, y));
                }
            }
            assert forall|i: int, x: i32| 0 <= i < n0.len() implies
                (#[trigger] holds(n0, i0, i, x) ==> holds(fin, infos, i, x))
                && (holds(fin, infos, i, x) ==> holds(n0, i0, i, x) || x == key) by {
                lemma_holds_rewrite(self.order, mid, infos, fin, n as int, key, i, x);
            }
            assert forall|i: int, x: i32| 0 <= i < mid.len() && #[trigger] holds(mid, infos, i, x) implies holds(fin, infos, i, x) by {
                lemma_holds_rewrite(self.order, mid, infos, fin, n as int, key, i, x);
            }
            assert forall|i: int| 0 <= i < fin.len() implies present(fin, infos, #[trigger] fin[i]) by {
                let fi = fin[i];
                if i != n {
                    assert(present(mid, infos, mid[i]));
                }
                assert(present(mid, infos, fi));
                assert(fits(self.order, infos, fi, infos[i]));
                if fi.node_type == NodeType::Internal {
                    assert forall|t: int| 0 <= t < fi.keys@.len() implies t < fi.kids().len()
                        && #[trigger] holds(fin, infos, fi.kids()[t] as int, fi.keys@[t]) by {
                        assert(child_fits(infos, fi.kids()[t], infos[i], fi.keys@, t));
                        assert(holds(mid, infos, fi.kids()[t] as int, fi.keys@[t]));
                    }
                }
            }
        }
    }

    /// Stores `node` in a new slot described by `s`.
    fn store(&mut self, node: Node, Ghost(s): Ghost<SlotInfo>) -> (h: NodeIndex)
        requires
            old(self).info@.len() == old(self).nodes@.len(),
        ensures
            final(self).nodes@ == old(self).nodes@.push(node),
            final(self).info@ == old(self).info@.push(s),
            final(self).order == old(self).order,
            final(self).root == old(self).root,
            h == old(self).nodes@.len(),
    {
        self.nodes.push(node);
        self.info = Ghost(self.info@.push(s));
        self.nodes.len() - 1
    }

    /// Splits an overflowing node that belongs in a slot described by `s`, and
    /// stores its left part, its right part, and the parent that holds the promoted
    /// key with the two parts as children, in three new slots.
    fn attach_split(&mut self, node: Node, Ghost(s): Ghost<SlotInfo>) -> (p: NodeIndex)
        requires
            old(self).wf(),
            shaped(old(self).order, old(self).info@, node, s),
            present(old(self).nodes@, old(self).info@, node),
            node.keys@.len() == old(self).order,
        ensures
            final(self).wf(),
            final(self).order == old(self).order,
            final(self).root == old(self).root,
            final(self).nodes@.len() == old(self).nodes@.len() + 3,
            forall|i: int| 0 <= i < old(self).nodes@.len() ==> final(self).nodes@[i] == old(self).nodes@[i],
            forall|i: int| 0 <= i < old(self).info@.len() ==> final(self).info@[i] == old(self).info@[i],
            p == old(self).nodes@.len() + 2,
            final(self).nodes@[p as int].node_type == NodeType::Internal,
            final(self).nodes@[p as int].keys@.len() == 1,
            final(self).nodes@[p as int].kids().len() == 2,
            final(self).info@[p as int] == (s.0 + 1, s.1, s.2),
            final(self).nodes@[p as int].kids() == seq![(p - 2) as NodeIndex, (p - 1) as NodeIndex],
            final(self).nodes@[p as int].keys@ == seq![node.keys@[(node.keys@.len() / 2) as int]],
            node.node_type == NodeType::Leaf ==> final(self).nodes@[p - 2].keys@
                == node.keys@.subrange(0, (node.keys@.len() / 2) as int + 1),
            node.node_type == NodeType::Internal ==> final(self).nodes@[p - 2].keys@
                == node.keys@.subrange(0, (node.keys@.len() / 2) as int),
            final(self).nodes@[p - 1].keys@ == node.keys@.subrange((node.keys@.len() / 2) as int + 1, node.keys@.len() as int),
            final(self).nodes@[p - 2].node_type == node.node_type,
            final(self).nodes@[p - 1].node_type == node.node_type,
            forall|i: int, x: i32| 0 <= i < old(self).nodes@.len() ==>
                #[trigger] holds(final(self).nodes@, final(self).info@, i, x) == holds(old(self).nodes@, old(self).info@, i, x),
            forall|x: i32| #[trigger] holds(final(self).nodes@, final(self).info@, p as int, x)
                == node_holds(old(self).nodes@, old(self).info@, node, x),
    {
        let ghost k = node.keys@;
        let ghost cs = node.kids();
        let ghost old_infos = self.info@;
        let ghost mid = (k.len() / 2) as int;
        let (left, mut parent, right) = split_node(self.order, node);
        let ghost sep = k[mid];
        let l = self.store(left, Ghost((s.0, s.1, Some(sep))));
        let r = self.store(right, Ghost((s.0, Some(sep), s.2)));
        parent.push_child(l);
        parent.push_child(r);
        let p = self.store(parent, Ghost((s.0 + 1, s.1, s.2)));
        proof {
            let infos = self.info@;
            assert(forall|i: int| 0 <= i < old_infos.len() ==> infos[i] == old_infos[i]);
            assert(in_range(s.1, s.2, k[mid]));
            assert forall|i: int| 0 <= i < self.nodes@.len() implies fits(self.order, infos, #[trigger] self.nodes@[i], infos[i]) by {
                if i < l {
                    assert(fits(self.order, old_infos, old(self).nodes@[i], old_infos[i]));
                    lemma_shaped_extend(self.order, old_infos, infos, self.nodes@[i], infos[i]);
                } else if i == l {
                    let n = self.nodes@[i];
                    if n.node_type == NodeType::Leaf {
                        assert(n.keys@ == k.subrange(0, mid + 1));
                    } else {
                        assert(n.keys@ == k.subrange(0, mid));
                    }
                    assert forall|t: int| 0 <= t < n.keys@.len() implies in_range(s.1, Some(sep), #[trigger] n.keys@[t]) by {
                        assert(n.keys@[t] == k[t]);
                        assert(in_range(s.1, s.2, k[t]));
                    }
                    if n.node_type == NodeType::Internal {
                        assert forall|j: int| 0 <= j < n.kids().len() implies child_fits(infos, #[trigger] n.kids()[j], infos[i], n.keys@, j) by {
                            assert(n.kids()[j] == cs[j]);
                            assert(child_fits(old_infos, cs[j], s, k, j));
                        }
                    }
                } else if i == r {
                    let n = self.nodes@[i];
                    assert(n.keys@ == k.subrange(mid + 1, k.len() as int));
                    assert forall|t: int| 0 <= t < n.keys@.len() implies in_range(Some(sep), s.2, #[trigger] n.keys@[t]) by {
                        assert(n.keys@[t] == k[mid + 1 + t]);
                        assert(in_range(s.1, s.2, k[mid + 1 + t]));
                    }
                    if n.node_type == NodeType::Internal {
                        assert forall|j: int| 0 <= j < n.kids().len() implies child_fits(infos, #[trigger] n.kids()[j], infos[i], n.keys@, j) by {
                            assert(n.kids()[j] == cs[mid + 1 + j]);
                            assert(child_fits(old_infos, cs[mid + 1 + j], s, k, mid + 1 + j));
                        }
                    }
                } else {
                    let n = self.nodes@[i];
                    assert(n.kids() =~= seq![l, r]);
                    assert(child_fits(infos, n.kids()[0], infos[i], n.keys@, 0));
                    assert(child_fits(infos, n.kids()[1], infos[i], n.keys@, 1));
                }
            }
            let on = old(self).nodes@;
            let fnodes = self.nodes@;
            lemma_holds_append(self.order, on, old_infos, fnodes, infos);
            if node.node_type == NodeType::Internal {
                assert forall|j: int| 0 <= j < cs.len() implies
                    #[trigger] holds(fnodes, infos, cs[j] as int, k[j]) == holds(on, old_infos, cs[j] as int, k[j]) by {
                    assert(child_fits(old_infos, cs[j], s, k, j));
                }
            }
            assert forall|i: int| 0 <= i < fnodes.len() implies present(fnodes, infos, #[trigger] fnodes[i]) by {
                let fi = fnodes[i];
                if i < l {
                    assert(present(on, old_infos, on[i]));
                    assert(fits(self.order, old_infos, on[i], old_infos[i]));
                    if fi.node_type == NodeType::Internal {
                        assert forall|t: int| 0 <= t < fi.keys@.len() implies t < fi.kids().len()
                            && #[trigger] holds(fnodes, infos, fi.kids()[t] as int, fi.keys@[t]) by {
                            assert(child_fits(old_infos, fi.kids()[t], old_infos[i], fi.keys@, t));
                            assert(holds(on, old_infos, fi.kids()[t] as int, fi.keys@[t]));
                        }
                    }
                } else if i == l {
                    if fi.node_type == NodeType::Internal {
                        assert forall|t: int| 0 <= t < fi.keys@.len() implies t < fi.kids().len()
                            && #[trigger] holds(fnodes, infos, fi.kids()[t] as int, fi.keys@[t]) by {
                            assert(fi.kids()[t] == cs[t] && fi.keys@[t] == k[t]);
                            assert(holds(fnodes, infos, cs[t] as int, k[t]));
                        }
                    }
                } else if i == r {
                    if fi.node_type == NodeType::Internal {
                        assert forall|t: int| 0 <= t < fi.keys@.len() implies t < fi.kids().len()
                            && #[trigger] holds(fnodes, infos, fi.kids()[t] as int, fi.keys@[t]) by {
                            assert(fi.kids()[t] == cs[mid + 1 + t] && fi.keys@[t] == k[mid + 1 + t]);
                            assert(holds(fnodes, infos, cs[mid + 1 + t] as int, k[mid + 1 + t]));
                        }
                    }
                } else {
                    let ln = fnodes[l as int];
                    lemma_holds_node(self.order, fnodes, infos, l as int, sep);
                    if ln.node_type == NodeType::Internal {
                        assert(ln.kids()[mid] == cs[mid]);
                        assert(holds(fnodes, infos, cs[mid] as int, k[mid]));
                        assert(holds(fnodes, infos, ln.kids()[mid] as int, sep));
                    } else {
                        assert(ln.keys@[mid] == sep);
                    }
                    assert(fi.kids()[0] == l);
                    assert(fi.keys@[0] == sep);
                    assert(holds(fnodes, infos, fi.kids()[0] as int, fi.keys@[0]));
                }
            }
            assert forall|x: i32| #[trigger] holds(fnodes, infos, p as int, x) == node_holds(on, old_infos, node, x) by {
                lemma_holds_node(self.order, fnodes, infos, p as int, x);
                lemma_holds_node(self.order, fnodes, infos, l as int, x);
                lemma_holds_node(self.order, fnodes, infos, r as int, x);
                let pn = fnodes[p as int];
                assert(pn.kids() =~= seq![l, r]);
                if node_holds(fnodes, infos, pn, x) {
                    let j = choose|j: int| 0 <= j < pn.kids().len() && #[trigger] holds(fnodes, infos, pn.kids()[j] as int, x);
                    assert(j == 0 || j == 1);
                }
                if holds(fnodes, infos, l as int, x) {
                    assert(holds(fnodes, infos, pn.kids()[0] as int, x));
                }
                if holds(fnodes, infos, r as int, x) {
                    assert(holds(fnodes, infos, pn.kids()[1] as int, x));
                }
                let ln = fnodes[l as int];
                let rn = fnodes[r as int];
                if node.node_type == NodeType::Leaf {
                    if k.contains(x) {
                        let t = choose|t: int| 0 <= t < k.len() && k[t] == x;
                        if t <= mid {
                            assert(ln.keys@[t] == x);
                        } else {
                            assert(rn.keys@[t - mid - 1] == x);
                        }
                    }
                    if ln.keys@.contains(x) {
                        let t = choose|t: int| 0 <= t < ln.keys@.len() && ln.keys@[t] == x;
                        assert(k[t] == x);
                    }
                    if rn.keys@.contains(x) {
                        let t = choose|t: int| 0 <= t < rn.keys@.len() && rn.keys@[t] == x;
                        assert(k[mid + 1 + t] == x);
                    }
                } else {
                    assert forall|j: int| 0 <= j < cs.len() implies
                        #[trigger] holds(fnodes, infos, cs[j] as int, x) == holds(on, old_infos, cs[j] as int, x) by {
                        assert(child_fits(old_infos, cs[j], s, k, j));
                    }
                    if node_holds(on, old_infos, node, x) {
                        let j = choose|j: int| 0 <= j < cs.len() && #[trigger] holds(on, old_infos, cs[j] as int, x);
                        if j <= mid {
                            assert(ln.kids()[j] == cs[j]);
                            assert(holds(fnodes, infos, ln.kids()[j] as int, x));
                        } else {
                            assert(rn.kids()[j - mid - 1] == cs[j]);
                            assert(holds(fnodes, infos, rn.kids()[j - mid - 1] as int, x));
                        }
                    }
                    if node_holds(fnodes, infos, ln, x) {
                        let j = choose|j: int| 0 <= j < ln.kids().len() && #[trigger] holds(fnodes, infos, ln.kids()[j] as int, x);
                        assert(ln.kids()[j] == cs[j]);
                        assert(holds(fnodes, infos, cs[j] as int, x));
                    }
                    if node_holds(fnodes, infos, rn, x) {
                        let j = choose|j: int| 0 <= j < rn.kids().len() && #[trigger] holds(fnodes, infos, rn.kids()[j] as int, x);
                        assert(rn.kids()[j] == cs[mid + 1 + j]);
                        assert(holds(fnodes, infos, cs[mid + 1 + j] as int, x));
                    }
                }
            }
        }
        p
    }

    /// Inserts `key` into the subtree under slot `n`. Returns the handle of the new
    /// parent when the node split (its old slot is then left as it was). The key
    /// must lie in the range that slot `n` was created for, strictly below its
    /// upper bound: the descent from the root guarantees this, and it keeps the
    /// keys of every node in order.
    fn insert_inner(&mut self, n: NodeIndex, key: i32) -> (res: Option<NodeIndex>)
        requires
            old(self).wf(),
            n < old(self).nodes@.len(),
            in_range(old(self).info@[n as int].1, old(self).info@[n as int].2, key),
            below(old(self).info@[n as int].2, key),
        ensures
            final(self).wf(),
            final(self).order == old(self).order,
            final(self).root == old(self).root,
            old(self).nodes@.len() <= final(self).nodes@.len(),
            forall|i: int| 0 <= i < old(self).info@.len() ==> final(self).info@[i] == old(self).info@[i],
            forall|i: int|
                0 <= i < old(self).nodes@.len() && old(self).info@[i].0 > old(self).info@[n as int].0
                    ==> final(self).nodes@[i] == old(self).nodes@[i],
            match res {
                Some(p) => {
                    &&& old(self).nodes@.len() <= p < final(self).nodes@.len()
                    &&& final(self).nodes@[p as int].node_type == NodeType::Internal
                    &&& final(self).nodes@[p as int].keys@.len() == 1
                    &&& final(self).nodes@[p as int].kids().len() == 2
                    &&& final(self).info@[p as int] == (old(self).info@[n as int].0 + 1,
                        old(self).info@[n as int].1, old(self).info@[n as int].2)
                },
                None => true,
            },
            forall|i: int, x: i32| 0 <= i < old(self).nodes@.len() && #[trigger] holds(old(self).nodes@, old(self).info@, i, x)
                ==> holds(final(self).nodes@, final(self).info@, i, x),
            forall|i: int, x: i32| 0 <= i < old(self).nodes@.len() && #[trigger] holds(final(self).nodes@, final(self).info@, i, x)
                ==> holds(old(self).nodes@, old(self).info@, i, x) || x == key,
            forall|x: i32| #[trigger] holds(final(self).nodes@, final(self).info@, landing(res, n), x)
                == (holds(old(self).nodes@, old(self).info@, n as int, x) || x == key),
            res is Some == splits(old(self).nodes@, n as int, key, old(self).info@[n as int].0),
            final(self).nodes@.len() == old(self).nodes@.len() + 3 * split_count(old(self).nodes@, n as int, key, old(self).info@[n as int].0),
            res is Some ==> final(self).nodes@[n as int] == old(self).nodes@[n as int],
            forall|i: int| 0 <= i < old(self).nodes@.len()
                && on_path(old(self).nodes@, n as int, key, old(self).info@[n as int].0, i)
                && old(self).nodes@[i].node_type == NodeType::Leaf
                && old(self).nodes@[i].keys@.len() + 1 < old(self).order
                ==> #[trigger] final(self).nodes@[i].keys@ == old(self).nodes@[i].keys@.insert(
                    slot_for(old(self).nodes@[i].keys@, key), key),
            forall|i: int| 0 <= i < old(self).nodes@.len()
                && splits_on_path(old(self).nodes@, n as int, key, old(self).info@[n as int].0, i)
                ==> final(self).nodes@[i] == old(self).nodes@[i],
            forall|i: int| 0 <= i < old(self).nodes@.len()
                && !on_path(old(self).nodes@, n as int, key, old(self).info@[n as int].0, i)
                ==> final(self).nodes@[i] == old(self).nodes@[i],
            res matches Some(p) ==> p == final(self).nodes@.len() - 1
                && final(self).nodes@[p as int].kids() == seq![(p - 2) as NodeIndex, (p - 1) as NodeIndex],
            ({
                let k0 = old(self).nodes@[n as int].keys@;
                let k2 = k0.insert(slot_for(k0, key), key);
                let m = (old(self).order / 2) as int;
                let f = final(self).nodes@;
                let q = f.len() - 1;
                old(self).nodes@[n as int].node_type == NodeType::Leaf ==> match res {
                    None => f[n as int].keys@ == k2 && f[n as int].node_type == NodeType::Leaf,
                    Some(p) => {
                        &&& f[p - 2].keys@ == k2.subrange(0, m + 1)
                        &&& f[p - 1].keys@ == k2.subrange(m + 1, k2.len() as int)
                        &&& f[p - 2].node_type == NodeType::Leaf && f[p - 1].node_type == NodeType::Leaf
                        &&& f[p as int].keys@ == seq![k2[m as int]]
                    },
                }
            }),
            ({
                let k0 = old(self).nodes@[n as int].keys@;
                let c0 = old(self).nodes@[n as int].kids();
                let idx = slot_for(k0, key);
                let f = final(self).nodes@;
                let q = f.len() - 1;
                let child_splits = splits(old(self).nodes@, c0[idx] as int, key, (old(self).info@[n as int].0 - 1) as nat);
                (old(self).nodes@[n as int].node_type == NodeType::Internal && res is None) ==> {
                    &&& f[n as int].node_type == NodeType::Internal
                    &&& !child_splits ==> f[n as int].keys@ == k0 && f[n as int].kids() == c0
                    &&& child_splits ==> f[n as int].keys@ == k0.insert(idx, f[q].keys@[0])
                        && f[n as int].kids() == c0.update(idx, (q - 2) as NodeIndex).insert(idx + 1, (q - 1) as NodeIndex)
                }
            }),
        decreases old(self).info@[n as int].0,
    {
        let ghost s = self.info@[n as int];
        let ghost old_infos = self.info@;
        proof {
            assert(fits(self.order, self.info@, self.nodes@[n as int], s));
        }
        let node_type = self.nodes[n].node_type;
        let mut keys = self.nodes[n].keys.clone();
        let mut kids: Vec<NodeIndex> = match &self.nodes[n].children {
            Some(cs) => cs.clone(),
            None => Vec::new(),
        };
        let ghost k0 = keys@;
        let ghost c0 = kids@;
        proof {
            assert(k0 =~= self.nodes@[n as int].keys@);
            assert(c0 =~= self.nodes@[n as int].kids());
        }
        let idx = count_at_most(&keys, key);
        proof {
            lemma_slot_for(k0, key, idx as int);
        }
        let ghost mut halves: Option<(NodeIndex, NodeIndex)> = None;
        let ghost mut split_parent: int = 0;
        if node_type == NodeType::Leaf {
            keys.insert(idx, key);
            proof {
                assert forall|a: int, b: int| 0 <= a <= b < keys@.len() implies keys@[a] <= keys@[b] by {
                    if a < idx && b > idx { assert(k0[a] <= key); }
                }
            }
        } else {
            proof {
                if idx == c0.len() && idx > 0 {
                    assert(k0[idx - 1] <= key);
                }
                assert(child_fits(self.info@, c0[idx as int], s, k0, idx as int));
            }
            let child = kids[idx];
            let sub = self.insert_inner(child, key);
            proof {
                assert forall|i: int| splits_on_path(old(self).nodes@, child as int, key, (s.0 - 1) as nat, i)
                    implies #[trigger] old_infos[i].0 < s.0 by {
                    lemma_on_path_level(old(self).order, old(self).nodes@, old_infos, child as int, key, i);
                }
                assert forall|i: int| on_path(old(self).nodes@, child as int, key, (s.0 - 1) as nat, i)
                    implies #[trigger] old_infos[i].0 < s.0 && 0 <= i < old_infos.len() by {
                    lemma_path_level(old(self).order, old(self).nodes@, old_infos, child as int, key, i);
                }
            }
            match sub {
                Some(p) => {
                    proof {
                        assert(landing(sub, child) == p as int);
                    }
                    let (promoted, l, r) = self.halves_of(p);
                    proof {
                        assert(l == p - 2 && r == p - 1);
                    }
                    keys.insert(idx, promoted);
                    kids[idx] = l;
                    kids.insert(idx + 1, r);
                    proof {
                        halves = Some((l, r));
                        split_parent = p as int;
                        assert(self.nodes@[p as int].kids() =~= seq![l, r]);
                        lemma_absorb(self.order, old_infos, self.info@, k0, c0, s, idx as int, promoted, l, r);
                        assert(keys@ == k0.insert(idx as int, promoted));
                        assert(kids@ == c0.update(idx as int, l).insert(idx as int + 1, r));
                    }
                },
                None => {
                    proof {
                        assert(landing(sub, child) == child as int);
                    }
                },
            }
        }
        let node = Node {
            keys,
            children: if node_type == NodeType::Leaf { None } else { Some(kids) },
            node_type,
            order: self.order,
        };
        proof {
            let infos = self.info@;
            let old_node = old(self).nodes@[n as int];
            assert(forall|i: int| 0 <= i < old_infos.len() ==> infos[i] == old_infos[i]);
            if node_type == NodeType::Leaf {
                assert forall|t: int| 0 <= t < node.keys@.len() implies in_range(s.1, s.2, #[trigger] node.keys@[t]) by {
                    if t < idx { assert(node.keys@[t] == k0[t]); }
                    if t > idx { assert(node.keys@[t] == k0[t - 1]); }
                }
            } else if node.keys@.len() == k0.len() {
                lemma_shaped_extend(self.order, old_infos, infos, old_node, s);
                lemma_shaped_views(self.order, infos, old_node, node, s);
            }
            self.lemma_absorbed_holds(old(self).nodes@, old_infos, n as int, node, key, idx as int, halves);
            self.lemma_absorbed_present(old(self).nodes@, old_infos, n as int, node, key, idx as int, halves, split_parent);
        }
        if node.keys.len() == self.order {
            let p = self.attach_split(node, Ghost(s));
            return Some(p);
        }
        self.write_back(n, node, Ghost(key), Ghost(old(self).nodes@), Ghost(old_infos));
        None
    }
}

/// Membership: inserting the keys `ks` one after another into an empty tree,
/// where each insertion adds its key to the set of keys held (as `insert`
/// ensures), leaves exactly the keys of `ks`; a search then finds a key exactly
/// when it was inserted.
pub proof fn lemma_membership(ks: Seq<i32>, held: Seq<Set<i32>>)
    requires
        held.len() == ks.len() + 1,
        held[0] == Set::<i32>::empty(),
        forall|i: int| 0 <= i < ks.len() ==> #[trigger] held[i + 1] == held[i].insert(ks[i]),
    ensures
        forall|x: i32| #[trigger] held[ks.len() as int].contains(x) == ks.contains(x),
    decreases ks.len(),
{
    if ks.len() > 0 {
        let n = ks.len() - 1;
        let ks0 = ks.drop_last();
        let held0 = held.drop_last();
        assert forall|i: int| 0 <= i < ks0.len() implies #[trigger] held0[i + 1] == held0[i].insert(ks0[i]) by {
            assert(held[i + 1] == held[i].insert(ks[i]));
        }
        lemma_membership(ks0, held0);
        assert(held[n + 1] == held[n].insert(ks[n]));
        assert forall|x: i32| #[trigger] held[ks.len() as int].contains(x) == ks.contains(x) by {
            assert(held0[n].contains(x) == ks0.contains(x));
            if ks0.contains(x) {
                let t = choose|t: int| 0 <= t < ks0.len() && ks0[t] == x;
                assert(ks[t] == x);
            }
            if ks.contains(x) && x != ks[n] {
                let t = choose|t: int| 0 <= t < ks.len() && ks[t] == x;
                assert(ks0[t] == x);
            }
            if x == ks[n] {
                assert(ks.contains(x));
            }
        }
    }
}

} // verus!
