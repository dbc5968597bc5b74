//! The arena as a mathematical model: per-slot bookkeeping, the keys under a
//! slot, and the lemmas that relate arenas before and after a change.
use vstd::prelude::*;
use crate::node::{Node, NodeIndex, NodeType};
use crate::sorted::sorted;

verus! {

/// Ghost bookkeeping for one arena slot: the node's height above the leaves, and
/// the inclusive lower and upper bounds of the key range it was created for.
pub type SlotInfo = (nat, Option<i32>, Option<i32>);

/// `k` lies within the inclusive bounds `lo` and `hi`; an absent bound is open.
pub open spec fn in_range(lo: Option<i32>, hi: Option<i32>, k: i32) -> bool {
    &&& (match lo {
        Some(l) => l <= k,
        None => true,
    })
    &&& (match hi {
        Some(h) => k <= h,
        None => true,
    })
}

/// `k` lies strictly below the bound `hi`, if there is one.
pub open spec fn below(hi: Option<i32>, k: i32) -> bool {
    match hi {
        Some(h) => k < h,
        None => true,
    }
}

/// Lower bound of the range that child `j` of a node with keys `k` covers.
pub open spec fn child_lo(lo: Option<i32>, k: Seq<i32>, j: int) -> Option<i32> {
    if j == 0 {
        lo
    } else {
        Some(k[j - 1])
    }
}

/// Upper bound of the range that child `j` of a node with keys `k` covers.
pub open spec fn child_hi(hi: Option<i32>, k: Seq<i32>, j: int) -> Option<i32> {
    if j < k.len() {
        Some(k[j])
    } else {
        hi
    }
}

/// Handle `c`, standing as child `j` of a node with keys `k` in a slot described
/// by `s`, is one level lower and was created for exactly the child's range.
pub(crate) open spec fn child_fits(infos: Seq<SlotInfo>, c: NodeIndex, s: SlotInfo, k: Seq<i32>, j: int) -> bool {
    &&& c < infos.len()
    &&& infos[c as int].0 + 1 == s.0
    &&& infos[c as int].1 == child_lo(s.1, k, j)
    &&& infos[c as int].2 == child_hi(s.2, k, j)
}

/// Node `n`, in a slot described by `s`, agrees with the bookkeeping `infos` in
/// everything but its key count.
pub(crate) open spec fn shaped(order: usize, infos: Seq<SlotInfo>, n: Node, s: SlotInfo) -> bool {
    let k = n.keys@;
    &&& n.order == order
    &&& k.len() > 0
    &&& sorted(k)
    &&& forall|t: int| 0 <= t < k.len() ==> in_range(s.1, s.2, #[trigger] k[t])
    &&& match n.node_type {
        NodeType::Leaf => n.children is None && s.0 == 0,
        NodeType::Internal => n.children is Some && internal_parts(infos, k, n.kids(), s),
    }
}

/// The conditions on the keys `k` and children `cs` of an internal node in a slot
/// described by `s`.
pub(crate) open spec fn internal_parts(infos: Seq<SlotInfo>, k: Seq<i32>, cs: Seq<NodeIndex>, s: SlotInfo) -> bool {
    &&& s.0 > 0
    &&& cs.len() == k.len() + 1
    &&& forall|j: int| 0 <= j < cs.len() ==> child_fits(infos, #[trigger] cs[j], s, k, j)
}

/// An internal node that takes in the split of its child `idx`: the promoted key
/// `sep` goes in at `idx`, the two halves `l` and `r` replace the child.
pub(crate) proof fn lemma_absorb(
    order: usize,
    old_infos: Seq<SlotInfo>,
    infos: Seq<SlotInfo>,
    k: Seq<i32>,
    cs: Seq<NodeIndex>,
    s: SlotInfo,
    idx: int,
    sep: i32,
    l: NodeIndex,
    r: NodeIndex,
)
    requires
        sorted(k),
        forall|t: int| 0 <= t < k.len() ==> in_range(s.1, s.2, #[trigger] k[t]),
        internal_parts(old_infos, k, cs, s),
        0 <= idx < cs.len(),
        old_infos.len() <= infos.len(),
        forall|i: int| 0 <= i < old_infos.len() ==> infos[i] == old_infos[i],
        in_range(old_infos[cs[idx] as int].1, old_infos[cs[idx] as int].2, sep),
        l < infos.len() && r < infos.len(),
        infos[l as int] == (old_infos[cs[idx] as int].0, old_infos[cs[idx] as int].1, Some(sep)),
        infos[r as int] == (old_infos[cs[idx] as int].0, Some(sep), old_infos[cs[idx] as int].2),
    ensures
        sorted(k.insert(idx, sep)),
        forall|t: int| 0 <= t < k.len() + 1 ==> in_range(s.1, s.2, #[trigger] k.insert(idx, sep)[t]),
        internal_parts(infos, k.insert(idx, sep), cs.update(idx, l).insert(idx + 1, r), s),
{
    let k2 = k.insert(idx, sep);
    let c2 = cs.update(idx, l).insert(idx + 1, r);
    assert(child_fits(old_infos, cs[idx], s, k, idx));
    if idx > 0 {
        assert(k[idx - 1] <= sep);
        assert(in_range(s.1, s.2, k[idx - 1]));
    }
    if idx < k.len() {
        assert(sep <= k[idx]);
        assert(in_range(s.1, s.2, k[idx]));
    }
    assert(in_range(s.1, s.2, sep));
    assert forall|a: int, b: int| 0 <= a <= b < k2.len() implies k2[a] <= k2[b] by {
        if a < idx && b > idx { assert(k[a] <= k[b - 1]); }
        if a < idx && b == idx && idx > 0 { assert(k[a] <= k[idx - 1]); }
        if a == idx && b > idx { assert(k[idx] <= k[b - 1]); }
    }
    assert forall|t: int| 0 <= t < k.len() + 1 implies in_range(s.1, s.2, #[trigger] k2[t]) by {
        if t < idx { assert(k2[t] == k[t]); }
        if t > idx { assert(k2[t] == k[t - 1]); }
    }
    assert forall|j: int| 0 <= j < c2.len() implies child_fits(infos, #[trigger] c2[j], s, k2, j) by {
        if j < idx {
            assert(c2[j] == cs[j]);
            assert(child_fits(old_infos, cs[j], s, k, j));
        } else if j > idx + 1 {
            assert(c2[j] == cs[j - 1]);
            assert(child_fits(old_infos, cs[j - 1], s, k, j - 1));
        }
    }
}

/// A shaped node that also respects the key bound of the order.
pub(crate) open spec fn fits(order: usize, infos: Seq<SlotInfo>, n: Node, s: SlotInfo) -> bool {
    shaped(order, infos, n, s) && n.keys@.len() <= order - 1
}

/// Appending bookkeeping for new slots keeps an existing node shaped.
pub(crate) proof fn lemma_shaped_extend(order: usize, infos: Seq<SlotInfo>, more: Seq<SlotInfo>, n: Node, s: SlotInfo)
    requires
        shaped(order, infos, n, s),
        infos.len() <= more.len(),
        forall|i: int| 0 <= i < infos.len() ==> more[i] == infos[i],
    ensures
        shaped(order, more, n, s),
{
    if n.node_type == NodeType::Internal {
        assert forall|j: int| 0 <= j < n.kids().len() implies child_fits(more, #[trigger] n.kids()[j], s, n.keys@, j) by {
            assert(child_fits(infos, n.kids()[j], s, n.keys@, j));
        }
    }
}

/// Shape depends only on the views of a node's keys and children.
pub(crate) proof fn lemma_shaped_views(order: usize, infos: Seq<SlotInfo>, a: Node, b: Node, s: SlotInfo)
    requires
        shaped(order, infos, a, s),
        a.keys@ == b.keys@,
        a.kids() == b.kids(),
        a.node_type == b.node_type,
        a.order == b.order,
        a.children is Some <==> b.children is Some,
    ensures
        shaped(order, infos, b, s),
{
    if b.node_type == NodeType::Internal {
        assert forall|j: int| 0 <= j < b.kids().len() implies child_fits(infos, #[trigger] b.kids()[j], s, b.keys@, j) by {
            assert(child_fits(infos, a.kids()[j], s, a.keys@, j));
        }
    }
}

/// Every slot of `nodes` fits its bookkeeping in `infos`.
pub(crate) open spec fn arena_ok(order: usize, nodes: Seq<Node>, infos: Seq<SlotInfo>) -> bool {
    &&& infos.len() == nodes.len()
    &&& forall|i: int| 0 <= i < nodes.len() ==> fits(order, infos, #[trigger] nodes[i], infos[i])
}

/// Key `x` is in a leaf reached from slot `i` in `d` steps down.
pub(crate) open spec fn reach(nodes: Seq<Node>, i: int, x: i32, d: nat) -> bool
    decreases d, 0nat,
{
    if 0 <= i < nodes.len() {
        match nodes[i].node_type {
            NodeType::Leaf => nodes[i].keys@.contains(x),
            NodeType::Internal => d > 0 && reach_any(nodes, nodes[i].kids(), x, (d - 1) as nat),
        }
    } else {
        false
    }
}

/// Key `x` is in a leaf reached from one of the slots `cs` in `d` steps down.
pub(crate) open spec fn reach_any(nodes: Seq<Node>, cs: Seq<NodeIndex>, x: i32, d: nat) -> bool
    decreases d, cs.len() + 1,
{
    if cs.len() == 0 {
        false
    } else {
        reach(nodes, cs.last() as int, x, d) || reach_any(nodes, cs.drop_last(), x, d)
    }
}

/// `reach_any` holds exactly when `reach` holds for one of the slots.
pub(crate) proof fn lemma_reach_any(nodes: Seq<Node>, cs: Seq<NodeIndex>, x: i32, d: nat)
    ensures
        reach_any(nodes, cs, x, d) == exists|j: int| 0 <= j < cs.len() && #[trigger] reach(nodes, cs[j] as int, x, d),
    decreases cs.len(),
{
    if cs.len() > 0 {
        lemma_reach_any(nodes, cs.drop_last(), x, d);
        assert(cs.last() == cs[cs.len() - 1]);
        if reach(nodes, cs.last() as int, x, d) {
            assert(reach(nodes, cs[cs.len() - 1] as int, x, d));
        }
        if reach_any(nodes, cs.drop_last(), x, d) {
            let j = choose|j: int| 0 <= j < cs.drop_last().len() && #[trigger] reach(nodes, cs.drop_last()[j] as int, x, d);
            assert(cs[j] == cs.drop_last()[j]);
        }
        if exists|j: int| 0 <= j < cs.len() && #[trigger] reach(nodes, cs[j] as int, x, d) {
            let j = choose|j: int| 0 <= j < cs.len() && #[trigger] reach(nodes, cs[j] as int, x, d);
            if j < cs.len() - 1 {
                assert(cs.drop_last()[j] == cs[j]);
            }
        }
    }
}

/// Key `x` is in a leaf of the subtree under slot `i`.
pub(crate) open spec fn holds(nodes: Seq<Node>, infos: Seq<SlotInfo>, i: int, x: i32) -> bool {
    reach(nodes, i, x, infos[i].0)
}

/// Two arenas that agree on slot `i` and on every slot below height `h` agree on
/// what lies under `i`.
pub(crate) proof fn lemma_holds_frame(
    order: usize,
    nodes: Seq<Node>,
    infos: Seq<SlotInfo>,
    nodes2: Seq<Node>,
    infos2: Seq<SlotInfo>,
    h: nat,
    i: int,
    x: i32,
)
    requires
        arena_ok(order, nodes, infos),
        nodes.len() <= nodes2.len(),
        infos.len() <= infos2.len(),
        0 <= i < nodes.len(),
        infos[i].0 <= h,
        nodes2[i] == nodes[i],
        infos2[i] == infos[i],
        forall|j: int| 0 <= j < nodes.len() && infos[j].0 < h ==> nodes2[j] == nodes[j] && infos2[j] == infos[j],
    ensures
        holds(nodes2, infos2, i, x) == holds(nodes, infos, i, x),
    decreases infos[i].0,
{
    let n = nodes[i];
    let d = infos[i].0;
    assert(fits(order, infos, n, infos[i]));
    if n.node_type == NodeType::Internal && d > 0 {
        assert forall|j: int| 0 <= j < n.kids().len() implies
            reach(nodes2, n.kids()[j] as int, x, (d - 1) as nat) == reach(nodes, n.kids()[j] as int, x, (d - 1) as nat) by {
            assert(child_fits(infos, n.kids()[j], infos[i], n.keys@, j));
            lemma_holds_frame(order, nodes, infos, nodes2, infos2, h, n.kids()[j] as int, x);
        }
        assert(holds(nodes, infos, i, x) == reach(nodes, i, x, d));
        assert(holds(nodes2, infos2, i, x) == reach(nodes2, i, x, d));
        lemma_reach_any(nodes, n.kids(), x, (d - 1) as nat);
        lemma_reach_any(nodes2, n.kids(), x, (d - 1) as nat);
        if holds(nodes, infos, i, x) {
            let j = choose|j: int| 0 <= j < n.kids().len() && #[trigger] reach(nodes, n.kids()[j] as int, x, (d - 1) as nat);
            assert(reach(nodes2, n.kids()[j] as int, x, (d - 1) as nat));
        }
        if holds(nodes2, infos2, i, x) {
            let j = choose|j: int| 0 <= j < n.kids().len() && #[trigger] reach(nodes2, n.kids()[j] as int, x, (d - 1) as nat);
            assert(reach(nodes, n.kids()[j] as int, x, (d - 1) as nat));
        }
    }
}

/// Key `x` is in a leaf under `node`, whose children are slots of `nodes`.
pub(crate) open spec fn node_holds(nodes: Seq<Node>, infos: Seq<SlotInfo>, node: Node, x: i32) -> bool {
    match node.node_type {
        NodeType::Leaf => node.keys@.contains(x),
        NodeType::Internal => exists|j: int|
            0 <= j < node.kids().len() && #[trigger] holds(nodes, infos, node.kids()[j] as int, x),
    }
}

/// What lies under a slot is what lies under the node stored there.
pub(crate) proof fn lemma_holds_node(order: usize, nodes: Seq<Node>, infos: Seq<SlotInfo>, i: int, x: i32)
    requires
        arena_ok(order, nodes, infos),
        0 <= i < nodes.len(),
    ensures
        holds(nodes, infos, i, x) == node_holds(nodes, infos, nodes[i], x),
{
    let n = nodes[i];
    let d = infos[i].0;
    assert(fits(order, infos, n, infos[i]));
    if n.node_type == NodeType::Internal {
        lemma_reach_any(nodes, n.kids(), x, (d - 1) as nat);
        assert forall|j: int| 0 <= j < n.kids().len() implies
            #[trigger] holds(nodes, infos, n.kids()[j] as int, x) == reach(nodes, n.kids()[j] as int, x, (d - 1) as nat) by {
            assert(child_fits(infos, n.kids()[j], infos[i], n.keys@, j));
        }
        if holds(nodes, infos, i, x) {
            let j = choose|j: int| 0 <= j < n.kids().len() && #[trigger] reach(nodes, n.kids()[j] as int, x, (d - 1) as nat);
            assert(holds(nodes, infos, n.kids()[j] as int, x));
        }
        if node_holds(nodes, infos, n, x) {
            let j = choose|j: int| 0 <= j < n.kids().len() && #[trigger] holds(nodes, infos, n.kids()[j] as int, x);
            assert(reach(nodes, n.kids()[j] as int, x, (d - 1) as nat));
        }
    }
}

/// Appending slots leaves what lies under the existing ones as it was.
pub(crate) proof fn lemma_holds_append(order: usize, nodes: Seq<Node>, infos: Seq<SlotInfo>, nodes2: Seq<Node>, infos2: Seq<SlotInfo>)
    requires
        arena_ok(order, nodes, infos),
        nodes.len() <= nodes2.len(),
        infos.len() <= infos2.len(),
        forall|j: int| 0 <= j < nodes.len() ==> nodes2[j] == nodes[j] && infos2[j] == infos[j],
    ensures
        forall|i: int, x: i32| 0 <= i < nodes.len() ==> #[trigger] holds(nodes2, infos2, i, x) == holds(nodes, infos, i, x),
{
    assert forall|i: int, x: i32| 0 <= i < nodes.len() implies #[trigger] holds(nodes2, infos2, i, x) == holds(nodes, infos, i, x) by {
        lemma_holds_frame(order, nodes, infos, nodes2, infos2, infos[i].0, i, x);
    }
}

/// A node's children are unaffected when only its own slot is rewritten.
pub(crate) proof fn lemma_node_holds_frame(order: usize, nodes: Seq<Node>, infos: Seq<SlotInfo>, nodes2: Seq<Node>, n: int, node: Node, x: i32)
    requires
        arena_ok(order, nodes, infos),
        shaped(order, infos, node, infos[n]),
        0 <= n < nodes.len(),
        nodes2 == nodes.update(n, node),
    ensures
        node_holds(nodes2, infos, node, x) == node_holds(nodes, infos, node, x),
{
    if node.node_type == NodeType::Internal {
        assert forall|j: int| 0 <= j < node.kids().len() implies
            #[trigger] holds(nodes2, infos, node.kids()[j] as int, x) == holds(nodes, infos, node.kids()[j] as int, x) by {
            let c = node.kids()[j] as int;
            assert(child_fits(infos, node.kids()[j], infos[n], node.keys@, j));
            lemma_holds_frame(order, nodes, infos, nodes2, infos, infos[c].0, c, x);
        }
        if node_holds(nodes2, infos, node, x) {
            let j = choose|j: int| 0 <= j < node.kids().len() && #[trigger] holds(nodes2, infos, node.kids()[j] as int, x);
            assert(holds(nodes, infos, node.kids()[j] as int, x));
        }
        if node_holds(nodes, infos, node, x) {
            let j = choose|j: int| 0 <= j < node.kids().len() && #[trigger] holds(nodes, infos, node.kids()[j] as int, x);
            assert(holds(nodes2, infos, node.kids()[j] as int, x));
        }
    }
}

/// Rewriting slot `n` so that it gains at most `key` and loses nothing gains at
/// most `key`, and loses nothing, under every slot.
pub(crate) proof fn lemma_holds_rewrite(order: usize, nodes: Seq<Node>, infos: Seq<SlotInfo>, nodes2: Seq<Node>, n: int, key: i32, i: int, x: i32)
    requires
        arena_ok(order, nodes, infos),
        arena_ok(order, nodes2, infos),
        0 <= n < nodes.len(),
        nodes2.len() == nodes.len(),
        forall|j: int| 0 <= j < nodes.len() && j != n ==> nodes2[j] == nodes[j],
        forall|y: i32| #[trigger] holds(nodes, infos, n, y) ==> holds(nodes2, infos, n, y),
        forall|y: i32| #[trigger] holds(nodes2, infos, n, y) ==> holds(nodes, infos, n, y) || y == key,
        0 <= i < nodes.len(),
    ensures
        holds(nodes, infos, i, x) ==> holds(nodes2, infos, i, x),
        holds(nodes2, infos, i, x) ==> holds(nodes, infos, i, x) || x == key,
    decreases infos[i].0,
{
    if i != n {
        let nd = nodes[i];
        lemma_holds_node(order, nodes, infos, i, x);
        lemma_holds_node(order, nodes2, infos, i, x);
        assert(fits(order, infos, nd, infos[i]));
        if nd.node_type == NodeType::Internal {
            assert forall|j: int| 0 <= j < nd.kids().len() implies
                (#[trigger] holds(nodes, infos, nd.kids()[j] as int, x) ==> holds(nodes2, infos, nd.kids()[j] as int, x))
                && (holds(nodes2, infos, nd.kids()[j] as int, x) ==> holds(nodes, infos, nd.kids()[j] as int, x) || x == key) by {
                assert(child_fits(infos, nd.kids()[j], infos[i], nd.keys@, j));
                lemma_holds_rewrite(order, nodes, infos, nodes2, n, key, nd.kids()[j] as int, x);
            }
            if holds(nodes, infos, i, x) {
                let j = choose|j: int| 0 <= j < nd.kids().len() && #[trigger] holds(nodes, infos, nd.kids()[j] as int, x);
                assert(holds(nodes2, infos, nd.kids()[j] as int, x));
            }
            if holds(nodes2, infos, i, x) && x != key {
                let j = choose|j: int| 0 <= j < nd.kids().len() && #[trigger] holds(nodes2, infos, nd.kids()[j] as int, x);
                assert(holds(nodes, infos, nd.kids()[j] as int, x));
            }
        }
    }
}

/// Each key of an internal node lies in a leaf under the child to its left.
pub(crate) open spec fn present(nodes: Seq<Node>, infos: Seq<SlotInfo>, node: Node) -> bool {
    node.node_type == NodeType::Internal ==> forall|t: int|
        0 <= t < node.keys@.len() ==> t < node.kids().len()
            && #[trigger] holds(nodes, infos, node.kids()[t] as int, node.keys@[t])
}

/// Every slot of the arena satisfies `present`.
pub(crate) open spec fn all_present(nodes: Seq<Node>, infos: Seq<SlotInfo>) -> bool {
    forall|i: int| 0 <= i < nodes.len() ==> present(nodes, infos, #[trigger] nodes[i])
}

/// A key under a slot lies in the range the slot was created for.
pub(crate) proof fn lemma_holds_in_range(order: usize, nodes: Seq<Node>, infos: Seq<SlotInfo>, i: int, x: i32)
    requires
        arena_ok(order, nodes, infos),
        0 <= i < nodes.len(),
        holds(nodes, infos, i, x),
    ensures
        in_range(infos[i].1, infos[i].2, x),
    decreases infos[i].0,
{
    lemma_holds_node(order, nodes, infos, i, x);
    let n = nodes[i];
    let k = n.keys@;
    assert(fits(order, infos, n, infos[i]));
    if n.node_type == NodeType::Leaf {
        let t = choose|t: int| 0 <= t < k.len() && k[t] == x;
        assert(in_range(infos[i].1, infos[i].2, k[t]));
    } else {
        let j = choose|j: int| 0 <= j < n.kids().len() && #[trigger] holds(nodes, infos, n.kids()[j] as int, x);
        assert(child_fits(infos, n.kids()[j], infos[i], k, j));
        lemma_holds_in_range(order, nodes, infos, n.kids()[j] as int, x);
        if j > 0 {
            assert(in_range(infos[i].1, infos[i].2, k[j - 1]));
        }
        if j < k.len() {
            assert(in_range(infos[i].1, infos[i].2, k[j]));
        }
    }
}

/// The first key of a node lies in a leaf under it.
pub(crate) proof fn lemma_holds_first(order: usize, nodes: Seq<Node>, infos: Seq<SlotInfo>, i: int)
    requires
        arena_ok(order, nodes, infos),
        all_present(nodes, infos),
        0 <= i < nodes.len(),
    ensures
        holds(nodes, infos, i, nodes[i].keys@[0]),
{
    let n = nodes[i];
    let x = n.keys@[0];
    assert(fits(order, infos, n, infos[i]));
    lemma_holds_node(order, nodes, infos, i, x);
    if n.node_type == NodeType::Internal {
        assert(present(nodes, infos, n));
        assert(holds(nodes, infos, n.kids()[0] as int, x));
    } else {
        assert(n.keys@.contains(x));
    }
}

/// A search for `x` in slot `i` may descend into child `j`, the number of keys
/// below `x`, without missing `x`.
pub(crate) proof fn lemma_descend(order: usize, nodes: Seq<Node>, infos: Seq<SlotInfo>, i: int, x: i32, j: int)
    requires
        arena_ok(order, nodes, infos),
        all_present(nodes, infos),
        0 <= i < nodes.len(),
        nodes[i].node_type == NodeType::Internal,
        0 <= j < nodes[i].kids().len(),
        j <= nodes[i].keys@.len(),
        forall|t: int| 0 <= t < j ==> nodes[i].keys@[t] < x,
        forall|t: int| j <= t < nodes[i].keys@.len() ==> nodes[i].keys@[t] >= x,
        holds(nodes, infos, i, x),
    ensures
        holds(nodes, infos, nodes[i].kids()[j] as int, x),
{
    let n = nodes[i];
    let k = n.keys@;
    assert(fits(order, infos, n, infos[i]));
    lemma_holds_node(order, nodes, infos, i, x);
    let m = choose|m: int| 0 <= m < n.kids().len() && #[trigger] holds(nodes, infos, n.kids()[m] as int, x);
    assert(child_fits(infos, n.kids()[m], infos[i], k, m));
    lemma_holds_in_range(order, nodes, infos, n.kids()[m] as int, x);
    if m < j {
        assert(k[m] < x);
    } else if m > j {
        assert(k[j] <= k[m - 1]);
        assert(present(nodes, infos, n));
        assert(holds(nodes, infos, n.kids()[j] as int, k[j]));
    }
}

/// Where an insertion of `key` goes among the sorted keys `k`: the number of
/// keys at or below it.
pub open spec fn slot_for(k: Seq<i32>, key: i32) -> int {
    choose|i: int| #[trigger] splits_keys_at(k, key, i)
}

/// Keys before position `i` are at most `key`, the others above it.
pub open spec fn splits_keys_at(k: Seq<i32>, key: i32, i: int) -> bool {
    &&& 0 <= i <= k.len()
    &&& forall|t: int| 0 <= t < i ==> k[t] <= key
    &&& forall|t: int| i <= t < k.len() ==> k[t] > key
}

/// A position that splits the keys around `key` is the one `slot_for` names.
pub proof fn lemma_slot_for(k: Seq<i32>, key: i32, i: int)
    requires
        0 <= i <= k.len(),
        forall|t: int| 0 <= t < i ==> k[t] <= key,
        forall|t: int| i <= t < k.len() ==> k[t] > key,
    ensures
        slot_for(k, key) == i,
{
    assert(splits_keys_at(k, key, i));
    let j = slot_for(k, key);
    assert(splits_keys_at(k, key, j));
    if j < i {
        assert(k[j] > key);
    } else if j > i {
        assert(k[i] <= key);
    }
}

/// Sorted keys have a place for every key.
pub(crate) proof fn lemma_slot_exists(k: Seq<i32>, key: i32) -> (i: int)
    requires
        sorted(k),
    ensures
        splits_keys_at(k, key, i),
    decreases k.len(),
{
    if k.len() == 0 {
        0
    } else {
        let i0 = lemma_slot_exists(k.drop_last(), key);
        if k.last() <= key {
            assert forall|t: int| 0 <= t < k.len() implies k[t] <= key by {
                assert(k[t] <= k[k.len() - 1]);
            }
            k.len() as int
        } else {
            assert forall|t: int| 0 <= t < i0 implies k[t] <= key by {
                assert(k.drop_last()[t] == k[t]);
            }
            assert forall|t: int| i0 <= t < k.len() implies k[t] > key by {
                if t < k.len() - 1 {
                    assert(k.drop_last()[t] == k[t]);
                }
            }
            i0
        }
    }
}

/// The place of a key among sorted keys is a valid position.
pub(crate) proof fn lemma_slot_for_bounds(k: Seq<i32>, key: i32)
    requires
        sorted(k),
    ensures
        0 <= slot_for(k, key) <= k.len(),
{
    let i = lemma_slot_exists(k, key);
    lemma_slot_for(k, key, i);
}

/// Inserting `key` under slot `i` splits that node: it overflows, at a leaf, or
/// when the child the key goes into splits and the node was already full.
pub(crate) open spec fn splits(nodes: Seq<Node>, i: int, key: i32, d: nat) -> bool
    decreases d,
{
    let n = nodes[i];
    let full = n.keys@.len() + 1 == n.order;
    match n.node_type {
        NodeType::Leaf => full,
        NodeType::Internal => d > 0 && full
            && splits(nodes, n.kids()[slot_for(n.keys@, key)] as int, key, (d - 1) as nat),
    }
}

/// Slot `i` lies on the way down from slot `h` (at height `d`) that an
/// insertion of `key` takes.
pub(crate) open spec fn on_path(nodes: Seq<Node>, h: int, key: i32, d: nat, i: int) -> bool
    decreases d,
{
    let n = nodes[h];
    i == h || (n.node_type == NodeType::Internal && d > 0
        && on_path(nodes, n.kids()[slot_for(n.keys@, key)] as int, key, (d - 1) as nat, i))
}

/// Slot `i` lies on the way down from slot `h` (at height `d`) that an
/// insertion of `key` takes, and splits.
pub(crate) open spec fn splits_on_path(nodes: Seq<Node>, h: int, key: i32, d: nat, i: int) -> bool
    decreases d,
{
    let n = nodes[h];
    (i == h && splits(nodes, h, key, d)) || (n.node_type == NodeType::Internal && d > 0
        && splits_on_path(nodes, n.kids()[slot_for(n.keys@, key)] as int, key, (d - 1) as nat, i))
}

/// A node that splits on the way down from slot `h` lies no higher than `h`.
pub(crate) proof fn lemma_on_path_level(order: usize, nodes: Seq<Node>, infos: Seq<SlotInfo>, h: int, key: i32, i: int)
    requires
        arena_ok(order, nodes, infos),
        0 <= h < nodes.len(),
        splits_on_path(nodes, h, key, infos[h].0, i),
    ensures
        0 <= i < nodes.len(),
        infos[i].0 <= infos[h].0,
    decreases infos[h].0,
{
    let n = nodes[h];
    assert(fits(order, infos, n, infos[h]));
    if i != h {
        let k = n.keys@;
        lemma_slot_for_bounds(k, key);
        let c = n.kids()[slot_for(k, key)];
        assert(child_fits(infos, c, infos[h], k, slot_for(k, key)));
        lemma_on_path_level(order, nodes, infos, c as int, key, i);
    }
}

/// A node on the way down from slot `h` lies no higher than `h`.
pub(crate) proof fn lemma_path_level(order: usize, nodes: Seq<Node>, infos: Seq<SlotInfo>, h: int, key: i32, i: int)
    requires
        arena_ok(order, nodes, infos),
        0 <= h < nodes.len(),
        on_path(nodes, h, key, infos[h].0, i),
    ensures
        0 <= i < nodes.len(),
        infos[i].0 <= infos[h].0,
    decreases infos[h].0,
{
    let n = nodes[h];
    assert(fits(order, infos, n, infos[h]));
    if i != h {
        let k = n.keys@;
        lemma_slot_for_bounds(k, key);
        let c = n.kids()[slot_for(k, key)];
        assert(child_fits(infos, c, infos[h], k, slot_for(k, key)));
        lemma_path_level(order, nodes, infos, c as int, key, i);
    }
}

/// How many nodes split when `key` is inserted under slot `i`.
pub(crate) open spec fn split_count(nodes: Seq<Node>, i: int, key: i32, d: nat) -> nat
    decreases d,
{
    let n = nodes[i];
    let here: nat = if splits(nodes, i, key, d) { 1 } else { 0 };
    match n.node_type {
        NodeType::Leaf => here,
        NodeType::Internal => if d > 0 {
            here + split_count(nodes, n.kids()[slot_for(n.keys@, key)] as int, key, (d - 1) as nat)
        } else {
            here
        },
    }
}

/// The slot reached from slot `i` by following the child positions in `path`.
pub(crate) open spec fn follow(nodes: Seq<Node>, i: int, path: Seq<int>) -> Option<int>
    decreases path.len(),
{
    if !(0 <= i < nodes.len()) {
        None
    } else if path.len() == 0 {
        Some(i)
    } else if 0 <= path[0] < nodes[i].kids().len() {
        follow(nodes, nodes[i].kids()[path[0]] as int, path.subrange(1, path.len() as int))
    } else {
        None
    }
}

/// Each step down a path lowers the height by one.
pub(crate) proof fn lemma_follow_height(order: usize, nodes: Seq<Node>, infos: Seq<SlotInfo>, i: int, path: Seq<int>)
    requires
        arena_ok(order, nodes, infos),
        follow(nodes, i, path) is Some,
    ensures
        ({
            let h = follow(nodes, i, path)->Some_0;
            &&& 0 <= h < nodes.len()
            &&& infos[h].0 + path.len() == infos[i].0
        }),
    decreases path.len(),
{
    if path.len() > 0 {
        let n = nodes[i];
        assert(fits(order, infos, n, infos[i]));
        if n.node_type == NodeType::Internal {
            assert(child_fits(infos, n.kids()[path[0]], infos[i], n.keys@, path[0]));
        }
        lemma_follow_height(order, nodes, infos, n.kids()[path[0]] as int, path.subrange(1, path.len() as int));
    }
}

/// The slot that holds an insertion's result: the new parent after a split, else
/// the slot it went into.
pub(crate) open spec fn landing(split: Option<NodeIndex>, n: NodeIndex) -> int {
    match split {
        Some(p) => p as int,
        None => n as int,
    }
}

} // verus!
