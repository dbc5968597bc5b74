//! Tree nodes, and the split of an overflowing node.
use vstd::prelude::*;

verus! {

/// Whether a node is a leaf or holds children.
#[derive(Debug, Clone, Copy, PartialEq, Eq, Structural)]
pub enum NodeType {
    Leaf,
    Internal,
}

/// Position of a node in the arena.
pub type NodeIndex = usize;

/// One tree node: sorted keys and, for an internal node, one handle per child.
#[derive(Debug, Clone)]
pub struct Node {
    pub keys: Vec<i32>,
    pub children: Option<Vec<NodeIndex>>,
    pub node_type: NodeType,
    pub order: usize,
}

impl Node {
    /// The child handles, empty for a node without a child list.
    pub open spec fn kids(&self) -> Seq<NodeIndex> {
        match self.children {
            Some(cs) => cs@,
            None => Seq::empty(),
        }
    }

    /// The local shape that the node check demands: a leaf has no children, an
    /// internal node one more child than keys, and no node more than `order - 1` keys.
    pub open spec fn is_valid(&self) -> bool {
        &&& self.order >= 1
        &&& self.keys@.len() <= self.order - 1
        &&& match self.node_type {
            NodeType::Leaf => self.children is None,
            NodeType::Internal => self.children is Some && self.keys@.len() + 1 == self.kids().len(),
        }
    }

    /// The node's keys.
    pub open spec fn key_seq(&self) -> Seq<i32> {
        self.keys@
    }

    /// Whether the node is a leaf or internal.
    pub open spec fn kind(&self) -> NodeType {
        self.node_type
    }

    /// The node's keys, in order.
    pub fn keys(&self) -> (r: &Vec<i32>)
        ensures
            r@ == self.key_seq(),
    {
        &self.keys
    }

    /// Whether the node is a leaf or internal.
    pub fn node_type(&self) -> (r: NodeType)
        ensures
            r == self.kind(),
    {
        self.node_type
    }

    /// The node's child handles; empty for a leaf.
    pub fn children(&self) -> (r: Vec<NodeIndex>)
        ensures
            r@ == self.kids(),
    {
        match &self.children {
            Some(cs) => cs.clone(),
            None => Vec::new(),
        }
    }

    pub(crate) fn new_leaf(order: usize) -> (r: Node)
        requires
            order >= 1,
        ensures
            r.keys@ == Seq::<i32>::empty(),
            r.children is None,
            r.node_type == NodeType::Leaf,
            r.order == order,
    {
        Node { keys: Vec::with_capacity(order - 1), children: None, node_type: NodeType::Leaf, order }
    }

    pub(crate) fn new_internal(order: usize) -> (r: Node)
        requires
            order >= 1,
        ensures
            r.keys@ == Seq::<i32>::empty(),
            r.children is Some,
            r.kids() == Seq::<NodeIndex>::empty(),
            r.node_type == NodeType::Internal,
            r.order == order,
    {
        Node {
            keys: Vec::with_capacity(order - 1),
            children: Some(Vec::with_capacity(order)),
            node_type: NodeType::Internal,
            order,
        }
    }

    /// Runs the node check; `true` exactly when the node has the valid shape.
    pub fn verify_node(&self) -> (r: bool)
        ensures
            r == self.is_valid(),
    {
        if self.order < 1 || self.keys.len() > self.order - 1 {
            return false;
        }
        match self.node_type {
            NodeType::Leaf => self.children.is_none(),
            NodeType::Internal => match &self.children {
                Some(cs) => self.keys.len() + 1 == cs.len(),
                None => false,
            },
        }
    }

    /// Appends a child handle to an internal node.
    pub(crate) fn push_child(&mut self, c: NodeIndex)
        requires
            old(self).children is Some,
        ensures
            final(self).children is Some,
            final(self).kids() == old(self).kids().push(c),
            final(self).keys == old(self).keys,
            final(self).node_type == old(self).node_type,
            final(self).order == old(self).order,
    {
        match &mut self.children {
            Some(cs) => cs.push(c),
            None => {},
        }
    }
}

/// The elements `lo .. hi` of `v`, copied.
fn copy_keys(v: &Vec<i32>, lo: usize, hi: usize) -> (r: Vec<i32>)
    requires
        lo <= hi <= v@.len(),
    ensures
        r@ == v@.subrange(lo as int, hi as int),
{
    let mut r: Vec<i32> = Vec::new();
    let mut i: usize = lo;
    while i < hi
        invariant
            lo <= i <= hi <= v@.len(),
            r@ == v@.subrange(lo as int, i as int),
        decreases hi - i,
    {
        r.push(v[i]);
        i = i + 1;
    }
    r
}

/// The handles `lo .. hi` of `v`, copied.
fn copy_handles(v: &Vec<NodeIndex>, lo: usize, hi: usize) -> (r: Vec<NodeIndex>)
    requires
        lo <= hi <= v@.len(),
    ensures
        r@ == v@.subrange(lo as int, hi as int),
{
    let mut r: Vec<NodeIndex> = Vec::new();
    let mut i: usize = lo;
    while i < hi
        invariant
            lo <= i <= hi <= v@.len(),
            r@ == v@.subrange(lo as int, i as int),
        decreases hi - i,
    {
        r.push(v[i]);
        i = i + 1;
    }
    r
}

/// Splits an overflowing node at `mid = keys.len() / 2` into a left part, a
/// right part with the keys after `mid`, and a parent that holds only
/// `keys[mid]` and no children yet. A leaf's left part keeps keys `0 ..= mid`,
/// the median included. An internal node's left part keeps keys `0 .. mid` and
/// children `0 ..= mid`, the right part the children after `mid`, so each part
/// has one child more than keys.
pub(crate) fn split_node(order: usize, node: Node) -> (r: (Node, Node, Node))
    requires
        order >= 3,
        node.keys@.len() == order,
        node.node_type == NodeType::Internal ==> node.children is Some && node.kids().len() == node.keys@.len() + 1,
    ensures
        ({
            let (left, parent, right) = r;
            let k = node.keys@;
            let mid = (k.len() / 2) as int;
            &&& node.node_type == NodeType::Leaf ==> left.keys@ == k.subrange(0, mid + 1)
            &&& node.node_type == NodeType::Internal ==> left.keys@ == k.subrange(0, mid)
            &&& right.keys@ == k.subrange(mid + 1, k.len() as int)
            &&& parent.keys@ == seq![k[mid]]
            &&& parent.node_type == NodeType::Internal && parent.children is Some
            &&& parent.kids() == Seq::<NodeIndex>::empty()
            &&& left.node_type == node.node_type && right.node_type == node.node_type
            &&& left.order == order && right.order == order && parent.order == order
            &&& node.node_type == NodeType::Leaf ==> left.children is None && right.children is None
            &&& node.node_type == NodeType::Internal ==> {
                &&& left.children is Some && right.children is Some
                &&& left.kids() == node.kids().subrange(0, mid + 1)
                &&& right.kids() == node.kids().subrange(mid + 1, node.kids().len() as int)
            }
        }),
{
    let mid = node.keys.len() / 2;
    let right_keys = copy_keys(&node.keys, mid + 1, node.keys.len());
    let mut parent = Node::new_internal(order);
    parent.keys.push(node.keys[mid]);
    match node.node_type {
        NodeType::Leaf => {
            let mut left = Node::new_leaf(order);
            left.keys = copy_keys(&node.keys, 0, mid + 1);
            let mut right = Node::new_leaf(order);
            right.keys = right_keys;
            (left, parent, right)
        },
        NodeType::Internal => {
            let cs = match &node.children {
                Some(cs) => cs,
                None => { return (Node::new_leaf(order), parent, Node::new_leaf(order)); },
            };
            let mut left = Node::new_internal(order);
            left.keys = copy_keys(&node.keys, 0, mid);
            left.children = Some(copy_handles(cs, 0, mid + 1));
            let mut right = Node::new_internal(order);
            right.keys = right_keys;
            right.children = Some(copy_handles(cs, mid + 1, cs.len()));
            (left, parent, right)
        },
    }
}

} // verus!
