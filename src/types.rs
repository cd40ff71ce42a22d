//! The data the store holds: node keys, tree nodes, and their models.

use vstd::prelude::*;

verus! {

/// The hash of a content key.
#[derive(Clone, Copy, Debug, PartialEq, Eq)]
pub struct KeyHash(pub [u8; 32]);

/// The hash of a value stored under a content key.
#[derive(Clone, Copy, Debug, PartialEq, Eq)]
pub struct ValueHash(pub [u8; 32]);

/// The structural address of a node: the version that wrote it and the
/// nibble path from the root (one nibble, below 16, per byte).
#[derive(Clone, Debug, PartialEq, Eq)]
pub struct NodeKey {
    pub version: u64,
    pub path: Vec<u8>,
}

/// A reference from an internal node to one child, by branch index.
#[derive(Clone, Copy, Debug, PartialEq, Eq)]
pub struct Child {
    pub index: u8,
    pub version: u64,
    pub hash: [u8; 32],
    pub is_leaf: bool,
}

/// A leaf: the content key's hash and the hash of its value.
#[derive(Clone, Copy, Debug, PartialEq, Eq)]
pub struct LeafNode {
    pub key_hash: KeyHash,
    pub value_hash: ValueHash,
}

/// A stored tree node.
#[derive(Clone, Debug, PartialEq, Eq)]
pub enum Node {
    Leaf(LeafNode),
    /// Children ordered by strictly increasing branch index.
    Internal(Vec<Child>),
}

pub ghost struct NodeKeyView {
    pub version: u64,
    pub path: Seq<u8>,
}

pub ghost struct ChildView {
    pub index: u8,
    pub version: u64,
    pub hash: Seq<u8>,
    pub is_leaf: bool,
}

pub ghost enum NodeView {
    Leaf { key_hash: Seq<u8>, value_hash: Seq<u8> },
    Internal { children: Seq<ChildView> },
}

impl View for NodeKey {
    type V = NodeKeyView;

    open spec fn view(&self) -> NodeKeyView {
        NodeKeyView { version: self.version, path: self.path@ }
    }
}

impl View for Child {
    type V = ChildView;

    open spec fn view(&self) -> ChildView {
        ChildView { index: self.index, version: self.version, hash: self.hash@, is_leaf: self.is_leaf }
    }
}

pub open spec fn children_view(cs: Seq<Child>) -> Seq<ChildView> {
    cs.map_values(|c: Child| c@)
}

impl View for Node {
    type V = NodeView;

    open spec fn view(&self) -> NodeView {
        match self {
            Node::Leaf(l) => NodeView::Leaf { key_hash: l.key_hash.0@, value_hash: l.value_hash.0@ },
            Node::Internal(cs) => NodeView::Internal { children: children_view(cs@) },
        }
    }
}

/// Every nibble of a path is below 16.
pub open spec fn path_wf(p: Seq<u8>) -> bool {
    forall|i: int| 0 <= i < p.len() ==> p[i] < 16
}

pub open spec fn node_key_wf(k: NodeKeyView) -> bool {
    path_wf(k.path)
}

pub open spec fn child_wf(c: ChildView) -> bool {
    c.index < 16 && c.hash.len() == 32
}

/// Children carry 32-byte hashes and branch indices below 16, in strictly
/// increasing order.
pub open spec fn children_wf(cs: Seq<ChildView>) -> bool {
    &&& forall|i: int| 0 <= i < cs.len() ==> child_wf(#[trigger] cs[i])
    &&& forall|i: int, j: int| 0 <= i < j < cs.len() ==> cs[i].index < cs[j].index
}

pub open spec fn node_wf(n: NodeView) -> bool {
    match n {
        NodeView::Leaf { key_hash, value_hash } => key_hash.len() == 32 && value_hash.len() == 32,
        NodeView::Internal { children } => children_wf(children),
    }
}

} // verus!
