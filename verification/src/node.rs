//! The nodes of a batch's private tree.

use crate::hash::zero_hash;
use vstd::prelude::*;

verus! {

/// The bytes of the digest of a placeholder: all zero.
pub const DIGEST: [u8; 32] = [
    0, 0, 0, 0, 0, 0, 0, 0,
    0, 0, 0, 0, 0, 0, 0, 0,
    0, 0, 0, 0, 0, 0, 0, 0,
    0, 0, 0, 0, 0, 0, 0, 0,
];

/// The side of a leaf, or of a placeholder for a leaf, that no pair has
/// read yet.
pub const UNSET: u8 = 255;

/// What a node of a batch's private tree stands for.
#[derive(PartialEq, Eq, Structural, Clone, Copy, Debug)]
pub enum NodeType {
    /// A real node captured at a seam, waiting to be folded into the root.
    Checkpoint,
    /// A node above a seam: it has absorbed a boundary and adds nothing new.
    Compound,
    /// A real leaf, hashed from input bytes.
    Leaf,
    /// A real inner node, both of whose children belong to one batch.
    Inter,
    /// A placeholder for what another batch will compute.
    Digest,
}

impl Default for NodeType {
    fn default() -> (t: Self)
        ensures
            t == NodeType::Digest,
    {
        NodeType::Digest
    }
}

/// One node of the flattened tree.
#[derive(Debug)]
pub struct Node {
    /// The batch that owns the node, or the sentinel of mixed ownership.
    pub batch: u8,
    /// The side of the node in a pair: `UNSET` in a leaf and in a
    /// placeholder for a leaf, 0 in a node read as a left child, 1 in a node
    /// read as a right child. A default node and a parent, as it is
    /// stored, hold 0.
    pub order: u8,
    /// The digest of the node.
    pub data: crate::hash::Hash,
    /// What the node stands for.
    pub node_type: NodeType,
    /// The position of the node in the flattened tree.
    pub index: usize,
}

impl Clone for Node {
    fn clone(&self) -> (n: Self)
        ensures
            n == *self,
    {
        Node {
            batch: self.batch,
            order: self.order,
            data: self.data,
            node_type: self.node_type,
            index: self.index,
        }
    }
}

impl Copy for Node {}

/// The node that `Node::default` gives: every field zero, and the kind of
/// a placeholder.
pub open spec fn default_node() -> Node {
    Node { batch: 0, order: 0, data: zero_hash(), node_type: NodeType::Digest, index: 0 }
}

/// The placeholder at position `i` for a leaf that batch `batch_id` will
/// fill: it has the zero digest and no side. The owner tag keeps the low
/// eight bits of `batch_id`.
pub open spec fn digest_node(i: usize, batch_id: usize) -> Node {
    Node {
        batch: batch_id as u8,
        order: UNSET,
        data: zero_hash(),
        node_type: NodeType::Digest,
        index: i,
    }
}

impl Default for Node {
    fn default() -> (n: Self)
        ensures
            n == default_node(),
    {
        Node {
            batch: 0,
            order: 0,
            data: crate::hash::Hash::default(),
            node_type: NodeType::default(),
            index: 0,
        }
    }
}

impl Node {
    /// Whether the node is a placeholder.
    pub fn is_digest(&self) -> (b: bool)
        ensures
            b == (self.node_type == NodeType::Digest),
    {
        self.node_type == NodeType::Digest
    }

    /// The placeholder at position `i` owned by batch `batch_id`.
    pub fn digest(i: usize, batch_id: usize) -> (n: Self)
        ensures
            n == digest_node(i, batch_id),
    {
        let mut n = Self::default();
        n.batch = batch_id as u8;
        n.order = UNSET;
        n.index = i;
        n
    }

    /// Whether the node lies above a seam.
    pub fn is_compound(&self) -> (b: bool)
        ensures
            b == (self.node_type == NodeType::Compound),
    {
        self.node_type == NodeType::Compound
    }
}

} // verus!
