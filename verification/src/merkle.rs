//! The tree built in one pass over all the leaves.

use crate::hash::{contents, hash_intermediate, hash_leaf, spec_hash_intermediate, spec_hash_leaf};
use crate::layout::{
    capacity_estimate, ceil_log2, lemma_capacity_is_enough, node_count, right_of,
    spec_next_level_len,
};
use crate::node::{default_node, digest_node, Node};
use vstd::prelude::*;

verus! {

/// The digests of the leaves `items`, in order.
pub open spec fn leaf_hashes(items: Seq<Seq<u8>>) -> Seq<crate::hash::Hash> {
    Seq::new(items.len(), |i: int| spec_hash_leaf(items[i]))
}

/// The level above `level`: each parent is the digest of its two children,
/// the last node of an odd level being paired with itself.
pub open spec fn next_hash_level(level: Seq<crate::hash::Hash>) -> Seq<crate::hash::Hash> {
    Seq::new(
        spec_next_level_len(level.len()),
        |i: int| spec_hash_intermediate(level[2 * i], level[right_of(i, level.len() as int)]),
    )
}

/// All levels of the tree over `level`, bottom level first, one after the
/// other.
pub open spec fn hash_tree(level: Seq<crate::hash::Hash>) -> Seq<crate::hash::Hash>
    decreases level.len(),
{
    if level.len() == 0 {
        Seq::empty()
    } else {
        level + hash_tree(next_hash_level(level))
    }
}

/// The root of the tree over the non-empty `level`.
pub open spec fn merkle_root(level: Seq<crate::hash::Hash>) -> crate::hash::Hash
    decreases level.len(),
{
    if level.len() <= 1 {
        level[0]
    } else {
        merkle_root(next_hash_level(level))
    }
}

/// The flattened tree has `node_count` nodes and, where there is a leaf,
/// ends with the root.
pub proof fn lemma_hash_tree_shape(level: Seq<crate::hash::Hash>)
    ensures
        hash_tree(level).len() == node_count(level.len()),
        level.len() > 0 ==> hash_tree(level).last() == merkle_root(level),
    decreases level.len(),
{
    if level.len() > 0 {
        let next = next_hash_level(level);
        lemma_hash_tree_shape(next);
        if level.len() == 1 {
            assert(hash_tree(next) =~= Seq::empty());
            assert(hash_tree(level) =~= level);
        } else {
            assert(next.len() > 0);
            assert(hash_tree(level).last() == hash_tree(next).last());
        }
    }
}

/// The tree built in one pass over all the leaves: the reference that a
/// batched construction has to agree with.
#[derive(Debug)]
pub struct MerkleTree {
    /// Number of leaves.
    pub leaf_count: usize,
    /// Placeholder nodes, filled by `empty_tree` only.
    pub nodes: Vec<Node>,
    /// The digests of all levels, bottom level first.
    pub n: Vec<crate::hash::Hash>,
}

impl MerkleTree {
    /// A copy of the placeholder nodes.
    pub fn get_nodes(&self) -> (nodes: Vec<Node>)
        ensures
            nodes@ == self.nodes@,
    {
        self.nodes.clone()
    }

    /// Length of the level above a level of `level_len` nodes.
    pub fn next_level_len(level_len: usize) -> (next: usize)
        ensures
            next == spec_next_level_len(level_len as nat),
    {
        if level_len == 1 {
            0
        } else {
            level_len / 2 + level_len % 2
        }
    }

    /// The capacity to reserve for a tree over `leaf_count` leaves: the
    /// estimate, or the largest `usize` where the estimate exceeds it.
    pub fn calculate_vec_capacity(leaf_count: usize) -> (cap: usize)
        ensures
            cap == if capacity_estimate(leaf_count as nat) <= usize::MAX {
                capacity_estimate(leaf_count as nat)
            } else {
                usize::MAX as nat
            },
            node_count(leaf_count as nat) <= usize::MAX ==> cap >= node_count(leaf_count as nat),
    {
        proof {
            lemma_capacity_is_enough(leaf_count as nat);
        }
        if leaf_count == 0 {
            return 0;
        }
        let mut bits: usize = 0;
        let mut rest: usize = leaf_count;
        while rest > 0
            invariant
                bits + rest <= leaf_count,
                bits + ceil_log2((rest + 1) as nat) == ceil_log2((leaf_count + 1) as nat),
            decreases rest,
        {
            assert((rest + 1 + 1) / 2 == rest / 2 + 1);
            rest = rest / 2;
            bits += 1;
        }
        if leaf_count > usize::MAX / 2 {
            return usize::MAX;
        }
        let twice: usize = 2 * leaf_count;
        if bits >= usize::MAX - twice {
            return usize::MAX;
        }
        twice + bits + 1
    }

    /// A tree of placeholders over `leaf_count` leaves: a placeholder of
    /// batch `batch_count` for each leaf, then a default node for each node
    /// above the leaves.
    pub fn empty_tree(leaf_count: usize, batch_count: usize) -> (mt: Self)
        ensures
            mt.leaf_count == leaf_count,
            mt.n@.len() == 0,
            mt.nodes@.len() == node_count(leaf_count as nat),
            forall|i: int|
                0 <= i < mt.nodes@.len() ==> mt.nodes@[i] == if i < leaf_count {
                    digest_node(0, batch_count)
                } else {
                    default_node()
                },
    {
        let cap = MerkleTree::calculate_vec_capacity(leaf_count);
        let mut n: Vec<crate::hash::Hash> = Vec::new();
        let mut nodes: Vec<Node> = Vec::new();
        let _ = n.try_reserve(cap);
        let _ = nodes.try_reserve(cap);
        let mut k: usize = 0;
        while k < leaf_count
            invariant
                k <= leaf_count,
                nodes@.len() == k,
                forall|i: int| 0 <= i < k ==> nodes@[i] == digest_node(0, batch_count),
            decreases leaf_count - k,
        {
            nodes.push(Node::digest(0, batch_count));
            k += 1;
        }
        let mut level_len = MerkleTree::next_level_len(leaf_count);
        let mut level_start = leaf_count;
        while level_len > 0
            invariant
                nodes@.len() == level_start,
                leaf_count <= level_start,
                level_start + node_count(level_len as nat) == node_count(leaf_count as nat),
                forall|i: int|
                    0 <= i < nodes@.len() ==> nodes@[i] == if i < leaf_count {
                        digest_node(0, batch_count)
                    } else {
                        default_node()
                    },
            decreases level_len,
        {
            let mut i: usize = 0;
            while i < level_len
                invariant
                    i <= level_len,
                    nodes@.len() == level_start + i,
                    leaf_count <= level_start,
                    forall|j: int|
                        0 <= j < nodes@.len() ==> nodes@[j] == if j < leaf_count {
                            digest_node(0, batch_count)
                        } else {
                            default_node()
                        },
                decreases level_len - i,
            {
                nodes.push(Node::default());
                i += 1;
            }
            assert(level_start + level_len <= usize::MAX) by {
                assert(nodes.len() == level_start + level_len);
            }
            level_start += level_len;
            level_len = MerkleTree::next_level_len(level_len);
        }
        MerkleTree { leaf_count, n, nodes }
    }

    /// The tree over the leaves `items`: every leaf is hashed, then each
    /// level is paired up into the next until one digest is left.
    pub fn new(items: &[&[u8]]) -> (mt: Self)
        ensures
            mt.leaf_count == items@.len(),
            mt.nodes@.len() == 0,
            mt.n@.len() == node_count(items@.len()),
            mt.n@ == hash_tree(leaf_hashes(contents(items@))),
    {
        let cap = MerkleTree::calculate_vec_capacity(items.len());
        let mut n: Vec<crate::hash::Hash> = Vec::new();
        let mut nodes: Vec<Node> = Vec::new();
        let _ = n.try_reserve(cap);
        let _ = nodes.try_reserve(cap);
        let ghost leaves = leaf_hashes(contents(items@));
        let mut k: usize = 0;
        while k < items.len()
            invariant
                k <= items.len(),
                leaves == leaf_hashes(contents(items@)),
                n@ == leaves.take(k as int),
            decreases items.len() - k,
        {
            let hash = hash_leaf(items[k]);
            n.push(hash);
            k += 1;
            assert(n@ == leaves.take(k as int));
        }
        assert(n@ == leaves);

        let mut level_len = MerkleTree::next_level_len(items.len());
        let mut level_start = items.len();
        let mut prev_level_len = items.len();
        let mut prev_level_start: usize = 0;
        assert(n@.subrange(0, level_start as int) == leaves);
        assert(n@.take(0) + hash_tree(leaves) == hash_tree(leaves));
        while level_len > 0
            invariant
                n@.len() == level_start,
                level_start == prev_level_start + prev_level_len,
                level_len == spec_next_level_len(prev_level_len as nat),
                hash_tree(leaves) == n@.take(prev_level_start as int) + hash_tree(
                    n@.subrange(prev_level_start as int, level_start as int),
                ),
            decreases prev_level_len,
        {
            let ghost before = n@;
            let ghost prev = n@.subrange(prev_level_start as int, level_start as int);
            let ghost next = next_hash_level(prev);
            let mut i: usize = 0;
            while i < level_len
                invariant
                    i <= level_len,
                    level_len == spec_next_level_len(prev_level_len as nat),
                    level_start == prev_level_start + prev_level_len,
                    before.len() == level_start,
                    prev == before.subrange(prev_level_start as int, level_start as int),
                    next == next_hash_level(prev),
                    n@ == before + next.take(i as int),
                decreases level_len - i,
            {
                let prev_level_idx = 2 * i;
                let lsib = &n[prev_level_start + prev_level_idx];
                let rsib = if prev_level_idx + 1 < prev_level_len {
                    &n[prev_level_start + prev_level_idx + 1]
                } else {
                    &n[prev_level_start + prev_level_idx]
                };
                let hash = hash_intermediate(lsib, rsib);
                assert(hash == next[i as int]);
                n.push(hash);
                i += 1;
                assert(n@ == before + next.take(i as int));
            }
            assert(n@ == before + next);
            proof {
                assert(before.take(prev_level_start as int) + prev == before);
                assert(n@.take(level_start as int) == before);
                assert(n@.subrange(level_start as int, level_start + level_len) == next);
                assert(hash_tree(prev) == prev + hash_tree(next));
                assert(before.take(prev_level_start as int) + (prev + hash_tree(next)) == before
                    + hash_tree(next));
            }
            assert(level_start + level_len <= usize::MAX) by {
                assert(n.len() == level_start + level_len);
            }
            prev_level_start = level_start;
            prev_level_len = level_len;
            level_start += level_len;
            level_len = MerkleTree::next_level_len(level_len);
        }
        proof {
            let last = n@.subrange(prev_level_start as int, level_start as int);
            if last.len() == 1 {
                assert(hash_tree(next_hash_level(last)) == Seq::<crate::hash::Hash>::empty());
            }
            assert(hash_tree(last) == last);
            assert(n@.take(prev_level_start as int) + last == n@);
            lemma_hash_tree_shape(leaves);
        }
        MerkleTree { leaf_count: items.len(), n, nodes }
    }

    /// The root: the last digest of the flattened tree, none for no leaves.
    pub fn get_root(&self) -> (root: Option<&crate::hash::Hash>)
        ensures
            match root {
                Some(h) => self.n@.len() > 0 && *h == self.n@.last(),
                None => self.n@.len() == 0,
            },
    {
        if self.n.len() == 0 {
            None
        } else {
            Some(&self.n[self.n.len() - 1])
        }
    }
}

} // verus!
