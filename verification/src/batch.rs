//! The private tree of one batch, and the checkpoints at its seams.

use crate::hash::{contents, hash_intermediate, hash_leaf, spec_hash_intermediate, spec_hash_leaf};
use crate::layout::{node_count, right_of, spec_next_level_len};
use crate::merkle::MerkleTree;
use crate::node::{Node, NodeType, UNSET};
use vstd::prelude::*;

verus! {

/// The owner tag that marks a node above a seam: `batch_count + 2`, of
/// which the low eight bits are kept.
pub open spec fn mixed_tag(batch_count: usize) -> u8 {
    ((batch_count + 2) % 256) as u8
}

/// The owner tag of mixed ownership in a construction of `batch_count`
/// batches.
pub fn mixed_tag_of(batch_count: usize) -> (tag: u8)
    ensures
        tag == mixed_tag(batch_count),
{
    let low: u8 = (batch_count % 256) as u8;
    if low >= 254 {
        low - 254
    } else {
        low + 2
    }
}

/// The node of the leaf at position `index`, hashed from `data` by batch
/// `batch_id`.
pub open spec fn leaf_node(batch_id: u8, data: Seq<u8>, index: usize) -> Node {
    Node {
        batch: batch_id,
        order: UNSET,
        data: spec_hash_leaf(data),
        node_type: NodeType::Leaf,
        index,
    }
}

/// The bottom level of a batch's private tree: the seed, with the leaves
/// of the batch written over the positions from `start` on.
pub open spec fn with_leaves(seed: Seq<Node>, batch_id: u8, items: Seq<Seq<u8>>, start: int) -> Seq<
    Node,
> {
    Seq::new(
        seed.len(),
        |j: int|
            if start <= j < start + items.len() {
                leaf_node(batch_id, items[j - start], j as usize)
            } else {
                seed[j]
            },
    )
}

/// A node read as the left child of a pair.
pub open spec fn left_child(n: Node) -> Node {
    Node { order: 0, ..n }
}

/// A node read as the right child of a pair.
pub open spec fn right_child(n: Node) -> Node {
    Node { order: 1, ..n }
}

/// Whether the node holds a value that its batch computed: it is neither a
/// placeholder nor a node above a seam.
pub open spec fn is_real(n: Node) -> bool {
    n.node_type != NodeType::Digest && n.node_type != NodeType::Compound
}

/// The node, marked as a checkpoint.
pub open spec fn checkpoint_of(n: Node) -> Node {
    Node { node_type: NodeType::Checkpoint, ..n }
}

/// The checkpoints that a pair of children gives: where the two belong to
/// different owners, each real child, the left one first.
pub open spec fn pair_checkpoints(left: Node, right: Node) -> Seq<Node> {
    if left.batch == right.batch {
        Seq::empty()
    } else {
        (if is_real(left) {
            seq![checkpoint_of(left)]
        } else {
            Seq::empty()
        }) + (if is_real(right) {
            seq![checkpoint_of(right)]
        } else {
            Seq::empty()
        })
    }
}

/// The kind of the parent of two children of one owner.
pub open spec fn joined_type(left: Node, right: Node) -> NodeType {
    if left.node_type == NodeType::Digest && right.node_type == NodeType::Digest {
        NodeType::Digest
    } else if left.node_type == NodeType::Compound && right.node_type == NodeType::Compound {
        NodeType::Compound
    } else {
        NodeType::Inter
    }
}

/// The parent of a pair of children, stored at position `index`. Its digest
/// is always that of the two children. Over a seam it is a compound node
/// of mixed ownership; else it belongs to the owner of both.
pub open spec fn parent_node(left: Node, right: Node, mixed: u8, index: usize) -> Node {
    Node {
        batch: if left.batch != right.batch {
            mixed
        } else {
            left.batch
        },
        order: 0,
        data: spec_hash_intermediate(left.data, right.data),
        node_type: if left.batch != right.batch {
            NodeType::Compound
        } else {
            joined_type(left, right)
        },
        index,
    }
}

/// The left child of pair `i` of `level`.
pub open spec fn pair_left(level: Seq<Node>, i: int) -> Node {
    left_child(level[2 * i])
}

/// The right child of pair `i` of `level`: the last node of an odd level is
/// its own right sibling.
pub open spec fn pair_right(level: Seq<Node>, i: int) -> Node {
    right_child(level[right_of(i, level.len() as int)])
}

/// The level above `level`, whose first node is stored at position `end`.
pub open spec fn next_node_level(level: Seq<Node>, mixed: u8, end: int) -> Seq<Node> {
    Seq::new(
        spec_next_level_len(level.len()),
        |i: int| parent_node(pair_left(level, i), pair_right(level, i), mixed, (end + i) as usize),
    )
}

/// The checkpoints of the first `pairs` pairs of `level`, in order.
pub open spec fn level_checkpoints(level: Seq<Node>, pairs: nat) -> Seq<Node>
    decreases pairs,
{
    if pairs == 0 {
        Seq::empty()
    } else {
        level_checkpoints(level, (pairs - 1) as nat) + pair_checkpoints(
            pair_left(level, pairs - 1),
            pair_right(level, pairs - 1),
        )
    }
}

/// All levels of the tree over `level`, bottom level first, where `end` is
/// the position after the last node of `level`.
pub open spec fn node_tree(level: Seq<Node>, mixed: u8, end: int) -> Seq<Node>
    decreases level.len(),
{
    if level.len() == 0 {
        Seq::empty()
    } else {
        level + node_tree(
            next_node_level(level, mixed, end),
            mixed,
            end + spec_next_level_len(level.len()),
        )
    }
}

/// The checkpoints of the whole tree over `level`: those of each level, from
/// the bottom up.
pub open spec fn tree_checkpoints(level: Seq<Node>, mixed: u8, end: int) -> Seq<Node>
    decreases level.len(),
{
    if level.len() <= 1 {
        Seq::empty()
    } else {
        level_checkpoints(level, spec_next_level_len(level.len())) + tree_checkpoints(
            next_node_level(level, mixed, end),
            mixed,
            end + spec_next_level_len(level.len()),
        )
    }
}

/// The tree over a level has as many nodes as the layout counts.
pub proof fn lemma_tree_len(level: Seq<Node>, mixed: u8, end: int)
    ensures
        node_tree(level, mixed, end).len() == node_count(level.len()),
    decreases level.len(),
{
    if level.len() > 0 {
        lemma_tree_len(
            next_node_level(level, mixed, end),
            mixed,
            end + spec_next_level_len(level.len()),
        );
    }
}

/// One level of a private tree has been built: what was true of the level
/// below is true of the new one.
proof fn lemma_level_done(
    all_nodes: Seq<Node>,
    all_checkpoints: Seq<Node>,
    before: Seq<Node>,
    found: Seq<Node>,
    after: Seq<Node>,
    checkpoints: Seq<Node>,
    mixed: u8,
    from: int,
)
    requires
        0 <= from,
        from + 2 <= before.len(),
        ({
            let prev = before.subrange(from, before.len() as int);
            let next = next_node_level(prev, mixed, before.len() as int);
            &&& after == before + next
            &&& checkpoints == found + level_checkpoints(prev, next.len())
            &&& all_nodes == before.take(from) + node_tree(prev, mixed, before.len() as int)
            &&& all_checkpoints == found + tree_checkpoints(prev, mixed, before.len() as int)
        }),
    ensures
        all_nodes == after.take(before.len() as int) + node_tree(
            after.subrange(before.len() as int, after.len() as int),
            mixed,
            after.len() as int,
        ),
        all_checkpoints == checkpoints + tree_checkpoints(
            after.subrange(before.len() as int, after.len() as int),
            mixed,
            after.len() as int,
        ),
{
    let prev = before.subrange(from, before.len() as int);
    let next = next_node_level(prev, mixed, before.len() as int);
    let upper = node_tree(next, mixed, (before.len() + next.len()) as int);
    let upper_checkpoints = tree_checkpoints(next, mixed, (before.len() + next.len()) as int);
    assert(after.take(before.len() as int) =~= before);
    assert(after.subrange(before.len() as int, after.len() as int) =~= next);
    assert(before =~= before.take(from) + prev);
    assert(node_tree(prev, mixed, before.len() as int) == prev + upper);
    assert(before.take(from) + (prev + upper) =~= before + upper);
    assert(tree_checkpoints(prev, mixed, before.len() as int) == level_checkpoints(
        prev,
        next.len(),
    ) + upper_checkpoints);
    assert(found + (level_checkpoints(prev, next.len()) + upper_checkpoints) =~= checkpoints
        + upper_checkpoints);
}

/// One construction of a root from batches: the private tree of a batch,
/// and the sizes that all batches share.
pub struct AsyncMerkleTree {
    /// The flattened private tree: the seed at first, all levels after
    /// `append_batch`.
    pub nodes: Vec<Node>,
    /// Checkpoints kept with the tree; `append_batch` leaves them alone.
    pub checkpoints: Vec<Node>,
    /// Number of batches of the construction.
    pub batch_count: usize,
    /// Number of leaves of the whole tree.
    pub leaf_count: usize,
}

impl AsyncMerkleTree {
    /// A construction over `leaf_count` leaves in `batch_count` batches, with
    /// no nodes yet.
    pub fn init(leaf_count: usize, batch_count: usize, d_id: u8) -> (tree: Self)
        ensures
            tree.nodes@.len() == 0,
            tree.checkpoints@.len() == 0,
            tree.batch_count == batch_count,
            tree.leaf_count == leaf_count,
    {
        let mut mtnodes: Vec<Node> = Vec::new();
        let _ = mtnodes.try_reserve(MerkleTree::calculate_vec_capacity(leaf_count));
        AsyncMerkleTree { nodes: mtnodes, checkpoints: Vec::new(), batch_count, leaf_count }
    }

    /// Builds the private tree of one batch over the seed in `nodes`, and
    /// returns the checkpoints of the batch.
    ///
    /// The leaves `items` are written from position `start` on; then every
    /// level is paired up into the next, up to the root.
    pub fn append_batch(&mut self, items: &[&[u8]], batch_id: u8, start: usize) -> (checkpoints:
        Vec<Node>)
        requires
            old(self).nodes@.len() == old(self).leaf_count,
            start + items@.len() <= old(self).leaf_count,
        ensures
            final(self).leaf_count == old(self).leaf_count,
            final(self).batch_count == old(self).batch_count,
            final(self).checkpoints@ == old(self).checkpoints@,
            final(self).nodes@.len() == node_count(old(self).leaf_count as nat),
            final(self).nodes@ == node_tree(
                with_leaves(old(self).nodes@, batch_id, contents(items@), start as int),
                mixed_tag(old(self).batch_count),
                old(self).leaf_count as int,
            ),
            checkpoints@ == tree_checkpoints(
                with_leaves(old(self).nodes@, batch_id, contents(items@), start as int),
                mixed_tag(old(self).batch_count),
                old(self).leaf_count as int,
            ),
    {
        let mut checkpoints: Vec<Node> = Vec::new();
        let ghost seed = self.nodes@;
        let ghost data = contents(items@);
        let mut k: usize = 0;
        while k < items.len()
            invariant
                k <= items.len(),
                start + items@.len() <= self.leaf_count,
                self.nodes@.len() == self.leaf_count,
                self.leaf_count == old(self).leaf_count,
                self.batch_count == old(self).batch_count,
                self.checkpoints@ == old(self).checkpoints@,
                seed == old(self).nodes@,
                data == contents(items@),
                self.nodes@ == with_leaves(seed, batch_id, data.take(k as int), start as int),
            decreases items.len() - k,
        {
            let hash = hash_leaf(items[k]);
            let node = Node {
                batch: batch_id,
                order: UNSET,
                data: hash,
                index: start + k,
                node_type: NodeType::Leaf,
            };
            self.nodes.set(start + k, node);
            k += 1;
            assert(self.nodes@ == with_leaves(seed, batch_id, data.take(k as int), start as int));
        }
        assert(data.take(k as int) == data);
        let ghost bottom = self.nodes@;
        let mixed: u8 = mixed_tag_of(self.batch_count);

        let mut level_len = MerkleTree::next_level_len(self.leaf_count);
        let mut level_start = self.leaf_count;
        let mut prev_level_len = self.leaf_count;
        let mut prev_level_start: usize = 0;
        let mut counter = self.leaf_count;
        assert(self.nodes@.subrange(0, level_start as int) == bottom);
        assert(self.nodes@.take(0) + node_tree(bottom, mixed, level_start as int) == node_tree(
            bottom,
            mixed,
            level_start as int,
        ));
        assert(checkpoints@ + tree_checkpoints(bottom, mixed, level_start as int)
            == tree_checkpoints(bottom, mixed, level_start as int));
        while level_len > 0
            invariant
                self.leaf_count == old(self).leaf_count,
                self.batch_count == old(self).batch_count,
                self.checkpoints@ == old(self).checkpoints@,
                self.nodes@.len() == level_start,
                counter == level_start,
                level_start == prev_level_start + prev_level_len,
                level_len == spec_next_level_len(prev_level_len as nat),
                node_tree(bottom, mixed, old(self).leaf_count as int) == self.nodes@.take(
                    prev_level_start as int,
                ) + node_tree(
                    self.nodes@.subrange(prev_level_start as int, level_start as int),
                    mixed,
                    level_start as int,
                ),
                tree_checkpoints(bottom, mixed, old(self).leaf_count as int) == checkpoints@
                    + tree_checkpoints(
                    self.nodes@.subrange(prev_level_start as int, level_start as int),
                    mixed,
                    level_start as int,
                ),
            decreases prev_level_len,
        {
            let ghost before = self.nodes@;
            let ghost found = checkpoints@;
            let ghost prev = self.nodes@.subrange(prev_level_start as int, level_start as int);
            let ghost next = next_node_level(prev, mixed, level_start as int);
            let mut i: usize = 0;
            while i < level_len
                invariant
                    i <= level_len,
                    self.leaf_count == old(self).leaf_count,
                    self.batch_count == old(self).batch_count,
                    self.checkpoints@ == old(self).checkpoints@,
                    level_len == spec_next_level_len(prev_level_len as nat),
                    level_start == prev_level_start + prev_level_len,
                    before.len() == level_start,
                    counter == level_start + i,
                    prev == before.subrange(prev_level_start as int, level_start as int),
                    next == next_node_level(prev, mixed, level_start as int),
                    self.nodes@ == before + next.take(i as int),
                    checkpoints@ == found + level_checkpoints(prev, i as nat),
                decreases level_len - i,
            {
                let prev_level_idx = 2 * i;
                let mut lsib = self.nodes[prev_level_start + prev_level_idx].clone();
                lsib.order = 0;
                let mut rsib = if prev_level_idx + 1 < prev_level_len {
                    let mut rnode = self.nodes[prev_level_start + prev_level_idx + 1].clone();
                    rnode.order = 1;
                    rnode
                } else {
                    let mut rnode = self.nodes[prev_level_start + prev_level_idx].clone();
                    rnode.order = 1;
                    rnode
                };
                assert(lsib == pair_left(prev, i as int));
                assert(rsib == pair_right(prev, i as int));
                assert(self.nodes@.len() == counter);
                let new_node_hash = hash_intermediate(&lsib.data, &rsib.data);
                if lsib.batch != rsib.batch {
                    if !lsib.is_digest() && !lsib.is_compound() {
                        lsib.node_type = NodeType::Checkpoint;
                        checkpoints.push(lsib.clone());
                    }
                    if !rsib.is_digest() && !rsib.is_compound() {
                        rsib.node_type = NodeType::Checkpoint;
                        checkpoints.push(rsib);
                    }
                    let c_node = Node {
                        batch: mixed,
                        order: 0,
                        data: new_node_hash,
                        index: counter,
                        node_type: NodeType::Compound,
                    };
                    assert(c_node == next[i as int]);
                    self.nodes.push(c_node);
                    assert(self.nodes.len() == counter + 1);
                    counter += 1;
                } else {
                    let new_node = Node {
                        batch: lsib.batch,
                        order: 0,
                        data: new_node_hash,
                        index: counter,
                        node_type: if lsib.is_digest() && rsib.is_digest() {
                            NodeType::Digest
                        } else if lsib.is_compound() && rsib.is_compound() {
                            NodeType::Compound
                        } else {
                            NodeType::Inter
                        },
                    };
                    assert(new_node == next[i as int]);
                    self.nodes.push(new_node);
                    assert(self.nodes.len() == counter + 1);
                    counter += 1;
                }
                assert(checkpoints@ == found + level_checkpoints(prev, i as nat)
                    + pair_checkpoints(pair_left(prev, i as int), pair_right(prev, i as int)));
                i += 1;
                assert(self.nodes@ == before + next.take(i as int));
            }
            proof {
                assert(self.nodes@ == before + next);
                lemma_level_done(
                    node_tree(bottom, mixed, old(self).leaf_count as int),
                    tree_checkpoints(bottom, mixed, old(self).leaf_count as int),
                    before,
                    found,
                    self.nodes@,
                    checkpoints@,
                    mixed,
                    prev_level_start as int,
                );
            }
            assert(level_start + level_len <= usize::MAX) by {
                assert(self.nodes.len() == level_start + level_len);
            }
            prev_level_start = level_start;
            prev_level_len = level_len;
            level_start += level_len;
            level_len = MerkleTree::next_level_len(level_len);
        }
        proof {
            let last = self.nodes@.subrange(prev_level_start as int, level_start as int);
            if last.len() == 1 {
                assert(node_tree(
                    next_node_level(last, mixed, level_start as int),
                    mixed,
                    level_start + 0,
                ) == Seq::<Node>::empty());
            }
            assert(node_tree(last, mixed, level_start as int) == last);
            assert(self.nodes@.take(prev_level_start as int) + last == self.nodes@);
            assert(checkpoints@ + Seq::<Node>::empty() == checkpoints@);
            lemma_tree_len(bottom, mixed, old(self).leaf_count as int);
        }
        checkpoints
    }
}

} // verus!
