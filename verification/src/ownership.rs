//! Who owns which node: the owners of the levels above the leaves, the
//! tree of a batch against the tree in which every leaf is real, and the
//! cases of one batch and of a batch without leaves.

use crate::batch::{
    is_real, leaf_node, level_checkpoints, next_node_level, node_tree, pair_checkpoints,
    pair_left, pair_right, tree_checkpoints, with_leaves,
};
use crate::layout::{right_of, spec_next_level_len};
use crate::merkle::{
    hash_tree, leaf_hashes, lemma_hash_tree_shape, merkle_root, next_hash_level, MerkleTree,
};
use crate::node::{digest_node, Node, NodeType};
use crate::seed::digest_level;
use vstd::prelude::*;

verus! {

/// The digests of the nodes of a level.
pub open spec fn datas(level: Seq<Node>) -> Seq<crate::hash::Hash> {
    Seq::new(level.len(), |p: int| level[p].data)
}

/// The digests of a level of a private tree are those of the tree of
/// digests over the level below, whoever owns the nodes.
pub proof fn lemma_level_digests(level: Seq<Node>, mixed: u8, end: int)
    ensures
        datas(next_node_level(level, mixed, end)) == next_hash_level(datas(level)),
{
    assert(datas(next_node_level(level, mixed, end)) =~= next_hash_level(datas(level)));
}

/// The digests of a whole private tree are the tree of digests over its
/// bottom level.
pub proof fn lemma_tree_digests(level: Seq<Node>, mixed: u8, end: int)
    ensures
        datas(node_tree(level, mixed, end)) == hash_tree(datas(level)),
    decreases level.len(),
{
    if level.len() > 0 {
        let next = next_node_level(level, mixed, end);
        let above = end + spec_next_level_len(level.len());
        lemma_tree_digests(next, mixed, above);
        lemma_level_digests(level, mixed, end);
        assert(datas(level + node_tree(next, mixed, above)) =~= datas(level) + datas(
            node_tree(next, mixed, above),
        ));
    } else {
        assert(datas(node_tree(level, mixed, end)) =~= hash_tree(datas(level)));
    }
}

/// Pairs of one owner each give no checkpoint.
pub proof fn lemma_quiet_pairs(level: Seq<Node>, pairs: nat)
    requires
        pairs <= spec_next_level_len(level.len()),
        forall|i: int|
            0 <= i < pairs ==> level[2 * i].batch == level[right_of(i, level.len() as int)].batch,
    ensures
        level_checkpoints(level, pairs) == Seq::<Node>::empty(),
    decreases pairs,
{
    if pairs > 0 {
        lemma_quiet_pairs(level, (pairs - 1) as nat);
        let i = pairs - 1;
        assert(level[2 * i].batch == level[right_of(i, level.len() as int)].batch);
        assert(pair_checkpoints(pair_left(level, i), pair_right(level, i)) == Seq::<Node>::empty());
    }
}

/// A tree whose leaves all have one owner has no checkpoint.
pub proof fn lemma_one_owner_tree(level: Seq<Node>, owner: u8, mixed: u8, end: int)
    requires
        forall|p: int| 0 <= p < level.len() ==> #[trigger] level[p].batch == owner,
    ensures
        tree_checkpoints(level, mixed, end) == Seq::<Node>::empty(),
    decreases level.len(),
{
    if level.len() > 1 {
        let next = next_node_level(level, mixed, end);
        assert forall|i: int| 0 <= i < next.len() implies level[2 * i].batch == owner
            && level[right_of(i, level.len() as int)].batch == owner
            && #[trigger] next[i].batch == owner by {
            assert(level[2 * i].batch == owner);
            assert(level[right_of(i, level.len() as int)].batch == owner);
        }
        lemma_quiet_pairs(level, spec_next_level_len(level.len()));
        lemma_one_owner_tree(next, owner, mixed, end + spec_next_level_len(level.len()));
    }
}

/// One batch that covers all the leaves: its private tree ends with the
/// root of the tree built in one pass over the same leaves, and it has no
/// checkpoint.
pub proof fn lemma_single_batch(seed: Seq<Node>, batch_id: u8, items: Seq<Seq<u8>>, mixed: u8)
    requires
        seed.len() == items.len(),
        items.len() > 0,
    ensures
        node_tree(
            with_leaves(seed, batch_id, items, 0),
            mixed,
            items.len() as int,
        ).last().data == merkle_root(leaf_hashes(items)),
        tree_checkpoints(with_leaves(seed, batch_id, items, 0), mixed, items.len() as int)
            == Seq::<Node>::empty(),
{
    let bottom = with_leaves(seed, batch_id, items, 0);
    let tree = node_tree(bottom, mixed, items.len() as int);
    assert(datas(bottom) =~= leaf_hashes(items));
    lemma_tree_digests(bottom, mixed, items.len() as int);
    lemma_hash_tree_shape(leaf_hashes(items));
    assert(datas(tree).len() == tree.len());
    assert(datas(tree).last() == tree.last().data);
    lemma_one_owner_tree(bottom, batch_id, mixed, items.len() as int);
}

/// The owner tags of the nodes of a level.
pub open spec fn owners_of(level: Seq<Node>) -> Seq<u8> {
    Seq::new(level.len(), |p: int| level[p].batch)
}

/// The owner tags of the level above: a parent belongs to the owner of both
/// children, or is mixed where they differ.
pub open spec fn owners_up(owners: Seq<u8>, mixed: u8) -> Seq<u8> {
    Seq::new(
        spec_next_level_len(owners.len()),
        |i: int|
            if owners[2 * i] != owners[right_of(i, owners.len() as int)] {
                mixed
            } else {
                owners[2 * i]
            },
    )
}

/// Whether the parent of pair `i` is mixed: the children differ in owner,
/// or are mixed themselves.
pub open spec fn joins(owners: Seq<u8>, mixed: u8, i: int) -> bool {
    owners[2 * i] != owners[right_of(i, owners.len() as int)] || owners[2 * i] == mixed
}

/// Whether both children of pair `i` are mixed.
pub open spec fn doubled(owners: Seq<u8>, mixed: u8, i: int) -> bool {
    owners[2 * i] == mixed && owners[right_of(i, owners.len() as int)] == mixed
}

/// Whether at most one pair of the level has a mixed parent, and no pair
/// has two mixed children.
pub open spec fn one_seam(owners: Seq<u8>, mixed: u8) -> bool {
    &&& forall|i: int, j: int|
        0 <= i < spec_next_level_len(owners.len()) && 0 <= j < spec_next_level_len(owners.len())
            && #[trigger] joins(owners, mixed, i) && #[trigger] joins(owners, mixed, j) ==> i
            == j
    &&& forall|i: int|
        0 <= i < spec_next_level_len(owners.len()) ==> !#[trigger] doubled(owners, mixed, i)
}

/// Whether the seams of the tree over these owners lie on one path to the
/// root: each level has at most one mixed node, and a mixed node is never
/// paired with itself or with another mixed node.
pub open spec fn single_seam_path(owners: Seq<u8>, mixed: u8) -> bool
    decreases owners.len(),
{
    if owners.len() <= 1 {
        true
    } else {
        one_seam(owners, mixed) && single_seam_path(owners_up(owners, mixed), mixed)
    }
}

/// Whether the seams of the tree over the leaves owned as in `owners` lie
/// on one path to the root.
pub fn seams_on_one_path(owners: &Vec<u8>, mixed: u8) -> (ok: bool)
    ensures
        ok == single_seam_path(owners@, mixed),
{
    let mut level: Vec<u8> = owners.clone();
    while level.len() > 1
        invariant
            single_seam_path(owners@, mixed) == single_seam_path(level@, mixed),
        decreases level.len(),
    {
        let pairs = MerkleTree::next_level_len(level.len());
        let mut above: Vec<u8> = Vec::new();
        let mut joined = false;
        let ghost mut at: int = 0;
        let mut i: usize = 0;
        while i < pairs
            invariant
                i <= pairs,
                level.len() > 1,
                single_seam_path(owners@, mixed) == single_seam_path(level@, mixed),
                pairs == spec_next_level_len(level@.len()),
                above@ == owners_up(level@, mixed).take(i as int),
                forall|j: int| 0 <= j < i ==> !#[trigger] doubled(level@, mixed, j),
                joined ==> 0 <= at < i && joins(level@, mixed, at),
                forall|j: int|
                    0 <= j < i && #[trigger] joins(level@, mixed, j) ==> joined && j == at,
            decreases pairs - i,
        {
            let left = level[2 * i];
            let right = if 2 * i + 1 < level.len() {
                level[2 * i + 1]
            } else {
                level[2 * i]
            };
            assert(left == level@[2 * i]);
            assert(right == level@[right_of(i as int, level@.len() as int)]);
            if left == mixed && right == mixed {
                assert(doubled(level@, mixed, i as int));
                return false;
            }
            if left != right || left == mixed {
                assert(joins(level@, mixed, i as int));
                if joined {
                    assert(joins(level@, mixed, at));
                    return false;
                }
                joined = true;
                proof {
                    at = i as int;
                }
            }
            above.push(if left != right {
                mixed
            } else {
                left
            });
            i += 1;
            assert(above@ == owners_up(level@, mixed).take(i as int));
        }
        assert(above@ == owners_up(level@, mixed));
        assert(one_seam(level@, mixed));
        level = above;
    }
    true
}

/// The owners of the level above a level of nodes follow from the owners
/// of the level alone.
pub proof fn lemma_owners_up(level: Seq<Node>, mixed: u8, end: int)
    ensures
        owners_of(next_node_level(level, mixed, end)) == owners_up(owners_of(level), mixed),
{
    assert(owners_of(next_node_level(level, mixed, end)) =~= owners_up(owners_of(level), mixed));
}

/// The bottom level as the owner of every leaf would write it: all leaves
/// real, each tagged with its owner.
pub open spec fn full_level(leaves: Seq<Seq<u8>>, owners: Seq<u8>) -> Seq<Node> {
    Seq::new(leaves.len(), |j: int| leaf_node(owners[j], leaves[j], j as usize))
}

/// The bottom level of the batch tagged `tag`: its own leaves real, the
/// other leaves placeholders tagged with their owners.
pub open spec fn worker_level(leaves: Seq<Seq<u8>>, owners: Seq<u8>, tag: u8) -> Seq<Node> {
    Seq::new(
        leaves.len(),
        |j: int|
            if owners[j] == tag {
                leaf_node(tag, leaves[j], j as usize)
            } else {
                digest_node(j as usize, owners[j] as usize)
            },
    )
}

/// Whether the leaves tagged `tag` are those from `start` on, `len` of
/// them.
pub open spec fn owns_range(owners: Seq<u8>, tag: u8, start: int, len: int) -> bool {
    forall|j: int|
        0 <= j < owners.len() ==> (#[trigger] owners[j] == tag <==> start <= j < start + len)
}

/// What `append_batch` starts from, for a batch that owns a range of the
/// leaves, is the bottom level of that batch.
pub proof fn lemma_worker_level(
    leaves: Seq<Seq<u8>>,
    owners: Seq<u8>,
    tag: u8,
    start: int,
    len: int,
)
    requires
        leaves.len() == owners.len(),
        0 <= start,
        0 <= len,
        start + len <= leaves.len(),
        owns_range(owners, tag, start, len),
    ensures
        with_leaves(digest_level(owners), tag, leaves.subrange(start, start + len), start)
            == worker_level(leaves, owners, tag),
{
    let w = with_leaves(digest_level(owners), tag, leaves.subrange(start, start + len), start);
    assert forall|j: int| 0 <= j < leaves.len() implies w[j] == worker_level(
        leaves,
        owners,
        tag,
    )[j] by {
        assert(owners[j] == tag <==> start <= j < start + len);
    }
    assert(w =~= worker_level(leaves, owners, tag));
}

/// Whether a node of a batch's tree stands for the node `full` of the tree
/// in which every leaf is real: the same owner and position; the same node
/// where the batch owns it; else a compound node where it is mixed, and a
/// placeholder where another batch owns it.
pub open spec fn stands_for(own: Node, full: Node, tag: u8, mixed: u8) -> bool {
    &&& own.batch == full.batch
    &&& own.index == full.index
    &&& full.batch == tag ==> own == full
    &&& full.batch == mixed ==> own.node_type == NodeType::Compound
    &&& full.batch != tag && full.batch != mixed ==> own.node_type == NodeType::Digest
}

/// Whether each node of a level of a batch's tree stands for the node of
/// the full tree at its place.
pub open spec fn agrees(own: Seq<Node>, full: Seq<Node>, tag: u8, mixed: u8) -> bool {
    &&& own.len() == full.len()
    &&& forall|p: int| 0 <= p < own.len() ==> #[trigger] stands_for(own[p], full[p], tag, mixed)
}

/// The bottom level of a batch agrees with the full bottom level.
pub proof fn lemma_bottom_agrees(leaves: Seq<Seq<u8>>, owners: Seq<u8>, tag: u8, mixed: u8)
    requires
        leaves.len() == owners.len(),
        forall|j: int| 0 <= j < owners.len() ==> #[trigger] owners[j] != mixed,
    ensures
        agrees(worker_level(leaves, owners, tag), full_level(leaves, owners), tag, mixed),
{
    let w = worker_level(leaves, owners, tag);
    let g = full_level(leaves, owners);
    assert forall|p: int| 0 <= p < w.len() implies #[trigger] stands_for(
        w[p],
        g[p],
        tag,
        mixed,
    ) by {
        let o: u8 = owners[p];
        assert(o != mixed);
        assert((o as usize) as u8 == o) by (bit_vector);
    }
}

/// Whether no node of the level is real: each is a placeholder of a batch,
/// or a compound node of mixed ownership.
pub open spec fn idle(level: Seq<Node>, mixed: u8) -> bool {
    forall|p: int|
        0 <= p < level.len() ==> (#[trigger] level[p]).node_type == if level[p].batch == mixed {
            NodeType::Compound
        } else {
            NodeType::Digest
        }
}

/// No pair of an idle level gives a checkpoint.
proof fn lemma_idle_pairs(level: Seq<Node>, mixed: u8, pairs: nat)
    requires
        idle(level, mixed),
        pairs <= spec_next_level_len(level.len()),
    ensures
        level_checkpoints(level, pairs) == Seq::<Node>::empty(),
    decreases pairs,
{
    if pairs > 0 {
        let i = pairs - 1;
        lemma_idle_pairs(level, mixed, (pairs - 1) as nat);
        let l = level[2 * i];
        let r = level[right_of(i, level.len() as int)];
        assert(!is_real(l) && !is_real(r));
        assert(pair_checkpoints(pair_left(level, i), pair_right(level, i)) =~= Seq::<
            Node,
        >::empty());
    }
}

/// A tree over an idle level has no checkpoint.
proof fn lemma_idle_tree(level: Seq<Node>, mixed: u8, end: int)
    requires
        idle(level, mixed),
    ensures
        tree_checkpoints(level, mixed, end) == Seq::<Node>::empty(),
    decreases level.len(),
{
    if level.len() > 1 {
        let pairs = spec_next_level_len(level.len());
        let next = next_node_level(level, mixed, end);
        lemma_idle_pairs(level, mixed, pairs);
        assert forall|i: int| 0 <= i < next.len() implies (#[trigger] next[i]).node_type
            == if next[i].batch == mixed {
            NodeType::Compound
        } else {
            NodeType::Digest
        } by {
            let l = level[2 * i];
            let r = level[right_of(i, level.len() as int)];
            assert(!is_real(l) && !is_real(r));
        }
        lemma_idle_tree(next, mixed, end + pairs);
    }
}

/// A batch without leaves has no checkpoint, wherever it starts.
pub proof fn lemma_empty_batch(owners: Seq<u8>, batch_id: u8, start: int, mixed: u8)
    requires
        forall|j: int| 0 <= j < owners.len() ==> #[trigger] owners[j] != mixed,
    ensures
        tree_checkpoints(
            with_leaves(digest_level(owners), batch_id, Seq::<Seq<u8>>::empty(), start),
            mixed,
            owners.len() as int,
        ) == Seq::<Node>::empty(),
{
    let bottom = with_leaves(digest_level(owners), batch_id, Seq::<Seq<u8>>::empty(), start);
    assert forall|p: int| 0 <= p < bottom.len() implies (#[trigger] bottom[p]).node_type
        == if bottom[p].batch == mixed {
        NodeType::Compound
    } else {
        NodeType::Digest
    } by {
        let o: u8 = owners[p];
        assert(o != mixed);
        assert((o as usize) as u8 == o) by (bit_vector);
    }
    lemma_idle_tree(bottom, mixed, owners.len() as int);
}

} // verus!
