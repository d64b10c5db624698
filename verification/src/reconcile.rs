//! Why folding the checkpoints gives the root of the single pass.
//!
//! The fold runs along one path: it starts at the lowest seam and takes in
//! one sibling for each level above. It gives the root where all seams lie
//! on that path. Six leaves shared as five and one are outside: the node
//! above the seam is the last of a level of three and is paired with
//! itself, which the fold does not repeat. So are four leaves shared as
//! one, two and one: the two seams meet only at the root.
//! `seams_on_one_path` tells the one from the other.

use crate::batch::{
    checkpoint_of, is_real, level_checkpoints, next_node_level, pair_checkpoints, pair_left,
    pair_right, tree_checkpoints,
};
use crate::arrangement::{
    ascending, lemma_occurrences_count, lemma_occurs_at, lemma_one_order, lemma_place_occurs,
    occurrences,
};
use crate::commit::{checkpoint_fold, gathered, is_arrangement};
use crate::layout::{node_count, right_of, spec_next_level_len};
use crate::merkle::{leaf_hashes, merkle_root, next_hash_level};
use crate::node::{Node, NodeType};
use crate::ownership::{
    datas, doubled, full_level, joins, lemma_bottom_agrees, lemma_level_digests, lemma_owners_up,
    lemma_quiet_pairs, one_seam, owners_of, single_seam_path, worker_level,
};
use crate::workers::{
    lemma_gathered_share, lemma_node_count_covers, lemma_tree_orderly, lemma_tree_share, placed,
};
use vstd::prelude::*;

verus! {

/// Whether the node is as the owner of everything would have it: real
/// unless mixed, and a compound node where mixed.
pub open spec fn settled_node(n: Node, mixed: u8) -> bool {
    if n.batch == mixed {
        n.node_type == NodeType::Compound
    } else {
        is_real(n)
    }
}

/// Whether every node of the level is settled.
pub open spec fn settled(level: Seq<Node>, mixed: u8) -> bool {
    forall|p: int| 0 <= p < level.len() ==> #[trigger] settled_node(level[p], mixed)
}

/// Whether the checkpoints found below a level fold to the digest of its
/// one mixed node; where none was found, the level has no mixed node.
pub open spec fn carries(found: Seq<Node>, level: Seq<Node>, mixed: u8) -> bool {
    if found.len() == 0 {
        forall|p: int| 0 <= p < level.len() ==> (#[trigger] level[p]).batch != mixed
    } else {
        exists|at: int|
            {
                &&& 0 <= at < level.len()
                &&& (#[trigger] level[at]).batch == mixed
                &&& level[at].data == checkpoint_fold(found)
                &&& forall|p: int|
                    0 <= p < level.len() && (#[trigger] level[p]).batch == mixed ==> p == at
            }
    }
}

/// Where only pair `at` joins two owners, the checkpoints of the level are
/// those of that pair.
proof fn lemma_only_seam(level: Seq<Node>, pairs: nat, at: int)
    requires
        pairs <= spec_next_level_len(level.len()),
        0 <= at < pairs,
        forall|i: int|
            0 <= i < pairs && i != at ==> level[2 * i].batch == level[right_of(
                i,
                level.len() as int,
            )].batch,
    ensures
        level_checkpoints(level, pairs) == pair_checkpoints(
            pair_left(level, at),
            pair_right(level, at),
        ),
    decreases pairs,
{
    let i = pairs - 1;
    let here = pair_checkpoints(pair_left(level, i), pair_right(level, i));
    if i == at {
        lemma_quiet_pairs(level, (pairs - 1) as nat);
        assert(Seq::<Node>::empty() + here =~= here);
    } else {
        lemma_only_seam(level, (pairs - 1) as nat, at);
        assert(level[2 * i].batch == level[right_of(i, level.len() as int)].batch);
        assert(here == Seq::<Node>::empty());
        assert(level_checkpoints(level, (pairs - 1) as nat) + here =~= level_checkpoints(
            level,
            (pairs - 1) as nat,
        ));
    }
}

/// The level above a settled level is settled.
pub proof fn lemma_settled_up(level: Seq<Node>, mixed: u8, end: int)
    requires
        settled(level, mixed),
    ensures
        settled(next_node_level(level, mixed, end), mixed),
{
    let next = next_node_level(level, mixed, end);
    assert forall|i: int| 0 <= i < next.len() implies #[trigger] settled_node(next[i], mixed) by {
        assert(settled_node(level[2 * i], mixed));
        assert(settled_node(level[right_of(i, level.len() as int)], mixed));
    }
}

/// One level up: the checkpoints found so far, with those of this level,
/// fold to the digest of the one mixed node of the level above.
proof fn lemma_fold_level(found: Seq<Node>, level: Seq<Node>, mixed: u8, end: int)
    requires
        level.len() >= 2,
        settled(level, mixed),
        one_seam(owners_of(level), mixed),
        carries(found, level, mixed),
    ensures
        carries(
            found + level_checkpoints(level, spec_next_level_len(level.len())),
            next_node_level(level, mixed, end),
            mixed,
        ),
{
    let own = owners_of(level);
    let len = level.len() as int;
    let pairs = spec_next_level_len(level.len());
    let next = next_node_level(level, mixed, end);
    let here = level_checkpoints(level, pairs);
    let all = found + here;
    assert forall|q: int| 0 <= q < pairs && next[q].batch == mixed implies joins(
        own,
        mixed,
        q,
    ) by {}
    if exists|i: int| 0 <= i < pairs && joins(own, mixed, i) {
        let at = choose|i: int| 0 <= i < pairs && joins(own, mixed, i);
        assert(!doubled(own, mixed, at));
        assert(level[2 * at].batch != level[right_of(at, len)].batch);
        assert(right_of(at, len) == 2 * at + 1);
        assert forall|i: int| 0 <= i < pairs && i != at implies level[2 * i].batch == level[right_of(
            i,
            len,
        )].batch by {
            assert(!joins(own, mixed, i));
        }
        lemma_only_seam(level, pairs, at);
        let l = pair_left(level, at);
        let r = pair_right(level, at);
        assert(settled_node(level[2 * at], mixed));
        assert(settled_node(level[2 * at + 1], mixed));
        if found.len() == 0 {
            assert(level[2 * at].batch != mixed);
            assert(level[2 * at + 1].batch != mixed);
            assert(here =~= seq![checkpoint_of(l), checkpoint_of(r)]);
            assert(all =~= here);
            assert(all.drop_last() =~= seq![checkpoint_of(l)]);
            assert(checkpoint_fold(all.drop_last()) == l.data);
            assert(checkpoint_fold(all) == next[at].data);
        } else {
            let p = choose|p: int|
                {
                    &&& 0 <= p < level.len()
                    &&& (#[trigger] level[p]).batch == mixed
                    &&& level[p].data == checkpoint_fold(found)
                    &&& forall|q: int|
                        0 <= q < level.len() && (#[trigger] level[q]).batch == mixed ==> q == p
                };
            let q = p / 2;
            assert(0 <= q < pairs);
            assert(joins(own, mixed, q)) by {
                if p == 2 * q {
                } else {
                    assert(p == 2 * q + 1);
                    assert(right_of(q, len) == p);
                }
            }
            assert(q == at);
            if p == 2 * at {
                assert(level[2 * at + 1].batch != mixed);
                assert(here =~= seq![checkpoint_of(r)]);
                assert(all.drop_last() =~= found);
                assert(all.last() == checkpoint_of(r));
                assert(checkpoint_fold(all) == next[at].data);
            } else {
                assert(p == 2 * at + 1);
                assert(level[2 * at].batch != mixed);
                assert(here =~= seq![checkpoint_of(l)]);
                assert(all.drop_last() =~= found);
                assert(all.last() == checkpoint_of(l));
                assert(checkpoint_fold(all) == next[at].data);
            }
        }
        assert(next[at].batch == mixed);
        assert(all.len() > 0);
        assert forall|q: int| 0 <= q < next.len() && (#[trigger] next[q]).batch == mixed implies q
            == at by {
            assert(joins(own, mixed, q));
        }
    } else {
        assert forall|i: int| 0 <= i < pairs implies level[2 * i].batch == level[right_of(
            i,
            len,
        )].batch by {
            assert(!joins(own, mixed, i));
        }
        lemma_quiet_pairs(level, pairs);
        assert(all =~= found);
        if found.len() == 0 {
            assert forall|q: int| 0 <= q < next.len() implies (#[trigger] next[q]).batch
                != mixed by {
                if next[q].batch == mixed {
                    assert(joins(own, mixed, q));
                }
            }
        } else {
            let p = choose|p: int|
                {
                    &&& 0 <= p < level.len()
                    &&& (#[trigger] level[p]).batch == mixed
                    &&& level[p].data == checkpoint_fold(found)
                    &&& forall|q: int|
                        0 <= q < level.len() && (#[trigger] level[q]).batch == mixed ==> q == p
                };
            let q = p / 2;
            assert(0 <= q < pairs);
            assert(joins(own, mixed, q)) by {
                if p == 2 * q {
                } else {
                    assert(p == 2 * q + 1);
                    assert(right_of(q, len) == p);
                }
            }
            assert(false);
        }
    }
}

/// Up to the root: where the seams lie on one path, the checkpoints found
/// below a level, with all those from the level up, fold to the root.
pub proof fn lemma_fold_tree(found: Seq<Node>, level: Seq<Node>, mixed: u8, end: int)
    requires
        level.len() >= 1,
        settled(level, mixed),
        single_seam_path(owners_of(level), mixed),
        carries(found, level, mixed),
    ensures
        (found + tree_checkpoints(level, mixed, end)).len() > 0 ==> checkpoint_fold(
            found + tree_checkpoints(level, mixed, end),
        ) == merkle_root(datas(level)),
    decreases level.len(),
{
    if level.len() == 1 {
        assert(found + tree_checkpoints(level, mixed, end) =~= found);
    } else {
        let pairs = spec_next_level_len(level.len());
        let next = next_node_level(level, mixed, end);
        let here = level_checkpoints(level, pairs);
        lemma_settled_up(level, mixed, end);
        lemma_fold_level(found, level, mixed, end);
        lemma_owners_up(level, mixed, end);
        lemma_level_digests(level, mixed, end);
        lemma_fold_tree(found + here, next, mixed, end + pairs);
        assert(found + tree_checkpoints(level, mixed, end) =~= (found + here) + tree_checkpoints(
            next,
            mixed,
            end + pairs,
        ));
        assert(merkle_root(datas(level)) == merkle_root(next_hash_level(datas(level))));
    }
}

/// Whether the batches tagged `tags` can share the leaves owned as in
/// `owners`: the tags differ from each other and from the mixed tag, and
/// each leaf is owned by one of them.
pub open spec fn batches_cover(owners: Seq<u8>, tags: Seq<u8>, mixed: u8) -> bool {
    &&& forall|a: int, b: int| 0 <= a < b < tags.len() ==> tags[a] != tags[b]
    &&& forall|a: int| 0 <= a < tags.len() ==> #[trigger] tags[a] != mixed
    &&& forall|j: int| 0 <= j < owners.len() ==> tags.contains(#[trigger] owners[j])
}

/// Whether `lists` holds, for each batch, the checkpoints of its private
/// tree.
pub open spec fn lists_of_batches(
    lists: Seq<Vec<Node>>,
    leaves: Seq<Seq<u8>>,
    owners: Seq<u8>,
    tags: Seq<u8>,
    mixed: u8,
) -> bool {
    &&& lists.len() == tags.len()
    &&& forall|k: int|
        0 <= k < lists.len() ==> (#[trigger] lists[k])@ == tree_checkpoints(
            worker_level(leaves, owners, tags[k]),
            mixed,
            leaves.len() as int,
        )
}

/// Whether the leaves have more than one owner.
pub open spec fn shared(owners: Seq<u8>) -> bool {
    exists|i: int, j: int| 0 <= i < j < owners.len() && owners[i] != owners[j]
}

/// The checkpoints of the first pairs of a level are at least as many as
/// those of one pair among them.
proof fn lemma_level_has_pair(level: Seq<Node>, pairs: nat, i: int)
    requires
        0 <= i < pairs,
    ensures
        level_checkpoints(level, pairs).len() >= pair_checkpoints(
            pair_left(level, i),
            pair_right(level, i),
        ).len(),
    decreases pairs,
{
    if i < pairs - 1 {
        lemma_level_has_pair(level, (pairs - 1) as nat, i);
    }
}

/// A tree of real nodes of more than one owner has a checkpoint.
proof fn lemma_seam_exists(level: Seq<Node>, mixed: u8, end: int, a: int, b: int)
    requires
        settled(level, mixed),
        forall|p: int| 0 <= p < level.len() ==> (#[trigger] level[p]).batch != mixed,
        0 <= a < b < level.len(),
        level[a].batch != level[b].batch,
    ensures
        tree_checkpoints(level, mixed, end).len() > 0,
    decreases level.len(),
{
    let len = level.len() as int;
    let pairs = spec_next_level_len(level.len());
    let next = next_node_level(level, mixed, end);
    if exists|i: int| 0 <= i < pairs && level[2 * i].batch != level[right_of(i, len)].batch {
        let i = choose|i: int|
            0 <= i < pairs && level[2 * i].batch != level[right_of(i, len)].batch;
        assert(settled_node(level[2 * i], mixed));
        assert(level[2 * i].batch != mixed);
        let here = pair_checkpoints(pair_left(level, i), pair_right(level, i));
        assert(here.len() > 0);
        lemma_level_has_pair(level, pairs, i);
    } else {
        lemma_settled_up(level, mixed, end);
        assert forall|q: int| 0 <= q < next.len() implies (#[trigger] next[q]).batch
            == level[2 * q].batch && next[q].batch == level[right_of(q, len)].batch by {}
        assert forall|q: int| 0 <= q < next.len() implies (#[trigger] next[q]).batch
            != mixed by {
            assert(level[2 * q].batch != mixed);
        }
        assert(next[a / 2].batch == level[a].batch) by {
            if a != 2 * (a / 2) {
                assert(right_of(a / 2, len) == a);
            }
        }
        assert(next[b / 2].batch == level[b].batch) by {
            if b != 2 * (b / 2) {
                assert(right_of(b / 2, len) == b);
            }
        }
        lemma_seam_exists(next, mixed, end + pairs, a / 2, b / 2);
    }
}

/// The checkpoints of all batches together are the checkpoints of the tree
/// in which every leaf is real, each once; and those come in strictly
/// growing positions.
pub proof fn lemma_gathered_checkpoints(
    leaves: Seq<Seq<u8>>,
    owners: Seq<u8>,
    mixed: u8,
    tags: Seq<u8>,
    lists: Seq<Vec<Node>>,
)
    requires
        leaves.len() == owners.len(),
        node_count(leaves.len()) <= usize::MAX,
        batches_cover(owners, tags, mixed),
        lists_of_batches(lists, leaves, owners, tags, mixed),
    ensures
        ascending(tree_checkpoints(full_level(leaves, owners), mixed, leaves.len() as int)),
        forall|v: Node|
            occurrences(gathered(lists, lists.len() as int), v) == occurrences(
                tree_checkpoints(full_level(leaves, owners), mixed, leaves.len() as int),
                v,
            ),
{
    let n = leaves.len() as int;
    let full = full_level(leaves, owners);
    let all = tree_checkpoints(full, mixed, n);
    let given = gathered(lists, lists.len() as int);
    assert forall|p: int| 0 <= p < full.len() implies #[trigger] settled_node(full[p], mixed) by {
        assert(tags.contains(owners[p]));
    }
    assert forall|p: int| 0 <= p < full.len() implies (#[trigger] full[p]).batch == mixed
        || tags.contains(full[p].batch) by {
        assert(tags.contains(owners[p]));
    }
    assert(placed(full, 0)) by {
        lemma_node_count_covers(leaves.len());
    }
    assert forall|j: int| 0 <= j < owners.len() implies #[trigger] owners[j] != mixed by {
        assert(tags.contains(owners[j]));
    }
    lemma_tree_orderly(full, mixed, 0, tags);
    assert forall|v: Node| occurrences(given, v) == occurrences(all, v) by {
        assert forall|j: int| 0 <= j < lists.len() implies occurrences(#[trigger] lists[j]@, v)
            == if v.batch == tags[j] {
            occurrences(all, v)
        } else {
            0
        } by {
            lemma_bottom_agrees(leaves, owners, tags[j], mixed);
            lemma_tree_share(worker_level(leaves, owners, tags[j]), full, tags[j], mixed, n, v);
        }
        lemma_gathered_share(lists, tags, all, lists.len() as int, v);
        assert(tags.take(lists.len() as int) =~= tags);
        if occurrences(all, v) > 0 {
            let at = lemma_occurs_at(all, v);
            assert(tags.contains(all[at].batch));
        }
    }
}

/// However the leaves are shared among the batches, the checkpoints of all
/// batches, put in the order of their positions, are the checkpoints of the
/// tree in which every leaf is real: what `commit` folds is fixed by the
/// leaves and their owners alone.
pub proof fn lemma_sorted_checkpoints(
    leaves: Seq<Seq<u8>>,
    owners: Seq<u8>,
    mixed: u8,
    tags: Seq<u8>,
    lists: Seq<Vec<Node>>,
    sorted: Seq<Node>,
)
    requires
        leaves.len() == owners.len(),
        node_count(leaves.len()) <= usize::MAX,
        batches_cover(owners, tags, mixed),
        lists_of_batches(lists, leaves, owners, tags, mixed),
        is_arrangement(sorted, gathered(lists, lists.len() as int)),
    ensures
        sorted == tree_checkpoints(full_level(leaves, owners), mixed, leaves.len() as int),
{
    let all = tree_checkpoints(full_level(leaves, owners), mixed, leaves.len() as int);
    let given = gathered(lists, lists.len() as int);
    lemma_gathered_checkpoints(leaves, owners, mixed, tags, lists);
    assert forall|v: Node| occurrences(sorted, v) == occurrences(all, v) by {
        assert(occurrences(given, v) == occurrences(all, v));
        lemma_occurrences_count(sorted, v);
        lemma_occurrences_count(given, v);
    }
    lemma_one_order(sorted, all);
}

/// Leaves of more than one owner give the batches a checkpoint: `commit`
/// can be called.
pub proof fn lemma_checkpoints_exist(
    leaves: Seq<Seq<u8>>,
    owners: Seq<u8>,
    mixed: u8,
    tags: Seq<u8>,
    lists: Seq<Vec<Node>>,
)
    requires
        leaves.len() == owners.len(),
        node_count(leaves.len()) <= usize::MAX,
        batches_cover(owners, tags, mixed),
        lists_of_batches(lists, leaves, owners, tags, mixed),
        shared(owners),
    ensures
        gathered(lists, lists.len() as int).len() > 0,
{
    let full = full_level(leaves, owners);
    let all = tree_checkpoints(full, mixed, leaves.len() as int);
    let given = gathered(lists, lists.len() as int);
    let (a, b) = choose|i: int, j: int| 0 <= i < j < owners.len() && owners[i] != owners[j];
    assert forall|p: int| 0 <= p < full.len() implies #[trigger] settled_node(full[p], mixed)
        && full[p].batch != mixed by {
        assert(tags.contains(owners[p]));
    }
    lemma_seam_exists(full, mixed, leaves.len() as int, a, b);
    lemma_gathered_checkpoints(leaves, owners, mixed, tags, lists);
    lemma_place_occurs(all, 0);
    assert(occurrences(given, all[0]) > 0);
}

/// Batches against one pass: the leaves have more than one owner and the
/// seams lie on one path to the root. Then folding the checkpoints of all
/// batches in the order of their positions gives the root of the tree
/// built in one pass over all the leaves.
pub proof fn lemma_commit_gives_root(
    leaves: Seq<Seq<u8>>,
    owners: Seq<u8>,
    mixed: u8,
    tags: Seq<u8>,
    lists: Seq<Vec<Node>>,
    sorted: Seq<Node>,
)
    requires
        leaves.len() == owners.len(),
        node_count(leaves.len()) <= usize::MAX,
        batches_cover(owners, tags, mixed),
        lists_of_batches(lists, leaves, owners, tags, mixed),
        is_arrangement(sorted, gathered(lists, lists.len() as int)),
        shared(owners),
        single_seam_path(owners, mixed),
    ensures
        checkpoint_fold(sorted) == merkle_root(leaf_hashes(leaves)),
{
    let n = leaves.len() as int;
    let full = full_level(leaves, owners);
    let none = Seq::<Node>::empty();
    lemma_sorted_checkpoints(leaves, owners, mixed, tags, lists, sorted);
    lemma_checkpoints_exist(leaves, owners, mixed, tags, lists);
    sorted.to_multiset_ensures();
    gathered(lists, lists.len() as int).to_multiset_ensures();
    assert(sorted.len() > 0);
    assert forall|p: int| 0 <= p < full.len() implies #[trigger] settled_node(full[p], mixed) by {
        assert(tags.contains(owners[p]));
    }
    assert forall|p: int| 0 <= p < full.len() implies (#[trigger] full[p]).batch != mixed by {
        assert(tags.contains(owners[p]));
    }
    assert(owners_of(full) =~= owners);
    assert(datas(full) =~= leaf_hashes(leaves));
    assert(none + tree_checkpoints(full, mixed, n) =~= sorted);
    lemma_fold_tree(none, full, mixed, n);
}

} // verus!
