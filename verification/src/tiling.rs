//! From batches that tile the leaves to the root: the statements of the
//! other modules, over what the functions of the library take and return.

use crate::batch::{mixed_tag, mixed_tag_of, tree_checkpoints, with_leaves};
use crate::commit::{checkpoint_fold, gathered, is_arrangement};
use crate::hash::{contents, zero_hash};
use crate::layout::node_count;
use crate::merkle::{leaf_hashes, merkle_root};
use crate::node::{Node, NodeType, UNSET};
use crate::ownership::{lemma_worker_level, owns_range, single_seam_path, worker_level};
use crate::reconcile::{
    batches_cover, lemma_checkpoints_exist, lemma_commit_gives_root, lemma_sorted_checkpoints,
    lists_of_batches, shared,
};
use crate::seed::{
    batch_fault, covered, digest_level, leaf_owners, owner_tag, owner_tag_of, tiles,
    tiling_fault,
};
use crate::split::{clear_path, lemma_split_path, split_owners};
use vstd::prelude::*;

verus! {

/// The leaves of the first `k` batches, in order.
pub open spec fn all_items(batches: Seq<(u32, &[&[u8]], usize)>, k: int) -> Seq<Seq<u8>>
    decreases k,
{
    if k <= 0 {
        Seq::empty()
    } else {
        all_items(batches, k - 1) + contents(batches[k - 1].1@)
    }
}

/// The owner tag of each of the first `k` batches.
pub open spec fn batch_tags(batches: Seq<(u32, &[&[u8]], usize)>, k: int) -> Seq<u8> {
    Seq::new(k as nat, |j: int| owner_tag(batches[j].0))
}

/// Whether no two batches have the same owner tag, and none the mixed
/// tag.
pub open spec fn tags_differ(batches: Seq<(u32, &[&[u8]], usize)>, mixed: u8) -> bool {
    &&& forall|a: int, b: int|
        0 <= a < b < batches.len() ==> owner_tag(batches[a].0) != owner_tag(batches[b].0)
    &&& forall|a: int| 0 <= a < batches.len() ==> owner_tag(#[trigger] batches[a].0) != mixed
}

/// Whether the owner tags of the batches differ from each other and from
/// the mixed tag of a construction of `batch_count` batches.
pub fn tags_are_distinct(batches: &Vec<(u32, &[&[u8]], usize)>, batch_count: usize) -> (ok: bool)
    ensures
        ok == tags_differ(batches@, mixed_tag(batch_count)),
{
    let mixed = mixed_tag_of(batch_count);
    let mut seen: Vec<bool> = Vec::new();
    let mut t: usize = 0;
    while t < 256
        invariant
            t <= 256,
            seen@.len() == t,
            forall|j: int| 0 <= j < t ==> !seen@[j],
        decreases 256 - t,
    {
        seen.push(false);
        t += 1;
    }
    let ghost mut who: Seq<int> = Seq::new(256, |j: int| 0);
    let mut k: usize = 0;
    while k < batches.len()
        invariant
            k <= batches@.len(),
            mixed == mixed_tag(batch_count),
            seen@.len() == 256,
            who.len() == 256,
            forall|j: int|
                0 <= j < 256 && seen@[j] ==> 0 <= #[trigger] who[j] < k && owner_tag(
                    batches@[who[j]].0,
                ) == j,
            forall|a: int| 0 <= a < k ==> seen@[owner_tag(#[trigger] batches@[a].0) as int],
            forall|a: int| 0 <= a < k ==> owner_tag(#[trigger] batches@[a].0) != mixed,
            forall|a: int, b: int|
                0 <= a < b < k ==> owner_tag(batches@[a].0) != owner_tag(batches@[b].0),
        decreases batches@.len() - k,
    {
        let tag = owner_tag_of(batches[k].0);
        if tag == mixed {
            assert(owner_tag(batches@[k as int].0) == mixed);
            return false;
        }
        if seen[tag as usize] {
            let ghost first = who[tag as int];
            assert(owner_tag(batches@[first].0) == owner_tag(batches@[k as int].0));
            return false;
        }
        seen.set(tag as usize, true);
        proof {
            who = who.update(tag as int, k as int);
        }
        k += 1;
    }
    true
}

/// Batches without a fault: each starts where the leaves before it end,
/// each but the last holds a leaf, and together they hold `leaf_count`
/// leaves.
pub proof fn lemma_tiling(batches: Seq<(u32, &[&[u8]], usize)>, leaf_count: int, from: int)
    requires
        0 <= from <= batches.len(),
        tiling_fault(batches, leaf_count, from) is None,
    ensures
        covered(batches, batches.len() as int) == leaf_count,
        forall|k: int|
            from <= k < batches.len() ==> (#[trigger] batches[k]).2 == covered(batches, k) && (k
                + 1 < batches.len() ==> batches[k].1@.len() > 0),
    decreases batches.len() - from,
{
    if from < batches.len() {
        assert(batch_fault(batches, leaf_count, from) is None);
        lemma_tiling(batches, leaf_count, from + 1);
    }
}

/// In a tiling each batch starts where the leaves before it end.
proof fn lemma_starts(batches: Seq<(u32, &[&[u8]], usize)>, leaf_count: int, k: int)
    requires
        tiles(batches, leaf_count),
        0 <= k < batches.len(),
    ensures
        batches[k].2 == covered(batches, k),
    decreases k,
{
    if k > 0 {
        lemma_starts(batches, leaf_count, k - 1);
        assert(batches[k - 1].2 + batches[k - 1].1@.len() == batches[k - 1 + 1].2);
    }
}

/// A tiling has no fault from batch `from` on.
proof fn lemma_no_fault(batches: Seq<(u32, &[&[u8]], usize)>, leaf_count: int, from: int)
    requires
        tiles(batches, leaf_count),
        0 <= from <= batches.len(),
    ensures
        tiling_fault(batches, leaf_count, from) is None,
    decreases batches.len() - from,
{
    let all = batches.len() as int;
    if all > 0 {
        lemma_starts(batches, leaf_count, all - 1);
    }
    assert(covered(batches, all) == leaf_count);
    if from < all {
        lemma_starts(batches, leaf_count, from);
        lemma_covered_grows(batches, from + 1, all);
        if from + 1 < all {
            assert(batches[from].2 < batches[from + 1].2);
        }
        lemma_no_fault(batches, leaf_count, from + 1);
    }
}

/// The batches are without a fault exactly where they tile the leaves.
pub proof fn lemma_tiles(batches: Seq<(u32, &[&[u8]], usize)>, leaf_count: int)
    ensures
        tiling_fault(batches, leaf_count, 0) is None <==> tiles(batches, leaf_count),
{
    if tiles(batches, leaf_count) {
        lemma_no_fault(batches, leaf_count, 0);
    }
    if tiling_fault(batches, leaf_count, 0) is None {
        lemma_tiling(batches, leaf_count, 0);
        if batches.len() > 0 {
            assert forall|k: int| 0 <= k < batches.len() - 1 implies (#[trigger] batches[k]).2
                < batches[k + 1].2 && batches[k].2 + batches[k].1@.len() == batches[k + 1].2 by {
                assert(batches[k + 1].2 == covered(batches, k + 1));
            }
            assert(batches[0].2 == covered(batches, 0));
            assert(batches.last().2 == covered(batches, batches.len() - 1));
        }
    }
}

/// The leaves covered grow with the number of batches.
pub proof fn lemma_covered_grows(batches: Seq<(u32, &[&[u8]], usize)>, a: int, b: int)
    requires
        0 <= a <= b,
    ensures
        0 <= covered(batches, a) <= covered(batches, b),
    decreases b,
{
    if a < b {
        lemma_covered_grows(batches, a, b - 1);
    } else if a > 0 {
        lemma_covered_grows(batches, a - 1, a - 1);
    }
}

/// The owners and the leaves of the first `k` batches: as many as the
/// batches cover, and those of batch `j` stand where batch `j` lies.
pub proof fn lemma_batch_range(batches: Seq<(u32, &[&[u8]], usize)>, k: int, j: int)
    requires
        0 <= j < k,
    ensures
        leaf_owners(batches, k).len() == covered(batches, k),
        all_items(batches, k).len() == covered(batches, k),
        0 <= covered(batches, j) <= covered(batches, j + 1) <= covered(batches, k),
        forall|p: int|
            covered(batches, j) <= p < covered(batches, j + 1) ==> #[trigger] leaf_owners(
                batches,
                k,
            )[p] == owner_tag(batches[j].0),
        all_items(batches, k).subrange(covered(batches, j), covered(batches, j + 1)) == contents(
            batches[j].1@,
        ),
    decreases k,
{
    lemma_lengths(batches, k);
    lemma_lengths(batches, k - 1);
    lemma_covered_grows(batches, j, j + 1);
    lemma_covered_grows(batches, j + 1, k);
    if j < k - 1 {
        lemma_batch_range(batches, k - 1, j);
        assert(all_items(batches, k).subrange(covered(batches, j), covered(batches, j + 1))
            =~= all_items(batches, k - 1).subrange(covered(batches, j), covered(batches, j + 1)));
    } else {
        assert(all_items(batches, k).subrange(covered(batches, j), covered(batches, j + 1))
            =~= contents(batches[j].1@));
    }
}

/// The owners and the leaves of the first `k` batches are as many as the
/// batches cover.
pub proof fn lemma_lengths(batches: Seq<(u32, &[&[u8]], usize)>, k: int)
    ensures
        leaf_owners(batches, k).len() == covered(batches, k),
        all_items(batches, k).len() == covered(batches, k),
    decreases k,
{
    if k > 0 {
        lemma_lengths(batches, k - 1);
    }
}

/// The batch in which leaf `p` lies.
pub proof fn lemma_batch_of(batches: Seq<(u32, &[&[u8]], usize)>, k: int, p: int) -> (j: int)
    requires
        0 <= p < covered(batches, k),
    ensures
        0 <= j < k,
        covered(batches, j) <= p < covered(batches, j + 1),
    decreases k,
{
    if k <= 0 {
        0
    } else if p >= covered(batches, k - 1) {
        k - 1
    } else {
        lemma_batch_of(batches, k - 1, p)
    }
}

/// In a tiling by batches of different tags, each batch owns the leaves
/// from its start on.
pub proof fn lemma_tiling_owns(
    batches: Seq<(u32, &[&[u8]], usize)>,
    leaf_count: int,
    mixed: u8,
    k: int,
)
    requires
        tiling_fault(batches, leaf_count, 0) is None,
        tags_differ(batches, mixed),
        0 <= k < batches.len(),
    ensures
        owns_range(
            leaf_owners(batches, batches.len() as int),
            owner_tag(batches[k].0),
            batches[k].2 as int,
            batches[k].1@.len() as int,
        ),
{
    let all = batches.len() as int;
    let owners = leaf_owners(batches, all);
    let tag = owner_tag(batches[k].0);
    lemma_tiling(batches, leaf_count, 0);
    lemma_lengths(batches, all);
    assert(batches[k].2 == covered(batches, k));
    assert forall|p: int| 0 <= p < owners.len() implies (#[trigger] owners[p] == tag
        <==> batches[k].2 <= p < batches[k].2 + batches[k].1@.len()) by {
        let j = lemma_batch_of(batches, all, p);
        lemma_batch_range(batches, all, j);
        assert(owners[p] == owner_tag(batches[j].0));
        if j < k {
            lemma_covered_grows(batches, j + 1, k);
        } else if j > k {
            lemma_covered_grows(batches, k + 1, j);
        }
    }
}

/// The seed of a tiling: the placeholder at the place of a leaf is tagged
/// with the batch that will fill it, whichever batch runs first, and has
/// no side, the zero digest and its own position.
pub proof fn lemma_seed_node(
    batches: Seq<(u32, &[&[u8]], usize)>,
    leaf_count: usize,
    k: int,
    i: int,
)
    requires
        tiles(batches, leaf_count as int),
        0 <= k < batches.len(),
        batches[k].2 <= i < batches[k].2 + batches[k].1@.len(),
    ensures
        0 <= i < leaf_count,
        digest_level(leaf_owners(batches, batches.len() as int)).len() == leaf_count,
        digest_level(leaf_owners(batches, batches.len() as int))[i] == (Node {
            batch: owner_tag(batches[k].0),
            order: UNSET,
            data: zero_hash(),
            node_type: NodeType::Digest,
            index: i as usize,
        }),
{
    let all = batches.len() as int;
    lemma_tiles(batches, leaf_count as int);
    lemma_tiling(batches, leaf_count as int, 0);
    lemma_batch_range(batches, all, k);
    assert(batches[k].2 == covered(batches, k));
    let tag: u8 = owner_tag(batches[k].0);
    assert(leaf_owners(batches, all)[i] == tag);
    assert((tag as usize) as u8 == tag) by (bit_vector);
}

/// Whether `lists` holds, for each batch, what `append_batch` returns for
/// it on the seed of all the batches.
pub open spec fn lists_of_calls(
    lists: Seq<Vec<Node>>,
    batches: Seq<(u32, &[&[u8]], usize)>,
    leaf_count: int,
    mixed: u8,
) -> bool {
    &&& lists.len() == batches.len()
    &&& forall|k: int|
        0 <= k < lists.len() ==> (#[trigger] lists[k])@ == tree_checkpoints(
            with_leaves(
                digest_level(leaf_owners(batches, batches.len() as int)),
                owner_tag(batches[k].0),
                contents(batches[k].1@),
                batches[k].2 as int,
            ),
            mixed,
            leaf_count,
        )
}

/// Batches that tile the leaves under tags that differ are owners that
/// cover the leaves, and what `append_batch` returns for each is the list
/// of checkpoints of that owner.
proof fn lemma_batches_as_owners(
    batches: Seq<(u32, &[&[u8]], usize)>,
    leaf_count: int,
    mixed: u8,
    lists: Seq<Vec<Node>>,
)
    requires
        tiling_fault(batches, leaf_count, 0) is None,
        tags_differ(batches, mixed),
        lists_of_calls(lists, batches, leaf_count, mixed),
    ensures
        all_items(batches, batches.len() as int).len() == leaf_count,
        leaf_owners(batches, batches.len() as int).len() == leaf_count,
        batches_cover(
            leaf_owners(batches, batches.len() as int),
            batch_tags(batches, batches.len() as int),
            mixed,
        ),
        lists_of_batches(
            lists,
            all_items(batches, batches.len() as int),
            leaf_owners(batches, batches.len() as int),
            batch_tags(batches, batches.len() as int),
            mixed,
        ),
        batches.len() >= 2 && batches[1].1@.len() > 0 ==> shared(
            leaf_owners(batches, batches.len() as int),
        ),
{
    let all = batches.len() as int;
    let owners = leaf_owners(batches, all);
    let leaves = all_items(batches, all);
    let tags = batch_tags(batches, all);
    lemma_tiling(batches, leaf_count, 0);
    lemma_lengths(batches, all);
    assert forall|p: int| 0 <= p < owners.len() implies tags.contains(#[trigger] owners[p]) by {
        let j = lemma_batch_of(batches, all, p);
        lemma_batch_range(batches, all, j);
        assert(tags[j] == owners[p]);
    }
    assert(batches_cover(owners, tags, mixed));
    assert forall|k: int| 0 <= k < lists.len() implies (#[trigger] lists[k])@ == tree_checkpoints(
        worker_level(leaves, owners, tags[k]),
        mixed,
        leaves.len() as int,
    ) by {
        lemma_tiling_owns(batches, leaf_count, mixed, k);
        lemma_batch_range(batches, all, k);
        assert(batches[k].2 == covered(batches, k));
        lemma_worker_level(
            leaves,
            owners,
            tags[k],
            batches[k].2 as int,
            batches[k].1@.len() as int,
        );
    }
    if batches.len() >= 2 && batches[1].1@.len() > 0 {
        lemma_batch_range(batches, all, 0);
        lemma_batch_range(batches, all, 1);
        let i = covered(batches, 0);
        let j = covered(batches, 1);
        assert(batches[0].1@.len() > 0);
        assert(owners[i] == owner_tag(batches[0].0));
        assert(owners[j] == owner_tag(batches[1].0));
        assert(0 <= i < j < owners.len() && owners[i] != owners[j]);
    }
}

/// Two batches or more that hold leaves give `commit` a checkpoint to
/// start from.
pub proof fn lemma_batches_give_checkpoints(
    batches: Seq<(u32, &[&[u8]], usize)>,
    leaf_count: usize,
    batch_count: usize,
    lists: Seq<Vec<Node>>,
)
    requires
        tiling_fault(batches, leaf_count as int, 0) is None,
        node_count(leaf_count as nat) <= usize::MAX,
        tags_differ(batches, mixed_tag(batch_count)),
        lists_of_calls(lists, batches, leaf_count as int, mixed_tag(batch_count)),
        batches.len() >= 2,
        batches[1].1@.len() > 0,
    ensures
        gathered(lists, lists.len() as int).len() > 0,
{
    let all = batches.len() as int;
    let mixed = mixed_tag(batch_count);
    lemma_batches_as_owners(batches, leaf_count as int, mixed, lists);
    lemma_checkpoints_exist(
        all_items(batches, all),
        leaf_owners(batches, all),
        mixed,
        batch_tags(batches, all),
        lists,
    );
}

/// The same leaves in the same batches give the same root: however the
/// checkpoints of the batches were sorted, the fold is that of one and the
/// same sequence.
pub proof fn lemma_batches_fix_the_root(
    batches: Seq<(u32, &[&[u8]], usize)>,
    leaf_count: usize,
    batch_count: usize,
    lists: Seq<Vec<Node>>,
    first: Seq<Node>,
    second: Seq<Node>,
)
    requires
        tiling_fault(batches, leaf_count as int, 0) is None,
        node_count(leaf_count as nat) <= usize::MAX,
        tags_differ(batches, mixed_tag(batch_count)),
        lists_of_calls(lists, batches, leaf_count as int, mixed_tag(batch_count)),
        is_arrangement(first, gathered(lists, lists.len() as int)),
        is_arrangement(second, gathered(lists, lists.len() as int)),
    ensures
        first == second,
        checkpoint_fold(first) == checkpoint_fold(second),
{
    let all = batches.len() as int;
    let mixed = mixed_tag(batch_count);
    let leaves = all_items(batches, all);
    let owners = leaf_owners(batches, all);
    let tags = batch_tags(batches, all);
    lemma_batches_as_owners(batches, leaf_count as int, mixed, lists);
    lemma_sorted_checkpoints(leaves, owners, mixed, tags, lists, first);
    lemma_sorted_checkpoints(leaves, owners, mixed, tags, lists, second);
}

/// From the batches to the root: two batches or more that hold leaves
/// tile the leaves under tags that differ, each batch is built on the seed
/// of all, and the seams lie on one path. Then what `commit` folds from the checkpoints of
/// all the batches is the root of the tree built in one pass over all the
/// leaves.
pub proof fn lemma_batches_give_root(
    batches: Seq<(u32, &[&[u8]], usize)>,
    leaf_count: usize,
    batch_count: usize,
    lists: Seq<Vec<Node>>,
    sorted: Seq<Node>,
)
    requires
        tiling_fault(batches, leaf_count as int, 0) is None,
        node_count(leaf_count as nat) <= usize::MAX,
        tags_differ(batches, mixed_tag(batch_count)),
        lists_of_calls(lists, batches, leaf_count as int, mixed_tag(batch_count)),
        is_arrangement(sorted, gathered(lists, lists.len() as int)),
        batches.len() >= 2,
        batches[1].1@.len() > 0,
        single_seam_path(
            leaf_owners(batches, batches.len() as int),
            mixed_tag(batch_count),
        ),
    ensures
        checkpoint_fold(sorted) == merkle_root(
            leaf_hashes(all_items(batches, batches.len() as int)),
        ),
{
    let all = batches.len() as int;
    let mixed = mixed_tag(batch_count);
    lemma_batches_as_owners(batches, leaf_count as int, mixed, lists);
    lemma_commit_gives_root(
        all_items(batches, all),
        leaf_owners(batches, all),
        mixed,
        batch_tags(batches, all),
        lists,
        sorted,
    );
}

/// Two batches against one pass: the first holds the leaves up to a
/// boundary, the second the others, and the path of the seam is clear. Then
/// what `commit` folds is the root of the tree built in one pass over all
/// the leaves.
pub proof fn lemma_two_batches_give_root(
    batches: Seq<(u32, &[&[u8]], usize)>,
    leaf_count: usize,
    batch_count: usize,
    lists: Seq<Vec<Node>>,
    sorted: Seq<Node>,
)
    requires
        batches.len() == 2,
        batches[1].1@.len() > 0,
        tiling_fault(batches, leaf_count as int, 0) is None,
        node_count(leaf_count as nat) <= usize::MAX,
        tags_differ(batches, mixed_tag(batch_count)),
        lists_of_calls(lists, batches, leaf_count as int, mixed_tag(batch_count)),
        is_arrangement(sorted, gathered(lists, lists.len() as int)),
        clear_path(leaf_count as nat, batches[0].1@.len() as int),
    ensures
        checkpoint_fold(sorted) == merkle_root(leaf_hashes(all_items(batches, 2))),
{
    let mixed = mixed_tag(batch_count);
    let owners = leaf_owners(batches, 2);
    let boundary = batches[0].1@.len() as int;
    let first = owner_tag(batches[0].0);
    let second = owner_tag(batches[1].0);
    lemma_tiling(batches, leaf_count as int, 0);
    lemma_batch_range(batches, 2, 0);
    lemma_batch_range(batches, 2, 1);
    assert(covered(batches, 0) == 0);
    assert(covered(batches, 1) == boundary);
    assert(owners =~= split_owners(leaf_count as nat, boundary, first, second));
    lemma_split_path(leaf_count as nat, boundary, first, second, mixed);
    lemma_batches_give_root(batches, leaf_count, batch_count, lists, sorted);
}

} // verus!
