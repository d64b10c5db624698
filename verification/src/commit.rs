//! Folding the checkpoints of all batches into the root.

use crate::batch::AsyncMerkleTree;
use crate::hash::{hash_intermediate, spec_hash_intermediate};
use crate::node::Node;
use rayon::slice::ParallelSliceMut;
use vstd::prelude::*;

verus! {

/// The checkpoints of the first `k` lists, one list after the other.
pub open spec fn gathered(lists: Seq<Vec<Node>>, k: int) -> Seq<Node>
    decreases k,
{
    if k <= 0 {
        Seq::empty()
    } else {
        gathered(lists, k - 1) + lists[k - 1]@
    }
}

/// Whether the positions of the nodes never decrease along the sequence.
pub open spec fn sorted_by_index(nodes: Seq<Node>) -> bool {
    forall|i: int, j: int| 0 <= i <= j < nodes.len() ==> nodes[i].index <= nodes[j].index
}

/// Whether `sorted` holds the nodes of `nodes`, each as often, in the order
/// of their positions.
pub open spec fn is_arrangement(sorted: Seq<Node>, nodes: Seq<Node>) -> bool {
    sorted_by_index(sorted) && sorted.to_multiset() == nodes.to_multiset()
}

/// The digest that folding the checkpoints gives: the first one's digest,
/// and then each checkpoint is hashed onto the result so far, on the right
/// where it was a right child, else on the left.
pub open spec fn checkpoint_fold(checkpoints: Seq<Node>) -> crate::hash::Hash
    decreases checkpoints.len(),
{
    if checkpoints.len() <= 1 {
        checkpoints[0].data
    } else {
        let acc = checkpoint_fold(checkpoints.drop_last());
        let c = checkpoints.last();
        if c.order == 1 {
            spec_hash_intermediate(acc, c.data)
        } else {
            spec_hash_intermediate(c.data, acc)
        }
    }
}

/// Sorts the nodes by position with rayon's `par_sort_unstable_by`: the same
/// nodes come back, in the order of their positions. Nodes of one position
/// may come in any order.
#[verifier::external_body]
fn par_sort_by_index(nodes: &mut Vec<Node>)
    ensures
        sorted_by_index(final(nodes)@),
        final(nodes)@.to_multiset() == old(nodes)@.to_multiset(),
{
    nodes.par_sort_unstable_by(|a, b| a.index.cmp(&b.index));
}

/// Folds checkpoints, taken in the order given, into one digest.
pub fn fold_checkpoints(checkpoints: &Vec<Node>) -> (root: crate::hash::Hash)
    requires
        checkpoints@.len() > 0,
    ensures
        root == checkpoint_fold(checkpoints@),
{
    let mut comp_node = checkpoints[0].data.clone();
    let mut i: usize = 1;
    assert(checkpoints@.take(1).len() == 1);
    while i < checkpoints.len()
        invariant
            1 <= i <= checkpoints@.len(),
            comp_node == checkpoint_fold(checkpoints@.take(i as int)),
        decreases checkpoints@.len() - i,
    {
        let c = &checkpoints[i];
        assert(checkpoints@.take(i + 1).drop_last() == checkpoints@.take(i as int));
        if c.order == 1 {
            comp_node = hash_intermediate(&comp_node, &c.data);
        } else {
            comp_node = hash_intermediate(&c.data, &comp_node);
        }
        i += 1;
    }
    assert(checkpoints@.take(i as int) == checkpoints@);
    comp_node
}

impl AsyncMerkleTree {
    /// The root that the checkpoints of all batches give: they are put in
    /// the order of their positions and folded.
    pub fn commit(checkpoints: Vec<Vec<Node>>) -> (root: crate::hash::Hash)
        requires
            gathered(checkpoints@, checkpoints@.len() as int).len() > 0,
        ensures
            exists|sorted: Seq<Node>|
                #[trigger] is_arrangement(
                    sorted,
                    gathered(checkpoints@, checkpoints@.len() as int),
                ) && root == checkpoint_fold(sorted),
    {
        let mut all: Vec<Node> = Vec::new();
        let mut k: usize = 0;
        while k < checkpoints.len()
            invariant
                k <= checkpoints@.len(),
                all@ == gathered(checkpoints@, k as int),
            decreases checkpoints@.len() - k,
        {
            let list = &checkpoints[k];
            let ghost done = all@;
            let mut j: usize = 0;
            while j < list.len()
                invariant
                    j <= list@.len(),
                    all@ == done + list@.take(j as int),
                decreases list@.len() - j,
            {
                all.push(list[j].clone());
                j += 1;
                assert(all@ == done + list@.take(j as int));
            }
            assert(list@.take(j as int) == list@);
            k += 1;
        }
        let ghost unsorted = all@;
        par_sort_by_index(&mut all);
        proof {
            unsorted.to_multiset_ensures();
            all@.to_multiset_ensures();
            assert(is_arrangement(all@, unsorted));
        }
        fold_checkpoints(&all)
    }
}

} // verus!
