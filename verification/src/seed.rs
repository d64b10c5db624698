//! The seed that all batches start from: a placeholder for each leaf,
//! tagged with the batch that owns it.

use crate::batch::AsyncMerkleTree;
use crate::node::{digest_node, Node};
use crate::tiling::{lemma_lengths, lemma_tiles};
use rayon::iter::{IndexedParallelIterator, IntoParallelIterator, ParallelIterator};
use vstd::prelude::*;

verus! {

/// Why a list of batches is refused: the batches have to cover the leaves
/// from the first to the last, each starting where the one before ends.
#[derive(Debug, PartialEq, Eq, Structural, Clone, Copy)]
pub enum ConfigError {
    /// The batch does not start where the batch before it ends: a gap or an
    /// overlap.
    OffsetMismatch { batch: usize },
    /// The batch holds no leaf though another follows, which cannot start
    /// after it.
    EmptyBatch { batch: usize },
    /// The batch reaches past the last leaf.
    OutOfBounds { batch: usize },
    /// The batches end before the last leaf.
    LeafCountMismatch,
}

impl ConfigError {
    /// The rule that the batches break, in words.
    pub open spec fn message(self) -> Seq<char> {
        match self {
            ConfigError::OffsetMismatch { .. } => {
                "a batch does not start where the batch before it ends"@
            },
            ConfigError::EmptyBatch { .. } => "a batch before the last holds no leaf"@,
            ConfigError::OutOfBounds { .. } => "a batch reaches past the last leaf"@,
            ConfigError::LeafCountMismatch => "the batches end before the last leaf"@,
        }
    }

    /// The rule that the batches break, in words.
    pub fn to_string(&self) -> (text: String)
        ensures
            text@ == self.message(),
    {
        match self {
            ConfigError::OffsetMismatch { .. } => {
                "a batch does not start where the batch before it ends".to_owned()
            },
            ConfigError::EmptyBatch { .. } => "a batch before the last holds no leaf".to_owned(),
            ConfigError::OutOfBounds { .. } => "a batch reaches past the last leaf".to_owned(),
            ConfigError::LeafCountMismatch => "the batches end before the last leaf".to_owned(),
        }
    }
}

/// The tag that marks the leaves of the batch with identifier `id`: the
/// low eight bits of `id + 1`.
pub open spec fn owner_tag(id: u32) -> u8 {
    ((id + 1) % 256) as u8
}

/// Number of leaves in the first `k` batches.
pub open spec fn covered(batches: Seq<(u32, &[&[u8]], usize)>, k: int) -> int
    decreases k,
{
    if k <= 0 {
        0
    } else {
        covered(batches, k - 1) + batches[k - 1].1@.len()
    }
}

/// The owner tag of every leaf of the first `k` batches, in order.
pub open spec fn leaf_owners(batches: Seq<(u32, &[&[u8]], usize)>, k: int) -> Seq<u8>
    decreases k,
{
    if k <= 0 {
        Seq::empty()
    } else {
        leaf_owners(batches, k - 1) + Seq::new(
            batches[k - 1].1@.len(),
            |j: int| owner_tag(batches[k - 1].0),
        )
    }
}

/// The seed: for each leaf a placeholder at its position, tagged with the
/// owner of the leaf.
pub open spec fn digest_level(owners: Seq<u8>) -> Seq<Node> {
    Seq::new(owners.len(), |i: int| digest_node(i as usize, owners[i] as usize))
}

/// Whether the batches tile the `leaf_count` leaves: the first starts at
/// the first leaf, each starts where the one before it ends, the starts
/// grow strictly, and the last ends with the last leaf. No batches tile no
/// leaves.
pub open spec fn tiles(batches: Seq<(u32, &[&[u8]], usize)>, leaf_count: int) -> bool {
    if batches.len() == 0 {
        leaf_count == 0
    } else {
        &&& batches[0].2 == 0
        &&& forall|k: int|
            0 <= k < batches.len() - 1 ==> (#[trigger] batches[k]).2 < batches[k + 1].2
                && batches[k].2 + batches[k].1@.len() == batches[k + 1].2
        &&& batches.last().2 + batches.last().1@.len() == leaf_count
    }
}

/// What is wrong with batch `k`, given that the batches before it are in
/// order.
pub open spec fn batch_fault(
    batches: Seq<(u32, &[&[u8]], usize)>,
    leaf_count: int,
    k: int,
) -> Option<ConfigError> {
    if batches[k].2 != covered(batches, k) {
        Some(ConfigError::OffsetMismatch { batch: k as usize })
    } else if batches[k].1@.len() == 0 && k + 1 < batches.len() {
        Some(ConfigError::EmptyBatch { batch: k as usize })
    } else if covered(batches, k + 1) > leaf_count {
        Some(ConfigError::OutOfBounds { batch: k as usize })
    } else {
        None
    }
}

/// The first thing wrong with the batches from `k` on, or with the number
/// of leaves that they cover; nothing where the batches tile the leaves.
pub open spec fn tiling_fault(
    batches: Seq<(u32, &[&[u8]], usize)>,
    leaf_count: int,
    k: int,
) -> Option<ConfigError>
    decreases batches.len() - k,
{
    if k >= batches.len() {
        if covered(batches, batches.len() as int) != leaf_count {
            Some(ConfigError::LeafCountMismatch)
        } else {
            None
        }
    } else if batch_fault(batches, leaf_count, k) is Some {
        batch_fault(batches, leaf_count, k)
    } else {
        tiling_fault(batches, leaf_count, k + 1)
    }
}

/// Maps each owner tag to the placeholder of its position, with rayon's
/// `into_par_iter().enumerate().map(..).collect()`: item `i` of the result
/// is `Node::digest(i, owners[i])`.
#[verifier::external_body]
fn par_digest_nodes(owners: Vec<u8>) -> (nodes: Vec<Node>)
    ensures
        nodes@ == digest_level(owners@),
{
    owners.into_par_iter().enumerate().map(|(i, owner)| Node::digest(i, owner as usize)).collect()
}

/// The owner tag of the batch with identifier `id`: what `append_batch`
/// takes as the batch's tag.
pub fn owner_tag_of(id: u32) -> (tag: u8)
    ensures
        tag == owner_tag(id),
{
    let low: u8 = (id % 256) as u8;
    if low == 255 {
        0
    } else {
        low + 1
    }
}

/// The owner tag of every leaf of the batches, in order: what the seams of
/// the tree depend on.
pub fn leaf_owner_tags(batches: &Vec<(u32, &[&[u8]], usize)>) -> (owners: Vec<u8>)
    ensures
        owners@ == leaf_owners(batches@, batches@.len() as int),
{
    let mut owners: Vec<u8> = Vec::new();
    let mut k: usize = 0;
    while k < batches.len()
        invariant
            k <= batches@.len(),
            owners@ == leaf_owners(batches@, k as int),
        decreases batches@.len() - k,
    {
        let tag: u8 = owner_tag_of(batches[k].0);
        let count: usize = batches[k].1.len();
        let ghost done = owners@;
        let mut j: usize = 0;
        while j < count
            invariant
                j <= count,
                owners@ == done + Seq::new(j as nat, |i: int| tag),
            decreases count - j,
        {
            owners.push(tag);
            j += 1;
            assert(owners@ == done + Seq::new(j as nat, |i: int| tag));
        }
        assert(owners@ == leaf_owners(batches@, k + 1));
        k += 1;
    }
    owners
}

impl AsyncMerkleTree {
    /// The seed that every batch starts from: one placeholder for each of
    /// the `leaf_count` leaves, tagged with the batch that owns the leaf and
    /// without a side.
    ///
    /// A batch is an identifier, its leaves and the position of its first
    /// leaf. The batches are refused unless they tile the leaves; the
    /// error names the first rule that is broken.
    pub fn build_digest_tree(batches: Vec<(u32, &[&[u8]], usize)>, leaf_count: usize) -> (seed:
        Result<Vec<Node>, ConfigError>)
        ensures
            seed is Ok <==> tiles(batches@, leaf_count as int),
            match seed {
                Ok(nodes) => tiling_fault(batches@, leaf_count as int, 0) is None
                    && nodes@.len() == leaf_count && nodes@ == digest_level(
                    leaf_owners(batches@, batches@.len() as int),
                ),
                Err(e) => tiling_fault(batches@, leaf_count as int, 0) == Some(e),
            },
    {
        proof {
            lemma_tiles(batches@, leaf_count as int);
            lemma_lengths(batches@, batches@.len() as int);
        }
        let mut expected: usize = 0;
        let mut k: usize = 0;
        while k < batches.len()
            invariant
                k <= batches@.len(),
                expected == covered(batches@, k as int),
                expected <= leaf_count,
                tiling_fault(batches@, leaf_count as int, 0) is None <==> tiles(
                    batches@,
                    leaf_count as int,
                ),
                tiling_fault(batches@, leaf_count as int, 0) == tiling_fault(
                    batches@,
                    leaf_count as int,
                    k as int,
                ),
            decreases batches@.len() - k,
        {
            let count: usize = batches[k].1.len();
            let start: usize = batches[k].2;
            assert(covered(batches@, k + 1) == covered(batches@, k as int) + count);
            if start != expected {
                return Err(ConfigError::OffsetMismatch { batch: k });
            }
            if count == 0 && k + 1 < batches.len() {
                return Err(ConfigError::EmptyBatch { batch: k });
            }
            if count > leaf_count - expected {
                return Err(ConfigError::OutOfBounds { batch: k });
            }
            expected += count;
            k += 1;
        }
        if expected != leaf_count {
            return Err(ConfigError::LeafCountMismatch);
        }
        Ok(par_digest_nodes(leaf_owner_tags(&batches)))
    }
}

} // verus!
