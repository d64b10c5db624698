//! Two batches: where the seam path is clear, told from the number of
//! leaves and the place of the boundary alone.

use crate::layout::{right_of, spec_next_level_len};
use crate::merkle::MerkleTree;
use crate::ownership::{doubled, joins, one_seam, owners_up, single_seam_path};
use vstd::prelude::*;

verus! {

/// The owners of a level of `n` nodes of which `a` owns the first `k` and
/// `b` the others.
pub open spec fn split_owners(n: nat, k: int, a: u8, b: u8) -> Seq<u8> {
    Seq::new(
        n,
        |i: int|
            if i < k {
                a
            } else {
                b
            },
    )
}

/// The owners of a level of `n` nodes with the mixed node at place `p`, the
/// nodes of `a` before it and those of `b` behind.
pub open spec fn joined_owners(n: nat, p: int, a: u8, b: u8, mixed: u8) -> Seq<u8> {
    Seq::new(
        n,
        |i: int|
            if i < p {
                a
            } else if i == p {
                mixed
            } else {
                b
            },
    )
}

/// Whether the mixed node at place `p` of a level of `n` nodes has a
/// sibling other than itself, here and on every level above.
pub open spec fn clear_above(n: nat, p: int) -> bool
    decreases n,
{
    if n <= 1 {
        true
    } else {
        !(p == n - 1 && n % 2 == 1) && clear_above((n + 1) / 2, p / 2)
    }
}

/// Whether the seam between the first `k` of `n` nodes and the others, once
/// it has become a mixed node, meets a sibling other than itself on every
/// level.
pub open spec fn clear_path(n: nat, k: int) -> bool
    decreases n,
{
    if n <= 1 {
        true
    } else if k % 2 == 0 {
        clear_path((n + 1) / 2, k / 2)
    } else {
        clear_above((n + 1) / 2, (k - 1) / 2)
    }
}

/// Above a level with one mixed node lies a level with one mixed node.
proof fn lemma_joined_up(n: nat, p: int, a: u8, b: u8, mixed: u8)
    requires
        n >= 2,
        0 <= p < n,
        a != mixed,
        b != mixed,
    ensures
        owners_up(joined_owners(n, p, a, b, mixed), mixed) == joined_owners(
            (n + 1) / 2,
            p / 2,
            a,
            b,
            mixed,
        ),
        one_seam(joined_owners(n, p, a, b, mixed), mixed) <==> !(p == n - 1 && n % 2 == 1),
{
    let own = joined_owners(n, p, a, b, mixed);
    let pairs = spec_next_level_len(n);
    assert(owners_up(own, mixed) =~= joined_owners((n + 1) / 2, p / 2, a, b, mixed));
    let at = p / 2;
    assert(joins(own, mixed, at));
    if p == n - 1 && n % 2 == 1 {
        assert(doubled(own, mixed, at));
    } else {
        assert forall|i: int| 0 <= i < pairs implies !#[trigger] doubled(own, mixed, i) by {}
        assert forall|i: int, j: int|
            0 <= i < pairs && 0 <= j < pairs && #[trigger] joins(own, mixed, i) && #[trigger] joins(
                own,
                mixed,
                j,
            ) implies i == j by {
            assert(i == at && j == at);
        }
    }
}

/// The seams of a tree with one mixed node on a level lie on one path
/// exactly where the mixed node is never paired with itself.
pub proof fn lemma_joined_path(n: nat, p: int, a: u8, b: u8, mixed: u8)
    requires
        0 <= p < n,
        a != mixed,
        b != mixed,
    ensures
        single_seam_path(joined_owners(n, p, a, b, mixed), mixed) <==> clear_above(n, p),
    decreases n,
{
    if n >= 2 {
        lemma_joined_up(n, p, a, b, mixed);
        lemma_joined_path((n + 1) / 2, p / 2, a, b, mixed);
    }
}

/// Above a level shared by two owners lies a level shared by the two, or
/// one with a mixed node between them.
proof fn lemma_split_up(n: nat, k: int, a: u8, b: u8, mixed: u8)
    requires
        0 < k < n,
        a != b,
        a != mixed,
        b != mixed,
    ensures
        one_seam(split_owners(n, k, a, b), mixed),
        k % 2 == 0 ==> owners_up(split_owners(n, k, a, b), mixed) == split_owners(
            (n + 1) / 2,
            k / 2,
            a,
            b,
        ),
        k % 2 == 1 ==> owners_up(split_owners(n, k, a, b), mixed) == joined_owners(
            (n + 1) / 2,
            (k - 1) / 2,
            a,
            b,
            mixed,
        ),
{
    let own = split_owners(n, k, a, b);
    let pairs = spec_next_level_len(n);
    if k % 2 == 0 {
        assert(owners_up(own, mixed) =~= split_owners((n + 1) / 2, k / 2, a, b));
    } else {
        assert(owners_up(own, mixed) =~= joined_owners((n + 1) / 2, (k - 1) / 2, a, b, mixed));
    }
    assert forall|i: int| 0 <= i < pairs implies !#[trigger] doubled(own, mixed, i) by {}
    assert forall|i: int, j: int|
        0 <= i < pairs && 0 <= j < pairs && #[trigger] joins(own, mixed, i) && #[trigger] joins(
            own,
            mixed,
            j,
        ) implies i == j by {
        assert(2 * i < k <= right_of(i, n as int));
        assert(2 * j < k <= right_of(j, n as int));
    }
}

/// Two owners, each with a run of the leaves: the seams lie on one path
/// exactly where the path of the one seam is clear.
pub proof fn lemma_split_path(n: nat, k: int, a: u8, b: u8, mixed: u8)
    requires
        0 < k < n,
        a != b,
        a != mixed,
        b != mixed,
    ensures
        single_seam_path(split_owners(n, k, a, b), mixed) <==> clear_path(n, k),
    decreases n,
{
    lemma_split_up(n, k, a, b, mixed);
    if k % 2 == 0 {
        lemma_split_path((n + 1) / 2, k / 2, a, b, mixed);
    } else {
        lemma_joined_path((n + 1) / 2, (k - 1) / 2, a, b, mixed);
    }
}

/// Whether two batches, the first with `k` of the `n` leaves, keep the path
/// of their seam clear.
pub fn path_is_clear(n: usize, k: usize) -> (ok: bool)
    ensures
        ok == clear_path(n as nat, k as int),
{
    let mut len: usize = n;
    let mut at: usize = k;
    while len > 1 && at % 2 == 0
        invariant
            clear_path(n as nat, k as int) == clear_path(len as nat, at as int),
        decreases len,
    {
        len = MerkleTree::next_level_len(len);
        at = at / 2;
    }
    if len <= 1 {
        return true;
    }
    let mut place: usize = (at - 1) / 2;
    len = MerkleTree::next_level_len(len);
    while len > 1
        invariant
            clear_path(n as nat, k as int) == clear_above(len as nat, place as int),
        decreases len,
    {
        if place == len - 1 && len % 2 == 1 {
            return false;
        }
        len = MerkleTree::next_level_len(len);
        place = place / 2;
    }
    true
}

} // verus!
