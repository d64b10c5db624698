//! The shape of the flattened tree: level lengths, node counts and the
//! capacity to reserve, all from the number of leaves alone.

use vstd::prelude::*;

verus! {

/// Length of the level above a level of `n` nodes: nothing above a single
/// node (or none), else one parent for each pair, the last node of an odd
/// level being paired with itself.
pub open spec fn spec_next_level_len(n: nat) -> nat {
    if n == 1 {
        0
    } else {
        (n + 1) / 2
    }
}

/// Position, in a level of `len` nodes, of the right child of parent `i`:
/// the node after the left child, or the left child itself where the level
/// ends with it.
pub open spec fn right_of(i: int, len: int) -> int {
    if 2 * i + 1 < len {
        2 * i + 1
    } else {
        2 * i
    }
}

/// Number of nodes of the whole tree over `n` leaves, all levels together.
pub open spec fn node_count(n: nat) -> nat
    decreases n,
{
    if n == 0 {
        0
    } else {
        n + node_count(spec_next_level_len(n))
    }
}

/// The least `k` with `2^k >= m`.
pub open spec fn ceil_log2(m: nat) -> nat
    decreases m,
{
    if m <= 1 {
        0
    } else {
        1 + ceil_log2((m + 1) / 2)
    }
}

/// The capacity to reserve for a tree over `n` leaves:
/// `2n + ceil(log2(n + 1)) + 1`, and nothing for no leaves.
pub open spec fn capacity_estimate(n: nat) -> nat {
    if n == 0 {
        0
    } else {
        2 * n + ceil_log2(n + 1) + 1
    }
}

/// `ceil_log2` never decreases.
pub proof fn lemma_ceil_log2_monotonic(a: nat, b: nat)
    requires
        a <= b,
    ensures
        ceil_log2(a) <= ceil_log2(b),
    decreases b,
{
    if a > 1 {
        lemma_ceil_log2_monotonic((a + 1) / 2, (b + 1) / 2);
    }
}

/// A tree over `n >= 1` leaves has at most `2n + ceil(log2 n) - 1` nodes.
pub proof fn lemma_node_count_bound(n: nat)
    requires
        n >= 1,
    ensures
        node_count(n) + 1 <= 2 * n + ceil_log2(n),
    decreases n,
{
    if n == 1 {
        assert(node_count(0) == 0);
    } else {
        lemma_node_count_bound((n + 1) / 2);
    }
}

/// The capacity estimate never counts fewer nodes than the tree has.
pub proof fn lemma_capacity_is_enough(n: nat)
    ensures
        node_count(n) <= capacity_estimate(n),
{
    if n >= 1 {
        lemma_node_count_bound(n);
        lemma_ceil_log2_monotonic(n, n + 1);
    }
}

} // verus!
