//! Counting nodes in sequences, and why nodes of different positions can
//! be sorted in one way only.

use crate::commit::{is_arrangement, sorted_by_index};
use crate::node::Node;
use vstd::prelude::*;

verus! {

/// How often `v` stands in `nodes`.
pub open spec fn occurrences(nodes: Seq<Node>, v: Node) -> nat
    decreases nodes.len(),
{
    if nodes.len() == 0 {
        0
    } else {
        occurrences(nodes.drop_last(), v) + if nodes.last() == v {
            1nat
        } else {
            0nat
        }
    }
}

/// Whether the positions of the nodes grow strictly along the sequence.
pub open spec fn ascending(nodes: Seq<Node>) -> bool {
    forall|i: int, j: int| 0 <= i < j < nodes.len() ==> nodes[i].index < nodes[j].index
}

/// Whether no two nodes of the sequence have the same position.
pub open spec fn distinct_positions(nodes: Seq<Node>) -> bool {
    forall|i: int, j: int| 0 <= i < j < nodes.len() ==> nodes[i].index != nodes[j].index
}

/// A node stands in `a + b` as often as in `a` and in `b` together.
pub proof fn lemma_occurrences_concat(a: Seq<Node>, b: Seq<Node>, v: Node)
    ensures
        occurrences(a + b, v) == occurrences(a, v) + occurrences(b, v),
    decreases b.len(),
{
    if b.len() == 0 {
        assert(a + b =~= a);
    } else {
        assert((a + b).drop_last() =~= a + b.drop_last());
        lemma_occurrences_concat(a, b.drop_last(), v);
    }
}

/// A sequence of one node holds that node once and no other.
pub proof fn lemma_occurrences_single(x: Node, v: Node)
    ensures
        occurrences(seq![x], v) == if x == v {
            1nat
        } else {
            0nat
        },
{
    assert(seq![x].drop_last() =~= Seq::<Node>::empty());
    assert(occurrences(seq![x].drop_last(), v) == 0);
}

/// `occurrences` counts what the multiset of the sequence counts.
pub proof fn lemma_occurrences_count(nodes: Seq<Node>, v: Node)
    ensures
        nodes.to_multiset().count(v) == occurrences(nodes, v),
    decreases nodes.len(),
{
    broadcast use vstd::multiset::group_multiset_axioms;

    if nodes.len() == 0 {
        nodes.to_multiset_ensures();
        assert(nodes.to_multiset().len() == 0);
    } else {
        lemma_occurrences_count(nodes.drop_last(), v);
        vstd::seq_lib::to_multiset_build(nodes.drop_last(), nodes.last());
        assert(nodes.drop_last().push(nodes.last()) =~= nodes);
    }
}

/// A node that occurs stands at some place.
pub proof fn lemma_occurs_at(nodes: Seq<Node>, v: Node) -> (at: int)
    requires
        occurrences(nodes, v) > 0,
    ensures
        0 <= at < nodes.len(),
        nodes[at] == v,
    decreases nodes.len(),
{
    if nodes.last() == v {
        nodes.len() - 1
    } else {
        lemma_occurs_at(nodes.drop_last(), v)
    }
}

/// A node that occurs twice stands at two places.
pub proof fn lemma_occurs_twice(nodes: Seq<Node>, v: Node) -> (at: (int, int))
    requires
        occurrences(nodes, v) > 1,
    ensures
        0 <= at.0 < at.1 < nodes.len(),
        nodes[at.0] == v,
        nodes[at.1] == v,
    decreases nodes.len(),
{
    if nodes.last() == v {
        let first = lemma_occurs_at(nodes.drop_last(), v);
        (first, nodes.len() - 1)
    } else {
        lemma_occurs_twice(nodes.drop_last(), v)
    }
}

/// The node at a place occurs.
pub proof fn lemma_place_occurs(nodes: Seq<Node>, at: int)
    requires
        0 <= at < nodes.len(),
    ensures
        occurrences(nodes, nodes[at]) > 0,
    decreases nodes.len(),
{
    if at < nodes.len() - 1 {
        lemma_place_occurs(nodes.drop_last(), at);
    }
}

/// A node that stands at two places occurs twice.
pub proof fn lemma_places_occur(nodes: Seq<Node>, first: int, second: int)
    requires
        0 <= first < second < nodes.len(),
        nodes[first] == nodes[second],
    ensures
        occurrences(nodes, nodes[first]) > 1,
    decreases nodes.len(),
{
    if second < nodes.len() - 1 {
        lemma_places_occur(nodes.drop_last(), first, second);
    } else {
        lemma_place_occurs(nodes.drop_last(), first);
    }
}

/// Nodes whose positions grow strictly can be put in the order of their
/// positions in one way only.
pub proof fn lemma_one_order(sorted: Seq<Node>, nodes: Seq<Node>)
    requires
        sorted_by_index(sorted),
        ascending(nodes),
        forall|v: Node| occurrences(sorted, v) == occurrences(nodes, v),
    ensures
        sorted == nodes,
    decreases nodes.len(),
{
    if nodes.len() == 0 {
        if sorted.len() > 0 {
            lemma_place_occurs(sorted, 0);
            assert(occurrences(nodes, sorted[0]) > 0);
        }
        assert(sorted =~= nodes);
    } else {
        let y = nodes.last();
        lemma_place_occurs(nodes, nodes.len() - 1);
        assert(occurrences(sorted, y) > 0);
        let i = lemma_occurs_at(sorted, y);
        let x = sorted.last();
        lemma_place_occurs(sorted, sorted.len() - 1);
        assert(occurrences(nodes, x) > 0);
        let j = lemma_occurs_at(nodes, x);
        assert(sorted[i].index <= sorted[sorted.len() - 1].index);
        assert(j == nodes.len() - 1);
        assert(x == y);
        assert forall|v: Node| occurrences(sorted.drop_last(), v) == occurrences(
            nodes.drop_last(),
            v,
        ) by {
            assert(occurrences(sorted, v) == occurrences(nodes, v));
        }
        lemma_one_order(sorted.drop_last(), nodes.drop_last());
        assert(sorted =~= sorted.drop_last().push(x));
        assert(nodes =~= nodes.drop_last().push(y));
    }
}

/// An arrangement of nodes whose positions grow strictly is those nodes in
/// that order.
pub proof fn lemma_arrangement_of_ascending(sorted: Seq<Node>, nodes: Seq<Node>)
    requires
        is_arrangement(sorted, nodes),
        ascending(nodes),
    ensures
        sorted == nodes,
{
    assert forall|v: Node| occurrences(sorted, v) == occurrences(nodes, v) by {
        lemma_occurrences_count(sorted, v);
        lemma_occurrences_count(nodes, v);
    }
    lemma_one_order(sorted, nodes);
}

/// Nodes of which no two share a position have one arrangement only: the
/// order in which the checkpoints are folded does not depend on how they
/// were sorted.
pub proof fn lemma_arrangement_is_unique(nodes: Seq<Node>, first: Seq<Node>, second: Seq<Node>)
    requires
        distinct_positions(nodes),
        is_arrangement(first, nodes),
        is_arrangement(second, nodes),
    ensures
        first == second,
{
    assert forall|v: Node| occurrences(first, v) == occurrences(nodes, v) by {
        lemma_occurrences_count(first, v);
        lemma_occurrences_count(nodes, v);
    }
    assert forall|i: int, j: int| 0 <= i < j < first.len() implies first[i].index
        < first[j].index by {
        if first[i].index == first[j].index {
            lemma_place_occurs(first, i);
            lemma_place_occurs(first, j);
            let a = lemma_occurs_at(nodes, first[i]);
            let b = lemma_occurs_at(nodes, first[j]);
            if first[i] == first[j] {
                lemma_places_occur(first, i, j);
                let twice = lemma_occurs_twice(nodes, first[i]);
                assert(false);
            } else {
                assert(a != b);
                assert(false);
            }
        }
    }
    assert(second.to_multiset() == first.to_multiset());
    lemma_arrangement_of_ascending(second, first);
}

} // verus!
