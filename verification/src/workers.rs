//! What the checkpoints of one batch have to do with those of the tree in
//! which every leaf is real, and the positions at which nodes are stored.

use crate::arrangement::{
    ascending, lemma_occurrences_concat, lemma_occurrences_single, occurrences,
};
use crate::batch::{
    checkpoint_of, is_real, left_child, level_checkpoints, next_node_level, node_tree,
    pair_checkpoints, pair_left, pair_right, right_child, tree_checkpoints,
};
use crate::commit::gathered;
use crate::layout::{node_count, right_of, spec_next_level_len};
use crate::node::Node;
use crate::ownership::{agrees, stands_for};
use crate::reconcile::{lemma_settled_up, settled, settled_node};
use vstd::prelude::*;

verus! {

/// The level above agrees where the level does.
pub proof fn lemma_agrees_up(own: Seq<Node>, full: Seq<Node>, tag: u8, mixed: u8, end: int)
    requires
        agrees(own, full, tag, mixed),
        settled(full, mixed),
        tag != mixed,
    ensures
        agrees(
            next_node_level(own, mixed, end),
            next_node_level(full, mixed, end),
            tag,
            mixed,
        ),
{
    let own_next = next_node_level(own, mixed, end);
    let full_next = next_node_level(full, mixed, end);
    let len = own.len() as int;
    assert forall|i: int| 0 <= i < own_next.len() implies #[trigger] stands_for(
        own_next[i],
        full_next[i],
        tag,
        mixed,
    ) by {
        assert(stands_for(own[2 * i], full[2 * i], tag, mixed));
        assert(stands_for(own[right_of(i, len)], full[right_of(i, len)], tag, mixed));
        assert(settled_node(full[2 * i], mixed));
        assert(settled_node(full[right_of(i, len)], mixed));
    }
}

/// Of the checkpoints of a pair of the full tree, a batch has those that it
/// owns.
proof fn lemma_pair_share(
    own_left: Node,
    own_right: Node,
    full_left: Node,
    full_right: Node,
    tag: u8,
    mixed: u8,
    v: Node,
)
    requires
        stands_for(own_left, full_left, tag, mixed),
        stands_for(own_right, full_right, tag, mixed),
        settled_node(full_left, mixed),
        settled_node(full_right, mixed),
        tag != mixed,
    ensures
        occurrences(pair_checkpoints(left_child(own_left), right_child(own_right)), v) == if v.batch
            == tag {
            occurrences(pair_checkpoints(left_child(full_left), right_child(full_right)), v)
        } else {
            0
        },
{
    let ol = left_child(own_left);
    let or = right_child(own_right);
    let fl = left_child(full_left);
    let fr = right_child(full_right);
    let empty = Seq::<Node>::empty();
    if ol.batch != or.batch {
        let own_first = if is_real(ol) {
            seq![checkpoint_of(ol)]
        } else {
            empty
        };
        let own_second = if is_real(or) {
            seq![checkpoint_of(or)]
        } else {
            empty
        };
        let full_first = if is_real(fl) {
            seq![checkpoint_of(fl)]
        } else {
            empty
        };
        let full_second = if is_real(fr) {
            seq![checkpoint_of(fr)]
        } else {
            empty
        };
        lemma_occurrences_concat(own_first, own_second, v);
        lemma_occurrences_concat(full_first, full_second, v);
        lemma_occurrences_single(checkpoint_of(ol), v);
        lemma_occurrences_single(checkpoint_of(or), v);
        lemma_occurrences_single(checkpoint_of(fl), v);
        lemma_occurrences_single(checkpoint_of(fr), v);
        assert(occurrences(empty, v) == 0);
    }
}

/// Of the checkpoints of a level of the full tree, a batch has those that
/// it owns.
proof fn lemma_level_share(
    own: Seq<Node>,
    full: Seq<Node>,
    tag: u8,
    mixed: u8,
    pairs: nat,
    v: Node,
)
    requires
        agrees(own, full, tag, mixed),
        settled(full, mixed),
        tag != mixed,
        pairs <= spec_next_level_len(own.len()),
    ensures
        occurrences(level_checkpoints(own, pairs), v) == if v.batch == tag {
            occurrences(level_checkpoints(full, pairs), v)
        } else {
            0
        },
    decreases pairs,
{
    if pairs > 0 {
        let i = pairs - 1;
        let len = own.len() as int;
        lemma_level_share(own, full, tag, mixed, (pairs - 1) as nat, v);
        assert(stands_for(own[2 * i], full[2 * i], tag, mixed));
        assert(stands_for(own[right_of(i, len)], full[right_of(i, len)], tag, mixed));
        assert(settled_node(full[2 * i], mixed));
        assert(settled_node(full[right_of(i, len)], mixed));
        lemma_pair_share(
            own[2 * i],
            own[right_of(i, len)],
            full[2 * i],
            full[right_of(i, len)],
            tag,
            mixed,
            v,
        );
        lemma_occurrences_concat(
            level_checkpoints(own, (pairs - 1) as nat),
            pair_checkpoints(pair_left(own, i), pair_right(own, i)),
            v,
        );
        lemma_occurrences_concat(
            level_checkpoints(full, (pairs - 1) as nat),
            pair_checkpoints(pair_left(full, i), pair_right(full, i)),
            v,
        );
    }
}

/// Of the checkpoints of the full tree, a batch has those that it owns,
/// each once.
pub proof fn lemma_tree_share(
    own: Seq<Node>,
    full: Seq<Node>,
    tag: u8,
    mixed: u8,
    end: int,
    v: Node,
)
    requires
        agrees(own, full, tag, mixed),
        settled(full, mixed),
        tag != mixed,
    ensures
        occurrences(tree_checkpoints(own, mixed, end), v) == if v.batch == tag {
            occurrences(tree_checkpoints(full, mixed, end), v)
        } else {
            0
        },
    decreases own.len(),
{
    if own.len() > 1 {
        let pairs = spec_next_level_len(own.len());
        lemma_level_share(own, full, tag, mixed, pairs, v);
        lemma_agrees_up(own, full, tag, mixed, end);
        lemma_settled_up(full, mixed, end);
        lemma_tree_share(
            next_node_level(own, mixed, end),
            next_node_level(full, mixed, end),
            tag,
            mixed,
            end + pairs,
            v,
        );
        lemma_occurrences_concat(
            level_checkpoints(own, pairs),
            tree_checkpoints(next_node_level(own, mixed, end), mixed, end + pairs),
            v,
        );
        lemma_occurrences_concat(
            level_checkpoints(full, pairs),
            tree_checkpoints(next_node_level(full, mixed, end), mixed, end + pairs),
            v,
        );
    }
}

/// Whether the nodes of the level are stored from position `base` on, one
/// after the other.
pub open spec fn placed(level: Seq<Node>, base: int) -> bool {
    forall|p: int| 0 <= p < level.len() ==> (#[trigger] level[p]).index == base + p
}

/// Whether every node of the level is mixed or owned by one of `tags`.
pub open spec fn known(level: Seq<Node>, tags: Seq<u8>, mixed: u8) -> bool {
    forall|p: int|
        0 <= p < level.len() ==> (#[trigger] level[p]).batch == mixed || tags.contains(
            level[p].batch,
        )
}

/// Whether the nodes come in strictly growing positions, all of them from
/// `lo` up to but not `hi`, each owned by one of `tags`.
pub open spec fn orderly(found: Seq<Node>, lo: int, hi: int, tags: Seq<u8>) -> bool {
    &&& forall|i: int|
        0 <= i < found.len() ==> lo <= (#[trigger] found[i]).index < hi && tags.contains(
            found[i].batch,
        )
    &&& ascending(found)
}

/// The position after the first `pairs` pairs of a level of `len` nodes
/// stored from `base` on.
pub open spec fn reach(base: int, len: int, pairs: int) -> int {
    if 2 * pairs <= len {
        base + 2 * pairs
    } else {
        base + len
    }
}

/// Orderly nodes followed by orderly nodes of higher positions are orderly.
proof fn lemma_orderly_concat(
    a: Seq<Node>,
    b: Seq<Node>,
    lo: int,
    mid: int,
    hi: int,
    tags: Seq<u8>,
)
    requires
        orderly(a, lo, mid, tags),
        orderly(b, mid, hi, tags),
        lo <= mid <= hi,
    ensures
        orderly(a + b, lo, hi, tags),
{
    let ab = a + b;
    assert forall|i: int| 0 <= i < ab.len() implies lo <= (#[trigger] ab[i]).index < hi
        && tags.contains(ab[i].batch) by {
        if i < a.len() {
            assert(ab[i] == a[i]);
        } else {
            assert(ab[i] == b[i - a.len()]);
        }
    }
    assert forall|i: int, j: int| 0 <= i < j < ab.len() implies ab[i].index < ab[j].index by {
        if j < a.len() {
            assert(ab[i] == a[i] && ab[j] == a[j]);
        } else if i < a.len() {
            assert(ab[i] == a[i] && ab[j] == b[j - a.len()]);
        } else {
            assert(ab[i] == b[i - a.len()] && ab[j] == b[j - a.len()]);
        }
    }
}

/// The checkpoints of the first pairs of a level of the full tree are
/// orderly.
proof fn lemma_level_orderly(level: Seq<Node>, base: int, pairs: nat, tags: Seq<u8>, mixed: u8)
    requires
        placed(level, base),
        settled(level, mixed),
        known(level, tags, mixed),
        pairs <= spec_next_level_len(level.len()),
    ensures
        orderly(
            level_checkpoints(level, pairs),
            base,
            reach(base, level.len() as int, pairs as int),
            tags,
        ),
    decreases pairs,
{
    if pairs > 0 {
        let i = pairs - 1;
        let len = level.len() as int;
        lemma_level_orderly(level, base, (pairs - 1) as nat, tags, mixed);
        let l = level[2 * i];
        let r = level[right_of(i, len)];
        assert(settled_node(l, mixed) && settled_node(r, mixed));
        assert(l.batch == mixed || tags.contains(l.batch));
        assert(r.batch == mixed || tags.contains(r.batch));
        assert(l.index == base + 2 * i);
        assert(r.index == base + right_of(i, len));
        let here = pair_checkpoints(pair_left(level, i), pair_right(level, i));
        assert(orderly(here, reach(base, len, i), reach(base, len, pairs as int), tags));
        lemma_orderly_concat(
            level_checkpoints(level, (pairs - 1) as nat),
            here,
            base,
            reach(base, len, i),
            reach(base, len, pairs as int),
            tags,
        );
    }
}

/// A tree has at least as many nodes as leaves.
pub proof fn lemma_node_count_covers(n: nat)
    ensures
        node_count(n) >= n,
{
}

/// The checkpoints of the full tree are orderly: each position occurs at
/// most once, and each checkpoint belongs to a batch.
pub proof fn lemma_tree_orderly(level: Seq<Node>, mixed: u8, base: int, tags: Seq<u8>)
    requires
        placed(level, base),
        settled(level, mixed),
        known(level, tags, mixed),
        0 <= base,
        base + node_count(level.len()) <= usize::MAX + 1,
    ensures
        orderly(
            tree_checkpoints(level, mixed, base + level.len()),
            base,
            base + node_count(level.len()),
            tags,
        ),
    decreases level.len(),
{
    if level.len() > 1 {
        let len = level.len() as int;
        let pairs = spec_next_level_len(level.len());
        let end = base + len;
        let next = next_node_level(level, mixed, end);
        lemma_node_count_covers(pairs);
        lemma_placed_up(level, mixed, base);
        lemma_level_orderly(level, base, pairs, tags, mixed);
        lemma_settled_up(level, mixed, end);
        assert forall|i: int| 0 <= i < next.len() implies (#[trigger] next[i]).batch == mixed
            || tags.contains(next[i].batch) by {
            assert(level[2 * i].batch == mixed || tags.contains(level[2 * i].batch));
        }
        lemma_tree_orderly(next, mixed, end, tags);
        lemma_orderly_concat(
            level_checkpoints(level, pairs),
            tree_checkpoints(next, mixed, end + pairs),
            base,
            end,
            base + node_count(level.len()),
            tags,
        );
    }
}

/// The level above a level that is stored in order is stored in order
/// behind it, as long as the positions fit the machine.
proof fn lemma_placed_up(level: Seq<Node>, mixed: u8, base: int)
    requires
        0 <= base,
        base + level.len() + spec_next_level_len(level.len()) <= usize::MAX + 1,
    ensures
        placed(next_node_level(level, mixed, base + level.len()), base + level.len()),
{
}

/// The shape of a private tree depends on the number of leaves alone: where
/// the bottom level is stored in order, each node of the tree holds the
/// position at which it is stored.
pub proof fn lemma_tree_placed(level: Seq<Node>, mixed: u8, base: int)
    requires
        placed(level, base),
        0 <= base,
        base + node_count(level.len()) <= usize::MAX + 1,
    ensures
        placed(node_tree(level, mixed, base + level.len()), base),
    decreases level.len(),
{
    if level.len() > 0 {
        let pairs = spec_next_level_len(level.len());
        let end = base + level.len();
        let next = next_node_level(level, mixed, end);
        let above = node_tree(next, mixed, end + pairs);
        let tree = node_tree(level, mixed, end);
        lemma_node_count_covers(pairs);
        lemma_placed_up(level, mixed, base);
        lemma_tree_placed(next, mixed, end);
        assert forall|p: int| 0 <= p < tree.len() implies (#[trigger] tree[p]).index == base
            + p by {
            if p < level.len() {
                assert(tree[p] == level[p]);
            } else {
                assert(tree[p] == above[p - level.len()]);
            }
        }
    }
}

/// Lists of which each holds the nodes of one owner, for owners that
/// differ, hold together the nodes of all these owners.
pub proof fn lemma_gathered_share(
    lists: Seq<Vec<Node>>,
    tags: Seq<u8>,
    all: Seq<Node>,
    k: int,
    v: Node,
)
    requires
        lists.len() == tags.len(),
        0 <= k <= lists.len(),
        forall|a: int, b: int| 0 <= a < b < tags.len() ==> tags[a] != tags[b],
        forall|j: int|
            0 <= j < lists.len() ==> occurrences(#[trigger] lists[j]@, v) == if v.batch
                == tags[j] {
                occurrences(all, v)
            } else {
                0
            },
    ensures
        occurrences(gathered(lists, k), v) == if tags.take(k).contains(v.batch) {
            occurrences(all, v)
        } else {
            0
        },
    decreases k,
{
    if k > 0 {
        lemma_gathered_share(lists, tags, all, k - 1, v);
        lemma_occurrences_concat(gathered(lists, k - 1), lists[k - 1]@, v);
        let before = tags.take(k - 1);
        let now = tags.take(k);
        assert(now[k - 1] == tags[k - 1]);
        if before.contains(v.batch) {
            let j = choose|j: int| 0 <= j < before.len() && before[j] == v.batch;
            assert(tags[j] == v.batch);
            assert(now[j] == v.batch);
        } else if now.contains(v.batch) {
            let j = choose|j: int| 0 <= j < now.len() && now[j] == v.batch;
            if j < k - 1 {
                assert(before[j] == v.batch);
            }
        }
    }
}

} // verus!
