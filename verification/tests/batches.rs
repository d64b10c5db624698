use fast_merkle_tree::batch::mixed_tag_of;
use fast_merkle_tree::commit::fold_checkpoints;
use fast_merkle_tree::hash::{hash_intermediate, hash_leaf};
use fast_merkle_tree::ownership::seams_on_one_path;
use fast_merkle_tree::seed::{leaf_owner_tags, owner_tag_of, ConfigError};
use fast_merkle_tree::split::path_is_clear;
use fast_merkle_tree::tiling::tags_are_distinct;
use fast_merkle_tree::{AsyncMerkleTree, MerkleTree, Node, NodeType, UNSET};

fn leaves(n: usize) -> Vec<Vec<u8>> {
    (0..n).map(|i| format!("leaf-{}", i).into_bytes()).collect()
}

fn sequential_root(items: &[&[u8]]) -> fast_merkle_tree::hash::Hash {
    let mt = MerkleTree::new(items);
    *mt.get_root().unwrap()
}

/// The leaves in batches of the given sizes, numbered from 0.
fn batches_of<'a>(items: &'a [&'a [u8]], sizes: &[usize]) -> Vec<(u32, &'a [&'a [u8]], usize)> {
    let mut batches: Vec<(u32, &[&[u8]], usize)> = Vec::new();
    let mut start = 0;
    for (id, size) in sizes.iter().enumerate() {
        batches.push((id as u32, &items[start..start + size], start));
        start += size;
    }
    batches
}

/// Splits the leaves into batches of the given sizes, builds every batch on
/// the common seed and hands back what each batch returns.
fn run_batches(items: &[&[u8]], sizes: &[usize]) -> Vec<Vec<Node>> {
    let batches = batches_of(items, sizes);
    let seed = AsyncMerkleTree::build_digest_tree(batches.clone(), items.len()).unwrap();
    let mut lists = Vec::new();
    for (id, batch, start) in batches {
        let tag = owner_tag_of(id);
        let mut amt = AsyncMerkleTree::init(items.len(), sizes.len(), tag);
        amt.nodes = seed.clone();
        lists.push(amt.append_batch(batch, tag, start));
    }
    lists
}

fn batched_root(items: &[&[u8]], sizes: &[usize]) -> fast_merkle_tree::hash::Hash {
    AsyncMerkleTree::commit(run_batches(items, sizes))
}

#[test]
fn test_amt() {
    let blue: Vec<&[u8]> = vec![b"my".as_slice(); 80_000];
    let red: Vec<&[u8]> = vec![b"bad".as_slice(); 20_000];
    let batches = vec![(0u32, blue.as_slice(), 0), (1, red.as_slice(), blue.len())];

    let digest_tree = AsyncMerkleTree::build_digest_tree(batches.clone(), 100_000).unwrap();

    let response: Vec<Vec<Node>> = batches
        .clone()
        .into_iter()
        .map(|(i, leaf_batch, start)| {
            let mut amt = AsyncMerkleTree::init(100_000, 2, (i + 1) as u8);
            amt.nodes = digest_tree.clone();
            amt.append_batch(leaf_batch, (i + 1) as u8, start)
        })
        .collect();

    let root = AsyncMerkleTree::commit(response);

    let testbatches: Vec<&[u8]> = batches.clone().into_iter().map(|b| b.1.to_vec()).flatten().collect();
    let mt = MerkleTree::new(testbatches.as_slice());

    assert!(mt.get_root().unwrap() == &root);
}

#[test]
fn six_leaves_and_two_leaves_match_the_single_pass_root() {
    let a: Vec<&[u8]> = vec![b"my", b"very", b"eager", b"mother", b"just", b"served"];
    let b: Vec<&[u8]> = vec![b"bad", b"missing"];
    let batches = vec![(0u32, a.as_slice(), 0usize), (1u32, b.as_slice(), 6usize)];
    let seed = AsyncMerkleTree::build_digest_tree(batches, 8).unwrap();

    let mut first = AsyncMerkleTree::init(8, 2, 1);
    first.nodes = seed.clone();
    let from_a = first.append_batch(a.as_slice(), 1, 0);
    let mut second = AsyncMerkleTree::init(8, 2, 2);
    second.nodes = seed.clone();
    let from_b = second.append_batch(b.as_slice(), 2, 6);

    let root = AsyncMerkleTree::commit(vec![from_a, from_b]);
    let all: Vec<&[u8]> =
        vec![b"my", b"very", b"eager", b"mother", b"just", b"served", b"bad", b"missing"];
    assert!(root == sequential_root(all.as_slice()));
}

#[test]
fn checkpoints_of_the_two_batches() {
    let a: Vec<&[u8]> = vec![b"my", b"very", b"eager", b"mother", b"just", b"served"];
    let b: Vec<&[u8]> = vec![b"bad", b"missing"];
    let all: Vec<&[u8]> =
        vec![b"my", b"very", b"eager", b"mother", b"just", b"served", b"bad", b"missing"];
    let lists = run_batches(all.as_slice(), &[6, 2]);
    let h: Vec<fast_merkle_tree::hash::Hash> = all.iter().map(|d| hash_leaf(d)).collect();
    let p01 = hash_intermediate(&h[0], &h[1]);
    let p23 = hash_intermediate(&h[2], &h[3]);
    let p45 = hash_intermediate(&h[4], &h[5]);
    let p67 = hash_intermediate(&h[6], &h[7]);
    let q0 = hash_intermediate(&p01, &p23);

    assert_eq!(lists.len(), 2);
    assert_eq!(lists[0].len(), 2);
    assert_eq!(lists[0][0].index, 10);
    assert_eq!(lists[0][0].order, 0);
    assert_eq!(lists[0][0].batch, 1);
    assert!(lists[0][0].node_type == NodeType::Checkpoint);
    assert!(lists[0][0].data == p45);
    assert_eq!(lists[0][1].index, 12);
    assert_eq!(lists[0][1].order, 0);
    assert_eq!(lists[0][1].batch, 1);
    assert!(lists[0][1].node_type == NodeType::Checkpoint);
    assert!(lists[0][1].data == q0);

    assert_eq!(lists[1].len(), 1);
    assert_eq!(lists[1][0].index, 11);
    assert_eq!(lists[1][0].order, 1);
    assert_eq!(lists[1][0].batch, 2);
    assert!(lists[1][0].node_type == NodeType::Checkpoint);
    assert!(lists[1][0].data == p67);

    let _ = a;
    let _ = b;
}

#[test]
fn private_tree_of_a_batch() {
    let all: Vec<&[u8]> = vec![b"my", b"very", b"eager"];
    let batches = vec![(0u32, &all[0..2], 0usize), (1u32, &all[2..3], 2usize)];
    let seed = AsyncMerkleTree::build_digest_tree(batches, 3).unwrap();
    let mut amt = AsyncMerkleTree::init(3, 2, 1);
    amt.nodes = seed;
    let found = amt.append_batch(&all[0..2], 1, 0);

    let a = hash_leaf(b"my");
    let b = hash_leaf(b"very");
    let zero = fast_merkle_tree::hash::Hash::default();
    let ab = hash_intermediate(&a, &b);
    let zz = hash_intermediate(&zero, &zero);

    assert_eq!(amt.leaf_count, 3);
    assert_eq!(amt.batch_count, 2);
    assert!(amt.checkpoints.is_empty());
    assert_eq!(amt.nodes.len(), 6);
    let kinds: Vec<NodeType> = amt.nodes.iter().map(|n| n.node_type).collect();
    assert!(
        kinds
            == vec![
                NodeType::Leaf,
                NodeType::Leaf,
                NodeType::Digest,
                NodeType::Inter,
                NodeType::Digest,
                NodeType::Compound
            ]
    );
    let owners: Vec<u8> = amt.nodes.iter().map(|n| n.batch).collect();
    assert_eq!(owners, vec![1, 1, 2, 1, 2, 4]);
    let places: Vec<usize> = amt.nodes.iter().map(|n| n.index).collect();
    assert_eq!(places, vec![0, 1, 2, 3, 4, 5]);
    let sides: Vec<u8> = amt.nodes.iter().map(|n| n.order).collect();
    assert_eq!(sides, vec![UNSET, UNSET, UNSET, 0, 0, 0]);
    assert!(amt.nodes[0].data == a);
    assert!(amt.nodes[1].data == b);
    assert!(amt.nodes[2].data == zero);
    assert!(amt.nodes[3].data == ab);
    assert!(amt.nodes[4].data == zz);
    assert!(amt.nodes[5].data == hash_intermediate(&ab, &zz));

    assert_eq!(found.len(), 1);
    assert_eq!(found[0].index, 3);
    assert_eq!(found[0].order, 0);
    assert!(found[0].node_type == NodeType::Checkpoint);
    assert!(found[0].data == ab);
}

#[test]
fn five_and_seven_leaves_match_the_single_pass_root() {
    for (n, sizes) in [(5usize, [3usize, 2]), (5, [2, 3]), (5, [1, 4]), (7, [4, 3]), (7, [5, 2]), (11, [8, 3])] {
        let data = leaves(n);
        let items: Vec<&[u8]> = data.iter().map(|d| d.as_slice()).collect();
        assert!(batched_root(items.as_slice(), &sizes) == sequential_root(items.as_slice()));
    }
}

#[test]
fn three_batches_on_one_path_match_the_single_pass_root() {
    let data = leaves(4);
    let items: Vec<&[u8]> = data.iter().map(|d| d.as_slice()).collect();
    assert!(batched_root(items.as_slice(), &[1, 1, 2]) == sequential_root(items.as_slice()));
    assert!(batched_root(items.as_slice(), &[2, 1, 1]) == sequential_root(items.as_slice()));
    let data = leaves(8);
    let items: Vec<&[u8]> = data.iter().map(|d| d.as_slice()).collect();
    assert!(batched_root(items.as_slice(), &[4, 2, 1, 1]) == sequential_root(items.as_slice()));
}

#[test]
fn seams_on_two_paths_do_not_fold_to_the_root() {
    let data = leaves(4);
    let items: Vec<&[u8]> = data.iter().map(|d| d.as_slice()).collect();
    assert!(batched_root(items.as_slice(), &[1, 2, 1]) != sequential_root(items.as_slice()));
}

#[test]
fn a_seam_paired_with_itself_does_not_fold_to_the_root() {
    let data = leaves(6);
    let items: Vec<&[u8]> = data.iter().map(|d| d.as_slice()).collect();
    assert!(batched_root(items.as_slice(), &[5, 1]) != sequential_root(items.as_slice()));
    assert!(batched_root(items.as_slice(), &[4, 2]) == sequential_root(items.as_slice()));
}

#[test]
fn single_batch_ends_with_the_single_pass_root() {
    for n in [1usize, 2, 3, 5, 7, 8, 13] {
        let data = leaves(n);
        let items: Vec<&[u8]> = data.iter().map(|d| d.as_slice()).collect();
        let batches = vec![(0u32, items.as_slice(), 0usize)];
        let seed = AsyncMerkleTree::build_digest_tree(batches, n).unwrap();
        let mut amt = AsyncMerkleTree::init(n, 1, 1);
        amt.nodes = seed;
        let found = amt.append_batch(items.as_slice(), 1, 0);
        assert!(found.is_empty());
        assert!(amt.nodes.last().unwrap().data == sequential_root(items.as_slice()));
        let mt = MerkleTree::new(items.as_slice());
        let values: Vec<fast_merkle_tree::hash::Hash> = amt.nodes.iter().map(|n| n.data).collect();
        assert_eq!(values, mt.n);
    }
}

#[test]
fn same_batches_give_the_same_root() {
    let data = leaves(9);
    let items: Vec<&[u8]> = data.iter().map(|d| d.as_slice()).collect();
    let once = batched_root(items.as_slice(), &[4, 5]);
    let again = batched_root(items.as_slice(), &[4, 5]);
    assert!(once == again);
    let mut lists = run_batches(items.as_slice(), &[4, 5]);
    lists.reverse();
    assert!(AsyncMerkleTree::commit(lists) == once);
}

#[test]
fn batch_without_leaves_has_no_checkpoint() {
    let data = leaves(4);
    let items: Vec<&[u8]> = data.iter().map(|d| d.as_slice()).collect();
    let batches = vec![(0u32, &items[0..2], 0usize), (1u32, &items[2..4], 2usize)];
    let seed = AsyncMerkleTree::build_digest_tree(batches, 4).unwrap();
    let mut amt = AsyncMerkleTree::init(4, 2, 3);
    amt.nodes = seed;
    let none: Vec<&[u8]> = vec![];
    let found = amt.append_batch(none.as_slice(), 3, 4);
    assert!(found.is_empty());
    assert_eq!(amt.nodes.len(), 7);
}

#[test]
fn no_leaves_at_all() {
    let batches: Vec<(u32, &[&[u8]], usize)> = vec![];
    let seed = AsyncMerkleTree::build_digest_tree(batches, 0).unwrap();
    assert!(seed.is_empty());
    let mut amt = AsyncMerkleTree::init(0, 0, 0);
    amt.nodes = seed;
    let none: Vec<&[u8]> = vec![];
    assert!(amt.append_batch(none.as_slice(), 1, 0).is_empty());
    assert!(amt.nodes.is_empty());
}

#[test]
fn init_starts_empty() {
    let amt = AsyncMerkleTree::init(10, 3, 1);
    assert!(amt.nodes.is_empty());
    assert!(amt.checkpoints.is_empty());
    assert_eq!(amt.leaf_count, 10);
    assert_eq!(amt.batch_count, 3);
}

#[test]
fn seed_tags_each_leaf_with_its_batch() {
    let data = leaves(5);
    let items: Vec<&[u8]> = data.iter().map(|d| d.as_slice()).collect();
    let batches = vec![(0u32, &items[0..3], 0usize), (1u32, &items[3..5], 3usize)];
    let seed = AsyncMerkleTree::build_digest_tree(batches, 5).unwrap();
    assert_eq!(seed.len(), 5);
    for (i, node) in seed.iter().enumerate() {
        assert_eq!(node.index, i);
        assert_eq!(node.batch, if i < 3 { 1 } else { 2 });
        assert_eq!(node.order, UNSET);
        assert_eq!(node.order, 255);
        assert_eq!(node.data.0, [0u8; 32]);
        assert!(node.node_type == NodeType::Digest);
    }
    let wide = vec![(255u32, &items[0..5], 0usize)];
    let seed = AsyncMerkleTree::build_digest_tree(wide, 5).unwrap();
    assert_eq!(seed[0].batch, 0);
}

#[test]
fn seed_refuses_a_gap() {
    let data = leaves(5);
    let items: Vec<&[u8]> = data.iter().map(|d| d.as_slice()).collect();
    let batches = vec![(0u32, &items[0..2], 0usize), (1u32, &items[3..5], 3usize)];
    assert_eq!(
        AsyncMerkleTree::build_digest_tree(batches, 5).unwrap_err(),
        ConfigError::OffsetMismatch { batch: 1 }
    );
    let late = vec![(0u32, &items[0..2], 1usize)];
    assert_eq!(
        AsyncMerkleTree::build_digest_tree(late, 5).unwrap_err(),
        ConfigError::OffsetMismatch { batch: 0 }
    );
}

#[test]
fn seed_refuses_an_overlap() {
    let data = leaves(5);
    let items: Vec<&[u8]> = data.iter().map(|d| d.as_slice()).collect();
    let batches = vec![(0u32, &items[0..3], 0usize), (1u32, &items[2..5], 2usize)];
    assert_eq!(
        AsyncMerkleTree::build_digest_tree(batches, 5).unwrap_err(),
        ConfigError::OffsetMismatch { batch: 1 }
    );
}

#[test]
fn seed_refuses_an_empty_batch() {
    let data = leaves(5);
    let items: Vec<&[u8]> = data.iter().map(|d| d.as_slice()).collect();
    let batches =
        vec![(0u32, &items[0..3], 0usize), (1u32, &items[3..3], 3usize), (2u32, &items[3..5], 3usize)];
    assert_eq!(
        AsyncMerkleTree::build_digest_tree(batches, 5).unwrap_err(),
        ConfigError::EmptyBatch { batch: 1 }
    );
}

#[test]
fn seed_refuses_a_batch_past_the_last_leaf() {
    let data = leaves(5);
    let items: Vec<&[u8]> = data.iter().map(|d| d.as_slice()).collect();
    let batches = vec![(0u32, &items[0..3], 0usize), (1u32, &items[3..5], 3usize)];
    assert_eq!(
        AsyncMerkleTree::build_digest_tree(batches, 4).unwrap_err(),
        ConfigError::OutOfBounds { batch: 1 }
    );
}

#[test]
fn seed_refuses_too_few_leaves() {
    let data = leaves(5);
    let items: Vec<&[u8]> = data.iter().map(|d| d.as_slice()).collect();
    let batches = vec![(0u32, &items[0..3], 0usize), (1u32, &items[3..5], 3usize)];
    assert_eq!(
        AsyncMerkleTree::build_digest_tree(batches, 6).unwrap_err(),
        ConfigError::LeafCountMismatch
    );
    let none: Vec<(u32, &[&[u8]], usize)> = vec![];
    assert_eq!(
        AsyncMerkleTree::build_digest_tree(none, 1).unwrap_err(),
        ConfigError::LeafCountMismatch
    );
}

#[test]
fn fold_hashes_right_children_on_the_right() {
    let a = hash_leaf(b"a");
    let b = hash_leaf(b"b");
    let c = hash_leaf(b"c");
    let node = |data, order, index| Node { batch: 1, order, data, node_type: NodeType::Checkpoint, index };
    let one = vec![node(a, 0, 0)];
    assert!(fold_checkpoints(&one) == a);
    let right = vec![node(a, 1, 0), node(b, 1, 1)];
    assert!(fold_checkpoints(&right) == hash_intermediate(&a, &b));
    let left = vec![node(a, 0, 0), node(b, 0, 1)];
    assert!(fold_checkpoints(&left) == hash_intermediate(&b, &a));
    let unset = vec![node(a, 0, 0), node(b, 255, 1)];
    assert!(fold_checkpoints(&unset) == hash_intermediate(&b, &a));
    let three = vec![node(a, 0, 0), node(b, 1, 1), node(c, 0, 2)];
    assert!(fold_checkpoints(&three) == hash_intermediate(&c, &hash_intermediate(&a, &b)));
}

#[test]
fn commit_sorts_by_position_before_folding() {
    let a = hash_leaf(b"a");
    let b = hash_leaf(b"b");
    let c = hash_leaf(b"c");
    let node = |data, order, index| Node { batch: 1, order, data, node_type: NodeType::Checkpoint, index };
    let lists = vec![vec![node(c, 0, 9)], vec![], vec![node(b, 1, 4), node(a, 0, 2)]];
    let root = AsyncMerkleTree::commit(lists);
    assert!(root == hash_intermediate(&c, &hash_intermediate(&a, &b)));
}

#[test]
fn seed_errors_say_which_rule_is_broken() {
    assert_eq!(
        ConfigError::OffsetMismatch { batch: 3 }.to_string(),
        "a batch does not start where the batch before it ends"
    );
    assert_eq!(
        ConfigError::EmptyBatch { batch: 0 }.to_string(),
        "a batch before the last holds no leaf"
    );
    assert_eq!(
        ConfigError::OutOfBounds { batch: 1 }.to_string(),
        "a batch reaches past the last leaf"
    );
    assert_eq!(
        ConfigError::LeafCountMismatch.to_string(),
        "the batches end before the last leaf"
    );
}

#[test]
fn two_batches_match_where_the_seam_path_is_clear_and_nowhere_else() {
    assert!(path_is_clear(8, 6));
    assert!(path_is_clear(100_000, 80_000));
    assert!(!path_is_clear(6, 5));
    assert!(path_is_clear(6, 4));
    assert!(path_is_clear(1, 0));
    assert!(path_is_clear(0, 0));
    for n in 2usize..=34 {
        let data = leaves(n);
        let items: Vec<&[u8]> = data.iter().map(|d| d.as_slice()).collect();
        let expected = sequential_root(items.as_slice());
        for k in 1..n {
            let root = batched_root(items.as_slice(), &[k, n - k]);
            assert_eq!(root == expected, path_is_clear(n, k));
            let owners = leaf_owner_tags(&batches_of(items.as_slice(), &[k, n - k]));
            assert_eq!(seams_on_one_path(&owners, mixed_tag_of(2)), path_is_clear(n, k));
        }
    }
}

#[test]
fn two_batches_of_a_full_tree_always_match() {
    for n in [2usize, 4, 8, 16, 32, 64] {
        let data = leaves(n);
        let items: Vec<&[u8]> = data.iter().map(|d| d.as_slice()).collect();
        let expected = sequential_root(items.as_slice());
        for k in 1..n {
            assert!(batched_root(items.as_slice(), &[k, n - k]) == expected);
        }
    }
}

#[test]
fn three_batches_match_where_the_seams_lie_on_one_path_and_nowhere_else() {
    for n in 3usize..=14 {
        let data = leaves(n);
        let items: Vec<&[u8]> = data.iter().map(|d| d.as_slice()).collect();
        let expected = sequential_root(items.as_slice());
        for a in 1..n - 1 {
            for b in 1..n - a {
                let sizes = [a, b, n - a - b];
                let batches = batches_of(items.as_slice(), &sizes);
                assert!(tags_are_distinct(&batches, 3));
                let owners = leaf_owner_tags(&batches);
                let on_one_path = seams_on_one_path(&owners, mixed_tag_of(3));
                let root = batched_root(items.as_slice(), &sizes);
                assert_eq!(root == expected, on_one_path);
            }
        }
    }
}

#[test]
fn seams_of_given_owners() {
    assert!(seams_on_one_path(&vec![], 9));
    assert!(seams_on_one_path(&vec![1], 9));
    assert!(seams_on_one_path(&vec![1, 1, 1, 1, 1], 9));
    assert!(seams_on_one_path(&vec![1, 2], 9));
    assert!(seams_on_one_path(&vec![1, 2, 3, 3], 9));
    assert!(seams_on_one_path(&vec![1, 1, 1, 1, 1, 1, 2, 2], 9));
    assert!(!seams_on_one_path(&vec![1, 2, 2, 3], 9));
    assert!(!seams_on_one_path(&vec![1, 1, 1, 1, 1, 2], 9));
    assert!(!seams_on_one_path(&vec![1, 2, 1, 2], 9));
    assert!(!seams_on_one_path(&vec![9, 9], 9));
}

#[test]
fn owner_tags_are_one_more_than_the_identifier() {
    assert_eq!(owner_tag_of(0), 1);
    assert_eq!(owner_tag_of(1), 2);
    assert_eq!(owner_tag_of(254), 255);
    assert_eq!(owner_tag_of(255), 0);
    assert_eq!(owner_tag_of(256), 1);
    assert_eq!(owner_tag_of(u32::MAX), 0);
}

#[test]
fn mixed_tag_is_two_more_than_the_number_of_batches() {
    assert_eq!(mixed_tag_of(0), 2);
    assert_eq!(mixed_tag_of(2), 4);
    assert_eq!(mixed_tag_of(253), 255);
    assert_eq!(mixed_tag_of(254), 0);
    assert_eq!(mixed_tag_of(255), 1);
    assert_eq!(mixed_tag_of(usize::MAX), 1);
}

#[test]
fn owner_tags_of_the_leaves() {
    let data = leaves(5);
    let items: Vec<&[u8]> = data.iter().map(|d| d.as_slice()).collect();
    let batches = vec![(7u32, &items[0..3], 0usize), (255u32, &items[3..5], 3usize)];
    assert_eq!(leaf_owner_tags(&batches), vec![8, 8, 8, 0, 0]);
    let none: Vec<(u32, &[&[u8]], usize)> = vec![];
    assert!(leaf_owner_tags(&none).is_empty());
}

#[test]
fn tags_that_collide_are_found() {
    let data = leaves(4);
    let items: Vec<&[u8]> = data.iter().map(|d| d.as_slice()).collect();
    let fine = vec![(0u32, &items[0..2], 0usize), (1u32, &items[2..4], 2usize)];
    assert!(tags_are_distinct(&fine, 2));
    let same = vec![(0u32, &items[0..2], 0usize), (256u32, &items[2..4], 2usize)];
    assert!(!tags_are_distinct(&same, 2));
    let twice = vec![(5u32, &items[0..2], 0usize), (5u32, &items[2..4], 2usize)];
    assert!(!tags_are_distinct(&twice, 2));
    let mixed = vec![(0u32, &items[0..2], 0usize), (3u32, &items[2..4], 2usize)];
    assert!(!tags_are_distinct(&mixed, 2));
    assert!(tags_are_distinct(&mixed, 3));
    let none: Vec<(u32, &[&[u8]], usize)> = vec![];
    assert!(tags_are_distinct(&none, 0));
}

#[test]
fn seed_takes_an_empty_last_batch() {
    let data = leaves(1);
    let items: Vec<&[u8]> = data.iter().map(|d| d.as_slice()).collect();
    let batches = vec![(0u32, &items[0..1], 0usize), (1u32, &items[1..1], 1usize)];
    let seed = AsyncMerkleTree::build_digest_tree(batches, 1).unwrap();
    assert_eq!(seed.len(), 1);
    assert_eq!(seed[0].batch, 1);
    assert_eq!(seed[0].order, UNSET);

    let mut last = AsyncMerkleTree::init(1, 2, 2);
    last.nodes = seed.clone();
    assert!(last.append_batch(&items[1..1], 2, 1).is_empty());

    let mut first = AsyncMerkleTree::init(1, 2, 1);
    first.nodes = seed;
    assert!(first.append_batch(&items[0..1], 1, 0).is_empty());
    assert!(first.nodes.last().unwrap().data == sequential_root(items.as_slice()));

    let only_empty = vec![(0u32, &items[0..0], 0usize)];
    assert!(AsyncMerkleTree::build_digest_tree(only_empty, 0).unwrap().is_empty());
}

#[test]
fn seed_refuses_an_empty_batch_before_another() {
    let data = leaves(2);
    let items: Vec<&[u8]> = data.iter().map(|d| d.as_slice()).collect();
    let first_empty = vec![(0u32, &items[0..0], 0usize), (1u32, &items[0..2], 0usize)];
    assert_eq!(
        AsyncMerkleTree::build_digest_tree(first_empty, 2).unwrap_err(),
        ConfigError::EmptyBatch { batch: 0 }
    );
    let two_empty = vec![
        (0u32, &items[0..2], 0usize),
        (1u32, &items[2..2], 2usize),
        (2u32, &items[2..2], 2usize),
    ];
    assert_eq!(
        AsyncMerkleTree::build_digest_tree(two_empty, 2).unwrap_err(),
        ConfigError::EmptyBatch { batch: 1 }
    );
}
