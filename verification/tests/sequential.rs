use fast_merkle_tree::hash::{hash_intermediate, hash_leaf};
use fast_merkle_tree::{MerkleTree, Node, NodeType, UNSET};

fn leaves(n: usize) -> Vec<Vec<u8>> {
    (0..n).map(|i| format!("leaf-{}", i).into_bytes()).collect()
}

fn node_count(n: usize) -> usize {
    let mut total = 0;
    let mut len = n;
    while len > 0 {
        total += len;
        len = if len == 1 { 0 } else { (len + 1) / 2 };
    }
    total
}

#[test]
fn next_level_len_halves_and_rounds_up() {
    assert_eq!(MerkleTree::next_level_len(0), 0);
    assert_eq!(MerkleTree::next_level_len(1), 0);
    assert_eq!(MerkleTree::next_level_len(2), 1);
    assert_eq!(MerkleTree::next_level_len(3), 2);
    assert_eq!(MerkleTree::next_level_len(4), 2);
    assert_eq!(MerkleTree::next_level_len(5), 3);
    assert_eq!(MerkleTree::next_level_len(100_000), 50_000);
    assert_eq!(MerkleTree::next_level_len(usize::MAX), usize::MAX / 2 + 1);
}

#[test]
fn capacity_values() {
    assert_eq!(MerkleTree::calculate_vec_capacity(0), 0);
    assert_eq!(MerkleTree::calculate_vec_capacity(1), 4);
    assert_eq!(MerkleTree::calculate_vec_capacity(2), 7);
    assert_eq!(MerkleTree::calculate_vec_capacity(3), 9);
    assert_eq!(MerkleTree::calculate_vec_capacity(5), 14);
    assert_eq!(MerkleTree::calculate_vec_capacity(8192), 16399);
    assert_eq!(MerkleTree::calculate_vec_capacity(8193), 16401);
    assert_eq!(MerkleTree::calculate_vec_capacity(usize::MAX), usize::MAX);
    assert_eq!(MerkleTree::calculate_vec_capacity(usize::MAX / 2), usize::MAX);
}

#[test]
fn capacity_never_counts_too_few_nodes() {
    let counts = [
        1usize, 2, 3, 4, 5, 7, 8, 9, 11, 13, 15, 16, 17, 31, 32, 33, 61, 63, 64, 65, 97, 127, 128,
        129, 251, 255, 256, 257, 509, 511, 512, 513, 1021, 1023, 1024, 1025,
    ];
    for n in counts {
        let data = leaves(n);
        let items: Vec<&[u8]> = data.iter().map(|d| d.as_slice()).collect();
        let mt = MerkleTree::new(items.as_slice());
        assert_eq!(mt.n.len(), node_count(n));
        assert!(MerkleTree::calculate_vec_capacity(n) >= mt.n.len());
    }
    for n in [8192usize, 8193, 65535, 65536, 65537, 1_000_003] {
        assert!(MerkleTree::calculate_vec_capacity(n) >= node_count(n));
    }
}

#[test]
fn tree_of_no_leaves_has_no_root() {
    let items: Vec<&[u8]> = vec![];
    let mt = MerkleTree::new(items.as_slice());
    assert_eq!(mt.leaf_count, 0);
    assert!(mt.n.is_empty());
    assert!(mt.get_root().is_none());
}

#[test]
fn tree_of_one_leaf_has_the_leaf_as_root() {
    let items: Vec<&[u8]> = vec![b"my"];
    let mt = MerkleTree::new(items.as_slice());
    assert_eq!(mt.leaf_count, 1);
    assert_eq!(mt.n.len(), 1);
    assert!(mt.nodes.is_empty());
    assert!(mt.get_root().unwrap() == &hash_leaf(b"my"));
}

#[test]
fn tree_of_three_leaves_pairs_the_last_with_itself() {
    let items: Vec<&[u8]> = vec![b"my", b"very", b"eager"];
    let mt = MerkleTree::new(items.as_slice());
    let a = hash_leaf(b"my");
    let b = hash_leaf(b"very");
    let c = hash_leaf(b"eager");
    let ab = hash_intermediate(&a, &b);
    let cc = hash_intermediate(&c, &c);
    let root = hash_intermediate(&ab, &cc);
    assert_eq!(mt.n, vec![a, b, c, ab, cc, root]);
    assert!(mt.get_root().unwrap() == &root);
}

#[test]
fn empty_tree_holds_placeholders_for_every_node() {
    let mt = MerkleTree::empty_tree(5, 3);
    assert_eq!(mt.leaf_count, 5);
    assert!(mt.n.is_empty());
    assert_eq!(mt.nodes.len(), 11);
    let nodes: Vec<Node> = mt.get_nodes();
    assert_eq!(nodes.len(), 11);
    for (i, node) in nodes.iter().enumerate() {
        assert_eq!(node.batch, if i < 5 { 3 } else { 0 });
        assert_eq!(node.order, if i < 5 { UNSET } else { 0 });
        assert_eq!(node.index, 0);
        assert_eq!(node.data.0, [0u8; 32]);
        assert!(node.node_type == NodeType::Digest);
    }
    let none = MerkleTree::empty_tree(0, 3);
    assert!(none.nodes.is_empty());
}

#[test]
fn placeholder_node() {
    let n = Node::digest(7, 4);
    assert_eq!(n.index, 7);
    assert_eq!(n.batch, 4);
    assert_eq!(n.order, 255);
    assert_eq!(UNSET, 255);
    assert_eq!(n.data.0, [0u8; 32]);
    assert!(n.is_digest());
    assert!(!n.is_compound());
    assert_eq!(Node::digest(1, 256 + 9).batch, 9);
}

#[test]
fn default_node_is_a_placeholder() {
    let n = Node::default();
    assert_eq!(n.batch, 0);
    assert_eq!(n.order, 0);
    assert_eq!(n.index, 0);
    assert_eq!(n.data.0, [0u8; 32]);
    assert!(n.is_digest());
    assert!(NodeType::default() == NodeType::Digest);
}

#[test]
fn compound_node_is_told_apart() {
    let mut n = Node::default();
    n.node_type = NodeType::Compound;
    assert!(n.is_compound());
    assert!(!n.is_digest());
    n.node_type = NodeType::Leaf;
    assert!(!n.is_compound());
    assert!(!n.is_digest());
}
