use fast_merkle_tree::hash::{hash_leaf, HASH_BYTES, INTERMEDIATE_PREFIX, LEAF_PREFIX};
use fast_merkle_tree::DIGEST;

#[test]
fn zero_digest_in_base58() {
    let h = fast_merkle_tree::hash::Hash::default();
    assert_eq!(h.0, [0u8; 32]);
    assert_eq!(h.to_string(), "11111111111111111111111111111111");
}

#[test]
fn base58_text_is_that_of_the_bytes() {
    let h = hash_leaf(b"my");
    assert_eq!(h.to_string(), bs58::encode(h.0).into_string());
    assert_ne!(h.to_string(), fast_merkle_tree::hash::Hash::default().to_string());
    let mut bytes = [0u8; 32];
    bytes[31] = 58;
    assert_eq!(
        fast_merkle_tree::hash::Hash(bytes).to_string(),
        "111111111111111111111111111111121"
    );
}

#[test]
fn digest_from_bytes_and_back() {
    let mut bytes = [0u8; 32];
    bytes[0] = 7;
    bytes[31] = 9;
    let h = fast_merkle_tree::hash::Hash::from(bytes);
    assert_eq!(h.0, bytes);
    let seen: &[u8] = h.as_ref();
    assert_eq!(seen, &bytes[..]);
    assert_eq!(seen.len(), HASH_BYTES);
}

#[test]
fn digests_compare_by_their_bytes() {
    let a = fast_merkle_tree::hash::Hash([3u8; 32]);
    let b = fast_merkle_tree::hash::Hash([3u8; 32]);
    let mut other = [3u8; 32];
    other[5] = 4;
    assert!(a == b);
    assert!(a != fast_merkle_tree::hash::Hash(other));
    assert!(a.clone() == a);
}

#[test]
fn constants() {
    assert_eq!(HASH_BYTES, 32);
    assert_eq!(LEAF_PREFIX, [0u8]);
    assert_eq!(INTERMEDIATE_PREFIX, [1u8]);
    assert_eq!(DIGEST, [0u8; 32]);
}
