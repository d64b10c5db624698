use fast_merkle_tree::hash::{hash_intermediate, hash_leaf, hashv, Hasher};
use sha2::{Digest, Sha256};

fn hex(bytes: &[u8]) -> String {
    let mut out = String::new();
    for b in bytes {
        out.push_str(&format!("{:02x}", b));
    }
    out
}

#[test]
fn hashv_of_nothing_is_the_digest_of_the_empty_string() {
    let h = hashv(&[]);
    assert_eq!(hex(&h.0), "e3b0c44298fc1c149afbf4c8996fb92427ae41e4649b934ca495991b7852b855");
}

#[test]
fn hashv_hashes_the_concatenation() {
    let parts: Vec<&[u8]> = vec![b"a", b"", b"bc"];
    let h = hashv(parts.as_slice());
    assert_eq!(hex(&h.0), "ba7816bf8f01cfea414140de5dae2223b00361a396177a9cb410ff61f20015ad");
    let whole: Vec<&[u8]> = vec![b"abc"];
    assert!(hashv(whole.as_slice()) == h);
}

#[test]
fn hasher_takes_its_input_in_pieces() {
    let mut hasher = Hasher::default();
    hasher.hash(b"a");
    let rest: Vec<&[u8]> = vec![b"b", b"c"];
    hasher.hashv(rest.as_slice());
    let h = hasher.result();
    assert_eq!(hex(&h.0), "ba7816bf8f01cfea414140de5dae2223b00361a396177a9cb410ff61f20015ad");
}

#[test]
fn hasher_without_input_gives_the_digest_of_the_empty_string() {
    let h = Hasher::default().result();
    assert_eq!(hex(&h.0), "e3b0c44298fc1c149afbf4c8996fb92427ae41e4649b934ca495991b7852b855");
}

#[test]
fn leaf_digest_puts_a_zero_byte_first() {
    let h = hash_leaf(b"");
    assert_eq!(hex(&h.0), "6e340b9cffb37a989ca544e6bb780a2c78901d3fb33738768511a30617afa01d");
    let expected: [u8; 32] = Sha256::digest(b"\x00my").into();
    assert_eq!(hash_leaf(b"my").0, expected);
}

#[test]
fn inner_digest_puts_a_one_byte_first() {
    let l = hash_leaf(b"left");
    let r = hash_leaf(b"right");
    let mut bytes: Vec<u8> = vec![1];
    bytes.extend_from_slice(&l.0);
    bytes.extend_from_slice(&r.0);
    let expected: [u8; 32] = Sha256::digest(&bytes).into();
    assert_eq!(hash_intermediate(&l, &r).0, expected);
    assert_ne!(hash_intermediate(&l, &r), hash_intermediate(&r, &l));
}

#[test]
fn a_leaf_never_hashes_like_an_inner_node() {
    let samples: Vec<&[u8]> = vec![b"", b"my", b"very", b"eager", b"mother"];
    for d in samples {
        let h = hash_leaf(d);
        assert_ne!(hash_leaf(&h.0), hash_intermediate(&h, &h));
        let mut twice: Vec<u8> = Vec::new();
        twice.extend_from_slice(&h.0);
        twice.extend_from_slice(&h.0);
        assert_ne!(hash_leaf(&twice), hash_intermediate(&h, &h));
    }
}

#[test]
fn same_input_gives_same_digest() {
    assert!(hash_leaf(b"served") == hash_leaf(b"served"));
    assert!(hash_leaf(b"served") != hash_leaf(b"serves"));
}
