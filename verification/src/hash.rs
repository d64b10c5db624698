//! Digests: SHA-256 with a prefix that tells leaves from inner nodes.

use sha2::Digest;
use sha2::Sha256;
use vstd::prelude::*;

verus! {

/// Number of bytes in a digest.
pub const HASH_BYTES: usize = 32;

/// Prefix of the bytes that are hashed for a leaf.
pub const LEAF_PREFIX: [u8; 1] = [0];

/// Prefix of the bytes that are hashed for an inner node.
pub const INTERMEDIATE_PREFIX: [u8; 1] = [1];

/// The SHA-256 digest of a byte string.
pub uninterp spec fn sha256(data: Seq<u8>) -> [u8; 32];

/// The readable base-58 text of a byte string.
pub uninterp spec fn base58(bytes: Seq<u8>) -> Seq<char>;

/// Calls `Sha256::digest` of the `sha2` crate: the SHA-256 digest of
/// exactly the bytes of `data`.
#[verifier::external_body]
fn sha256_digest(data: &[u8]) -> (out: [u8; 32])
    ensures
        out == sha256(data@),
{
    Sha256::digest(data).into()
}

/// Calls `bs58::encode(..).into_string()` on the bytes of a digest: the
/// result is their base-58 text in the crate's default alphabet.
#[verifier::external_body]
fn bs58_encode(bytes: &[u8; 32]) -> (text: String)
    ensures
        text@ == base58(bytes@),
{
    bs58::encode(bytes).into_string()
}

/// A 32-byte digest. Two digests are equal when their bytes are.
#[derive(Debug)]
pub struct Hash(pub [u8; HASH_BYTES]);

impl PartialEq for Hash {
    fn eq(&self, other: &Self) -> (same: bool) {
        let mut i: usize = 0;
        while i < HASH_BYTES
            invariant
                i <= HASH_BYTES,
                forall|j: int| 0 <= j < i ==> self.0@[j] == other.0@[j],
            decreases HASH_BYTES - i,
        {
            if self.0[i] != other.0[i] {
                return false;
            }
            i += 1;
        }
        assert(self.0 =~= other.0);
        true
    }
}

impl Eq for Hash {}

impl vstd::std_specs::cmp::PartialEqSpecImpl for Hash {
    open spec fn obeys_eq_spec() -> bool {
        true
    }

    open spec fn eq_spec(&self, other: &Self) -> bool {
        *self == *other
    }
}

impl Clone for Hash {
    fn clone(&self) -> (h: Self)
        ensures
            h == *self,
    {
        Hash(self.0)
    }
}

impl Copy for Hash {}

impl Default for Hash {
    fn default() -> (h: Self)
        ensures
            h == zero_hash(),
    {
        Hash(crate::node::DIGEST)
    }
}

/// The digest whose bytes are all zero: the value of a placeholder.
pub open spec fn zero_hash() -> Hash {
    Hash(crate::node::DIGEST)
}

impl AsRef<[u8]> for Hash {
    fn as_ref(&self) -> (bytes: &[u8])
        ensures
            bytes@ == self.0@,
    {
        self.0.as_slice()
    }
}

impl From<[u8; HASH_BYTES]> for Hash {
    fn from(from: [u8; 32]) -> (h: Self) {
        Self(from)
    }
}

impl vstd::std_specs::convert::FromSpecImpl<[u8; HASH_BYTES]> for Hash {
    open spec fn obeys_from_spec() -> bool {
        true
    }

    open spec fn from_spec(from: [u8; HASH_BYTES]) -> Self {
        Hash(from)
    }
}

impl Hash {
    /// The base-58 text of the digest, for display.
    pub fn to_string(&self) -> (text: String)
        ensures
            text@ == base58(self.0@),
    {
        bs58_encode(&self.0)
    }
}

/// The byte strings of `parts`, one after the other.
pub open spec fn concat(parts: Seq<Seq<u8>>) -> Seq<u8>
    decreases parts.len(),
{
    if parts.len() == 0 {
        Seq::empty()
    } else {
        concat(parts.drop_last()) + parts.last()
    }
}

/// The contents of a sequence of byte slices.
pub open spec fn contents(parts: Seq<&[u8]>) -> Seq<Seq<u8>> {
    Seq::new(parts.len(), |i: int| parts[i]@)
}

/// What is hashed for a leaf: the leaf prefix, then the data.
pub open spec fn leaf_preimage(data: Seq<u8>) -> Seq<u8> {
    LEAF_PREFIX@ + data
}

/// What is hashed for an inner node: the inner prefix, then both children.
pub open spec fn intermediate_preimage(left: Seq<u8>, right: Seq<u8>) -> Seq<u8> {
    INTERMEDIATE_PREFIX@ + left + right
}

/// A leaf and an inner node are never hashed from the same bytes: the
/// first byte tells them apart.
pub proof fn lemma_preimages_differ(data: Seq<u8>, left: Seq<u8>, right: Seq<u8>)
    ensures
        leaf_preimage(data) != intermediate_preimage(left, right),
{
    assert(leaf_preimage(data)[0] == 0u8);
    assert(intermediate_preimage(left, right)[0] == 1u8);
}

/// The digest of a leaf.
pub open spec fn spec_hash_leaf(data: Seq<u8>) -> Hash {
    Hash(sha256(leaf_preimage(data)))
}

/// The digest of an inner node over the digests of its two children.
pub open spec fn spec_hash_intermediate(left: Hash, right: Hash) -> Hash {
    Hash(sha256(intermediate_preimage(left.0@, right.0@)))
}

/// An incremental hasher: it takes in byte strings and gives the digest of
/// their concatenation.
pub struct Hasher {
    taken: Vec<u8>,
}

impl View for Hasher {
    type V = Seq<u8>;

    /// The bytes taken in so far.
    closed spec fn view(&self) -> Seq<u8> {
        self.taken@
    }
}

impl Default for Hasher {
    fn default() -> (h: Self)
        ensures
            h@ == Seq::<u8>::empty(),
    {
        Hasher { taken: Vec::new() }
    }
}

impl Hasher {
    /// Takes in `val`.
    pub fn hash(&mut self, val: &[u8])
        ensures
            final(self)@ == old(self)@ + val@,
    {
        self.taken.extend_from_slice(val);
        assert(self.taken@ =~= old(self).taken@ + val@);
    }

    /// Takes in every byte string of `vals`, in order.
    pub fn hashv(&mut self, vals: &[&[u8]])
        ensures
            final(self)@ == old(self)@ + concat(contents(vals@)),
    {
        let mut i: usize = 0;
        while i < vals.len()
            invariant
                i <= vals.len(),
                self@ == old(self)@ + concat(contents(vals@).take(i as int)),
            decreases vals.len() - i,
        {
            proof {
                let c = contents(vals@);
                assert(c.take(i + 1).drop_last() == c.take(i as int));
            }
            self.hash(vals[i]);
            i += 1;
        }
        assert(contents(vals@).take(i as int) == contents(vals@));
    }

    /// The digest of everything taken in.
    pub fn result(self) -> (h: Hash)
        ensures
            h == Hash(sha256(self@)),
    {
        Hash(sha256_digest(self.taken.as_slice()))
    }
}

/// The digest of the concatenation of `data`.
pub fn hashv(data: &[&[u8]]) -> (h: Hash)
    ensures
        h == Hash(sha256(concat(contents(data@)))),
{
    let mut hasher = Hasher::default();
    hasher.hashv(data);
    hasher.result()
}

/// The digest of a leaf: the leaf prefix is hashed before the data.
pub fn hash_leaf(data: &[u8]) -> (h: Hash)
    ensures
        h == spec_hash_leaf(data@),
{
    let mut hasher = Hasher::default();
    hasher.hash(LEAF_PREFIX.as_slice());
    hasher.hash(data);
    assert(hasher@ =~= leaf_preimage(data@));
    hasher.result()
}

/// The digest of an inner node: the inner prefix is hashed before the two
/// children.
pub fn hash_intermediate(left: &Hash, right: &Hash) -> (h: Hash)
    ensures
        h == spec_hash_intermediate(*left, *right),
{
    let mut hasher = Hasher::default();
    hasher.hash(INTERMEDIATE_PREFIX.as_slice());
    hasher.hash(left.as_ref());
    hasher.hash(right.as_ref());
    assert(hasher@ =~= intermediate_preimage(left.0@, right.0@));
    hasher.result()
}

} // verus!
