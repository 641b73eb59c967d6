use blake2::Blake2b512;
use blake2::Blake2s256;
use sha2::Digest;
use sha2::Sha256;
use vstd::prelude::*;
use vstd::string::StringSliceAdditionalSpecFns;
use vstd::utf8::encode_utf8;

verus! {

/// A hash value: the bytes that a digest produced. Its length is the
/// algorithm's, and nothing in this crate assumes a particular one.
pub type Hash = Vec<u8>;

/// Data that can be hashed: anything that can show itself as bytes.
pub trait HashableData {
    /// The bytes that stand for this value.
    spec fn byte_seq(&self) -> Seq<u8>;

    /// Shows this value as the bytes that stand for it.
    fn as_bytes(&self) -> (r: &[u8])
        ensures
            r@ == self.byte_seq(),
    ;
}

impl HashableData for str {
    open spec fn byte_seq(&self) -> Seq<u8> {
        self.spec_bytes()
    }

    fn as_bytes(&self) -> (r: &[u8]) {
        str::as_bytes(self)
    }
}

impl HashableData for String {
    open spec fn byte_seq(&self) -> Seq<u8> {
        encode_utf8(self@)
    }

    fn as_bytes(&self) -> (r: &[u8]) {
        str::as_bytes(self.as_str())
    }
}

impl HashableData for [u8] {
    open spec fn byte_seq(&self) -> Seq<u8> {
        self@
    }

    fn as_bytes(&self) -> (r: &[u8]) {
        self
    }
}

impl HashableData for Vec<u8> {
    open spec fn byte_seq(&self) -> Seq<u8> {
        self@
    }

    fn as_bytes(&self) -> (r: &[u8]) {
        self.as_slice()
    }
}

impl<T: HashableData + ?Sized> HashableData for &T {
    open spec fn byte_seq(&self) -> Seq<u8> {
        (**self).byte_seq()
    }

    fn as_bytes(&self) -> (r: &[u8]) {
        (**self).as_bytes()
    }
}

/// The hash capability of a tree: how an item becomes a leaf hash, and how two
/// hashes become their parent's. Both are functions of their arguments alone;
/// `combined` need not be commutative.
pub trait Hasher {
    /// The parent hash of a left hash `a` and a right hash `b`.
    spec fn combined(&self, a: Seq<u8>, b: Seq<u8>) -> Seq<u8>;

    /// The hash of raw bytes.
    spec fn hashed(&self, data: Seq<u8>) -> Seq<u8>;

    /// Computes the combined hash of two hash values `a` and `b`, in this order.
    fn get_combined_hash(&self, a: &Hash, b: &Hash) -> (h: Hash)
        ensures
            h@ == self.combined(a@, b@),
    ;

    /// Computes the hash of the bytes of `el`.
    fn get_hash_from_data<T: HashableData>(&self, el: T) -> (h: Hash)
        ensures
            h@ == self.hashed(el.byte_seq()),
    ;
}

/// The pair function of a hasher, as a value that the tree theory takes.
pub open spec fn combiner<H: Hasher>(hasher: H) -> spec_fn(Seq<u8>, Seq<u8>) -> Seq<u8> {
    |a: Seq<u8>, b: Seq<u8>| hasher.combined(a, b)
}

/// The byte strings that a sequence of hashes holds, in order.
pub open spec fn hash_seq(hashes: Seq<Hash>) -> Seq<Seq<u8>> {
    Seq::new(hashes.len(), |i: int| hashes[i]@)
}

/// The leaf hashes of a list of items under a hasher, in order.
pub open spec fn data_hashes<T: HashableData, H: Hasher>(hasher: H, data: Seq<T>) -> Seq<Seq<u8>> {
    Seq::new(data.len(), |i: int| hasher.hashed(data[i].byte_seq()))
}

/// The bytes of `a` followed by the bytes of `b`.
pub fn join_bytes(a: &[u8], b: &[u8]) -> (joined: Vec<u8>)
    ensures
        joined@ == a@ + b@,
{
    let mut joined: Vec<u8> = Vec::new();
    let mut i: usize = 0;
    while i < a.len()
        invariant
            i <= a.len(),
            joined@ == a@.subrange(0, i as int),
        decreases a.len() - i,
    {
        joined.push(a[i]);
        i += 1;
    }
    let mut j: usize = 0;
    while j < b.len()
        invariant
            j <= b.len(),
            joined@ == a@ + b@.subrange(0, j as int),
        decreases b.len() - j,
    {
        joined.push(b[j]);
        j += 1;
    }
    joined
}

/// Whether two hashes hold the same bytes.
pub fn same_hash(a: &Hash, b: &Hash) -> (same: bool)
    ensures
        same == (a@ == b@),
{
    let same = a == b;
    assert(same == (a@ =~= b@));
    same
}

/// A copy of a hash.
pub fn copy_hash(h: &Hash) -> (copy: Hash)
    ensures
        copy@ == h@,
{
    let copy = h.clone();
    assert(copy@ =~= h@);
    copy
}

/// The SHA-256 digest of a byte string.
pub uninterp spec fn sha256_digest(data: Seq<u8>) -> Seq<u8>;

/// The BLAKE2s-256 digest of a byte string.
pub uninterp spec fn blake2s256_digest(data: Seq<u8>) -> Seq<u8>;

/// The BLAKE2b-512 digest of a byte string.
pub uninterp spec fn blake2b512_digest(data: Seq<u8>) -> Seq<u8>;

/// Calls `Sha256::digest` of the sha2 crate. Believed, not proved: the bytes
/// that come back depend on the input bytes alone, so they are the named
/// digest of the input.
#[verifier::external_body]
pub(crate) fn sha256(data: &[u8]) -> (h: Hash)
    ensures
        h@ == sha256_digest(data@),
{
    Sha256::digest(data).to_vec()
}

/// Calls `Blake2s256::digest` of the blake2 crate. Believed, not proved: the
/// bytes that come back depend on the input bytes alone, so they are the
/// named digest of the input.
#[verifier::external_body]
pub(crate) fn blake2s256(data: &[u8]) -> (h: Hash)
    ensures
        h@ == blake2s256_digest(data@),
{
    Blake2s256::digest(data).to_vec()
}

/// Calls `Blake2b512::digest` of the blake2 crate. Believed, not proved: the
/// bytes that come back depend on the input bytes alone, so they are the
/// named digest of the input.
#[verifier::external_body]
pub(crate) fn blake2b512(data: &[u8]) -> (h: Hash)
    ensures
        h@ == blake2b512_digest(data@),
{
    Blake2b512::digest(data).to_vec()
}

/// The hash capability built on SHA-256: an item's hash is the digest of its
/// bytes, and a pair's hash is the digest of the left hash followed by the
/// right one.
pub struct Sha256Hasher {}

impl Sha256Hasher {
    pub fn new() -> (hasher: Self) {
        Self {  }
    }
}

impl Hasher for Sha256Hasher {
    open spec fn combined(&self, a: Seq<u8>, b: Seq<u8>) -> Seq<u8> {
        sha256_digest(a + b)
    }

    open spec fn hashed(&self, data: Seq<u8>) -> Seq<u8> {
        sha256_digest(data)
    }

    fn get_combined_hash(&self, a: &Hash, b: &Hash) -> (h: Hash) {
        let joined = join_bytes(a.as_slice(), b.as_slice());
        sha256(joined.as_slice())
    }

    fn get_hash_from_data<T: HashableData>(&self, el: T) -> (h: Hash) {
        sha256(el.as_bytes())
    }
}

/// The hash capability built on BLAKE2s-256, with the same two rules as
/// [`Sha256Hasher`].
pub struct Blake2s256Hasher {}

impl Hasher for Blake2s256Hasher {
    open spec fn combined(&self, a: Seq<u8>, b: Seq<u8>) -> Seq<u8> {
        blake2s256_digest(a + b)
    }

    open spec fn hashed(&self, data: Seq<u8>) -> Seq<u8> {
        blake2s256_digest(data)
    }

    fn get_combined_hash(&self, a: &Hash, b: &Hash) -> (h: Hash) {
        let joined = join_bytes(a.as_slice(), b.as_slice());
        blake2s256(joined.as_slice())
    }

    fn get_hash_from_data<T: HashableData>(&self, el: T) -> (h: Hash) {
        blake2s256(el.as_bytes())
    }
}

impl Blake2s256Hasher {
    pub fn new() -> (hasher: Self) {
        Self {  }
    }
}

} // verus!
