use tiny_keccak::Hasher;
use vstd::prelude::*;

verus! {

/// Length in bytes of every digest handled by the tree.
pub const HASH_LENGTH: usize = 32;

/// A 256-bit digest.
#[derive(Clone, Copy, Debug, PartialEq, Eq, Hash)]
pub struct HashValue {
    pub bytes: [u8; 32],
}

impl View for HashValue {
    type V = Seq<u8>;

    open spec fn view(&self) -> Seq<u8> {
        self.bytes@
    }
}

/// What SHA3-256 yields on a byte string.
pub uninterp spec fn sha3_256_of(data: Seq<u8>) -> Seq<u8>;

/// Relies on tiny_keccak's `Sha3::v256`: the 32-byte SHA3-256 digest of `data`,
/// a function of the bytes alone.
#[verifier::external_body]
fn sha3_256(data: &[u8]) -> (r: HashValue)
    ensures
        r@ == sha3_256_of(data@),
{
    let mut hasher = tiny_keccak::Sha3::v256();
    hasher.update(data);
    let mut out = [0u8; 32];
    hasher.finalize(&mut out);
    HashValue { bytes: out }
}

/// Domain tags that keep the preimages of leaves, internal nodes and values
/// apart. Every digest below is SHA3-256 over one such tag byte followed by the
/// inputs: this library's own domain separation. Hashers that separate domains
/// by a salted prefix instead give other digests for the same nodes.
pub const LEAF_TAG: u8 = 0;
pub const INTERNAL_TAG: u8 = 1;
pub const VALUE_TAG: u8 = 2;

/// The digest of an empty subtree: the ASCII bytes of
/// "SPARSE_MERKLE_PLACEHOLDER_HASH", then two zero bytes.
pub open spec fn placeholder_bytes() -> Seq<u8> {
    seq![
        83u8, 80, 65, 82, 83, 69, 95, 77, 69, 82, 75, 76, 69, 95, 80, 76,
        65, 67, 69, 72, 79, 76, 68, 69, 82, 95, 72, 65, 83, 72, 0, 0,
    ]
}

pub open spec fn tagged_digest(tag: u8, a: Seq<u8>, b: Seq<u8>) -> Seq<u8> {
    sha3_256_of(seq![tag] + a + b)
}

/// The digest of an internal point of the tree from its two halves:
/// SHA3-256 of `INTERNAL_TAG`, `left`, `right`.
pub open spec fn internal_combine(left: Seq<u8>, right: Seq<u8>) -> Seq<u8> {
    tagged_digest(INTERNAL_TAG, left, right)
}

/// The digest of a leaf from its key and the digest of its value:
/// SHA3-256 of `LEAF_TAG`, `key`, `value_hash`.
pub open spec fn leaf_combine(key: Seq<u8>, value_hash: Seq<u8>) -> Seq<u8> {
    tagged_digest(LEAF_TAG, key, value_hash)
}

/// The digest of a value blob: SHA3-256 of `VALUE_TAG` and the blob's bytes.
pub open spec fn value_digest(blob: Seq<u8>) -> Seq<u8> {
    tagged_digest(VALUE_TAG, blob, Seq::empty())
}

impl HashValue {
    pub fn new(bytes: [u8; 32]) -> (r: HashValue)
        ensures
            r@ == bytes@,
    {
        HashValue { bytes }
    }

    /// The digest from a slice of exactly 32 bytes.
    pub fn from_slice(bytes: &[u8]) -> (r: Option<HashValue>)
        ensures
            bytes@.len() == HASH_LENGTH <==> r is Some,
            r matches Some(h) ==> h@ == bytes@,
    {
        if bytes.len() != HASH_LENGTH {
            return None;
        }
        let mut out = [0u8; 32];
        let mut i: usize = 0;
        while i < HASH_LENGTH
            invariant
                bytes@.len() == HASH_LENGTH,
                i <= HASH_LENGTH,
                forall|k: int| 0 <= k < i ==> out@[k] == bytes@[k],
            decreases HASH_LENGTH - i,
        {
            out[i] = bytes[i];
            i = i + 1;
        }
        assert(out@ =~= bytes@);
        Some(HashValue { bytes: out })
    }

    pub fn to_vec(&self) -> (r: Vec<u8>)
        ensures
            r@ == self@,
    {
        let mut out: Vec<u8> = Vec::new();
        append_hash(&mut out, self);
        assert(out@ =~= self@);
        out
    }
}

/// Appends the 32 bytes of a digest.
pub fn append_hash(out: &mut Vec<u8>, h: &HashValue)
    ensures
        final(out)@ == old(out)@ + h@,
{
    let ghost start = out@;
    let mut i: usize = 0;
    while i < HASH_LENGTH
        invariant
            i <= HASH_LENGTH,
            h@.len() == HASH_LENGTH,
            out@ == start + h@.subrange(0, i as int),
        decreases HASH_LENGTH - i,
    {
        out.push(h.bytes[i]);
        assert(out@ =~= start + h@.subrange(0, i + 1));
        i = i + 1;
    }
    assert(h@.subrange(0, HASH_LENGTH as int) =~= h@);
}

pub fn placeholder_hash() -> (r: HashValue)
    ensures
        r@ == placeholder_bytes(),
{
    let bytes: [u8; 32] = [
        83u8, 80, 65, 82, 83, 69, 95, 77, 69, 82, 75, 76, 69, 95, 80, 76,
        65, 67, 69, 72, 79, 76, 68, 69, 82, 95, 72, 65, 83, 72, 0, 0,
    ];
    assert(bytes@ =~= placeholder_bytes());
    HashValue { bytes }
}

fn tagged_hash(tag: u8, a: &HashValue, b: &HashValue) -> (r: HashValue)
    ensures
        r@ == tagged_digest(tag, a@, b@),
{
    let mut buf: Vec<u8> = Vec::new();
    buf.push(tag);
    append_hash(&mut buf, a);
    append_hash(&mut buf, b);
    assert(buf@ =~= seq![tag] + a@ + b@);
    sha3_256(buf.as_slice())
}

pub fn hash_internal(left: &HashValue, right: &HashValue) -> (r: HashValue)
    ensures
        r@ == internal_combine(left@, right@),
{
    tagged_hash(INTERNAL_TAG, left, right)
}

pub fn hash_leaf(key: &HashValue, value_hash: &HashValue) -> (r: HashValue)
    ensures
        r@ == leaf_combine(key@, value_hash@),
{
    tagged_hash(LEAF_TAG, key, value_hash)
}

/// An opaque value stored under a key; the tree only ever reads its digest.
#[derive(Clone, Debug, PartialEq, Eq)]
pub struct AccountStateBlob {
    pub blob: Vec<u8>,
}

impl AccountStateBlob {
    pub fn new(blob: Vec<u8>) -> (r: AccountStateBlob)
        ensures
            r.blob@ == blob@,
    {
        AccountStateBlob { blob }
    }

    pub fn hash(&self) -> (r: HashValue)
        ensures
            r@ == value_digest(self.blob@),
    {
        let mut buf: Vec<u8> = Vec::new();
        buf.push(VALUE_TAG);
        let mut i: usize = 0;
        while i < self.blob.len()
            invariant
                i <= self.blob@.len(),
                buf@ == seq![VALUE_TAG] + self.blob@.subrange(0, i as int),
            decreases self.blob@.len() - i,
        {
            buf.push(self.blob[i]);
            assert(buf@ =~= seq![VALUE_TAG] + self.blob@.subrange(0, i + 1));
            i = i + 1;
        }
        assert(buf@ =~= seq![VALUE_TAG] + self.blob@ + Seq::<u8>::empty());
        sha3_256(buf.as_slice())
    }
}

} // verus!
