//! Fixed-width cryptographic digests and the canonical byte-feeding rules
//! for tree nodes: a leaf is hashed as 0x00 followed by its bytes, an inner
//! node as 0x01 followed by the child hashes and the node's Bloom bytes.

use vstd::prelude::*;

verus! {

/// What SHA-256 returns on the given bytes; a pure function of its input.
pub uninterp spec fn sha256_of(data: Seq<u8>) -> Seq<u8>;

/// What SHA-512 returns on the given bytes; a pure function of its input.
pub uninterp spec fn sha512_of(data: Seq<u8>) -> Seq<u8>;

/// Relies on ring::digest::digest with SHA256: the digest depends on the
/// input bytes alone and is 32 bytes long (ring documents output_len 32).
#[verifier::external_body]
fn sha256_bytes(data: &[u8]) -> (r: Vec<u8>)
    ensures
        r@ == sha256_of(data@),
        r@.len() == 32,
{
    ring::digest::digest(&ring::digest::SHA256, data).as_ref().to_vec()
}

/// Relies on ring::digest::digest with SHA512: the digest depends on the
/// input bytes alone and is 64 bytes long (ring documents output_len 64).
#[verifier::external_body]
fn sha512_bytes(data: &[u8]) -> (r: Vec<u8>)
    ensures
        r@ == sha512_of(data@),
        r@.len() == 64,
{
    ring::digest::digest(&ring::digest::SHA512, data).as_ref().to_vec()
}

/// The hashing algorithms a tree can be built with.
#[derive(Clone, Copy, Debug, PartialEq, Eq, Structural)]
pub enum HashAlgo {
    Sha256,
    Sha512,
}

/// The digest the chosen algorithm yields on the given bytes.
pub open spec fn algo_hash(algo: HashAlgo, data: Seq<u8>) -> Seq<u8> {
    match algo {
        HashAlgo::Sha256 => sha256_of(data),
        HashAlgo::Sha512 => sha512_of(data),
    }
}

/// The digest width of the chosen algorithm.
pub open spec fn algo_out_len(algo: HashAlgo) -> nat {
    match algo {
        HashAlgo::Sha256 => 32,
        HashAlgo::Sha512 => 64,
    }
}

/// Hash raw bytes with the chosen algorithm.
pub fn hash_bytes(algo: HashAlgo, data: &[u8]) -> (r: Vec<u8>)
    ensures
        r@ == algo_hash(algo, data@),
        r@.len() == algo_out_len(algo),
{
    match algo {
        HashAlgo::Sha256 => sha256_bytes(data),
        HashAlgo::Sha512 => sha512_bytes(data),
    }
}

/// The canonical encoding of a leaf: domain prefix 0x00 then the value bytes.
pub open spec fn leaf_bytes(value: Seq<u8>) -> Seq<u8> {
    seq![0x00u8] + value
}

/// The canonical encoding of an inner node: domain prefix 0x01, the two
/// child hashes, then the serialized Bloom filter of the node.
pub open spec fn node_bytes(left: Seq<u8>, right: Seq<u8>, bloom: Seq<u8>) -> Seq<u8> {
    seq![0x01u8] + left + right + bloom
}

/// The digest of the empty input under the chosen algorithm.
pub open spec fn spec_hash_empty(algo: HashAlgo) -> Seq<u8> {
    algo_hash(algo, Seq::<u8>::empty())
}

/// The digest of a leaf holding the given value.
pub open spec fn spec_hash_leaf(algo: HashAlgo, value: Seq<u8>) -> Seq<u8> {
    algo_hash(algo, leaf_bytes(value))
}

/// The digest of an inner node over its children and Bloom bytes.
pub open spec fn spec_hash_nodes(
    algo: HashAlgo,
    left: Seq<u8>,
    right: Seq<u8>,
    bloom: Seq<u8>,
) -> Seq<u8> {
    algo_hash(algo, node_bytes(left, right, bloom))
}

/// Hash of the empty string, used as the root of an empty tree.
pub fn hash_empty(algo: HashAlgo) -> (r: Vec<u8>)
    ensures
        r@ == spec_hash_empty(algo),
        r@.len() == algo_out_len(algo),
{
    let data: Vec<u8> = Vec::new();
    let r = hash_bytes(algo, data.as_slice());
    proof {
        assert(data@ =~= Seq::<u8>::empty());
    }
    r
}

/// Hash of a leaf value under the 0x00 domain prefix.
pub fn hash_leaf(algo: HashAlgo, value: &Vec<u8>) -> (r: Vec<u8>)
    ensures
        r@ == spec_hash_leaf(algo, value@),
        r@.len() == algo_out_len(algo),
{
    let mut data: Vec<u8> = Vec::new();
    data.push(0x00u8);
    let mut i: usize = 0;
    while i < value.len()
        invariant
            i <= value@.len(),
            data@ == seq![0x00u8] + value@.subrange(0, i as int),
        decreases value@.len() - i,
    {
        data.push(value[i]);
        i += 1;
        proof {
            assert(data@ =~= seq![0x00u8] + value@.subrange(0, i as int));
        }
    }
    proof {
        assert(data@ =~= leaf_bytes(value@));
    }
    hash_bytes(algo, data.as_slice())
}

/// Hash of an inner node under the 0x01 domain prefix.
pub fn hash_nodes(algo: HashAlgo, left: &Vec<u8>, right: &Vec<u8>, bloom: &Vec<u8>) -> (r: Vec<u8>)
    ensures
        r@ == spec_hash_nodes(algo, left@, right@, bloom@),
        r@.len() == algo_out_len(algo),
{
    let mut data: Vec<u8> = Vec::new();
    data.push(0x01u8);
    append_bytes(&mut data, left);
    append_bytes(&mut data, right);
    append_bytes(&mut data, bloom);
    proof {
        assert(data@ =~= node_bytes(left@, right@, bloom@));
    }
    hash_bytes(algo, data.as_slice())
}

/// Append every byte of `src` to `dst`.
pub fn append_bytes(dst: &mut Vec<u8>, src: &Vec<u8>)
    ensures
        final(dst)@ == old(dst)@ + src@,
{
    let mut i: usize = 0;
    while i < src.len()
        invariant
            i <= src@.len(),
            dst@ == old(dst)@ + src@.subrange(0, i as int),
        decreases src@.len() - i,
    {
        dst.push(src[i]);
        i += 1;
        proof {
            assert(dst@ =~= old(dst)@ + src@.subrange(0, i as int));
        }
    }
    proof {
        assert(dst@ =~= old(dst)@ + src@);
    }
}

/// An opaque fixed-width digest carried inside block headers.
#[derive(Clone, Debug)]
pub struct Digest(pub Vec<u8>);

impl PartialEq for Digest {
    fn eq(&self, other: &Digest) -> (r: bool) {
        compare_bytes(&self.0, &other.0)
    }
}

impl vstd::std_specs::cmp::PartialEqSpecImpl for Digest {
    open spec fn obeys_eq_spec() -> bool {
        true
    }

    open spec fn eq_spec(&self, other: &Digest) -> bool {
        self.0@ == other.0@
    }
}

/// A fresh vector holding the same bytes.
pub fn copy_bytes(src: &Vec<u8>) -> (r: Vec<u8>)
    ensures r@ == src@,
{
    let mut out: Vec<u8> = Vec::new();
    append_bytes(&mut out, src);
    proof {
        assert(out@ =~= src@);
    }
    out
}

/// Byte-for-byte equality of two byte vectors.
pub fn compare_bytes(a: &Vec<u8>, b: &Vec<u8>) -> (r: bool)
    ensures r == (a@ == b@),
{
    if a.len() != b.len() {
        proof {
            assert(a@.len() != b@.len());
        }
        return false;
    }
    let mut i: usize = 0;
    while i < a.len()
        invariant
            i <= a@.len(),
            a@.len() == b@.len(),
            forall|j: int| 0 <= j < i ==> a@[j] == b@[j],
        decreases a@.len() - i,
    {
        if a[i] != b[i] {
            return false;
        }
        i += 1;
    }
    proof {
        assert(a@ =~= b@);
    }
    true
}

} // verus!
