//! Digests and the byte encodings that node commitments are made of.

use byteorder::ByteOrder;
use sha2::Digest;
use vstd::prelude::*;

verus! {

/// Number of bytes in a digest, and in a key.
pub const HASH_SIZE: usize = 32;

/// A 32-byte digest that identifies a node.
pub type NodeHash = [u8; 32];

/// The SHA-256 digest of a byte string.
pub uninterp spec fn sha256(data: Seq<u8>) -> Seq<u8>;

/// The eight bytes of `n`, most significant first.
pub open spec fn be_bytes(n: u64) -> Seq<u8> {
    Seq::new(8, |i: int| ((n >> ((8 * (7 - i)) as u64)) & 0xff) as u8)
}

/// The digest that commits to a leaf: its value followed by its sum.
pub open spec fn leaf_hash(value: Seq<u8>, sum: u64) -> Seq<u8> {
    sha256(value + be_bytes(sum))
}

/// The digest that commits to a branch: the digests of both children
/// followed by the sum of the branch.
pub open spec fn branch_hash(left: Seq<u8>, right: Seq<u8>, sum: u64) -> Seq<u8> {
    sha256(left + right + be_bytes(sum))
}

/// Calls `sha2::Sha256::digest`. The contract names the digest of the input
/// bytes; the output array has 32 bytes by its type.
#[verifier::external_body]
fn digest(data: &[u8]) -> (out: NodeHash)
    ensures
        out@ == sha256(data@),
{
    sha2::Sha256::digest(data).into()
}

/// Calls `byteorder::BigEndian::write_u64` on a buffer of eight bytes. The
/// contract states the bytes written: those of `n`, most significant first.
#[verifier::external_body]
fn sum_bytes(n: u64) -> (out: [u8; 8])
    ensures
        out@ == be_bytes(n),
{
    let mut buf = [0u8; 8];
    byteorder::BigEndian::write_u64(&mut buf, n);
    buf
}

/// Appends the bytes of `src` to `dst`.
fn append_bytes(dst: &mut Vec<u8>, src: &[u8])
    ensures
        final(dst)@ == old(dst)@ + src@,
{
    let ghost before = dst@;
    let mut i: usize = 0;
    while i < src.len()
        invariant
            i <= src.len(),
            dst@ == before + src@.take(i as int),
        decreases src.len() - i,
    {
        dst.push(src[i]);
        i = i + 1;
        assert(dst@ =~= before + src@.take(i as int));
    }
    assert(src@.take(src@.len() as int) =~= src@);
}

/// Computes the digest of a leaf with the given value and sum.
pub fn hash_leaf(value: &Vec<u8>, sum: u64) -> (out: NodeHash)
    ensures
        out@ == leaf_hash(value@, sum),
{
    let mut buf: Vec<u8> = Vec::new();
    append_bytes(&mut buf, value.as_slice());
    let tail = sum_bytes(sum);
    append_bytes(&mut buf, tail.as_slice());
    assert(buf@ =~= value@ + be_bytes(sum));
    digest(buf.as_slice())
}

/// Computes the digest of a branch from the digests of its children and its
/// sum.
pub fn hash_branch(left: &NodeHash, right: &NodeHash, sum: u64) -> (out: NodeHash)
    ensures
        out@ == branch_hash(left@, right@, sum),
{
    let mut buf: Vec<u8> = Vec::new();
    append_bytes(&mut buf, left.as_slice());
    append_bytes(&mut buf, right.as_slice());
    let tail = sum_bytes(sum);
    append_bytes(&mut buf, tail.as_slice());
    assert(buf@ =~= left@ + right@ + be_bytes(sum));
    digest(buf.as_slice())
}

/// Tells whether two digests hold the same bytes.
pub fn hash_eq(a: &NodeHash, b: &NodeHash) -> (r: bool)
    ensures
        r == (a@ == b@),
{
    let mut i: usize = 0;
    while i < 32
        invariant
            i <= 32,
            forall|j: int| 0 <= j < i ==> a@[j] == b@[j],
        decreases 32 - i,
    {
        if a[i] != b[i] {
            return false;
        }
        i = i + 1;
    }
    assert(a@ =~= b@);
    true
}

} // verus!
