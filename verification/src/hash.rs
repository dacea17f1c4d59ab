use blake2::digest::{Input, VariableOutput};
use vstd::prelude::*;

verus! {

/// The number of bytes in a chunk checksum.
pub const CHUNK_HASH_SIZE: usize = 32;

/// A 256-bit checksum that identifies a chunk by its contents.
pub type ChunkHash = [u8; 32];

/// The BLAKE3 digest of a byte sequence.
pub uninterp spec fn spec_chunk_hash(data: Seq<u8>) -> Seq<u8>;

/// The 32-byte BLAKE2b digest of a byte sequence.
pub uninterp spec fn spec_blake2b(data: Seq<u8>) -> Seq<u8>;

/// Computes the checksum of `data`.
///
/// Calls `blake3::hash`. The digest is taken on trust to be a function of the
/// input bytes alone; nothing else is claimed of it.
#[verifier::external_body]
pub fn chunk_hash(data: &[u8]) -> (hash: ChunkHash)
    ensures
        hash@ == spec_chunk_hash(data@),
{
    blake3::hash(data).into()
}

/// Computes the 32-byte BLAKE2b digest of `data`.
///
/// Feeds `data` to a `blake2::VarBlake2b` with an output size of 32 and takes
/// its result. The digest is taken on trust to be a function of the input
/// bytes alone.
#[verifier::external_body]
pub(crate) fn blake2b_256(data: &[u8]) -> (digest: [u8; 32])
    ensures
        digest@ == spec_blake2b(data@),
{
    let mut hasher = blake2::VarBlake2b::new(32).unwrap();
    hasher.input(data);
    let result = hasher.vec_result();
    let mut checksum = [0u8; 32];
    checksum.copy_from_slice(&result);
    checksum
}

/// Whether two checksums hold the same bytes.
pub fn hash_eq(a: &ChunkHash, b: &ChunkHash) -> (same: bool)
    ensures
        same == (a@ == b@),
{
    let mut i: usize = 0;
    while i < 32
        invariant
            i <= 32,
            forall|j: int| 0 <= j < i ==> a@[j] == b@[j],
        decreases 32 - i,
    {
        if a[i] != b[i] {
            return false;
        }
        i += 1;
    }
    assert(a@ =~= b@);
    true
}

} // verus!
