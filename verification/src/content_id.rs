use crate::chunk::{lemma_same_chunk_is_equal, Chunk};
use crate::hash::{blake2b_256, chunk_hash, hash_eq, spec_blake2b, spec_chunk_hash};
use crate::header::{copy_chunks, ObjectHandle};
use vstd::prelude::*;
use vstd::std_specs::cmp::PartialEqSpecImpl;

verus! {

/// A value that identifies the contents of an object at a certain point in
/// time: the repository it belongs to, its size, and its chunks.
///
/// Content identifiers of one repository are equal when the contents are
/// stored as the same chunks. Those of different repositories are never
/// equal.
#[derive(Debug, Eq)]
pub struct ContentId {
    /// The identifier of the repository that the object belongs to.
    pub repo_id: u128,
    /// The size of the data in bytes.
    pub size: u64,
    /// The chunks which make up the data.
    pub chunks: Vec<Chunk>,
}

/// Whether `other` is made of the payloads that `chunks` refer to: it begins
/// with as many bytes as the first chunk has, with the checksum of that
/// chunk; and so on for the chunks that follow, with no byte left at the end.
pub open spec fn same_contents(chunks: Seq<Chunk>, other: Seq<u8>) -> bool
    decreases chunks.len(),
{
    if chunks.len() == 0 {
        other.len() == 0
    } else {
        &&& chunks[0].size <= other.len()
        &&& chunks[0].hash@ == spec_chunk_hash(other.take(chunks[0].size as int))
        &&& same_contents(chunks.skip(1), other.skip(chunks[0].size as int))
    }
}

/// The checksums of a list of chunks, one after the other.
pub open spec fn joined_hashes(chunks: Seq<Chunk>) -> Seq<u8>
    decreases chunks.len(),
{
    if chunks.len() == 0 {
        Seq::empty()
    } else {
        joined_hashes(chunks.drop_last()) + chunks.last().hash@
    }
}

/// Whether two lists hold the same chunks.
pub fn same_chunks(a: &Vec<Chunk>, b: &Vec<Chunk>) -> (same: bool)
    ensures
        same == (a@ == b@),
{
    if a.len() != b.len() {
        return false;
    }
    let mut i: usize = 0;
    while i < a.len()
        invariant
            i <= a.len(),
            a.len() == b.len(),
            forall|j: int| 0 <= j < i ==> a@[j] == b@[j],
        decreases a.len() - i,
    {
        if !a[i].same(&b[i]) {
            return false;
        }
        proof {
            lemma_same_chunk_is_equal(a@[i as int], b@[i as int]);
        }
        i += 1;
    }
    assert(a@ =~= b@);
    true
}

impl ContentId {
    /// Whether two content identifiers are equal: they are of one repository,
    /// and give the same size and the same chunks.
    pub open spec fn same_as(&self, other: &ContentId) -> bool {
        self.repo_id == other.repo_id && self.size == other.size && self.chunks@ == other.chunks@
    }

    /// The content identifier of the object with the given handle.
    pub fn of(handle: &ObjectHandle) -> (id: ContentId)
        ensures
            id.repo_id == handle.repo_id,
            id.size == handle.size,
            id.chunks@ == handle.chunks@,
    {
        ContentId { repo_id: handle.repo_id, size: handle.size, chunks: copy_chunks(&handle.chunks) }
    }

    /// The size of the contents represented by this content ID in bytes.
    pub fn size(&self) -> (size: u64)
        ensures
            size == self.size,
    {
        self.size
    }

    /// The number of chunks.
    pub fn chunk_count(&self) -> (count: usize)
        ensures
            count == self.chunks@.len(),
    {
        self.chunks.len()
    }

    /// The number of bytes that chunk `step` has, and none past the last
    /// chunk: what is to be had from a source of bytes next, when it is
    /// compared with these contents chunk by chunk.
    pub fn expected_len(&self, step: usize) -> (len: Option<usize>)
        ensures
            len == if step < self.chunks@.len() {
                Some(self.chunks@[step as int].size)
            } else {
                None
            },
    {
        if step < self.chunks.len() {
            Some(self.chunks[step].size)
        } else {
            None
        }
    }

    /// Whether `data` is the payload that chunk `step` refers to.
    pub fn chunk_matches(&self, step: usize, data: &[u8]) -> (matches: bool)
        ensures
            matches == (step < self.chunks@.len() && self.chunks@[step as int].refers_to(data@)),
    {
        if step >= self.chunks.len() {
            return false;
        }
        if data.len() != self.chunks[step].size {
            return false;
        }
        let hash = chunk_hash(data);
        hash_eq(&hash, &self.chunks[step].hash)
    }

    /// Return whether this content ID has the same contents as `other`.
    ///
    /// The bytes are compared chunk by chunk, by size and checksum, and the
    /// comparison ends at the first chunk that does not match. Bytes that are
    /// missing at the end, and bytes that are left over, make the contents
    /// different.
    pub fn compare_contents(&self, other: &[u8]) -> (same: bool)
        ensures
            same == same_contents(self.chunks@, other@),
    {
        let mut offset: usize = 0;
        let mut step: usize = 0;
        proof {
            assert(self.chunks@.skip(0) =~= self.chunks@);
            assert(other@.skip(0) =~= other@);
        }
        while step < self.chunks.len()
            invariant
                step <= self.chunks.len(),
                offset <= other.len(),
                same_contents(self.chunks@, other@) == same_contents(
                    self.chunks@.skip(step as int),
                    other@.skip(offset as int),
                ),
            decreases self.chunks.len() - step,
        {
            let size = self.chunks[step].size;
            proof {
                assert(self.chunks@.skip(step as int)[0] == self.chunks@[step as int]);
                assert(self.chunks@.skip(step as int).skip(1) =~= self.chunks@.skip(step + 1));
            }
            if size > other.len() - offset {
                return false;
            }
            let piece = vstd::slice::slice_subrange(other, offset, offset + size);
            proof {
                assert(piece@ =~= other@.skip(offset as int).take(size as int));
                assert(other@.skip(offset as int).skip(size as int) =~= other@.skip(
                    offset + size,
                ));
            }
            if !self.chunk_matches(step, piece) {
                return false;
            }
            offset = offset + size;
            step += 1;
        }
        offset == other.len()
    }

    /// A 32-byte digest of the chunks: the BLAKE2b checksum of their
    /// checksums, one after the other.
    pub fn checksum(&self) -> (digest: [u8; 32])
        ensures
            digest@ == spec_blake2b(joined_hashes(self.chunks@)),
    {
        let mut concatenation: Vec<u8> = Vec::new();
        let mut i: usize = 0;
        while i < self.chunks.len()
            invariant
                i <= self.chunks.len(),
                concatenation@ == joined_hashes(self.chunks@.take(i as int)),
            decreases self.chunks.len() - i,
        {
            let hash = self.chunks[i].hash;
            concatenation.extend_from_slice(hash.as_slice());
            proof {
                assert(self.chunks@.take(i + 1).drop_last() =~= self.chunks@.take(i as int));
            }
            i += 1;
        }
        assert(self.chunks@.take(i as int) =~= self.chunks@);
        blake2b_256(concatenation.as_slice())
    }

    /// A copy of the content identifier.
    pub fn duplicate(&self) -> (copy: ContentId)
        ensures
            copy.same_as(self),
    {
        ContentId { repo_id: self.repo_id, size: self.size, chunks: copy_chunks(&self.chunks) }
    }
}

impl ObjectHandle {
    /// Return a `ContentId` representing the contents of the object.
    ///
    /// The returned `ContentId` represents the contents of the object at the
    /// time this method was called. It is not updated when the object is
    /// modified.
    pub fn content_id(&self) -> (id: ContentId)
        ensures
            id.repo_id == self.repo_id,
            id.size == self.size,
            id.chunks@ == self.chunks@,
    {
        ContentId::of(self)
    }

    /// Return whether this object has the same contents as `other`, as
    /// `ContentId::compare_contents` says.
    pub fn compare_contents(&self, other: &[u8]) -> (same: bool)
        ensures
            same == same_contents(self.chunks@, other@),
    {
        self.content_id().compare_contents(other)
    }
}

impl PartialEq for ContentId {
    fn eq(&self, other: &ContentId) -> (same: bool) {
        self.repo_id == other.repo_id && self.size == other.size && same_chunks(
            &self.chunks,
            &other.chunks,
        )
    }
}

impl PartialEqSpecImpl for ContentId {
    open spec fn obeys_eq_spec() -> bool {
        true
    }

    open spec fn eq_spec(&self, other: &ContentId) -> bool {
        self.same_as(other)
    }
}

/// The payloads that chunks refer to, put together, have the same contents
/// as the chunks.
pub proof fn lemma_pieces_have_same_contents(chunks: Seq<Chunk>, pieces: Seq<Seq<u8>>)
    requires
        chunks.len() == pieces.len(),
        forall|i: int| 0 <= i < chunks.len() ==> (#[trigger] chunks[i]).refers_to(pieces[i]),
    ensures
        same_contents(chunks, pieces.flatten()),
    decreases chunks.len(),
{
    if chunks.len() == 0 {
        assert(pieces.flatten() =~= Seq::<u8>::empty());
    } else {
        let rest = pieces.drop_first();
        assert(pieces.flatten() == pieces.first() + rest.flatten());
        assert(chunks[0].refers_to(pieces[0]));
        assert(pieces.flatten().take(chunks[0].size as int) =~= pieces[0]);
        assert(pieces.flatten().skip(chunks[0].size as int) =~= rest.flatten());
        assert forall|i: int| 0 <= i < chunks.skip(1).len() implies (#[trigger] chunks.skip(
            1,
        )[i]).refers_to(rest[i]) by {
            assert(chunks.skip(1)[i] == chunks[i + 1]);
            assert(rest[i] == pieces[i + 1]);
        }
        lemma_pieces_have_same_contents(chunks.skip(1), rest);
    }
}

} // verus!
