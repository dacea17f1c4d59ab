use crate::chunk::Chunk;
use crate::error::Error;
use crate::hash::{chunk_hash, hash_eq, spec_chunk_hash};
use crate::header::{chunk_index, ChunkEntry, Header, ObjectHandle};
use crate::store::{BlobId, BlobKind, BlobStore};
use vstd::prelude::*;
use vstd::string::StringSliceAdditionalSpecFns;

verus! {

/// The key of the blob that holds the chunk payload with identifier `id`.
pub open spec fn spec_chunk_blob(id: u128) -> BlobId {
    BlobId { kind: BlobKind::Chunk, id }
}

/// The key of the blob that holds the chunk payload with identifier `id`.
#[verifier::when_used_as_spec(spec_chunk_blob)]
pub fn chunk_blob(id: u128) -> (key: BlobId)
    ensures
        key == spec_chunk_blob(id),
{
    BlobId { kind: BlobKind::Chunk, id }
}

/// No two different payloads of the set have the same checksum.
pub open spec fn collision_free(payloads: Set<Seq<u8>>) -> bool {
    forall|a: Seq<u8>, b: Seq<u8>|
        payloads.contains(a) && payloads.contains(b) && spec_chunk_hash(a) == spec_chunk_hash(b)
            ==> a == b
}

/// The key of the blob that holds the header with identifier `id`.
pub open spec fn spec_header_blob(id: u128) -> BlobId {
    BlobId { kind: BlobKind::Header, id }
}

/// The key of the blob that holds the header with identifier `id`.
#[verifier::when_used_as_spec(spec_header_blob)]
pub fn header_blob(id: u128) -> (key: BlobId)
    ensures
        key == spec_header_blob(id),
{
    BlobId { kind: BlobKind::Header, id }
}

/// The identifier of the header that the pointer blob names, if the store
/// has a pointer blob of sixteen bytes.
pub open spec fn spec_pointer_target(blobs: Map<BlobId, Seq<u8>>) -> Option<u128> {
    if blobs.contains_key(crate::store::spec_header_pointer())
        && blobs[crate::store::spec_header_pointer()].len() == 16 {
        Some(crate::wire::decode_uint(blobs[crate::store::spec_header_pointer()]) as u128)
    } else {
        None
    }
}

/// A repository of objects: a blob store, and the header that says what the
/// blobs in it mean.
pub struct ObjectRepo<S: BlobStore> {
    /// The blob store.
    pub store: S,
    /// The state of the repository, as it is in memory.
    pub header: Header,
    /// The identifier of the instance that this value works on.
    pub instance_id: u128,
}

impl<S: BlobStore> ObjectRepo<S> {
    /// The invariant of a repository: the store and the header are in order,
    /// and the header that the store names as the current one, if it names
    /// any, has an identifier that the header in memory has given out.
    pub open spec fn wf(&self) -> bool {
        &&& self.store.inv()
        &&& self.header.wf()
        &&& spec_pointer_target(self.store.blobs()) matches Some(target) ==> target
            < self.header.next_blob
    }

    /// Whether the blob store never fails of its own.
    pub open spec fn reliable(&self) -> bool {
        self.store.reliable()
    }

    /// What reading the chunk with checksum `hash` and `size` bytes gives
    /// while the store does not fail: its payload, `Error::NotFound` where the
    /// header does not record the chunk or the store lacks its blob, and
    /// `Error::InvalidData` where the blob does not decode to a payload of that
    /// size and checksum.
    pub open spec fn stored(&self, hash: Seq<u8>, size: nat) -> Result<Seq<u8>, Error> {
        match self.header.blob_of(hash) {
            None => Err(Error::NotFound),
            Some(id) => if !self.store.blobs().contains_key(spec_chunk_blob(id)) {
                Err(Error::NotFound)
            } else {
                match self.header.config.compression.spec_decompress(
                    self.store.blobs()[spec_chunk_blob(id)],
                ) {
                    Err(error) => Err(error),
                    Ok(payload) => if payload.len() == size && spec_chunk_hash(payload) == hash {
                        Ok(payload)
                    } else {
                        Err(Error::InvalidData)
                    },
                }
            },
        }
    }

    /// What reading `chunk` gives while the store does not fail.
    pub open spec fn read_outcome(&self, chunk: Chunk) -> Result<Seq<u8>, Error> {
        self.stored(chunk.hash@, chunk.size as nat)
    }

    /// Whether `payload` is stored, and reads back as itself.
    pub open spec fn holds(&self, payload: Seq<u8>) -> bool {
        self.stored(spec_chunk_hash(payload), payload.len()) == Ok::<Seq<u8>, Error>(payload)
    }

    /// Whether the header records a chunk with checksum `hash`.
    pub open spec fn records(&self, hash: Seq<u8>) -> bool {
        self.header.blob_of(hash) is Some
    }

    /// Whether `post` has no more blobs than `pre` and one for each of
    /// `pieces`: at most that many blob identifiers were given out, each blob
    /// that is new holds a chunk under one of them, and where `pre` records a
    /// chunk with the checksum of each piece, the store has not changed.
    pub open spec fn stores_at_most(pre: &Self, post: &Self, pieces: Seq<Seq<u8>>) -> bool {
        &&& pre.header.next_blob <= post.header.next_blob <= pre.header.next_blob + pieces.len()
        &&& forall|key: BlobId| #[trigger]
            post.store.blobs().contains_key(key) && !pre.store.blobs().contains_key(key) ==> key.kind
                == BlobKind::Chunk && pre.header.next_blob <= key.id <= post.header.next_blob
        &&& (forall|i: int| 0 <= i < pieces.len() ==> pre.records(spec_chunk_hash(#[trigger] pieces[i])))
            ==> post.store.blobs() == pre.store.blobs() && post.header.next_blob
            == pre.header.next_blob
    }

    /// Whether `post` has the objects of `pre`, and gave out no handle.
    pub open spec fn same_objects(pre: &Self, post: &Self) -> bool {
        &&& post.header.objects == pre.header.objects
        &&& post.header.version == pre.header.version
        &&& post.header.next_handle == pre.header.next_handle
        &&& post.header.free_handles == pre.header.free_handles
    }

    /// Whether `post` is `pre` with one more reference taken to the chunk
    /// with checksum `hash`, which `pre` records.
    pub open spec fn reference_taken(pre: &Self, post: &Self, hash: Seq<u8>) -> bool {
        &&& chunk_index(pre.header.chunks@, hash) matches Some(i)
        &&& post.store == pre.store
        &&& post.instance_id == pre.instance_id
        &&& post.header.version == pre.header.version
        &&& post.header.repo_id == pre.header.repo_id
        &&& post.header.config == pre.header.config
        &&& post.header.objects == pre.header.objects
        &&& post.header.next_blob == pre.header.next_blob
        &&& post.header.next_handle == pre.header.next_handle
        &&& post.header.free_handles == pre.header.free_handles
        &&& post.header.chunks@ == pre.header.chunks@.update(
            i,
            ChunkEntry {
                hash: pre.header.chunks[i].hash,
                blob: pre.header.chunks[i].blob,
                refcount: if pre.header.chunks[i].refcount < u32::MAX {
                    (pre.header.chunks[i].refcount + 1) as u32
                } else {
                    u32::MAX
                },
            },
        )
    }

    /// Whether `post` is `pre` with the chunk `entry` added, whose encoded
    /// payload `packed` went into a blob of its own.
    pub open spec fn chunk_added(pre: &Self, post: &Self, entry: ChunkEntry, packed: Seq<u8>) -> bool {
        &&& post.store.blobs() == pre.store.blobs().insert(spec_chunk_blob(entry.blob), packed)
        &&& post.store.reliable() == pre.store.reliable()
        &&& post.instance_id == pre.instance_id
        &&& post.header.version == pre.header.version
        &&& post.header.repo_id == pre.header.repo_id
        &&& post.header.config == pre.header.config
        &&& post.header.objects == pre.header.objects
        &&& entry.blob == pre.header.next_blob
        &&& entry.refcount == 1
        &&& post.header.next_blob == pre.header.next_blob + 1
        &&& post.header.next_handle == pre.header.next_handle
        &&& post.header.free_handles == pre.header.free_handles
        &&& post.header.chunks@ == pre.header.chunks@.push(entry)
    }

    /// Whether `post` differs from `pre` in nothing but the store, and there
    /// in nothing but the blob under `key`.
    pub open spec fn only_blob_differs(pre: &Self, post: &Self, key: BlobId) -> bool {
        &&& post.store.blobs().remove(key) == pre.store.blobs().remove(key)
        &&& post.store.reliable() == pre.store.reliable()
        &&& post.instance_id == pre.instance_id
        &&& post.header == pre.header
    }

    /// Whether everything is in order for the payloads of a set: each comes
    /// back from the codec as it went in, and where the header records a chunk
    /// with the checksum of one of them, that chunk reads as that payload.
    pub open spec fn sound_on(&self, payloads: Set<Seq<u8>>) -> bool {
        forall|payload: Seq<u8>| #[trigger]
            payloads.contains(payload) ==> {
                &&& self.header.config.compression.round_trips(payload)
                &&& self.records(spec_chunk_hash(payload)) ==> self.holds(payload)
            }
    }

    /// Whether `post` is as sound as `pre` on every set of payloads that holds
    /// each of `written` and in which no two payloads share a checksum.
    pub open spec fn stays_sound(pre: &Self, post: &Self, written: Set<Seq<u8>>) -> bool {
        forall|payloads: Set<Seq<u8>>| #[trigger]
            pre.sound_on(payloads) && collision_free(payloads) && written.subset_of(payloads)
                ==> post.sound_on(payloads)
    }

    /// Reads the payload of `chunk` from the store, and checks it against the
    /// size and the checksum that the reference gives.
    pub fn read_chunk(&self, chunk: &Chunk) -> (result: Result<Vec<u8>, Error>)
        requires
            self.wf(),
        ensures
            match result {
                Ok(payload) => self.read_outcome(*chunk) == Ok::<Seq<u8>, Error>(payload@),
                Err(error) => self.read_outcome(*chunk) == Err::<Seq<u8>, Error>(error) || (error
                    == Error::Store && !self.reliable()),
            },
    {
        let index = match self.header.find_chunk(&chunk.hash) {
            Some(index) => index,
            None => {
                return Err(Error::NotFound);
            },
        };
        let packed = match self.store.read(chunk_blob(self.header.chunks[index].blob)) {
            Ok(packed) => packed,
            Err(error) => {
                return Err(error);
            },
        };
        let payload = match self.header.config.compression.decompress(packed.as_slice()) {
            Ok(payload) => payload,
            Err(error) => {
                return Err(error);
            },
        };
        if payload.len() != chunk.size {
            return Err(Error::InvalidData);
        }
        let found = chunk_hash(payload.as_slice());
        if !hash_eq(&found, &chunk.hash) {
            return Err(Error::InvalidData);
        }
        Ok(payload)
    }

    /// Stores `payload` as a chunk and returns the reference to it.
    ///
    /// Where the header records a chunk with the checksum of the payload, one
    /// more reference is taken to that chunk and nothing is written. Else the
    /// payload is encoded, written to a blob of its own, and recorded with one
    /// reference. Fails with the error of the encoder, or with `Error::Store`
    /// where the store fails or no blob identifier is left.
    #[verifier::rlimit(50)]
    pub fn write_chunk(&mut self, payload: &[u8]) -> (result: Result<Chunk, Error>)
        requires
            old(self).wf(),
        ensures
            final(self).wf(),
            old(self).kept_by(final(self)),
            Self::same_objects(old(self), final(self)),
            Self::stays_sound(old(self), final(self), set![payload@]),
            Self::stores_at_most(old(self), final(self), seq![payload@]),
            result is Ok ==> final(self).records(spec_chunk_hash(payload@)),
            match result {
                Ok(chunk) => {
                    &&& chunk.refers_to(payload@)
                    &&& if old(self).records(spec_chunk_hash(payload@)) {
                        Self::reference_taken(old(self), final(self), spec_chunk_hash(payload@))
                    } else {
                        &&& old(self).header.next_blob < u128::MAX
                        &&& old(self).header.config.compression.spec_compress(payload@)
                            matches Ok(packed)
                        &&& Self::chunk_added(
                            old(self),
                            final(self),
                            ChunkEntry {
                                hash: chunk.hash,
                                blob: old(self).header.next_blob,
                                refcount: 1,
                            },
                            packed,
                        )
                    }
                },
                Err(error) => {
                    &&& !old(self).records(spec_chunk_hash(payload@))
                    &&& Self::only_blob_differs(
                        old(self),
                        final(self),
                        spec_chunk_blob(old(self).header.next_blob),
                    )
                    &&& match old(self).header.config.compression.spec_compress(payload@) {
                        Err(failure) => error == failure && final(self).store == old(self).store,
                        Ok(_) => error == Error::Store && (old(self).header.next_blob
                            == u128::MAX || !old(self).reliable()),
                    }
                },
            },
    {
        let hash = chunk_hash(payload);
        let chunk = Chunk { size: payload.len(), hash };
        match self.header.find_chunk(&hash) {
            Some(index) => {
                let entry = self.header.chunks[index];
                let refcount: u32 = if entry.refcount < u32::MAX {
                    entry.refcount + 1
                } else {
                    u32::MAX
                };
                self.header.chunks.set(
                    index,
                    ChunkEntry { hash: entry.hash, blob: entry.blob, refcount },
                );
                proof {
                    let before = old(self).header.chunks@;
                    let after = self.header.chunks@;
                    assert forall|i: int| 0 <= i < after.len() implies after[i].hash
                        == before[i].hash && after[i].blob == before[i].blob by {}
                    Self::lemma_reference_keeps(old(self), self, hash@);
                    assert forall|payloads: Set<Seq<u8>>| #[trigger]
                        old(self).sound_on(payloads) implies self.sound_on(payloads) by {
                        assert forall|other: Seq<u8>| #[trigger]
                            payloads.contains(other) && self.records(
                                spec_chunk_hash(other),
                            ) implies self.holds(other) by {}
                    }
                }
                Ok(chunk)
            },
            None => {
                let packed = match self.header.config.compression.compress(payload) {
                    Ok(packed) => packed,
                    Err(error) => {
                        proof {
                            Self::lemma_blob_keeps(
                                old(self),
                                self,
                                spec_chunk_blob(old(self).header.next_blob),
                            );
                            Self::lemma_one_blob_at_most(old(self), self, payload@);
                        }
                        return Err(error);
                    },
                };
                if self.header.next_blob == u128::MAX {
                    proof {
                        Self::lemma_blob_keeps(old(self), self, spec_chunk_blob(u128::MAX));
                        Self::lemma_one_blob_at_most(old(self), self, payload@);
                    }
                    return Err(Error::Store);
                }
                let blob: u128 = self.header.next_blob;
                match self.store.write(chunk_blob(blob), packed.as_slice()) {
                    Ok(()) => {},
                    Err(error) => {
                        proof {
                            Self::lemma_blob_keeps(old(self), self, spec_chunk_blob(blob));
                            Self::lemma_one_blob_at_most(old(self), self, payload@);
                        }
                        return Err(error);
                    },
                }
                self.header.chunks.push(ChunkEntry { hash, blob, refcount: 1 });
                self.header.next_blob = blob + 1;
                proof {
                    let before = old(self).header.chunks@;
                    let after = self.header.chunks@;
                    assert forall|i: int, j: int|
                        0 <= i < after.len() && 0 <= j < after.len() && i != j implies after[i].hash@
                        != after[j].hash@ && after[i].blob != after[j].blob by {
                        if i < before.len() {
                            assert(after[i] == before[i]);
                        }
                        if j < before.len() {
                            assert(after[j] == before[j]);
                        }
                    }
                    assert forall|i: int| 0 <= i < after.len() implies (#[trigger] after[i]).blob
                        < self.header.next_blob by {
                        if i < before.len() {
                            assert(after[i] == before[i]);
                        }
                    }
                    let entry = ChunkEntry { hash, blob, refcount: 1 };
                    Self::lemma_addition_keeps(old(self), self, entry, packed@);
                    assert(self.store.blobs().remove(spec_chunk_blob(blob)) =~= old(
                        self,
                    ).store.blobs().remove(spec_chunk_blob(blob)));
                    Self::lemma_one_blob_at_most(old(self), self, payload@);
                    assert forall|payloads: Set<Seq<u8>>| #[trigger]
                        old(self).sound_on(payloads) && collision_free(payloads) && set![
                            payload@,
                        ].subset_of(payloads) implies self.sound_on(payloads) by {
                        assert(set![payload@].contains(payload@));
                        assert(payloads.contains(payload@));
                        assert(self.holds(payload@));
                        assert forall|other: Seq<u8>| #[trigger]
                            payloads.contains(other) && self.records(
                                spec_chunk_hash(other),
                            ) implies self.holds(other) by {
                            if spec_chunk_hash(other) == hash@ {
                                assert(other == payload@);
                            }
                        }
                    }
                }
                Ok(chunk)
            },
        }
    }

    /// Gives up one reference to `chunk`, if the header records it, and says
    /// whether it does. The chunk stays stored: a commit counts the references
    /// anew, and drops the chunks that are left without one.
    pub fn drop_chunk(&mut self, chunk: &Chunk) -> (dropped: bool)
        requires
            old(self).wf(),
        ensures
            final(self).wf(),
            dropped == old(self).records(chunk.hash@),
            final(self).store == old(self).store,
            final(self).instance_id == old(self).instance_id,
            final(self).header.version == old(self).header.version,
            final(self).header.repo_id == old(self).header.repo_id,
            final(self).header.config == old(self).header.config,
            final(self).header.objects == old(self).header.objects,
            final(self).header.next_blob == old(self).header.next_blob,
            final(self).header.next_handle == old(self).header.next_handle,
            final(self).header.free_handles == old(self).header.free_handles,
            final(self).header.chunks@.len() == old(self).header.chunks@.len(),
            forall|i: int|
                0 <= i < old(self).header.chunks@.len() ==> {
                    &&& (#[trigger] final(self).header.chunks@[i]).hash == old(
                        self,
                    ).header.chunks@[i].hash
                    &&& final(self).header.chunks@[i].blob == old(self).header.chunks@[i].blob
                    &&& final(self).header.chunks@[i].refcount == if Some(i) == chunk_index(
                        old(self).header.chunks@,
                        chunk.hash@,
                    ) && old(self).header.chunks@[i].refcount > 0 {
                        (old(self).header.chunks@[i].refcount - 1) as u32
                    } else {
                        old(self).header.chunks@[i].refcount
                    }
                },
    {
        match self.header.find_chunk(&chunk.hash) {
            Some(index) => {
                let entry = self.header.chunks[index];
                let refcount: u32 = if entry.refcount > 0 {
                    entry.refcount - 1
                } else {
                    0
                };
                self.header.chunks.set(
                    index,
                    ChunkEntry { hash: entry.hash, blob: entry.blob, refcount },
                );
                true
            },
            None => false,
        }
    }
}

impl<S: BlobStore> ObjectRepo<S> {
    /// The payload that reading `chunk` gives, and no bytes where it gives
    /// none.
    pub open spec fn payload_of(&self, chunk: Chunk) -> Seq<u8> {
        match self.read_outcome(chunk) {
            Ok(payload) => payload,
            Err(_) => Seq::empty(),
        }
    }

    /// Whether every chunk of the list can be read.
    pub open spec fn readable(&self, chunks: Seq<Chunk>) -> bool {
        forall|i: int| 0 <= i < chunks.len() ==> self.read_outcome(#[trigger] chunks[i]) is Ok
    }

    /// The payloads of the chunks of a list.
    pub open spec fn payloads_of(&self, chunks: Seq<Chunk>) -> Seq<Seq<u8>> {
        Seq::new(chunks.len(), |i: int| self.payload_of(chunks[i]))
    }

    /// The bytes that a list of chunks stands for: the payloads of its
    /// chunks, one after the other.
    pub open spec fn content(&self, chunks: Seq<Chunk>) -> Seq<u8> {
        self.payloads_of(chunks).flatten()
    }

    /// Whether the header records every chunk of the list.
    pub open spec fn grounds(&self, chunks: Seq<Chunk>) -> bool {
        forall|j: int| 0 <= j < chunks.len() ==> self.records(#[trigger] chunks[j].hash@)
    }

    /// Whether no handle refers to a chunk that the header does not record.
    pub open spec fn closed(&self) -> bool {
        forall|i: int|
            0 <= i < self.header.objects@.len() ==> self.grounds(
                #[trigger] self.header.objects@[i].handle.chunks@,
            )
    }

    /// Whether `later` keeps what `self` has stored: the settings, every chunk
    /// that `self` records, with the outcome of reading it, and every blob
    /// that holds no chunk.
    pub open spec fn kept_by(&self, later: &Self) -> bool {
        &&& later.header.config == self.header.config
        &&& later.header.repo_id == self.header.repo_id
        &&& later.instance_id == self.instance_id
        &&& later.store.reliable() == self.store.reliable()
        &&& forall|hash: Seq<u8>| #[trigger]
            self.records(hash) ==> later.records(hash) && forall|size: nat|
                later.stored(hash, size) == self.stored(hash, size)
        &&& forall|key: BlobId|
            key.kind != BlobKind::Chunk ==> (#[trigger] later.store.blobs().contains_key(key)
                <==> self.store.blobs().contains_key(key)) && (self.store.blobs().contains_key(key)
                ==> later.store.blobs()[key] == self.store.blobs()[key])
    }

    /// Taking a reference to a recorded chunk keeps what is stored.
    pub proof fn lemma_reference_keeps(pre: &Self, post: &Self, hash: Seq<u8>)
        requires
            pre.wf(),
            Self::reference_taken(pre, post, hash),
        ensures
            pre.kept_by(post),
            forall|other: Seq<u8>| post.records(other) == pre.records(other),
            forall|other: Seq<u8>, size: nat| post.stored(other, size) == pre.stored(other, size),
    {
        let before = pre.header.chunks@;
        let after = post.header.chunks@;
        assert forall|other: Seq<u8>| post.header.blob_of(other) == pre.header.blob_of(other) by {
            Self::lemma_same_hashes_same_index(before, after, other);
        }
    }

    /// Two lists of entries that agree in their checksums, index by index,
    /// find a checksum at the same index.
    pub proof fn lemma_same_hashes_same_index(
        before: Seq<ChunkEntry>,
        after: Seq<ChunkEntry>,
        hash: Seq<u8>,
    )
        requires
            crate::header::distinct_chunks(before),
            before.len() == after.len(),
            forall|i: int| 0 <= i < before.len() ==> before[i].hash == after[i].hash,
        ensures
            chunk_index(after, hash) == chunk_index(before, hash),
    {
        if chunk_index(before, hash) is Some {
            let i = chunk_index(before, hash).unwrap();
            assert(after[i].hash@ == hash);
            let j = chunk_index(after, hash).unwrap();
            assert(before[j].hash@ == hash);
        } else if chunk_index(after, hash) is Some {
            let j = chunk_index(after, hash).unwrap();
            assert(before[j].hash@ == hash);
        }
    }

    /// Adding a chunk keeps what is stored, and makes the new chunk read as
    /// what its blob decodes to.
    #[verifier::rlimit(50)]
    pub proof fn lemma_addition_keeps(pre: &Self, post: &Self, entry: ChunkEntry, packed: Seq<u8>)
        requires
            pre.wf(),
            !pre.records(entry.hash@),
            Self::chunk_added(pre, post, entry, packed),
        ensures
            pre.kept_by(post),
            post.records(entry.hash@),
            forall|other: Seq<u8>| post.records(other) == (pre.records(other) || other == entry.hash@),
            forall|other: Seq<u8>, size: nat|
                other != entry.hash@ ==> post.stored(other, size) == pre.stored(other, size),
            forall|payload: Seq<u8>|
                spec_chunk_hash(payload) == entry.hash@
                    && post.header.config.compression.spec_decompress(packed) == Ok::<
                    Seq<u8>,
                    Error,
                >(payload) ==> post.holds(payload),
    {
        let before = pre.header.chunks@;
        let after = post.header.chunks@;
        let last = before.len() as int;
        assert(after[last] == entry);
        assert forall|i: int| 0 <= i < before.len() implies after[i] == before[i] by {}
        assert forall|other: Seq<u8>| other != entry.hash@ implies chunk_index(after, other)
            == chunk_index(before, other) by {
            if chunk_index(before, other) is Some {
                let i = chunk_index(before, other).unwrap();
                assert(after[i].hash@ == other);
                let j = chunk_index(after, other).unwrap();
                assert(j < before.len());
                assert(before[j].hash@ == other);
            } else if chunk_index(after, other) is Some {
                let j = chunk_index(after, other).unwrap();
                assert(j < before.len());
                assert(before[j].hash@ == other);
            }
        }
        assert(chunk_index(after, entry.hash@) == Some(last)) by {
            let j = chunk_index(after, entry.hash@).unwrap();
            if j < last {
                assert(before[j].hash@ == entry.hash@);
            }
        }
        assert forall|other: Seq<u8>, size: nat| other != entry.hash@ implies post.stored(
            other,
            size,
        ) == pre.stored(other, size) by {
            if chunk_index(before, other) is Some {
                let i = chunk_index(before, other).unwrap();
                assert(before[i].blob < pre.header.next_blob);
                assert(spec_chunk_blob(before[i].blob) != spec_chunk_blob(entry.blob));
            }
        }
    }

    /// What happens to the blob with the next identifier, and to no other,
    /// stores at most one piece.
    pub proof fn lemma_one_blob_at_most(pre: &Self, post: &Self, payload: Seq<u8>)
        requires
            !pre.records(spec_chunk_hash(payload)),
            pre.header.next_blob <= post.header.next_blob <= pre.header.next_blob + 1,
            post.store.blobs().remove(spec_chunk_blob(pre.header.next_blob))
                == pre.store.blobs().remove(spec_chunk_blob(pre.header.next_blob)),
        ensures
            Self::stores_at_most(pre, post, seq![payload]),
    {
        let key = spec_chunk_blob(pre.header.next_blob);
        assert forall|other: BlobId| #[trigger]
            post.store.blobs().contains_key(other) && !pre.store.blobs().contains_key(
                other,
            ) implies other.kind == BlobKind::Chunk && pre.header.next_blob <= other.id
            <= post.header.next_blob by {
            if other != key {
                assert(pre.store.blobs().remove(key).contains_key(other)
                    == pre.store.blobs().contains_key(other));
                assert(post.store.blobs().remove(key).contains_key(other)
                    == post.store.blobs().contains_key(other));
            }
        }
        assert(seq![payload][0] == payload);
    }

    /// A change to a blob that no recorded chunk names keeps what is stored.
    pub proof fn lemma_blob_keeps(pre: &Self, post: &Self, key: BlobId)
        requires
            pre.wf(),
            Self::only_blob_differs(pre, post, key),
            key.kind == BlobKind::Chunk,
            key.id >= pre.header.next_blob,
        ensures
            pre.kept_by(post),
            forall|hash: Seq<u8>, size: nat| post.stored(hash, size) == pre.stored(hash, size),
            forall|payloads: Set<Seq<u8>>| #[trigger]
                pre.sound_on(payloads) ==> post.sound_on(payloads),
            forall|written: Set<Seq<u8>>| Self::stays_sound(pre, post, written),
    {
        assert forall|hash: Seq<u8>, size: nat| post.stored(hash, size) == pre.stored(
            hash,
            size,
        ) by {
            if chunk_index(pre.header.chunks@, hash) is Some {
                let i = chunk_index(pre.header.chunks@, hash).unwrap();
                let id = pre.header.chunks[i].blob;
                assert(id < pre.header.next_blob);
                assert(spec_chunk_blob(id) != key);
                assert(pre.store.blobs().remove(key).contains_key(spec_chunk_blob(id))
                    == pre.store.blobs().contains_key(spec_chunk_blob(id)));
                assert(post.store.blobs().remove(key).contains_key(spec_chunk_blob(id))
                    == post.store.blobs().contains_key(spec_chunk_blob(id)));
                if pre.store.blobs().contains_key(spec_chunk_blob(id)) {
                    assert(pre.store.blobs().remove(key)[spec_chunk_blob(id)]
                        == pre.store.blobs()[spec_chunk_blob(id)]);
                    assert(post.store.blobs().remove(key)[spec_chunk_blob(id)]
                        == post.store.blobs()[spec_chunk_blob(id)]);
                }
            }
        }
        assert forall|payloads: Set<Seq<u8>>| #[trigger]
            pre.sound_on(payloads) implies post.sound_on(payloads) by {
            assert forall|other: Seq<u8>| #[trigger]
                payloads.contains(other) && post.records(spec_chunk_hash(other)) implies post.holds(
                other,
            ) by {}
        }
        assert forall|other: BlobId| other.kind != BlobKind::Chunk implies (
        #[trigger] post.store.blobs().contains_key(other) <==> pre.store.blobs().contains_key(other))
            && (pre.store.blobs().contains_key(other) ==> post.store.blobs()[other]
            == pre.store.blobs()[other]) by {
            assert(pre.store.blobs().remove(key).contains_key(other)
                == pre.store.blobs().contains_key(other));
            assert(post.store.blobs().remove(key).contains_key(other)
                == post.store.blobs().contains_key(other));
            if pre.store.blobs().contains_key(other) {
                assert(pre.store.blobs().remove(key)[other] == pre.store.blobs()[other]);
                assert(post.store.blobs().remove(key)[other] == post.store.blobs()[other]);
            }
        }
    }

    /// What is kept, is kept on.
    pub proof fn lemma_kept_by_transitive(a: &Self, b: &Self, c: &Self)
        requires
            a.kept_by(b),
            b.kept_by(c),
        ensures
            a.kept_by(c),
    {
        assert forall|hash: Seq<u8>| #[trigger] a.records(hash) implies c.records(hash) && forall|
            size: nat,
        |
            c.stored(hash, size) == a.stored(hash, size) by {
            assert(b.records(hash));
        }
    }

    /// What is kept reads as before.
    pub proof fn lemma_kept_content(&self, later: &Self, chunks: Seq<Chunk>)
        requires
            self.kept_by(later),
            forall|i: int| 0 <= i < chunks.len() ==> self.records(#[trigger] chunks[i].hash@),
        ensures
            later.payloads_of(chunks) == self.payloads_of(chunks),
            later.content(chunks) == self.content(chunks),
            later.readable(chunks) == self.readable(chunks),
    {
        assert forall|i: int| 0 <= i < chunks.len() implies later.read_outcome(chunks[i])
            == self.read_outcome(chunks[i]) by {
            assert(self.records(chunks[i].hash@));
        }
        assert(later.payloads_of(chunks) =~= self.payloads_of(chunks));
    }
}

/// Whether the list `post` is the list `pre` with the size and the chunks of
/// `handle` put in the place of those of the object at `index`.
pub open spec fn objects_put(
    pre: Seq<crate::header::ObjectEntry>,
    post: Seq<crate::header::ObjectEntry>,
    index: int,
    handle: ObjectHandle,
) -> bool {
    &&& 0 <= index < pre.len()
    &&& post.len() == pre.len()
    &&& forall|i: int| 0 <= i < pre.len() && i != index ==> post[i] == pre[i]
    &&& post[index].name == pre[index].name
    &&& post[index].handle.repo_id == pre[index].handle.repo_id
    &&& post[index].handle.instance_id == pre[index].handle.instance_id
    &&& post[index].handle.handle_id == pre[index].handle.handle_id
    &&& post[index].handle.size == handle.size
    &&& post[index].handle.chunks@ == handle.chunks@
}

/// Whether storing `pieces` in turn can fail with `error`: the pieces before
/// one of them are recorded, and for that one the encoder fails with the
/// error, or the error is `Error::Store` and the store is not reliable or no
/// blob identifier is left.
pub open spec fn storing_fails_with<S: BlobStore>(
    pre: &ObjectRepo<S>,
    post: &ObjectRepo<S>,
    pieces: Seq<Seq<u8>>,
    error: Error,
) -> bool {
    exists|i: int|
        {
            &&& 0 <= i < pieces.len()
            &&& forall|k: int| 0 <= k < i ==> post.records(spec_chunk_hash(#[trigger] pieces[k]))
            &&& (pre.header.config.compression.spec_compress(#[trigger] pieces[i]) == Err::<
                Seq<u8>,
                Error,
            >(error) || (error == Error::Store && (!pre.reliable() || post.header.next_blob
                == u128::MAX)))
        }
}

/// Storing that fails for the later of some pieces, of which the earlier
/// are recorded, fails for the pieces.
pub proof fn lemma_storing_fails_later<S: BlobStore>(
    pre: &ObjectRepo<S>,
    post: &ObjectRepo<S>,
    all: Seq<Seq<u8>>,
    earlier: int,
    error: Error,
)
    requires
        0 <= earlier <= all.len(),
        storing_fails_with(pre, post, all.skip(earlier), error),
        forall|k: int| 0 <= k < earlier ==> post.records(spec_chunk_hash(#[trigger] all[k])),
    ensures
        storing_fails_with(pre, post, all, error),
{
    let later = all.skip(earlier);
    let i = choose|i: int|
        {
            &&& 0 <= i < later.len()
            &&& forall|k: int| 0 <= k < i ==> post.records(spec_chunk_hash(#[trigger] later[k]))
            &&& (pre.header.config.compression.spec_compress(#[trigger] later[i]) == Err::<
                Seq<u8>,
                Error,
            >(error) || (error == Error::Store && (!pre.reliable() || post.header.next_blob
                == u128::MAX)))
        };
    assert(later[i] == all[earlier + i]);
    assert forall|k: int| 0 <= k < earlier + i implies post.records(
        spec_chunk_hash(#[trigger] all[k]),
    ) by {
        if k >= earlier {
            assert(later[k - earlier] == all[k]);
        }
    }
}

impl<S: BlobStore> ObjectRepo<S> {
    /// Soundness that stays from `a` to `b` and from `b` to `c` stays from `a`
    /// to `c`.
    pub proof fn lemma_stays_sound_chain(
        a: &Self,
        b: &Self,
        c: &Self,
        written: Set<Seq<u8>>,
        then_written: Set<Seq<u8>>,
    )
        requires
            Self::stays_sound(a, b, written),
            Self::stays_sound(b, c, then_written),
        ensures
            Self::stays_sound(a, c, written.union(then_written)),
    {
        assert forall|payloads: Set<Seq<u8>>| #[trigger]
            a.sound_on(payloads) && collision_free(payloads) && written.union(
                then_written,
            ).subset_of(payloads) implies c.sound_on(payloads) by {
            assert(written.subset_of(payloads));
            assert(then_written.subset_of(payloads));
            assert(b.sound_on(payloads));
        }
    }

    /// Soundness that stays where some payloads were written stays where more
    /// are said to have been written.
    pub proof fn lemma_stays_sound_more(
        a: &Self,
        b: &Self,
        written: Set<Seq<u8>>,
        more: Set<Seq<u8>>,
    )
        requires
            Self::stays_sound(a, b, written),
            written.subset_of(more),
        ensures
            Self::stays_sound(a, b, more),
    {
        assert forall|payloads: Set<Seq<u8>>| #[trigger]
            a.sound_on(payloads) && collision_free(payloads) && more.subset_of(
                payloads,
            ) implies b.sound_on(payloads) by {
            assert(written.subset_of(payloads));
        }
    }

    /// What stores at most some pieces and then at most some more, stores at
    /// most all of them.
    pub proof fn lemma_stores_at_most_chain(
        a: &Self,
        b: &Self,
        c: &Self,
        first: Seq<Seq<u8>>,
        second: Seq<Seq<u8>>,
    )
        requires
            Self::stores_at_most(a, b, first),
            Self::stores_at_most(b, c, second),
            a.kept_by(b),
        ensures
            Self::stores_at_most(a, c, first + second),
    {
        let all = first + second;
        assert forall|key: BlobId| #[trigger]
            c.store.blobs().contains_key(key) && !a.store.blobs().contains_key(
                key,
            ) implies key.kind == BlobKind::Chunk && a.header.next_blob <= key.id
            <= c.header.next_blob by {
            assert(b.store.blobs().contains_key(key) || !b.store.blobs().contains_key(key));
        }
        if forall|i: int| 0 <= i < all.len() ==> a.records(spec_chunk_hash(#[trigger] all[i])) {
            assert forall|i: int| 0 <= i < first.len() implies a.records(
                spec_chunk_hash(#[trigger] first[i]),
            ) by {
                assert(all[i] == first[i]);
            }
            assert forall|i: int| 0 <= i < second.len() implies b.records(
                spec_chunk_hash(#[trigger] second[i]),
            ) by {
                assert(all[first.len() + i] == second[i]);
                assert(a.records(spec_chunk_hash(second[i])));
            }
        }
    }

    /// Nothing written, nothing changed: soundness stays.
    pub proof fn lemma_stays_sound_same(a: &Self, written: Set<Seq<u8>>)
        ensures
            Self::stays_sound(a, a, written),
            a.kept_by(a),
            forall|pieces: Seq<Seq<u8>>| Self::stores_at_most(a, a, pieces),
    {
    }

    /// Stores each of `pieces` as a chunk, in order, and appends the
    /// references to `chunks`. Stops at the first piece that cannot be stored.
    #[verifier::rlimit(50)]
    pub fn write_chunks(&mut self, pieces: &Vec<Vec<u8>>, chunks: &mut Vec<Chunk>) -> (result:
        Result<(), Error>)
        requires
            old(self).wf(),
        ensures
            final(self).wf(),
            old(self).kept_by(final(self)),
            Self::same_objects(old(self), final(self)),
            Self::stays_sound(
                old(self),
                final(self),
                crate::chunker::payloads(pieces@).to_set(),
            ),
            Self::stores_at_most(old(self), final(self), crate::chunker::payloads(pieces@)),
            match result {
                Ok(()) => {
                    &&& final(chunks)@.len() == old(chunks)@.len() + pieces@.len()
                    &&& final(chunks)@.take(old(chunks)@.len() as int) == old(chunks)@
                    &&& forall|i: int|
                        0 <= i < pieces@.len() ==> {
                            &&& (#[trigger] final(chunks)@[old(chunks)@.len() + i]).refers_to(
                                pieces@[i]@,
                            )
                            &&& final(self).records(spec_chunk_hash(pieces@[i]@))
                        }
                },
                Err(error) => storing_fails_with(
                    old(self),
                    final(self),
                    crate::chunker::payloads(pieces@),
                    error,
                ),
            },
    {
        let ghost all = crate::chunker::payloads(pieces@).to_set();
        let ghost first = old(chunks)@.len() as int;
        proof {
            Self::lemma_stays_sound_same(old(self), all);
        }
        let mut i: usize = 0;
        while i < pieces.len()
            invariant
                i <= pieces.len(),
                self.wf(),
                old(self).kept_by(self),
                Self::same_objects(old(self), self),
                Self::stays_sound(old(self), self, all),
                Self::stores_at_most(
                    old(self),
                    self,
                    crate::chunker::payloads(pieces@).take(i as int),
                ),
                all == crate::chunker::payloads(pieces@).to_set(),
                first == old(chunks)@.len(),
                chunks@.len() == first + i,
                chunks@.take(first) == old(chunks)@,
                forall|k: int|
                    0 <= k < i ==> {
                        &&& (#[trigger] chunks@[first + k]).refers_to(pieces@[k]@)
                        &&& self.records(spec_chunk_hash(pieces@[k]@))
                    },
            decreases pieces.len() - i,
        {
            let ghost before = *self;
            let ghost listed = chunks@;
            match self.write_chunk(pieces[i].as_slice()) {
                Ok(chunk) => {
                    chunks.push(chunk);
                },
                Err(error) => {
                    proof {
                        let payload = pieces@[i as int]@;
                        let listed_pieces = crate::chunker::payloads(pieces@);
                        Self::lemma_stores_at_most_chain(
                            old(self),
                            &before,
                            self,
                            listed_pieces.take(i as int),
                            seq![payload],
                        );
                        assert(listed_pieces.take(i as int) + seq![payload] =~= listed_pieces.take(
                            i + 1,
                        ));
                        Self::lemma_stores_at_most_more(
                            old(self),
                            self,
                            listed_pieces.take(i + 1),
                            listed_pieces,
                        );
                        assert(crate::chunker::payloads(pieces@)[i as int] == payload);
                        assert(all.contains(payload));
                        assert(set![payload].subset_of(all));
                        Self::lemma_stays_sound_more(&before, self, set![payload], all);
                        Self::lemma_stays_sound_chain(old(self), &before, self, all, all);
                        assert(all.union(all) =~= all);
                        Self::lemma_kept_by_transitive(old(self), &before, self);
                        assert forall|k: int| 0 <= k < i implies self.records(
                            spec_chunk_hash(#[trigger] listed_pieces[k]),
                        ) by {
                            assert(listed[first + k].refers_to(pieces@[k]@));
                            assert(before.records(spec_chunk_hash(pieces@[k]@)));
                        }
                        assert(old(self).header.config.compression.spec_compress(
                            listed_pieces[i as int],
                        ) == Err::<Seq<u8>, Error>(error) || (error == Error::Store && (!old(
                            self,
                        ).reliable() || self.header.next_blob == u128::MAX)));
                    }
                    return Err(error);
                },
            }
            proof {
                let payload = pieces@[i as int]@;
                let listed_pieces = crate::chunker::payloads(pieces@);
                Self::lemma_stores_at_most_chain(
                    old(self),
                    &before,
                    self,
                    listed_pieces.take(i as int),
                    seq![payload],
                );
                assert(listed_pieces.take(i as int) + seq![payload] =~= listed_pieces.take(i + 1));
                assert(crate::chunker::payloads(pieces@)[i as int] == payload);
                assert(all.contains(payload));
                assert(set![payload].subset_of(all));
                Self::lemma_stays_sound_more(&before, self, set![payload], all);
                Self::lemma_stays_sound_chain(old(self), &before, self, all, all);
                assert(all.union(all) =~= all);
                Self::lemma_kept_by_transitive(old(self), &before, self);
                assert(chunks@.take(first) =~= listed.take(first));
                assert forall|k: int| 0 <= k < i + 1 implies {
                    &&& (#[trigger] chunks@[first + k]).refers_to(pieces@[k]@)
                    &&& self.records(spec_chunk_hash(pieces@[k]@))
                } by {
                    if k < i {
                        assert(chunks@[first + k] == listed[first + k]);
                        assert(before.records(spec_chunk_hash(pieces@[k]@)));
                    }
                }
            }
            i += 1;
        }
        proof {
            assert(crate::chunker::payloads(pieces@).take(i as int) =~= crate::chunker::payloads(
                pieces@,
            ));
        }
        Ok(())
    }

    /// What stores at most the first of some pieces, stores at most the
    /// pieces.
    pub proof fn lemma_stores_at_most_more(
        a: &Self,
        b: &Self,
        pieces: Seq<Seq<u8>>,
        all: Seq<Seq<u8>>,
    )
        requires
            Self::stores_at_most(a, b, pieces),
            pieces.is_prefix_of(all),
        ensures
            Self::stores_at_most(a, b, all),
    {
        if forall|i: int| 0 <= i < all.len() ==> a.records(spec_chunk_hash(#[trigger] all[i])) {
            assert forall|i: int| 0 <= i < pieces.len() implies a.records(
                spec_chunk_hash(#[trigger] pieces[i]),
            ) by {
                assert(all[i] == pieces[i]);
            }
        }
    }
}

impl<S: BlobStore> ObjectRepo<S> {
    /// Whether `post` is `pre` with the size and the chunks of `handle` put in
    /// the place of those of the object at `index`.
    pub open spec fn handle_put(pre: &Self, post: &Self, index: int, handle: ObjectHandle) -> bool {
        &&& post.store == pre.store
        &&& post.instance_id == pre.instance_id
        &&& post.header.version == pre.header.version
        &&& post.header.repo_id == pre.header.repo_id
        &&& post.header.config == pre.header.config
        &&& post.header.chunks == pre.header.chunks
        &&& post.header.next_blob == pre.header.next_blob
        &&& post.header.next_handle == pre.header.next_handle
        &&& post.header.free_handles == pre.header.free_handles
        &&& objects_put(pre.header.objects@, post.header.objects@, index, handle)
    }

    /// Puts the size and the chunks of `handle` in the place of those of the
    /// object at `index`.
    #[verifier::rlimit(50)]
    pub(crate) fn put_handle(&mut self, index: usize, handle: &ObjectHandle)
        requires
            old(self).wf(),
            handle.wf(),
            index < old(self).header.objects@.len(),
        ensures
            final(self).wf(),
            Self::handle_put(old(self), final(self), index as int, *handle),
            old(self).kept_by(final(self)),
            forall|hash: Seq<u8>, size: nat|
                final(self).stored(hash, size) == old(self).stored(hash, size),
            forall|written: Set<Seq<u8>>| Self::stays_sound(old(self), final(self), written),
            forall|pieces: Seq<Seq<u8>>| Self::stores_at_most(old(self), final(self), pieces),
    {
        let entry = self.header.objects.remove(index);
        let replaced = crate::header::ObjectEntry {
            name: entry.name,
            handle: ObjectHandle {
                repo_id: entry.handle.repo_id,
                instance_id: entry.handle.instance_id,
                handle_id: entry.handle.handle_id,
                size: handle.size,
                chunks: crate::header::copy_chunks(&handle.chunks),
            },
        };
        self.header.objects.insert(index, replaced);
        proof {
            let before = old(self).header.objects@;
            let after = self.header.objects@;
            assert forall|i: int| 0 <= i < before.len() && i != index implies after[i]
                == before[i] by {}
            assert(after[index as int].handle.wf());
            let free = self.header.free_handles@;
            assert forall|i: int, k: int|
                0 <= i < after.len() && 0 <= k < free.len() implies after[i].handle.handle_id
                != free[k] by {
                assert(before[i].handle.handle_id != old(self).header.free_handles@[k]);
            }
            assert forall|payloads: Set<Seq<u8>>| #[trigger]
                old(self).sound_on(payloads) implies self.sound_on(payloads) by {
                assert forall|other: Seq<u8>| #[trigger]
                    payloads.contains(other) && self.records(
                        spec_chunk_hash(other),
                    ) implies self.holds(other) by {}
            }
        }
    }
}

impl<S: BlobStore> ObjectRepo<S> {
    /// The error of the first chunk of the list that cannot be read, if there
    /// is one.
    pub open spec fn first_failure(&self, chunks: Seq<Chunk>) -> Option<Error>
        decreases chunks.len(),
    {
        if chunks.len() == 0 {
            None
        } else {
            match self.read_outcome(chunks[0]) {
                Err(error) => Some(error),
                Ok(_) => self.first_failure(chunks.skip(1)),
            }
        }
    }

    /// What verifying a list of chunks gives while the store does not fail:
    /// `true` where every chunk can be read, `false` where the first that
    /// cannot is invalid, and else the error of that chunk.
    pub open spec fn verify_outcome(&self, chunks: Seq<Chunk>) -> Result<bool, Error> {
        match self.first_failure(chunks) {
            None => Ok(true),
            Some(Error::InvalidData) => Ok(false),
            Some(error) => Err(error),
        }
    }

    /// No chunk fails exactly when all can be read.
    pub proof fn lemma_no_failure_is_readable(&self, chunks: Seq<Chunk>)
        ensures
            self.first_failure(chunks) is None <==> self.readable(chunks),
        decreases chunks.len(),
    {
        if chunks.len() > 0 {
            self.lemma_no_failure_is_readable(chunks.skip(1));
            if self.readable(chunks) {
                assert forall|i: int| 0 <= i < chunks.skip(1).len() implies self.read_outcome(
                    #[trigger] chunks.skip(1)[i],
                ) is Ok by {
                    assert(chunks.skip(1)[i] == chunks[i + 1]);
                }
                assert(self.read_outcome(chunks[0]) is Ok);
            }
            if self.first_failure(chunks) is None {
                assert forall|i: int| 0 <= i < chunks.len() implies self.read_outcome(
                    #[trigger] chunks[i],
                ) is Ok by {
                    if i > 0 {
                        assert(chunks[i] == chunks.skip(1)[i - 1]);
                    }
                }
            }
        }
    }

    /// Verifies the integrity of the chunks of a list: reads each in turn, and
    /// checks its payload against its size and checksum.
    pub fn verify_chunks(&self, chunks: &Vec<Chunk>) -> (result: Result<bool, Error>)
        requires
            self.wf(),
        ensures
            result == self.verify_outcome(chunks@) || (result == Err::<bool, Error>(Error::Store)
                && !self.reliable()),
    {
        let mut i: usize = 0;
        proof {
            assert(chunks@.skip(0) =~= chunks@);
        }
        while i < chunks.len()
            invariant
                i <= chunks.len(),
                self.wf(),
                self.first_failure(chunks@) == self.first_failure(chunks@.skip(i as int)),
            decreases chunks.len() - i,
        {
            proof {
                assert(chunks@.skip(i as int)[0] == chunks@[i as int]);
                assert(chunks@.skip(i as int).skip(1) =~= chunks@.skip(i + 1));
            }
            match self.read_chunk(&chunks[i]) {
                Ok(_) => {},
                Err(Error::InvalidData) => {
                    return Ok(false);
                },
                Err(error) => {
                    return Err(error);
                },
            }
            i += 1;
        }
        Ok(true)
    }

    /// The bytes of an object with `chunks` from offset `position` on: what
    /// lies from there on in the chunk that holds the offset, and then the
    /// payloads of the chunks that follow.
    pub open spec fn content_from(&self, chunks: Seq<Chunk>, position: u64) -> Seq<u8> {
        match crate::chunk::spec_locate(chunks, position) {
            Some(location) => self.payload_of(location.chunk).skip(
                location.spec_relative_position() as int,
            ) + self.content(chunks.skip(location.index + 1)),
            None => Seq::empty(),
        }
    }

    /// The content of a list is the payload of its first chunk and then the
    /// content of the rest.
    pub proof fn lemma_content_unfold(&self, chunks: Seq<Chunk>)
        requires
            chunks.len() > 0,
        ensures
            self.content(chunks) == self.payload_of(chunks[0]) + self.content(chunks.skip(1)),
    {
        assert(self.payloads_of(chunks).drop_first() =~= self.payloads_of(chunks.skip(1)));
    }

    /// The content of two lists, one after the other, is the content of the
    /// one and then that of the other.
    pub proof fn lemma_content_concat(&self, a: Seq<Chunk>, b: Seq<Chunk>)
        ensures
            self.content(a + b) == self.content(a) + self.content(b),
    {
        assert(self.payloads_of(a + b) =~= self.payloads_of(a) + self.payloads_of(b));
        vstd::seq_lib::lemma_flatten_concat(self.payloads_of(a), self.payloads_of(b));
    }

    /// The content of a list whose chunks can all be read has as many bytes as
    /// the sizes of the chunks add up to.
    pub proof fn lemma_content_length(&self, chunks: Seq<Chunk>)
        requires
            self.readable(chunks),
        ensures
            self.content(chunks).len() == crate::chunk::total_size(chunks),
        decreases chunks.len(),
    {
        if chunks.len() == 0 {
            assert(self.payloads_of(chunks) =~= Seq::<Seq<u8>>::empty());
        } else {
            let front = chunks.drop_last();
            let last = seq![chunks.last()];
            assert(chunks =~= front + last);
            assert forall|i: int| 0 <= i < front.len() implies self.read_outcome(
                #[trigger] front[i],
            ) is Ok by {
                assert(front[i] == chunks[i]);
            }
            self.lemma_content_length(front);
            self.lemma_content_concat(front, last);
            self.lemma_content_unfold(last);
            assert(self.payloads_of(last.skip(1)) =~= Seq::<Seq<u8>>::empty());
            assert(self.read_outcome(chunks[chunks.len() - 1]) is Ok);
            assert(self.content(last) =~= self.payload_of(chunks.last()));
        }
    }

    /// From the offset at which chunk `index` begins, the bytes of an object
    /// are the content of the chunks from that one on.
    #[verifier::rlimit(50)]
    pub proof fn lemma_content_from_chunk(&self, chunks: Seq<Chunk>, index: int)
        requires
            0 <= index <= chunks.len(),
            chunks.len() <= usize::MAX,
            crate::chunk::total_size(chunks) <= u64::MAX,
        ensures
            crate::chunk::offset_of(chunks, index) <= u64::MAX,
            self.content_from(chunks, crate::chunk::offset_of(chunks, index) as u64)
                == self.content(chunks.skip(index)),
        decreases chunks.len() - index,
    {
        crate::chunk::lemma_offset_monotone(chunks, index, chunks.len() as int);
        assert(chunks.take(chunks.len() as int) =~= chunks);
        let offset = crate::chunk::offset_of(chunks, index) as u64;
        crate::chunk::lemma_located_within(chunks, offset);
        if index == chunks.len() {
            assert(self.payloads_of(chunks.skip(index)) =~= Seq::<Seq<u8>>::empty());
        } else {
            crate::chunk::lemma_offset_step(chunks, index);
            self.lemma_content_unfold(chunks.skip(index));
            assert(chunks.skip(index).skip(1) =~= chunks.skip(index + 1));
            assert(chunks.skip(index)[0] == chunks[index]);
            if chunks[index].size == 0 {
                self.lemma_content_from_chunk(chunks, index + 1);
                assert(self.payload_of(chunks[index]) =~= Seq::<u8>::empty());
                assert(Seq::<u8>::empty() + self.content(chunks.skip(index + 1))
                    =~= self.content(chunks.skip(index + 1)));
            } else {
                let location = crate::chunk::spec_locate(chunks, offset).unwrap();
                crate::chunk::lemma_position_has_one_chunk(
                    chunks,
                    location.index as int,
                    index,
                    offset as nat,
                );
                assert(self.payload_of(chunks[index]).skip(0) =~= self.payload_of(chunks[index]));
            }
        }
    }
}

impl<S: BlobStore> ObjectRepo<S> {
    /// A repository without objects on `store`, which is not written to.
    pub(crate) fn init(
        store: S,
        config: crate::header::RepoConfig,
        repo_id: u128,
        instance_id: u128,
    ) -> (repo: Self)
        requires
            store.inv(),
            config.spec_valid(),
            spec_pointer_target(store.blobs()) is None,
        ensures
            repo.wf(),
            repo.store == store,
            repo.instance_id == instance_id,
            repo.header.repo_id == repo_id,
            repo.header.config == config,
            repo.header.version == crate::header::FORMAT_VERSION,
            repo.header.objects@.len() == 0,
            repo.header.chunks@.len() == 0,
            repo.header.next_blob == 1,
            repo.header.next_handle == 1,
            repo.header.free_handles@.len() == 0,
    {
        ObjectRepo { store, header: Header::new(repo_id, config), instance_id }
    }

    /// Whether the instance has an object with the given name.
    pub open spec fn has_object(&self, name: Seq<u8>) -> bool {
        crate::header::object_index(self.header.objects@, self.instance_id, name) is Some
    }

    /// The handle of the object with the given name in the instance.
    pub open spec fn handle_of(&self, name: Seq<u8>) -> ObjectHandle {
        self.header.objects@[crate::header::object_index(
            self.header.objects@,
            self.instance_id,
            name,
        ).unwrap()].handle
    }

    /// Return whether the instance has an object with the given name.
    pub fn contains(&self, name: &str) -> (found: bool)
        requires
            self.wf(),
        ensures
            found == self.has_object(name.spec_bytes()),
    {
        self.header.find_object(self.instance_id, name.as_bytes()).is_some()
    }

    /// Changes the instance that this value works on.
    pub fn set_instance(&mut self, instance_id: u128)
        ensures
            final(self).instance_id == instance_id,
            final(self).store == old(self).store,
            final(self).header == old(self).header,
    {
        self.instance_id = instance_id;
    }

    /// Whether `post` is `pre` with a new, empty object named `name` in the
    /// instance, whose handle is `handle`.
    pub open spec fn object_inserted(pre: &Self, post: &Self, name: Seq<u8>, handle: ObjectHandle) -> bool {
        &&& post.store == pre.store
        &&& post.instance_id == pre.instance_id
        &&& post.header.version == pre.header.version
        &&& post.header.repo_id == pre.header.repo_id
        &&& post.header.config == pre.header.config
        &&& post.header.chunks == pre.header.chunks
        &&& post.header.next_blob == pre.header.next_blob
        &&& if pre.header.free_handles@.len() > 0 {
            &&& post.header.next_handle == pre.header.next_handle
            &&& post.header.free_handles@ == pre.header.free_handles@.drop_last()
        } else {
            &&& post.header.next_handle == pre.header.next_handle + 1
            &&& post.header.free_handles@ == pre.header.free_handles@
        }
        &&& post.header.objects@.len() == pre.header.objects@.len() + 1
        &&& post.header.objects@.take(pre.header.objects@.len() as int) == pre.header.objects@
        &&& post.header.objects@.last().name@ == name
        &&& post.header.objects@.last().handle.repo_id == handle.repo_id
        &&& post.header.objects@.last().handle.instance_id == handle.instance_id
        &&& post.header.objects@.last().handle.handle_id == handle.handle_id
        &&& post.header.objects@.last().handle.size == 0
        &&& post.header.objects@.last().handle.chunks@.len() == 0
        &&& handle.repo_id == pre.header.repo_id
        &&& handle.instance_id == pre.instance_id
        &&& handle.handle_id == pre.header.next_free()
        &&& handle.size == 0
        &&& handle.chunks@.len() == 0
    }

    /// Adds an empty object with the given name to the instance and returns
    /// its handle. The identifier of the handle is the one that was given
    /// back last, and without such a one, the least that was never given out.
    ///
    /// Fails with `Error::AlreadyExists` where the instance has an object with
    /// that name, and with `Error::Store` where no handle identifier is left;
    /// both leave the repository as it was.
    #[verifier::rlimit(50)]
    pub fn insert_handle(&mut self, name: &str) -> (result: Result<ObjectHandle, Error>)
        requires
            old(self).wf(),
        ensures
            final(self).wf(),
            match result {
                Ok(handle) => {
                    &&& !old(self).has_object(name.spec_bytes())
                    &&& Self::object_inserted(old(self), final(self), name.spec_bytes(), handle)
                    &&& final(self).has_object(name.spec_bytes())
                    &&& handle.wf()
                },
                Err(error) => {
                    &&& *final(self) == *old(self)
                    &&& if old(self).has_object(name.spec_bytes()) {
                        error == Error::AlreadyExists
                    } else {
                        error == Error::Store && old(self).header.next_handle == u64::MAX && old(
                            self,
                        ).header.free_handles@.len() == 0
                    }
                },
            },
    {
        let bytes = name.as_bytes();
        if self.header.find_object(self.instance_id, bytes).is_some() {
            return Err(Error::AlreadyExists);
        }
        if self.header.free_handles.len() == 0 && self.header.next_handle == u64::MAX {
            return Err(Error::Store);
        }
        let handle_id: u64 = match self.header.free_handles.pop() {
            Some(id) => id,
            None => {
                let id: u64 = self.header.next_handle;
                self.header.next_handle = id + 1;
                id
            },
        };
        proof {
            let free = old(self).header.free_handles@;
            if free.len() > 0 {
                assert(handle_id == free[free.len() - 1]);
                assert(handle_id < old(self).header.next_handle);
            }
            assert forall|i: int| 0 <= i < old(self).header.objects@.len() implies old(
                self,
            ).header.objects@[i].handle.handle_id != handle_id by {
                if free.len() > 0 {
                    assert(old(self).header.objects@[i].handle.handle_id != free[free.len() - 1]);
                } else {
                    assert(old(self).header.objects[i].handle.handle_id < old(
                        self,
                    ).header.next_handle);
                }
            }
        }
        let entry = crate::header::ObjectEntry {
            name: vstd::slice::slice_to_vec(bytes),
            handle: ObjectHandle {
                repo_id: self.header.repo_id,
                instance_id: self.instance_id,
                handle_id,
                size: 0,
                chunks: Vec::new(),
            },
        };
        self.header.objects.push(entry);
        proof {
            let before = old(self).header.objects@;
            let after = self.header.objects@;
            let last = before.len() as int;
            assert(after.take(last) =~= before);
            let free = self.header.free_handles@;
            let freed = old(self).header.free_handles@;
            assert forall|k: int| 0 <= k < free.len() implies free[k] == freed[k] by {}
            assert forall|i: int, k: int|
                0 <= i < after.len() && 0 <= k < free.len() implies after[i].handle.handle_id
                != free[k] by {
                if i < last {
                    assert(after[i] == before[i]);
                    assert(before[i].handle.handle_id != freed[k]);
                } else if freed.len() > 0 {
                    assert(freed[freed.len() - 1] != freed[k]);
                }
            }
            assert forall|i: int, j: int|
                0 <= i < after.len() && 0 <= j < after.len() && i != j implies {
                &&& after[i].handle.handle_id != after[j].handle.handle_id
                &&& (after[i].handle.instance_id != after[j].handle.instance_id || after[i].name@
                    != after[j].name@)
            } by {
                if i < last {
                    assert(after[i] == before[i]);
                }
                if j < last {
                    assert(after[j] == before[j]);
                }
            }
            assert forall|i: int| 0 <= i < after.len() implies (
            #[trigger] after[i]).handle.handle_id < self.header.next_handle && after[i].handle.wf() by {
                if i < last {
                    assert(after[i] == before[i]);
                }
            }
            assert(after[last].handle.instance_id == self.instance_id && after[last].name@
                == name.spec_bytes());
        }
        Ok(
            ObjectHandle {
                repo_id: self.header.repo_id,
                instance_id: self.instance_id,
                handle_id,
                size: 0,
                chunks: Vec::new(),
            },
        )
    }

    /// Returns a copy of the handle of the object with the given name in the
    /// instance, if there is one.
    pub fn lookup(&self, name: &str) -> (found: Option<ObjectHandle>)
        requires
            self.wf(),
        ensures
            match found {
                Some(handle) => {
                    &&& self.has_object(name.spec_bytes())
                    &&& handle.repo_id == self.handle_of(name.spec_bytes()).repo_id
                    &&& handle.instance_id == self.handle_of(name.spec_bytes()).instance_id
                    &&& handle.handle_id == self.handle_of(name.spec_bytes()).handle_id
                    &&& handle.size == self.handle_of(name.spec_bytes()).size
                    &&& handle.chunks@ == self.handle_of(name.spec_bytes()).chunks@
                    &&& handle.wf()
                },
                None => !self.has_object(name.spec_bytes()),
            },
    {
        match self.header.find_object(self.instance_id, name.as_bytes()) {
            Some(index) => Some(self.header.objects[index].handle.duplicate()),
            None => None,
        }
    }

    /// Whether `post` is `pre` without the object at `index`.
    pub open spec fn object_removed(pre: &Self, post: &Self, index: int) -> bool {
        &&& post.store == pre.store
        &&& post.instance_id == pre.instance_id
        &&& post.header.version == pre.header.version
        &&& post.header.repo_id == pre.header.repo_id
        &&& post.header.config == pre.header.config
        &&& post.header.chunks == pre.header.chunks
        &&& post.header.next_blob == pre.header.next_blob
        &&& post.header.next_handle == pre.header.next_handle
        &&& post.header.free_handles@ == pre.header.free_handles@.push(
            pre.header.objects@[index].handle.handle_id,
        )
        &&& post.header.objects@ == pre.header.objects@.remove(index)
    }

    /// Removes the object with the given name from the instance, and takes
    /// the identifier of its handle back. Its chunks stay stored until a commit
    /// finds them without a reference.
    ///
    /// Fails with `Error::NotFound` where the instance has no object with that
    /// name.
    #[verifier::rlimit(50)]
    pub fn remove(&mut self, name: &str) -> (result: Result<(), Error>)
        requires
            old(self).wf(),
        ensures
            final(self).wf(),
            match result {
                Ok(()) => {
                    &&& crate::header::object_index(
                        old(self).header.objects@,
                        old(self).instance_id,
                        name.spec_bytes(),
                    ) matches Some(index)
                    &&& Self::object_removed(old(self), final(self), index)
                    &&& !final(self).has_object(name.spec_bytes())
                },
                Err(error) => {
                    &&& error == Error::NotFound
                    &&& !old(self).has_object(name.spec_bytes())
                    &&& *final(self) == *old(self)
                },
            },
    {
        match self.header.find_object(self.instance_id, name.as_bytes()) {
            Some(index) => {
                let removed = self.header.objects.remove(index);
                self.header.free_handles.push(removed.handle.handle_id);
                proof {
                    let before = old(self).header.objects@;
                    let after = self.header.objects@;
                    let free = self.header.free_handles@;
                    let freed = old(self).header.free_handles@;
                    let id = before[index as int].handle.handle_id;
                    assert(free =~= freed.push(id));
                    assert(id < self.header.next_handle);
                    assert forall|i: int| 0 <= i < free.len() implies #[trigger] free[i]
                        < self.header.next_handle by {
                        if i < freed.len() {
                            assert(free[i] == freed[i]);
                        }
                    }
                    assert forall|i: int, j: int|
                        0 <= i < free.len() && 0 <= j < free.len() && i != j implies free[i]
                        != free[j] by {
                        if i < freed.len() && j < freed.len() {
                            assert(free[i] == freed[i] && free[j] == freed[j]);
                        } else if i < freed.len() {
                            assert(before[index as int].handle.handle_id != freed[i]);
                        } else {
                            assert(before[index as int].handle.handle_id != freed[j]);
                        }
                    }
                    assert forall|i: int, k: int|
                        0 <= i < after.len() && 0 <= k < free.len() implies after[i].handle.handle_id
                        != free[k] by {
                        let i0 = if i < index { i } else { i + 1 };
                        assert(after[i] == before[i0]);
                        if k < freed.len() {
                            assert(before[i0].handle.handle_id != freed[k]);
                        } else {
                            assert(before[i0].handle.handle_id != before[index as int].handle.handle_id);
                        }
                    }
                    assert forall|i: int| 0 <= i < after.len() implies after[i] == before[if i
                        < index {
                        i
                    } else {
                        i + 1
                    }] by {}
                    assert forall|i: int, j: int|
                        0 <= i < after.len() && 0 <= j < after.len() && i != j implies {
                        &&& after[i].handle.handle_id != after[j].handle.handle_id
                        &&& (after[i].handle.instance_id != after[j].handle.instance_id
                            || after[i].name@ != after[j].name@)
                    } by {
                        let i0 = if i < index { i } else { i + 1 };
                        let j0 = if j < index { j } else { j + 1 };
                        assert(after[i] == before[i0]);
                        assert(after[j] == before[j0]);
                    }
                    assert forall|i: int| 0 <= i < after.len() implies (
                    #[trigger] after[i]).handle.handle_id < self.header.next_handle
                        && after[i].handle.wf() by {
                        let i0 = if i < index { i } else { i + 1 };
                        assert(after[i] == before[i0]);
                    }
                    if self.has_object(name.spec_bytes()) {
                        let i = crate::header::object_index(
                            after,
                            self.instance_id,
                            name.spec_bytes(),
                        ).unwrap();
                        let i0 = if i < index { i } else { i + 1 };
                        assert(after[i] == before[i0]);
                        assert(before[i0].name@ == before[index as int].name@);
                    }
                }
                Ok(())
            },
            None => Err(Error::NotFound),
        }
    }
}

} // verus!
