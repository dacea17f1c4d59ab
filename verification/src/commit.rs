use crate::chunk::Chunk;
use crate::error::Error;
use crate::format::{
    decode_header, encode_header, lemma_header_round_trip, spec_decode_header, spec_encode_header,
    HeaderModel,
};
use crate::hash::{hash_eq, ChunkHash};
use crate::header::{chunk_index, distinct_chunks, ChunkEntry, Header, ObjectEntry};
use crate::repo::{
    header_blob, spec_chunk_blob, spec_header_blob, spec_pointer_target, ObjectRepo,
};
use crate::store::{header_pointer, spec_header_pointer, BlobId, BlobKind, BlobStore};
use crate::wire::{encode_uint, get_uint, put_uint};
use vstd::prelude::*;

verus! {

/// The header that a store names as the current one, as it would be loaded:
/// `Error::NotFound` where the store has no pointer blob, and
/// `Error::InvalidData` where the pointer blob has not sixteen bytes, the
/// store lacks the header that it names, that header does not decode, or its
/// identifier is not one that the header itself has given out.
pub open spec fn committed(blobs: Map<BlobId, Seq<u8>>) -> Result<HeaderModel, Error> {
    if !blobs.contains_key(spec_header_pointer()) {
        Err(Error::NotFound)
    } else {
        match spec_pointer_target(blobs) {
            None => Err(Error::InvalidData),
            Some(target) => if !blobs.contains_key(spec_header_blob(target)) {
                Err(Error::InvalidData)
            } else {
                match spec_decode_header(blobs[spec_header_blob(target)]) {
                    Err(error) => Err(error),
                    Ok(model) => if target < model.next_blob {
                        Ok(model)
                    } else {
                        Err(Error::InvalidData)
                    },
                }
            },
        }
    }
}

/// Loads the header that `store` names as the current one.
pub fn load_header<S: BlobStore>(store: &S) -> (result: Result<Header, Error>)
    requires
        store.inv(),
    ensures
        match result {
            Ok(header) => {
                &&& committed(store.blobs()) == Ok::<HeaderModel, Error>(header@)
                &&& header.wf()
                &&& spec_pointer_target(store.blobs()) matches Some(target) && target
                    < header.next_blob
            },
            Err(error) => committed(store.blobs()) == Err::<HeaderModel, Error>(error) || (error
                == Error::Store && !store.reliable()),
        },
{
    match load_current(store) {
        Ok((_, header)) => Ok(header),
        Err(error) => Err(error),
    }
}

/// Loads the header that `store` names as the current one, and gives its
/// identifier with it.
pub fn load_current<S: BlobStore>(store: &S) -> (result: Result<(u128, Header), Error>)
    requires
        store.inv(),
    ensures
        match result {
            Ok((target, header)) => {
                &&& committed(store.blobs()) == Ok::<HeaderModel, Error>(header@)
                &&& header.wf()
                &&& spec_pointer_target(store.blobs()) == Some(target)
                &&& target < header.next_blob
            },
            Err(error) => committed(store.blobs()) == Err::<HeaderModel, Error>(error) || (error
                == Error::Store && !store.reliable()),
        },
{
    let pointer = match store.read(header_pointer()) {
        Ok(pointer) => pointer,
        Err(error) => {
            return Err(error);
        },
    };
    if pointer.len() != 16 {
        return Err(Error::InvalidData);
    }
    let target = match get_uint(pointer.as_slice(), 0, 16) {
        Some(target) => target,
        None => {
            return Err(Error::InvalidData);
        },
    };
    assert(pointer@.subrange(0, 16) =~= pointer@);
    let blob = match store.read(header_blob(target)) {
        Ok(blob) => blob,
        Err(Error::NotFound) => {
            return Err(Error::InvalidData);
        },
        Err(error) => {
            return Err(error);
        },
    };
    let header = match decode_header(blob.as_slice()) {
        Ok(header) => header,
        Err(error) => {
            return Err(error);
        },
    };
    if target >= header.next_blob {
        return Err(Error::InvalidData);
    }
    Ok((target, header))
}

/// The number of chunks of a list that have the checksum `hash`.
pub open spec fn count_in(chunks: Seq<Chunk>, hash: Seq<u8>) -> nat
    decreases chunks.len(),
{
    if chunks.len() == 0 {
        0
    } else {
        count_in(chunks.drop_last(), hash) + if chunks.last().hash@ == hash {
            1nat
        } else {
            0nat
        }
    }
}

/// The number of references that the handles of a list of objects hold to
/// the chunk with the checksum `hash`.
pub open spec fn references(objects: Seq<ObjectEntry>, hash: Seq<u8>) -> nat
    decreases objects.len(),
{
    if objects.len() == 0 {
        0
    } else {
        references(objects.drop_last(), hash) + count_in(objects.last().handle.chunks@, hash)
    }
}

/// A number of references as a reference count: the number itself, but no
/// more than the type holds.
pub open spec fn as_refcount(count: nat) -> u32 {
    if count <= u32::MAX {
        count as u32
    } else {
        u32::MAX
    }
}

/// The chunk entries of a list to which the handles of `objects` refer, each
/// with the number of those references as its reference count.
pub open spec fn recounted(entries: Seq<ChunkEntry>, objects: Seq<ObjectEntry>) -> Seq<ChunkEntry>
    decreases entries.len(),
{
    if entries.len() == 0 {
        Seq::empty()
    } else {
        let kept = recounted(entries.drop_last(), objects);
        let last = entries.last();
        let count = references(objects, last.hash@);
        if count == 0 {
            kept
        } else {
            kept.push(ChunkEntry { hash: last.hash, blob: last.blob, refcount: as_refcount(count) })
        }
    }
}

/// Each entry of a recounted list comes from an entry of the list that was
/// recounted, and is referred to.
pub proof fn lemma_recounted_from(entries: Seq<ChunkEntry>, objects: Seq<ObjectEntry>, j: int) -> (i:
    int)
    requires
        0 <= j < recounted(entries, objects).len(),
    ensures
        0 <= i < entries.len(),
        recounted(entries, objects)[j].hash == entries[i].hash,
        recounted(entries, objects)[j].blob == entries[i].blob,
        references(objects, entries[i].hash@) > 0,
        recounted(entries, objects)[j].refcount == as_refcount(
            references(objects, entries[i].hash@),
        ),
    decreases entries.len(),
{
    let kept = recounted(entries.drop_last(), objects);
    if j < kept.len() {
        lemma_recounted_from(entries.drop_last(), objects, j)
    } else {
        entries.len() - 1
    }
}

/// Each entry that is referred to is in the recounted list.
pub proof fn lemma_recounted_has(entries: Seq<ChunkEntry>, objects: Seq<ObjectEntry>, i: int) -> (j:
    int)
    requires
        0 <= i < entries.len(),
        references(objects, entries[i].hash@) > 0,
    ensures
        0 <= j < recounted(entries, objects).len(),
        recounted(entries, objects)[j].hash == entries[i].hash,
        recounted(entries, objects)[j].blob == entries[i].blob,
    decreases entries.len(),
{
    let kept = recounted(entries.drop_last(), objects);
    if i < entries.len() - 1 {
        lemma_recounted_has(entries.drop_last(), objects, i)
    } else {
        kept.len() as int
    }
}

/// Recounting keeps a list of entries in order: no two entries share a
/// checksum or a blob, and no blob identifier is beyond a bound that held.
pub proof fn lemma_recounted_distinct(entries: Seq<ChunkEntry>, objects: Seq<ObjectEntry>)
    requires
        distinct_chunks(entries),
    ensures
        distinct_chunks(recounted(entries, objects)),
        recounted(entries, objects).len() <= entries.len(),
    decreases entries.len(),
{
    if entries.len() > 0 {
        let front = entries.drop_last();
        let kept = recounted(front, objects);
        assert forall|a: int, b: int|
            0 <= a < front.len() && 0 <= b < front.len() && a != b implies front[a].hash@
            != front[b].hash@ && front[a].blob != front[b].blob by {
            assert(front[a] == entries[a]);
            assert(front[b] == entries[b]);
        }
        lemma_recounted_distinct(front, objects);
        let all = recounted(entries, objects);
        assert forall|a: int, b: int|
            0 <= a < all.len() && 0 <= b < all.len() && a != b implies all[a].hash@ != all[b].hash@
            && all[a].blob != all[b].blob by {
            if a < kept.len() && b < kept.len() {
                assert(all[a] == kept[a] && all[b] == kept[b]);
            } else if a < kept.len() {
                let i = lemma_recounted_from(front, objects, a);
                assert(front[i] == entries[i]);
            } else {
                let i = lemma_recounted_from(front, objects, b);
                assert(front[i] == entries[i]);
            }
        }
    }
}

/// Counts the chunks of a list that have the checksum `hash`, on top of
/// `count`, and stops at the greatest count that the type holds.
fn count_more(chunks: &Vec<Chunk>, hash: &ChunkHash, count: u32, Ghost(before): Ghost<nat>) -> (total:
    u32)
    requires
        count == as_refcount(before),
    ensures
        total == as_refcount(before + count_in(chunks@, hash@)),
{
    let mut total: u32 = count;
    let mut i: usize = 0;
    while i < chunks.len()
        invariant
            i <= chunks.len(),
            total == as_refcount(before + count_in(chunks@.take(i as int), hash@)),
        decreases chunks.len() - i,
    {
        proof {
            assert(chunks@.take(i + 1).drop_last() =~= chunks@.take(i as int));
        }
        if hash_eq(&chunks[i].hash, hash) && total < u32::MAX {
            total += 1;
        }
        i += 1;
    }
    assert(chunks@.take(i as int) =~= chunks@);
    total
}

/// Counts the references that the handles of `objects` hold to the chunk
/// with the checksum `hash`.
pub fn count_references(objects: &Vec<ObjectEntry>, hash: &ChunkHash) -> (count: u32)
    ensures
        count == as_refcount(references(objects@, hash@)),
{
    let mut count: u32 = 0;
    let mut i: usize = 0;
    while i < objects.len()
        invariant
            i <= objects.len(),
            count == as_refcount(references(objects@.take(i as int), hash@)),
        decreases objects.len() - i,
    {
        proof {
            assert(objects@.take(i + 1).drop_last() =~= objects@.take(i as int));
        }
        count = count_more(
            &objects[i].handle.chunks,
            hash,
            count,
            Ghost(references(objects@.take(i as int), hash@)),
        );
        i += 1;
    }
    assert(objects@.take(i as int) =~= objects@);
    count
}

/// Builds the list that `recounted` describes.
pub fn recount(entries: &Vec<ChunkEntry>, objects: &Vec<ObjectEntry>) -> (kept: Vec<ChunkEntry>)
    ensures
        kept@ == recounted(entries@, objects@),
{
    let mut kept: Vec<ChunkEntry> = Vec::new();
    let mut i: usize = 0;
    while i < entries.len()
        invariant
            i <= entries.len(),
            kept@ == recounted(entries@.take(i as int), objects@),
        decreases entries.len() - i,
    {
        proof {
            assert(entries@.take(i + 1).drop_last() =~= entries@.take(i as int));
        }
        let entry = entries[i];
        let count = count_references(objects, &entry.hash);
        if count > 0 {
            kept.push(ChunkEntry { hash: entry.hash, blob: entry.blob, refcount: count });
        }
        i += 1;
    }
    assert(entries@.take(i as int) =~= entries@);
    kept
}

/// A random identifier.
///
/// Calls `uuid::Uuid::new_v4`, which takes its bytes from the random number
/// generator of the system and does not return where that fails. Nothing is
/// claimed of the identifier.
#[verifier::external_body]
fn random_id() -> (id: u128) {
    uuid::Uuid::new_v4().as_u128()
}

/// The bytes of the version blob of a repository of this format.
pub open spec fn spec_version_bytes() -> Seq<u8> {
    encode_uint(crate::header::FORMAT_VERSION as nat, 4)
}

/// The header that a commit of `header` makes durable: the entries of the
/// chunks to which no handle refers are dropped, the others get the number
/// of references to them as their count, and one blob identifier is taken
/// for the header itself.
pub open spec fn commits_to(pre: &Header, post: &Header) -> bool {
    &&& post.version == pre.version
    &&& post.repo_id == pre.repo_id
    &&& post.config == pre.config
    &&& post.objects == pre.objects
    &&& post.next_handle == pre.next_handle
    &&& post.free_handles == pre.free_handles
    &&& post.next_blob == pre.next_blob + 1
    &&& post.chunks@ == recounted(pre.chunks@, pre.objects@)
}

/// Whether `post` is `pre`, but that it may have given out one more blob
/// identifier.
pub open spec fn same_but_next_blob(pre: &Header, post: &Header) -> bool {
    &&& post.version == pre.version
    &&& post.repo_id == pre.repo_id
    &&& post.config == pre.config
    &&& post.objects == pre.objects
    &&& post.chunks == pre.chunks
    &&& post.next_handle == pre.next_handle
    &&& post.free_handles == pre.free_handles
    &&& post.next_blob == pre.next_blob || post.next_blob == pre.next_blob + 1
}

/// The store after a commit of the header with identifier `id`: it holds the
/// blob of the header, and the pointer names it.
pub open spec fn store_after_commit(blobs: Map<BlobId, Seq<u8>>, id: u128, blob: Seq<u8>) -> Map<
    BlobId,
    Seq<u8>,
> {
    blobs.insert(spec_header_blob(id), blob).insert(spec_header_pointer(), encode_uint(id as nat, 16))
}

/// A store that has got a header blob which its pointer does not name, names
/// the header that it named.
pub proof fn lemma_header_blob_is_inert(blobs: Map<BlobId, Seq<u8>>, id: u128, blob: Seq<u8>)
    requires
        spec_pointer_target(blobs) != Some(id),
    ensures
        committed(blobs.insert(spec_header_blob(id), blob)) == committed(blobs),
        spec_pointer_target(blobs.insert(spec_header_blob(id), blob)) == spec_pointer_target(blobs),
{
}

/// After a commit, the store names the header that was committed, if the
/// body of that header comes back from the codec as it went in.
pub proof fn lemma_commit_is_loaded(
    blobs: Map<BlobId, Seq<u8>>,
    header: &Header,
    id: u128,
    blob: Seq<u8>,
)
    requires
        header.wf(),
        id < header.next_blob,
        spec_encode_header(header@) == Ok::<Seq<u8>, Error>(blob),
        header.config.compression.round_trips(crate::format::encode_body(header@)),
    ensures
        committed(store_after_commit(blobs, id, blob)) == Ok::<HeaderModel, Error>(header@),
        spec_pointer_target(store_after_commit(blobs, id, blob)) == Some(id),
{
    crate::wire::lemma_pow256_values();
    crate::wire::lemma_encode_uint_len(id as nat, 16);
    crate::wire::lemma_uint_round_trip(id as nat, 16);
    lemma_header_round_trip(header, blob);
}

impl<S: BlobStore> ObjectRepo<S> {
    /// Makes the state of the repository durable.
    ///
    /// The references to each chunk are counted anew, and the entries of the
    /// chunks to which no handle refers are dropped: views with unflushed
    /// writes lose the chunks that they have stored. The header is encoded
    /// and written to a blob of its own, and then the pointer blob is
    /// overwritten with the identifier of that blob.
    ///
    /// A failed commit leaves the header in memory as it was, but that a blob
    /// identifier may have been used up; the store names the header that it
    /// named, or the new one.
    #[verifier::rlimit(50)]
    pub fn commit(&mut self) -> (result: Result<(), Error>)
        requires
            old(self).wf(),
        ensures
            final(self).wf(),
            final(self).instance_id == old(self).instance_id,
            final(self).store.reliable() == old(self).store.reliable(),
            match result {
                Ok(()) => {
                    &&& commits_to(&old(self).header, &final(self).header)
                    &&& spec_encode_header(final(self).header@) matches Ok(blob)
                    &&& final(self).store.blobs() == store_after_commit(
                        old(self).store.blobs(),
                        old(self).header.next_blob,
                        blob,
                    )
                    &&& final(self).header.config.compression.round_trips(
                        crate::format::encode_body(final(self).header@),
                    ) ==> committed(final(self).store.blobs()) == Ok::<HeaderModel, Error>(
                        final(self).header@,
                    )
                },
                Err(error) => {
                    &&& same_but_next_blob(&old(self).header, &final(self).header)
                    &&& {
                        ||| {
                            &&& error == Error::Store
                            &&& old(self).header.next_blob == u128::MAX
                            &&& final(self).store == old(self).store
                        }
                        ||| exists|next: Header|
                            {
                                &&& commits_to(&old(self).header, &next)
                                &&& match spec_encode_header(next@) {
                                    Err(failure) => error == failure && final(self).store == old(
                                        self,
                                    ).store,
                                    Ok(blob) => {
                                        &&& error == Error::Store
                                        &&& !old(self).reliable()
                                        &&& {
                                            ||| final(self).store.blobs() == old(
                                                self,
                                            ).store.blobs()
                                            ||| final(self).store.blobs() == old(
                                                self,
                                            ).store.blobs().insert(
                                                spec_header_blob(old(self).header.next_blob),
                                                blob,
                                            )
                                            ||| final(self).store.blobs() == store_after_commit(
                                                old(self).store.blobs(),
                                                old(self).header.next_blob,
                                                blob,
                                            )
                                        }
                                    },
                                }
                            }
                    }
                },
            },
    {
        if self.header.next_blob == u128::MAX {
            return Err(Error::Store);
        }
        let id: u128 = self.header.next_blob;
        let mut chunks = recount(&self.header.chunks, &self.header.objects);
        proof {
            lemma_recounted_distinct(old(self).header.chunks@, old(self).header.objects@);
            assert forall|j: int| 0 <= j < chunks@.len() implies (#[trigger] chunks@[j]).blob
                < id by {
                let i = lemma_recounted_from(
                    old(self).header.chunks@,
                    old(self).header.objects@,
                    j,
                );
                assert(old(self).header.chunks[i].blob < id);
            }
        }
        core::mem::swap(&mut self.header.chunks, &mut chunks);
        self.header.next_blob = id + 1;
        let ghost next = self.header;
        let blob = match encode_header(&self.header) {
            Ok(blob) => blob,
            Err(error) => {
                core::mem::swap(&mut self.header.chunks, &mut chunks);
                self.header.next_blob = id;
                assert(commits_to(&old(self).header, &next));
                return Err(error);
            },
        };
        match self.store.write(header_blob(id), blob.as_slice()) {
            Ok(()) => {},
            Err(error) => {
                core::mem::swap(&mut self.header.chunks, &mut chunks);
                proof {
                    assert(commits_to(&old(self).header, &next));
                    lemma_header_blob_is_inert(old(self).store.blobs(), id, blob@);
                }
                return Err(error);
            },
        }
        proof {
            lemma_header_blob_is_inert(old(self).store.blobs(), id, blob@);
        }
        let mut pointer: Vec<u8> = Vec::new();
        put_uint(&mut pointer, id, 16);
        proof {
            crate::wire::lemma_pow256_values();
            crate::wire::lemma_encode_uint_len(id as nat, 16);
            crate::wire::lemma_uint_round_trip(id as nat, 16);
            assert(pointer@ =~= encode_uint(id as nat, 16));
        }
        match self.store.write(header_pointer(), pointer.as_slice()) {
            Ok(()) => {},
            Err(error) => {
                core::mem::swap(&mut self.header.chunks, &mut chunks);
                assert(commits_to(&old(self).header, &next));
                return Err(error);
            },
        }
        proof {
            if self.header.config.compression.round_trips(crate::format::encode_body(self.header@)) {
                lemma_commit_is_loaded(old(self).store.blobs(), &self.header, id, blob@);
            }
        }
        Ok(())
    }

    /// Gives up the changes that were made since the last commit: the header
    /// that the store names is loaded, and takes the place of the header in
    /// memory. A failed rollback leaves the repository as it was.
    pub fn rollback(&mut self) -> (result: Result<(), Error>)
        requires
            old(self).wf(),
        ensures
            final(self).wf(),
            final(self).store == old(self).store,
            final(self).instance_id == old(self).instance_id,
            match result {
                Ok(()) => committed(old(self).store.blobs()) == Ok::<HeaderModel, Error>(
                    final(self).header@,
                ),
                Err(error) => {
                    &&& final(self).header == old(self).header
                    &&& (committed(old(self).store.blobs()) == Err::<HeaderModel, Error>(error)
                        || (error == Error::Store && !old(self).reliable()))
                },
            },
    {
        match load_header(&self.store) {
            Ok(header) => {
                self.header = header;
                Ok(())
            },
            Err(error) => Err(error),
        }
    }

    /// What opening a repository on a store gives while the store does not
    /// fail: the header that it names; `Error::NotFound` where it has no
    /// version blob, and `Error::UnsupportedFormat` where the version blob is
    /// not the one of this format.
    pub open spec fn open_outcome(blobs: Map<BlobId, Seq<u8>>) -> Result<HeaderModel, Error> {
        if !blobs.contains_key(crate::store::spec_version_blob()) {
            Err(Error::NotFound)
        } else if blobs[crate::store::spec_version_blob()] != spec_version_bytes() {
            Err(Error::UnsupportedFormat)
        } else {
            committed(blobs)
        }
    }

    /// Reads the header of the repository that `store` holds, as `open` does.
    pub fn open_header(store: &S) -> (result: Result<Header, Error>)
        requires
            store.inv(),
        ensures
            match result {
                Ok(header) => {
                    &&& header.wf()
                    &&& Self::open_outcome(store.blobs()) == Ok::<HeaderModel, Error>(header@)
                    &&& spec_pointer_target(store.blobs()) matches Some(target) && target
                        < header.next_blob
                },
                Err(error) => Self::open_outcome(store.blobs()) == Err::<HeaderModel, Error>(error)
                    || (error == Error::Store && !store.reliable()),
            },
    {
        let version = match store.read(crate::store::version_blob()) {
            Ok(version) => version,
            Err(error) => {
                return Err(error);
            },
        };
        let mut expected: Vec<u8> = Vec::new();
        put_uint(&mut expected, crate::header::FORMAT_VERSION as u128, 4);
        assert(expected@ =~= spec_version_bytes());
        if !crate::header::bytes_eq(version.as_slice(), expected.as_slice()) {
            return Err(Error::UnsupportedFormat);
        }
        load_header(store)
    }

    /// Opens the repository that `store` holds, on the instance with
    /// identifier zero.
    pub fn open(store: S) -> (result: Result<Self, Error>)
        requires
            store.inv(),
        ensures
            match result {
                Ok(repo) => {
                    &&& repo.wf()
                    &&& repo.store == store
                    &&& repo.instance_id == 0
                    &&& Self::open_outcome(store.blobs()) == Ok::<HeaderModel, Error>(repo.header@)
                },
                Err(error) => Self::open_outcome(store.blobs()) == Err::<HeaderModel, Error>(error)
                    || (error == Error::Store && !store.reliable()),
            },
    {
        match Self::open_header(&store) {
            Ok(header) => Ok(ObjectRepo { store, header, instance_id: 0 }),
            Err(error) => Err(error),
        }
    }

    /// Takes the lock of `store` for the instance `instance_id`, as
    /// `acquire_lock` says, and opens the repository that `store` holds on
    /// that instance. Where the lock is left to its holder, this fails with
    /// `Error::AlreadyLocked`. Where the repository cannot be opened, the lock
    /// is given up again.
    #[verifier::rlimit(50)]
    pub fn open_locked(store: S, strategy: LockStrategy, instance_id: u128) -> (result: Result<
        Self,
        Error,
    >)
        requires
            store.inv(),
        ensures
            match result {
                Ok(repo) => {
                    &&& repo.wf()
                    &&& repo.instance_id == instance_id
                    &&& !store.blobs().contains_key(crate::store::spec_lock_blob()) || strategy
                        == LockStrategy::Force
                    &&& repo.store.blobs() == store.blobs().insert(
                        crate::store::spec_lock_blob(),
                        spec_lock_bytes(instance_id),
                    )
                    &&& Self::open_outcome(repo.store.blobs()) == Ok::<HeaderModel, Error>(
                        repo.header@,
                    )
                },
                Err(error) => {
                    ||| error == Error::AlreadyLocked && store.blobs().contains_key(
                        crate::store::spec_lock_blob(),
                    ) && strategy != LockStrategy::Force
                    ||| Self::open_outcome(
                        store.blobs().insert(
                            crate::store::spec_lock_blob(),
                            spec_lock_bytes(instance_id),
                        ),
                    ) == Err::<HeaderModel, Error>(error)
                    ||| error == Error::Store && !store.reliable()
                },
            },
    {
        let mut store = store;
        match acquire_lock(&mut store, strategy, instance_id) {
            Ok(true) => {},
            Ok(false) => {
                return Err(Error::AlreadyLocked);
            },
            Err(error) => {
                return Err(error);
            },
        }
        match Self::open_header(&store) {
            Ok(header) => Ok(ObjectRepo { store, header, instance_id }),
            Err(error) => {
                let _ = release_lock(&mut store, instance_id);
                Err(error)
            },
        }
    }

    /// Gives up the lock if the instance of this value holds it, as
    /// `release_lock` says, and gives the store back.
    pub fn close(self) -> (result: (S, Result<bool, Error>))
        requires
            self.wf(),
        ensures
            result.0.inv(),
            result.0.reliable() == self.store.reliable(),
            result.0.blobs().remove(crate::store::spec_lock_blob()) == self.store.blobs().remove(
                crate::store::spec_lock_blob(),
            ),
            match result.1 {
                Ok(released) => {
                    &&& released == (self.store.blobs().contains_key(
                        crate::store::spec_lock_blob(),
                    ) && self.store.blobs()[crate::store::spec_lock_blob()] == spec_lock_bytes(
                        self.instance_id,
                    ))
                    &&& result.0.blobs() == if released {
                        self.store.blobs().remove(crate::store::spec_lock_blob())
                    } else {
                        self.store.blobs()
                    }
                },
                Err(error) => error == Error::Store && !self.store.reliable(),
            },
    {
        let mut store = self.store;
        let released = release_lock(&mut store, self.instance_id);
        (store, released)
    }

    /// Creates a repository with the given identifier on `store`, which holds
    /// none: writes the version blob, and commits a header without objects.
    ///
    /// Fails with `Error::InvalidInput` where the settings cannot be used,
    /// with `Error::AlreadyExists` where the store has a pointer blob, and with
    /// the error of the first write that fails.
    #[verifier::rlimit(50)]
    pub fn create_with_id(store: S, config: crate::header::RepoConfig, repo_id: u128) -> (result:
        Result<Self, Error>)
        requires
            store.inv(),
        ensures
            match result {
                Ok(repo) => {
                    &&& repo.wf()
                    &&& config.spec_valid()
                    &&& !store.blobs().contains_key(spec_header_pointer())
                    &&& repo.instance_id == 0
                    &&& repo.header.repo_id == repo_id
                    &&& repo.header.config == config
                    &&& repo.header.version == crate::header::FORMAT_VERSION
                    &&& repo.header.objects@.len() == 0
                    &&& repo.header.chunks@.len() == 0
                    &&& repo.header.next_blob == 2
                    &&& repo.header.next_handle == 1
                    &&& repo.header.free_handles@.len() == 0
                    &&& spec_encode_header(repo.header@) matches Ok(blob)
                    &&& repo.store.blobs() == store_after_commit(
                        store.blobs().insert(crate::store::spec_version_blob(), spec_version_bytes()),
                        1,
                        blob,
                    )
                    &&& config.compression.round_trips(crate::format::encode_body(repo.header@))
                        ==> Self::open_outcome(repo.store.blobs()) == Ok::<HeaderModel, Error>(
                        repo.header@,
                    )
                },
                Err(error) => {
                    ||| error == Error::InvalidInput && !config.spec_valid()
                    ||| error == Error::AlreadyExists && config.spec_valid()
                        && store.blobs().contains_key(spec_header_pointer())
                    ||| error == Error::Store && !store.reliable()
                    ||| exists|header: Header|
                        header.wf() && header.config == config && spec_encode_header(header@)
                            == Err::<Seq<u8>, Error>(error)
                },
            },
    {
        if !config.valid() {
            return Err(Error::InvalidInput);
        }
        match store.read(header_pointer()) {
            Ok(_) => {
                return Err(Error::AlreadyExists);
            },
            Err(Error::NotFound) => {},
            Err(error) => {
                return Err(error);
            },
        }
        let mut store = store;
        let mut version: Vec<u8> = Vec::new();
        put_uint(&mut version, crate::header::FORMAT_VERSION as u128, 4);
        assert(version@ =~= spec_version_bytes());
        match store.write(crate::store::version_blob(), version.as_slice()) {
            Ok(()) => {},
            Err(error) => {
                return Err(error);
            },
        }
        let mut repo = Self::init(store, config, repo_id, 0);
        let ghost fresh = repo.header;
        match repo.commit() {
            Ok(()) => {
                proof {
                    assert(recounted(fresh.chunks@, fresh.objects@) =~= Seq::<ChunkEntry>::empty());
                }
                Ok(repo)
            },
            Err(error) => {
                proof {
                    if !(error == Error::Store && !store.reliable()) {
                        let next = choose|next: Header|
                            commits_to(&fresh, &next) && spec_encode_header(next@) == Err::<
                                Seq<u8>,
                                Error,
                            >(error);
                        assert(recounted(fresh.chunks@, fresh.objects@) =~= Seq::<
                            ChunkEntry,
                        >::empty());
                        assert(next.wf());
                    }
                }
                Err(error)
            },
        }
    }

    /// Creates a repository with a random identifier on `store`, as
    /// `create_with_id` says.
    pub fn create(store: S, config: crate::header::RepoConfig) -> (result: Result<Self, Error>)
        requires
            store.inv(),
        ensures
            match result {
                Ok(repo) => {
                    &&& repo.wf()
                    &&& config.spec_valid()
                    &&& !store.blobs().contains_key(spec_header_pointer())
                    &&& repo.instance_id == 0
                    &&& repo.header.config == config
                    &&& repo.header.objects@.len() == 0
                    &&& repo.header.chunks@.len() == 0
                    &&& spec_encode_header(repo.header@) matches Ok(blob)
                    &&& repo.store.blobs() == store_after_commit(
                        store.blobs().insert(crate::store::spec_version_blob(), spec_version_bytes()),
                        1,
                        blob,
                    )
                },
                Err(error) => {
                    ||| error == Error::InvalidInput && !config.spec_valid()
                    ||| error == Error::AlreadyExists && config.spec_valid()
                        && store.blobs().contains_key(spec_header_pointer())
                    ||| error == Error::Store && !store.reliable()
                    ||| exists|header: Header|
                        header.wf() && header.config == config && spec_encode_header(header@)
                            == Err::<Seq<u8>, Error>(error)
                },
            },
    {
        Self::create_with_id(store, config, random_id())
    }

    /// Gives the store back.
    pub fn into_store(self) -> (store: S)
        ensures
            store == self.store,
    {
        self.store
    }
}

/// The blob identifiers that a list of chunk entries names.
pub open spec fn entry_blobs(entries: Seq<ChunkEntry>) -> Seq<u128> {
    Seq::new(entries.len(), |i: int| entries[i].blob)
}

/// The blob identifiers that what a header says of its chunks names.
pub open spec fn model_blobs(entries: Seq<crate::format::EntryModel>) -> Seq<u128> {
    Seq::new(entries.len(), |i: int| entries[i].blob)
}

/// Whether a list of chunk entries names the blob with identifier `blob`.
pub fn blob_is_named(entries: &Vec<ChunkEntry>, blob: u128) -> (named: bool)
    ensures
        named == entry_blobs(entries@).contains(blob),
{
    let mut i: usize = 0;
    while i < entries.len()
        invariant
            i <= entries.len(),
            forall|j: int| 0 <= j < i ==> entry_blobs(entries@)[j] != blob,
        decreases entries.len() - i,
    {
        if entries[i].blob == blob {
            assert(entry_blobs(entries@)[i as int] == blob);
            return true;
        }
        i += 1;
    }
    false
}

/// Whether cleaning keeps the blob under `key`: a chunk blob that the header
/// in memory or the committed header names, the blob of the committed
/// header, and every blob that holds neither a chunk nor a header.
pub open spec fn cleaning_keeps(
    current: Seq<u128>,
    durable: Seq<u128>,
    target: u128,
    key: BlobId,
) -> bool {
    match key.kind {
        BlobKind::Chunk => current.contains(key.id) || durable.contains(key.id),
        BlobKind::Header => key.id == target,
        _ => true,
    }
}

/// A store that has lost none of the blobs that cleaning keeps reads every
/// chunk that the header records as before, and names the header that it
/// named.
pub proof fn lemma_cleaning_keeps_chunks<S: BlobStore>(
    before: &ObjectRepo<S>,
    after: &ObjectRepo<S>,
    durable: Seq<u128>,
    target: u128,
)
    requires
        after.header == before.header,
        spec_pointer_target(before.store.blobs()) == Some(target),
        forall|key: BlobId| #[trigger]
            after.store.blobs().contains_key(key) ==> before.store.blobs().contains_key(key)
                && after.store.blobs()[key] == before.store.blobs()[key],
        forall|key: BlobId|
            before.store.blobs().contains_key(key) && cleaning_keeps(
                entry_blobs(before.header.chunks@),
                durable,
                target,
                key,
            ) ==> #[trigger] after.store.blobs().contains_key(key),
    ensures
        forall|hash: Seq<u8>, size: nat| after.stored(hash, size) == before.stored(hash, size),
        committed(after.store.blobs()) == committed(before.store.blobs()),
        spec_pointer_target(after.store.blobs()) == Some(target),
{
    let current = entry_blobs(before.header.chunks@);
    assert forall|hash: Seq<u8>, size: nat| after.stored(hash, size) == before.stored(
        hash,
        size,
    ) by {
        if chunk_index(before.header.chunks@, hash) is Some {
            let i = chunk_index(before.header.chunks@, hash).unwrap();
            let blob = before.header.chunks@[i].blob;
            assert(current[i] == blob);
            let key = spec_chunk_blob(blob);
            assert(cleaning_keeps(current, durable, target, key));
            if before.store.blobs().contains_key(key) {
                assert(after.store.blobs().contains_key(key));
            }
        }
    }
    let pointer = spec_header_pointer();
    assert(cleaning_keeps(current, durable, target, pointer));
    assert(before.store.blobs().contains_key(pointer));
    assert(after.store.blobs().contains_key(pointer));
    let header = spec_header_blob(target);
    assert(cleaning_keeps(current, durable, target, header));
    if before.store.blobs().contains_key(header) {
        assert(after.store.blobs().contains_key(header));
    }
}

impl<S: BlobStore> ObjectRepo<S> {
    /// Removes the blobs that nothing refers to any more: the blobs of chunks
    /// that neither the header in memory nor the committed header names, and
    /// the blobs of headers other than the committed one. The header in
    /// memory is not changed.
    ///
    /// Fails with the error of loading the committed header, before anything
    /// is removed, and with `Error::Store` where the store fails; then some
    /// of the blobs may have been removed.
    #[verifier::rlimit(50)]
    pub fn clean(&mut self) -> (result: Result<(), Error>)
        requires
            old(self).wf(),
        ensures
            final(self).wf(),
            final(self).header == old(self).header,
            final(self).instance_id == old(self).instance_id,
            final(self).store.reliable() == old(self).store.reliable(),
            final(self).store.blobs().submap_of(old(self).store.blobs()),
            forall|hash: Seq<u8>, size: nat|
                final(self).stored(hash, size) == old(self).stored(hash, size),
            committed(final(self).store.blobs()) == committed(old(self).store.blobs()),
            match result {
                Ok(()) => {
                    &&& committed(old(self).store.blobs()) matches Ok(durable)
                    &&& spec_pointer_target(old(self).store.blobs()) matches Some(target)
                    &&& forall|key: BlobId|
                        final(self).store.blobs().contains_key(key) <==> old(
                            self,
                        ).store.blobs().contains_key(key) && cleaning_keeps(
                            entry_blobs(old(self).header.chunks@),
                            model_blobs(durable.chunks),
                            target,
                            key,
                        )
                },
                Err(error) => {
                    ||| committed(old(self).store.blobs()) == Err::<HeaderModel, Error>(error)
                        && final(self).store == old(self).store
                    ||| error == Error::Store && !old(self).reliable()
                },
            },
    {
        let (target, durable) = match load_current(&self.store) {
            Ok(loaded) => loaded,
            Err(error) => {
                return Err(error);
            },
        };
        let ids = match self.store.list() {
            Ok(ids) => ids,
            Err(error) => {
                return Err(error);
            },
        };
        assert(spec_pointer_target(old(self).store.blobs()) == Some(target));
        let ghost blobs = old(self).store.blobs();
        let ghost current = entry_blobs(old(self).header.chunks@);
        let ghost named = model_blobs(durable@.chunks);
        proof {
            assert(entry_blobs(durable.chunks@) =~= named);
        }
        let mut i: usize = 0;
        while i < ids.len()
            invariant
                i <= ids.len(),
                self.store.inv(),
                self.header == old(self).header,
                self.instance_id == old(self).instance_id,
                self.store.reliable() == old(self).store.reliable(),
                blobs == old(self).store.blobs(),
                current == entry_blobs(self.header.chunks@),
                named == entry_blobs(durable.chunks@),
                ids@.no_duplicates(),
                ids@.to_set() == blobs.dom(),
                spec_pointer_target(blobs) == Some(target),
                target < self.header.next_blob,
                self.header.wf(),
                forall|key: BlobId| #[trigger]
                    self.store.blobs().contains_key(key) ==> blobs.contains_key(key)
                        && self.store.blobs()[key] == blobs[key],
                self.store.blobs().contains_key(spec_header_pointer()),
                forall|key: BlobId|
                    self.store.blobs().contains_key(key) <==> blobs.contains_key(key) && (
                    cleaning_keeps(current, named, target, key) || exists|j: int|
                        i <= j < ids@.len() && ids@[j] == key),
            decreases ids.len() - i,
        {
            let key = ids[i];
            let keep = match key.kind {
                BlobKind::Chunk => blob_is_named(&self.header.chunks, key.id) || blob_is_named(
                    &durable.chunks,
                    key.id,
                ),
                BlobKind::Header => key.id == target,
                _ => true,
            };
            let ghost before = self.store.blobs();
            let removed: Result<(), Error> = if keep {
                Ok(())
            } else {
                self.store.remove(key)
            };
            proof {
                assert(keep == cleaning_keeps(current, named, target, key));
                assert(ids@.to_set().contains(key));
                assert(blobs.dom().contains(key));
                assert(cleaning_keeps(current, named, target, spec_header_pointer()));
                let after = self.store.blobs();
                assert(after == before || (!keep && after == before.remove(key)));
                assert forall|other: BlobId| after.contains_key(other) implies before.contains_key(
                    other,
                ) && after[other] == before[other] by {}
                assert forall|other: BlobId| #[trigger]
                    after.contains_key(other) implies blobs.contains_key(other) && after[other]
                    == blobs[other] by {
                    assert(before.contains_key(other) && after[other] == before[other]);
                }
                assert(after.submap_of(blobs));
                assert(after.contains_key(spec_header_pointer()));
                assert(after[spec_header_pointer()] == blobs[spec_header_pointer()]);
            }
            match removed {
                Ok(()) => {},
                Err(Error::NotFound) => {
                    assert(before.remove(key) =~= before);
                },
                Err(error) => {
                    proof {
                        lemma_cleaning_keeps_chunks(old(self), self, named, target);
                    }
                    return Err(error);
                },
            }
            proof {
                let after = self.store.blobs();
                assert(after == if keep {
                    before
                } else {
                    before.remove(key)
                });
                assert forall|other: BlobId|
                    after.contains_key(other) <==> blobs.contains_key(other) && (cleaning_keeps(
                        current,
                        named,
                        target,
                        other,
                    ) || exists|j: int| i + 1 <= j < ids@.len() && ids@[j] == other) by {
                    if other != key {
                        assert(after.contains_key(other) == before.contains_key(other));
                        if exists|j: int| i <= j < ids@.len() && ids@[j] == other {
                            let j = choose|j: int| i <= j < ids@.len() && ids@[j] == other;
                            assert(i + 1 <= j);
                        }
                        if exists|j: int| i + 1 <= j < ids@.len() && ids@[j] == other {
                            let j = choose|j: int| i + 1 <= j < ids@.len() && ids@[j] == other;
                            assert(i <= j);
                        }
                    } else {
                        if exists|j: int| i + 1 <= j < ids@.len() && ids@[j] == other {
                            let j = choose|j: int| i + 1 <= j < ids@.len() && ids@[j] == other;
                            assert(ids@[i as int] == ids@[j]);
                        }
                        assert(ids@[i as int] == key);
                        assert(before.contains_key(key));
                    }
                }
            }
            i += 1;
        }
        proof {
            lemma_cleaning_keeps_chunks(old(self), self, named, target);
        }
        Ok(())
    }
}

/// How a repository is locked when it is opened.
#[derive(Clone, Copy, Debug, PartialEq, Eq, Structural)]
pub enum LockStrategy {
    /// Fail where the repository is locked.
    Abort,
    /// Leave the lock to its holder, for the caller to try again later.
    Wait,
    /// Take the lock from its holder.
    Force,
}

/// The bytes of the lock blob while `owner` holds the lock.
pub open spec fn spec_lock_bytes(owner: u128) -> Seq<u8> {
    encode_uint(owner as nat, 16)
}

/// Tries to take the lock of `store` for `owner`, and says whether it is
/// taken.
///
/// A store without a lock blob is locked by writing one. Where there is a lock
/// blob, `LockStrategy::Abort` fails with `Error::AlreadyLocked`,
/// `LockStrategy::Wait` leaves everything as it is, and `LockStrategy::Force`
/// overwrites the blob.
pub fn acquire_lock<S: BlobStore>(store: &mut S, strategy: LockStrategy, owner: u128) -> (result:
    Result<bool, Error>)
    requires
        old(store).inv(),
    ensures
        final(store).inv(),
        final(store).reliable() == old(store).reliable(),
        final(store).blobs().remove(crate::store::spec_lock_blob()) == old(store).blobs().remove(
            crate::store::spec_lock_blob(),
        ),
        match result {
            Ok(true) => {
                &&& final(store).blobs() == old(store).blobs().insert(
                    crate::store::spec_lock_blob(),
                    spec_lock_bytes(owner),
                )
                &&& !old(store).blobs().contains_key(crate::store::spec_lock_blob()) || strategy
                    == LockStrategy::Force
            },
            Ok(false) => {
                &&& final(store).blobs() == old(store).blobs()
                &&& old(store).blobs().contains_key(crate::store::spec_lock_blob())
                &&& strategy == LockStrategy::Wait
            },
            Err(Error::AlreadyLocked) => {
                &&& final(store).blobs() == old(store).blobs()
                &&& old(store).blobs().contains_key(crate::store::spec_lock_blob())
                &&& strategy == LockStrategy::Abort
            },
            Err(error) => {
                &&& error == Error::Store
                &&& !old(store).reliable()
                &&& final(store).blobs() == old(store).blobs() || final(store).blobs() == old(
                    store,
                ).blobs().insert(crate::store::spec_lock_blob(), spec_lock_bytes(owner))
            },
        },
{
    let locked = match store.read(crate::store::lock_blob()) {
        Ok(_) => true,
        Err(Error::NotFound) => false,
        Err(error) => {
            return Err(error);
        },
    };
    if locked {
        match strategy {
            LockStrategy::Abort => {
                return Err(Error::AlreadyLocked);
            },
            LockStrategy::Wait => {
                return Ok(false);
            },
            LockStrategy::Force => {},
        }
    }
    let mut bytes: Vec<u8> = Vec::new();
    put_uint(&mut bytes, owner, 16);
    assert(bytes@ =~= spec_lock_bytes(owner));
    match store.write(crate::store::lock_blob(), bytes.as_slice()) {
        Ok(()) => Ok(true),
        Err(error) => Err(error),
    }
}

/// Gives up the lock of `store` if `owner` holds it, and says whether it did.
pub fn release_lock<S: BlobStore>(store: &mut S, owner: u128) -> (result: Result<bool, Error>)
    requires
        old(store).inv(),
    ensures
        final(store).inv(),
        final(store).reliable() == old(store).reliable(),
        final(store).blobs().remove(crate::store::spec_lock_blob()) == old(store).blobs().remove(
            crate::store::spec_lock_blob(),
        ),
        match result {
            Ok(released) => {
                &&& released == (old(store).blobs().contains_key(crate::store::spec_lock_blob())
                    && old(store).blobs()[crate::store::spec_lock_blob()] == spec_lock_bytes(owner))
                &&& final(store).blobs() == if released {
                    old(store).blobs().remove(crate::store::spec_lock_blob())
                } else {
                    old(store).blobs()
                }
            },
            Err(error) => {
                &&& error == Error::Store
                &&& !old(store).reliable()
                &&& final(store).blobs() == old(store).blobs() || final(store).blobs() == old(
                    store,
                ).blobs().remove(crate::store::spec_lock_blob())
            },
        },
{
    let held = match store.read(crate::store::lock_blob()) {
        Ok(held) => held,
        Err(Error::NotFound) => {
            return Ok(false);
        },
        Err(error) => {
            return Err(error);
        },
    };
    let mut bytes: Vec<u8> = Vec::new();
    put_uint(&mut bytes, owner, 16);
    assert(bytes@ =~= spec_lock_bytes(owner));
    if !crate::header::bytes_eq(held.as_slice(), bytes.as_slice()) {
        return Ok(false);
    }
    match store.remove(crate::store::lock_blob()) {
        Ok(()) => Ok(true),
        Err(Error::NotFound) => Ok(false),
        Err(error) => Err(error),
    }
}

/// The byte sequences that a list of checksums holds.
pub open spec fn hash_views(hashes: Seq<ChunkHash>) -> Seq<Seq<u8>> {
    Seq::new(hashes.len(), |i: int| hashes[i]@)
}

impl<S: BlobStore> ObjectRepo<S> {
    /// Whether chunk `at` of the object at `index` has the checksum `hash`
    /// and cannot be read.
    pub open spec fn fails_at(&self, index: int, at: int, hash: Seq<u8>) -> bool {
        &&& 0 <= index < self.header.objects@.len()
        &&& 0 <= at < self.header.objects@[index].handle.chunks@.len()
        &&& self.header.objects@[index].handle.chunks@[at].hash@ == hash
        &&& self.read_outcome(self.header.objects@[index].handle.chunks@[at]) is Err
    }

    /// Whether some handle refers to a chunk with the checksum `hash` that
    /// cannot be read.
    pub open spec fn corrupted(&self, hash: Seq<u8>) -> bool {
        exists|index: int, at: int| self.fails_at(index, at, hash)
    }

    /// Verifies the integrity of all the data in the repository: reads every
    /// chunk that a handle refers to, checks it against its size and
    /// checksum, and returns the checksums of the chunks that cannot be read,
    /// each once.
    #[verifier::rlimit(50)]
    pub fn verify(&self) -> (result: Result<Vec<ChunkHash>, Error>)
        requires
            self.wf(),
        ensures
            match result {
                Ok(corrupt) => {
                    &&& hash_views(corrupt@).no_duplicates()
                    &&& forall|hash: Seq<u8>|
                        hash_views(corrupt@).contains(hash) <==> self.corrupted(hash)
                },
                Err(error) => error == Error::Store && !self.reliable(),
            },
    {
        let mut corrupt: Vec<ChunkHash> = Vec::new();
        let mut index: usize = 0;
        while index < self.header.objects.len()
            invariant
                index <= self.header.objects.len(),
                self.wf(),
                hash_views(corrupt@).no_duplicates(),
                forall|hash: Seq<u8>|
                    hash_views(corrupt@).contains(hash) <==> exists|a: int, b: int|
                        a < index && self.fails_at(a, b, hash),
            decreases self.header.objects.len() - index,
        {
            let chunks = &self.header.objects[index].handle.chunks;
            let mut at: usize = 0;
            while at < chunks.len()
                invariant
                    index < self.header.objects.len(),
                    chunks == &self.header.objects@[index as int].handle.chunks,
                    at <= chunks.len(),
                    self.wf(),
                    hash_views(corrupt@).no_duplicates(),
                    forall|hash: Seq<u8>|
                        hash_views(corrupt@).contains(hash) <==> exists|a: int, b: int|
                            (a < index || (a == index && b < at)) && self.fails_at(a, b, hash),
                decreases chunks.len() - at,
            {
                let chunk = chunks[at];
                let failed = match self.read_chunk(&chunk) {
                    Ok(_) => false,
                    Err(Error::Store) => {
                        return Err(Error::Store);
                    },
                    Err(_) => true,
                };
                let ghost listed = hash_views(corrupt@);
                let mut known = false;
                if failed {
                    let mut k: usize = 0;
                    while k < corrupt.len()
                        invariant
                            k <= corrupt.len(),
                            !known ==> forall|m: int| 0 <= m < k ==> corrupt@[m]@ != chunk.hash@,
                            known ==> hash_views(corrupt@).contains(chunk.hash@),
                        decreases corrupt.len() - k,
                    {
                        if hash_eq(&corrupt[k], &chunk.hash) {
                            known = true;
                            assert(hash_views(corrupt@)[k as int] == chunk.hash@);
                        }
                        k += 1;
                    }
                    if !known {
                        corrupt.push(chunk.hash);
                    }
                }
                proof {
                    let after = hash_views(corrupt@);
                    if failed && !known {
                        assert(after =~= listed.push(chunk.hash@));
                        assert(!listed.contains(chunk.hash@));
                        assert(after[after.len() - 1] == chunk.hash@);
                    } else {
                        assert(after =~= listed);
                    }
                    assert(self.fails_at(index as int, at as int, chunk.hash@) == failed);
                    assert forall|hash: Seq<u8>|
                        after.contains(hash) <==> exists|a: int, b: int|
                            (a < index || (a == index && b < at + 1)) && self.fails_at(
                                a,
                                b,
                                hash,
                            ) by {
                        if after.contains(hash) {
                            if listed.contains(hash) {
                                let (a, b) = choose|a: int, b: int|
                                    (a < index || (a == index && b < at)) && self.fails_at(
                                        a,
                                        b,
                                        hash,
                                    );
                                assert((a < index || (a == index && b < at + 1)) && self.fails_at(
                                    a,
                                    b,
                                    hash,
                                ));
                            } else {
                                let m = choose|m: int| 0 <= m < after.len() && after[m] == hash;
                                if m < listed.len() {
                                    assert(listed[m] == hash);
                                }
                                assert(hash == chunk.hash@);
                                assert(self.fails_at(index as int, at as int, hash));
                            }
                        }
                        if exists|a: int, b: int|
                            (a < index || (a == index && b < at + 1)) && self.fails_at(a, b, hash) {
                            let (a, b) = choose|a: int, b: int|
                                (a < index || (a == index && b < at + 1)) && self.fails_at(
                                    a,
                                    b,
                                    hash,
                                );
                            if a == index && b == at {
                                assert(hash == chunk.hash@);
                                assert(failed);
                                if known {
                                    assert(listed.contains(hash));
                                } else {
                                    assert(after[after.len() - 1] == hash);
                                }
                            } else {
                                assert((a < index || (a == index && b < at)) && self.fails_at(
                                    a,
                                    b,
                                    hash,
                                ));
                                assert(listed.contains(hash));
                                let m = choose|m: int| 0 <= m < listed.len() && listed[m] == hash;
                                assert(after[m] == hash);
                            }
                        }
                    }
                }
                at += 1;
            }
            proof {
                assert forall|hash: Seq<u8>|
                    hash_views(corrupt@).contains(hash) <==> exists|a: int, b: int|
                        a < index + 1 && self.fails_at(a, b, hash) by {
                    if exists|a: int, b: int|
                        (a < index || (a == index && b < at)) && self.fails_at(a, b, hash) {
                        let (a, b) = choose|a: int, b: int|
                            (a < index || (a == index && b < at)) && self.fails_at(a, b, hash);
                        assert(a < index + 1 && self.fails_at(a, b, hash));
                    }
                    if exists|a: int, b: int| a < index + 1 && self.fails_at(a, b, hash) {
                        let (a, b) = choose|a: int, b: int|
                            a < index + 1 && self.fails_at(a, b, hash);
                        assert((a < index || (a == index && b < at)) && self.fails_at(a, b, hash));
                    }
                }
            }
            index += 1;
        }
        proof {
            assert forall|hash: Seq<u8>|
                hash_views(corrupt@).contains(hash) <==> self.corrupted(hash) by {
                if self.corrupted(hash) {
                    let (a, b) = choose|a: int, b: int| self.fails_at(a, b, hash);
                    assert(a < index && self.fails_at(a, b, hash));
                }
                if exists|a: int, b: int| a < index && self.fails_at(a, b, hash) {
                    let (a, b) = choose|a: int, b: int| a < index && self.fails_at(a, b, hash);
                    assert(self.fails_at(a, b, hash));
                }
            }
        }
        Ok(corrupt)
    }
}

} // verus!
