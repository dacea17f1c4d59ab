use crate::chunk::Chunk;
use crate::chunker::ChunkerConfig;
use crate::compression::Compression;
use crate::header::{ChunkEntry, Header, ObjectEntry, ObjectHandle, RepoConfig};
use crate::wire::{
    decode_uint, encode_uint, get_uint, lemma_decode_uint_bound, lemma_encode_uint_len,
    lemma_pow256_values, lemma_uint_round_trip, pow256, put_uint,
};
use vstd::prelude::*;

verus! {

/// What a chunk reference says: a size and a checksum.
pub struct ChunkModel {
    pub size: nat,
    pub hash: Seq<u8>,
}

/// What the header says of a stored chunk.
pub struct EntryModel {
    pub hash: Seq<u8>,
    pub blob: u128,
    pub refcount: u32,
}

/// What a handle says.
pub struct HandleModel {
    pub repo_id: u128,
    pub instance_id: u128,
    pub handle_id: u64,
    pub size: u64,
    pub chunks: Seq<ChunkModel>,
}

/// What the header says of an object.
pub struct ObjectModel {
    pub name: Seq<u8>,
    pub handle: HandleModel,
}

/// What a header says.
pub struct HeaderModel {
    pub version: u32,
    pub repo_id: u128,
    pub config: RepoConfig,
    pub objects: Seq<ObjectModel>,
    pub chunks: Seq<EntryModel>,
    pub next_blob: u128,
    pub next_handle: u64,
    pub free_handles: Seq<u64>,
}

/// What `chunk` says.
pub open spec fn chunk_model(chunk: Chunk) -> ChunkModel {
    ChunkModel { size: chunk.size as nat, hash: chunk.hash@ }
}

/// What the chunks of a list say.
pub open spec fn chunk_models(chunks: Seq<Chunk>) -> Seq<ChunkModel> {
    Seq::new(chunks.len(), |i: int| chunk_model(chunks[i]))
}

/// What `entry` says.
pub open spec fn entry_model(entry: ChunkEntry) -> EntryModel {
    EntryModel { hash: entry.hash@, blob: entry.blob, refcount: entry.refcount }
}

/// What the entries of a list say.
pub open spec fn entry_models(entries: Seq<ChunkEntry>) -> Seq<EntryModel> {
    Seq::new(entries.len(), |i: int| entry_model(entries[i]))
}

/// What `handle` says.
pub open spec fn handle_model(handle: ObjectHandle) -> HandleModel {
    HandleModel {
        repo_id: handle.repo_id,
        instance_id: handle.instance_id,
        handle_id: handle.handle_id,
        size: handle.size,
        chunks: chunk_models(handle.chunks@),
    }
}

/// What `entry` says.
pub open spec fn object_model(entry: ObjectEntry) -> ObjectModel {
    ObjectModel { name: entry.name@, handle: handle_model(entry.handle) }
}

/// What the objects of a list say.
pub open spec fn object_models(entries: Seq<ObjectEntry>) -> Seq<ObjectModel> {
    Seq::new(entries.len(), |i: int| object_model(entries[i]))
}

impl View for Header {
    type V = HeaderModel;

    open spec fn view(&self) -> HeaderModel {
        HeaderModel {
            version: self.version,
            repo_id: self.repo_id,
            config: self.config,
            objects: object_models(self.objects@),
            chunks: entry_models(self.chunks@),
            next_blob: self.next_blob,
            next_handle: self.next_handle,
            free_handles: self.free_handles@,
        }
    }
}

/// Takes a number of `width` bytes from the front of `bytes`.
pub open spec fn take_uint(bytes: Seq<u8>, width: nat) -> Option<(nat, Seq<u8>)> {
    if bytes.len() < width {
        None
    } else {
        Some((decode_uint(bytes.take(width as int)), bytes.skip(width as int)))
    }
}

/// Takes `count` bytes from the front of `bytes`.
pub open spec fn take_bytes(bytes: Seq<u8>, count: nat) -> Option<(Seq<u8>, Seq<u8>)> {
    if bytes.len() < count {
        None
    } else {
        Some((bytes.take(count as int), bytes.skip(count as int)))
    }
}

/// The encoding of a chunk reference: the size in eight bytes, and the
/// thirty-two bytes of the checksum.
pub open spec fn encode_chunk(chunk: ChunkModel) -> Seq<u8> {
    encode_uint(chunk.size, 8) + chunk.hash
}

/// Takes a chunk reference from the front of `bytes`.
#[verifier::opaque]
pub open spec fn take_chunk(bytes: Seq<u8>) -> Option<(ChunkModel, Seq<u8>)> {
    match take_uint(bytes, 8) {
        None => None,
        Some((size, rest)) => if size > usize::MAX {
            None
        } else {
            match take_bytes(rest, 32) {
                None => None,
                Some((hash, rest)) => Some((ChunkModel { size, hash }, rest)),
            }
        },
    }
}

/// The encodings of the chunk references of a list, one after the other.
pub open spec fn encode_chunks(chunks: Seq<ChunkModel>) -> Seq<u8>
    decreases chunks.len(),
{
    if chunks.len() == 0 {
        Seq::empty()
    } else {
        encode_chunk(chunks[0]) + encode_chunks(chunks.skip(1))
    }
}

/// Takes `count` chunk references from the front of `bytes`.
pub open spec fn take_chunks(bytes: Seq<u8>, count: nat) -> Option<(Seq<ChunkModel>, Seq<u8>)>
    decreases count,
{
    if count == 0 {
        Some((Seq::empty(), bytes))
    } else {
        match take_chunk(bytes) {
            None => None,
            Some((chunk, rest)) => match take_chunks(rest, (count - 1) as nat) {
                None => None,
                Some((chunks, rest)) => Some((seq![chunk] + chunks, rest)),
            },
        }
    }
}

/// The encoding of a chunk entry: the thirty-two bytes of the checksum, the
/// blob identifier in sixteen bytes, and the reference count in four.
pub open spec fn encode_entry(entry: EntryModel) -> Seq<u8> {
    entry.hash + encode_uint(entry.blob as nat, 16) + encode_uint(entry.refcount as nat, 4)
}

/// Takes a chunk entry from the front of `bytes`.
#[verifier::opaque]
pub open spec fn take_entry(bytes: Seq<u8>) -> Option<(EntryModel, Seq<u8>)> {
    match take_bytes(bytes, 32) {
        None => None,
        Some((hash, rest)) => match take_uint(rest, 16) {
            None => None,
            Some((blob, rest)) => match take_uint(rest, 4) {
                None => None,
                Some((refcount, rest)) => Some(
                    (EntryModel { hash, blob: blob as u128, refcount: refcount as u32 }, rest),
                ),
            },
        },
    }
}

/// The encodings of the chunk entries of a list, one after the other.
pub open spec fn encode_entries(entries: Seq<EntryModel>) -> Seq<u8>
    decreases entries.len(),
{
    if entries.len() == 0 {
        Seq::empty()
    } else {
        encode_entry(entries[0]) + encode_entries(entries.skip(1))
    }
}

/// Takes `count` chunk entries from the front of `bytes`.
pub open spec fn take_entries(bytes: Seq<u8>, count: nat) -> Option<(Seq<EntryModel>, Seq<u8>)>
    decreases count,
{
    if count == 0 {
        Some((Seq::empty(), bytes))
    } else {
        match take_entry(bytes) {
            None => None,
            Some((entry, rest)) => match take_entries(rest, (count - 1) as nat) {
                None => None,
                Some((entries, rest)) => Some((seq![entry] + entries, rest)),
            },
        }
    }
}

/// The encoding of a handle: the identifiers of the repository and of the
/// instance in sixteen bytes each, the identifier of the handle and the size
/// in eight bytes each, the number of chunks in eight bytes, and the chunks.
pub open spec fn encode_handle(handle: HandleModel) -> Seq<u8> {
    encode_uint(handle.repo_id as nat, 16) + encode_uint(handle.instance_id as nat, 16)
        + encode_uint(handle.handle_id as nat, 8) + encode_uint(handle.size as nat, 8)
        + encode_uint(handle.chunks.len(), 8) + encode_chunks(handle.chunks)
}

/// Takes a handle from the front of `bytes`.
#[verifier::opaque]
pub open spec fn take_handle(bytes: Seq<u8>) -> Option<(HandleModel, Seq<u8>)> {
    match take_uint(bytes, 16) {
        None => None,
        Some((repo_id, rest)) => match take_uint(rest, 16) {
            None => None,
            Some((instance_id, rest)) => match take_uint(rest, 8) {
                None => None,
                Some((handle_id, rest)) => match take_uint(rest, 8) {
                    None => None,
                    Some((size, rest)) => match take_uint(rest, 8) {
                        None => None,
                        Some((count, rest)) => match take_chunks(rest, count) {
                            None => None,
                            Some((chunks, rest)) => Some(
                                (
                                    HandleModel {
                                        repo_id: repo_id as u128,
                                        instance_id: instance_id as u128,
                                        handle_id: handle_id as u64,
                                        size: size as u64,
                                        chunks,
                                    },
                                    rest,
                                ),
                            ),
                        },
                    },
                },
            },
        },
    }
}

/// The encoding of an object: the length of its name in eight bytes, the
/// name, and the handle.
pub open spec fn encode_object(object: ObjectModel) -> Seq<u8> {
    encode_uint(object.name.len(), 8) + object.name + encode_handle(object.handle)
}

/// Takes an object from the front of `bytes`.
#[verifier::opaque]
pub open spec fn take_object(bytes: Seq<u8>) -> Option<(ObjectModel, Seq<u8>)> {
    match take_uint(bytes, 8) {
        None => None,
        Some((length, rest)) => match take_bytes(rest, length) {
            None => None,
            Some((name, rest)) => match take_handle(rest) {
                None => None,
                Some((handle, rest)) => Some((ObjectModel { name, handle }, rest)),
            },
        },
    }
}

/// The encodings of the objects of a list, one after the other.
pub open spec fn encode_objects(objects: Seq<ObjectModel>) -> Seq<u8>
    decreases objects.len(),
{
    if objects.len() == 0 {
        Seq::empty()
    } else {
        encode_object(objects[0]) + encode_objects(objects.skip(1))
    }
}

/// Takes `count` objects from the front of `bytes`.
pub open spec fn take_objects(bytes: Seq<u8>, count: nat) -> Option<(Seq<ObjectModel>, Seq<u8>)>
    decreases count,
{
    if count == 0 {
        Some((Seq::empty(), bytes))
    } else {
        match take_object(bytes) {
            None => None,
            Some((object, rest)) => match take_objects(rest, (count - 1) as nat) {
                None => None,
                Some((objects, rest)) => Some((seq![object] + objects, rest)),
            },
        }
    }
}

/// The encodings of the identifiers of a list, eight bytes each, one after
/// the other.
pub open spec fn encode_ids(ids: Seq<u64>) -> Seq<u8>
    decreases ids.len(),
{
    if ids.len() == 0 {
        Seq::empty()
    } else {
        encode_uint(ids[0] as nat, 8) + encode_ids(ids.skip(1))
    }
}

/// Takes `count` identifiers from the front of `bytes`.
pub open spec fn take_ids(bytes: Seq<u8>, count: nat) -> Option<(Seq<u64>, Seq<u8>)>
    decreases count,
{
    if count == 0 {
        Some((Seq::empty(), bytes))
    } else {
        match take_uint(bytes, 8) {
            None => None,
            Some((id, rest)) => match take_ids(rest, (count - 1) as nat) {
                None => None,
                Some((ids, rest)) => Some((seq![id as u64] + ids, rest)),
            },
        }
    }
}

/// Whether a chunk reference can be encoded: its size fits, and its checksum
/// has thirty-two bytes.
pub open spec fn chunk_fits(chunk: ChunkModel) -> bool {
    chunk.size <= usize::MAX && chunk.size < pow256(8) && chunk.hash.len() == 32
}

/// Whether all chunk references of a list can be encoded.
pub open spec fn chunks_fit(chunks: Seq<ChunkModel>) -> bool {
    forall|i: int| 0 <= i < chunks.len() ==> chunk_fits(#[trigger] chunks[i])
}

/// Whether a handle can be encoded.
pub open spec fn handle_fits(handle: HandleModel) -> bool {
    handle.chunks.len() < pow256(8) && chunks_fit(handle.chunks)
}

/// Whether an object can be encoded.
pub open spec fn object_fits(object: ObjectModel) -> bool {
    object.name.len() < pow256(8) && handle_fits(object.handle)
}

/// Whether all objects of a list can be encoded.
pub open spec fn objects_fit(objects: Seq<ObjectModel>) -> bool {
    forall|i: int| 0 <= i < objects.len() ==> object_fits(#[trigger] objects[i])
}

/// Whether all chunk entries of a list can be encoded.
pub open spec fn entries_fit(entries: Seq<EntryModel>) -> bool {
    forall|i: int| 0 <= i < entries.len() ==> (#[trigger] entries[i]).hash.len() == 32
}

/// A number is taken from the front of its encoding.
pub proof fn lemma_take_uint(value: nat, width: nat, rest: Seq<u8>)
    requires
        value < pow256(width),
    ensures
        take_uint(encode_uint(value, width) + rest, width) == Some((value, rest)),
{
    lemma_encode_uint_len(value, width);
    lemma_uint_round_trip(value, width);
    let all = encode_uint(value, width) + rest;
    assert(all.take(width as int) =~= encode_uint(value, width));
    assert(all.skip(width as int) =~= rest);
}

/// Bytes are taken from the front of what begins with them.
pub proof fn lemma_take_bytes(bytes: Seq<u8>, rest: Seq<u8>)
    ensures
        take_bytes(bytes + rest, bytes.len()) == Some((bytes, rest)),
{
    let all = bytes + rest;
    assert(all.take(bytes.len() as int) =~= bytes);
    assert(all.skip(bytes.len() as int) =~= rest);
}

/// A chunk reference is taken from the front of its encoding.
pub proof fn lemma_take_chunk(chunk: ChunkModel, rest: Seq<u8>)
    requires
        chunk_fits(chunk),
    ensures
        take_chunk(encode_chunk(chunk) + rest) == Some((chunk, rest)),
{
    reveal(take_chunk);
    assert(encode_chunk(chunk) + rest =~= encode_uint(chunk.size, 8) + (chunk.hash + rest));
    lemma_take_uint(chunk.size, 8, chunk.hash + rest);
    lemma_take_bytes(chunk.hash, rest);
}

/// Chunk references are taken from the front of their encodings.
pub proof fn lemma_take_chunks(chunks: Seq<ChunkModel>, rest: Seq<u8>)
    requires
        chunks_fit(chunks),
    ensures
        take_chunks(encode_chunks(chunks) + rest, chunks.len()) == Some((chunks, rest)),
    decreases chunks.len(),
{
    if chunks.len() == 0 {
        assert(encode_chunks(chunks) + rest =~= rest);
        assert(chunks =~= Seq::<ChunkModel>::empty());
    } else {
        let tail = chunks.skip(1);
        assert(chunk_fits(chunks[0]));
        assert forall|i: int| 0 <= i < tail.len() implies chunk_fits(#[trigger] tail[i]) by {
            assert(tail[i] == chunks[i + 1]);
        }
        assert(encode_chunks(chunks) + rest =~= encode_chunk(chunks[0]) + (encode_chunks(tail)
            + rest));
        lemma_take_chunk(chunks[0], encode_chunks(tail) + rest);
        lemma_take_chunks(tail, rest);
        assert(seq![chunks[0]] + tail =~= chunks);
    }
}

/// A chunk entry is taken from the front of its encoding.
pub proof fn lemma_take_entry(entry: EntryModel, rest: Seq<u8>)
    requires
        entry.hash.len() == 32,
    ensures
        take_entry(encode_entry(entry) + rest) == Some((entry, rest)),
{
    reveal(take_entry);
    lemma_pow256_values();
    let blob = encode_uint(entry.blob as nat, 16);
    let refcount = encode_uint(entry.refcount as nat, 4);
    assert(encode_entry(entry) + rest =~= entry.hash + (blob + (refcount + rest)));
    lemma_take_bytes(entry.hash, blob + (refcount + rest));
    lemma_take_uint(entry.blob as nat, 16, refcount + rest);
    lemma_take_uint(entry.refcount as nat, 4, rest);
}

/// Chunk entries are taken from the front of their encodings.
pub proof fn lemma_take_entries(entries: Seq<EntryModel>, rest: Seq<u8>)
    requires
        entries_fit(entries),
    ensures
        take_entries(encode_entries(entries) + rest, entries.len()) == Some((entries, rest)),
    decreases entries.len(),
{
    if entries.len() == 0 {
        assert(encode_entries(entries) + rest =~= rest);
        assert(entries =~= Seq::<EntryModel>::empty());
    } else {
        let tail = entries.skip(1);
        assert(entries[0].hash.len() == 32);
        assert forall|i: int| 0 <= i < tail.len() implies (#[trigger] tail[i]).hash.len()
            == 32 by {
            assert(tail[i] == entries[i + 1]);
        }
        assert(encode_entries(entries) + rest =~= encode_entry(entries[0]) + (encode_entries(tail)
            + rest));
        lemma_take_entry(entries[0], encode_entries(tail) + rest);
        lemma_take_entries(tail, rest);
        assert(seq![entries[0]] + tail =~= entries);
    }
}

/// A handle is taken from the front of its encoding.
#[verifier::rlimit(50)]
pub proof fn lemma_take_handle(handle: HandleModel, rest: Seq<u8>)
    requires
        handle_fits(handle),
    ensures
        take_handle(encode_handle(handle) + rest) == Some((handle, rest)),
{
    reveal(take_handle);
    lemma_pow256_values();
    let a = encode_uint(handle.repo_id as nat, 16);
    let b = encode_uint(handle.instance_id as nat, 16);
    let c = encode_uint(handle.handle_id as nat, 8);
    let d = encode_uint(handle.size as nat, 8);
    let e = encode_uint(handle.chunks.len(), 8);
    let f = encode_chunks(handle.chunks);
    assert(encode_handle(handle) + rest =~= a + (b + (c + (d + (e + (f + rest))))));
    lemma_take_uint(handle.repo_id as nat, 16, b + (c + (d + (e + (f + rest)))));
    lemma_take_uint(handle.instance_id as nat, 16, c + (d + (e + (f + rest))));
    lemma_take_uint(handle.handle_id as nat, 8, d + (e + (f + rest)));
    lemma_take_uint(handle.size as nat, 8, e + (f + rest));
    lemma_take_uint(handle.chunks.len(), 8, f + rest);
    lemma_take_chunks(handle.chunks, rest);
}

/// An object is taken from the front of its encoding.
pub proof fn lemma_take_object(object: ObjectModel, rest: Seq<u8>)
    requires
        object_fits(object),
    ensures
        take_object(encode_object(object) + rest) == Some((object, rest)),
{
    reveal(take_object);
    let a = encode_uint(object.name.len(), 8);
    let b = encode_handle(object.handle);
    assert(encode_object(object) + rest =~= a + (object.name + (b + rest)));
    lemma_take_uint(object.name.len(), 8, object.name + (b + rest));
    lemma_take_bytes(object.name, b + rest);
    lemma_take_handle(object.handle, rest);
}

/// Objects are taken from the front of their encodings.
#[verifier::rlimit(50)]
pub proof fn lemma_take_objects(objects: Seq<ObjectModel>, rest: Seq<u8>)
    requires
        objects_fit(objects),
    ensures
        take_objects(encode_objects(objects) + rest, objects.len()) == Some((objects, rest)),
    decreases objects.len(),
{
    if objects.len() == 0 {
        assert(encode_objects(objects) + rest =~= rest);
        assert(objects =~= Seq::<ObjectModel>::empty());
    } else {
        let tail = objects.skip(1);
        assert(object_fits(objects[0]));
        assert forall|i: int| 0 <= i < tail.len() implies object_fits(#[trigger] tail[i]) by {
            assert(tail[i] == objects[i + 1]);
        }
        assert(encode_objects(objects) + rest =~= encode_object(objects[0]) + (encode_objects(
            tail,
        ) + rest));
        lemma_take_object(objects[0], encode_objects(tail) + rest);
        lemma_take_objects(tail, rest);
        assert(seq![objects[0]] + tail =~= objects);
    }
}

/// Identifiers are taken from the front of their encodings.
pub proof fn lemma_take_ids(ids: Seq<u64>, rest: Seq<u8>)
    ensures
        take_ids(encode_ids(ids) + rest, ids.len()) == Some((ids, rest)),
    decreases ids.len(),
{
    lemma_pow256_values();
    if ids.len() == 0 {
        assert(encode_ids(ids) + rest =~= rest);
        assert(ids =~= Seq::<u64>::empty());
    } else {
        let tail = ids.skip(1);
        assert(encode_ids(ids) + rest =~= encode_uint(ids[0] as nat, 8) + (encode_ids(tail)
            + rest));
        lemma_take_uint(ids[0] as nat, 8, encode_ids(tail) + rest);
        lemma_take_ids(tail, rest);
        assert(seq![ids[0]] + tail =~= ids);
    }
}

/// The encoding of a list with one more identifier at its end.
pub proof fn lemma_encode_ids_push(ids: Seq<u64>, id: u64)
    ensures
        encode_ids(ids.push(id)) == encode_ids(ids) + encode_uint(id as nat, 8),
    decreases ids.len(),
{
    if ids.len() == 0 {
        assert(ids.push(id).skip(1) =~= Seq::<u64>::empty());
        assert(encode_ids(Seq::<u64>::empty()) =~= Seq::<u8>::empty());
        assert(ids.push(id)[0] == id);
        assert(encode_ids(ids.push(id)) == encode_uint(id as nat, 8) + encode_ids(
            ids.push(id).skip(1),
        ));
        assert(encode_ids(ids.push(id)) =~= encode_uint(id as nat, 8));
        assert(encode_ids(ids) + encode_uint(id as nat, 8) =~= encode_uint(id as nat, 8));
    } else {
        assert(ids.push(id).skip(1) =~= ids.skip(1).push(id));
        lemma_encode_ids_push(ids.skip(1), id);
        assert(encode_uint(ids[0] as nat, 8) + (encode_ids(ids.skip(1)) + encode_uint(
            id as nat,
            8,
        )) =~= (encode_uint(ids[0] as nat, 8) + encode_ids(ids.skip(1))) + encode_uint(
            id as nat,
            8,
        ));
    }
}

/// The encoding of a list with one more chunk reference at its end.
pub proof fn lemma_encode_chunks_push(chunks: Seq<ChunkModel>, chunk: ChunkModel)
    ensures
        encode_chunks(chunks.push(chunk)) == encode_chunks(chunks) + encode_chunk(chunk),
    decreases chunks.len(),
{
    if chunks.len() == 0 {
        assert(chunks.push(chunk).skip(1) =~= Seq::<ChunkModel>::empty());
        assert(encode_chunks(Seq::<ChunkModel>::empty()) =~= Seq::<u8>::empty());
        assert(chunks.push(chunk)[0] == chunk);
        assert(encode_chunks(chunks.push(chunk)) == encode_chunk(chunk) + encode_chunks(
            chunks.push(chunk).skip(1),
        ));
        assert(encode_chunks(chunks.push(chunk)) =~= encode_chunk(chunk));
        assert(encode_chunks(chunks) + encode_chunk(chunk) =~= encode_chunk(chunk));
    } else {
        assert(chunks.push(chunk).skip(1) =~= chunks.skip(1).push(chunk));
        lemma_encode_chunks_push(chunks.skip(1), chunk);
        assert(encode_chunk(chunks[0]) + (encode_chunks(chunks.skip(1)) + encode_chunk(chunk))
            =~= (encode_chunk(chunks[0]) + encode_chunks(chunks.skip(1))) + encode_chunk(chunk));
    }
}

/// The encoding of a list with one more chunk entry at its end.
pub proof fn lemma_encode_entries_push(entries: Seq<EntryModel>, entry: EntryModel)
    ensures
        encode_entries(entries.push(entry)) == encode_entries(entries) + encode_entry(entry),
    decreases entries.len(),
{
    if entries.len() == 0 {
        assert(entries.push(entry).skip(1) =~= Seq::<EntryModel>::empty());
        assert(encode_entries(Seq::<EntryModel>::empty()) =~= Seq::<u8>::empty());
        assert(entries.push(entry)[0] == entry);
        assert(encode_entries(entries.push(entry)) == encode_entry(entry) + encode_entries(
            entries.push(entry).skip(1),
        ));
        assert(encode_entries(entries.push(entry)) =~= encode_entry(entry));
        assert(encode_entries(entries) + encode_entry(entry) =~= encode_entry(entry));
    } else {
        assert(entries.push(entry).skip(1) =~= entries.skip(1).push(entry));
        lemma_encode_entries_push(entries.skip(1), entry);
        assert(encode_entry(entries[0]) + (encode_entries(entries.skip(1)) + encode_entry(entry))
            =~= (encode_entry(entries[0]) + encode_entries(entries.skip(1))) + encode_entry(
            entry,
        ));
    }
}

/// The encoding of a list with one more object at its end.
pub proof fn lemma_encode_objects_push(objects: Seq<ObjectModel>, object: ObjectModel)
    ensures
        encode_objects(objects.push(object)) == encode_objects(objects) + encode_object(object),
    decreases objects.len(),
{
    if objects.len() == 0 {
        assert(objects.push(object).skip(1) =~= Seq::<ObjectModel>::empty());
        assert(encode_objects(Seq::<ObjectModel>::empty()) =~= Seq::<u8>::empty());
        assert(objects.push(object)[0] == object);
        assert(encode_objects(objects.push(object)) == encode_object(object) + encode_objects(
            objects.push(object).skip(1),
        ));
        assert(encode_objects(objects.push(object)) =~= encode_object(object));
        assert(encode_objects(objects) + encode_object(object) =~= encode_object(object));
    } else {
        assert(objects.push(object).skip(1) =~= objects.skip(1).push(object));
        lemma_encode_objects_push(objects.skip(1), object);
        assert(encode_object(objects[0]) + (encode_objects(objects.skip(1)) + encode_object(
            object,
        )) =~= (encode_object(objects[0]) + encode_objects(objects.skip(1))) + encode_object(
            object,
        ));
    }
}

/// Reads a number of `width` bytes at `at`, and gives the offset past it.
pub fn read_uint(bytes: &[u8], at: usize, width: usize) -> (read: Option<(u128, usize)>)
    requires
        at <= bytes@.len(),
        1 <= width <= 16,
    ensures
        match read {
            Some((value, next)) => {
                &&& at < next <= bytes@.len()
                &&& take_uint(bytes@.skip(at as int), width as nat) == Some(
                    (value as nat, bytes@.skip(next as int)),
                )
                &&& value < pow256(width as nat)
            },
            None => take_uint(bytes@.skip(at as int), width as nat) is None,
        },
{
    let length = bytes.len();
    match get_uint(bytes, at, width) {
        Some(value) => {
            proof {
                assert(at + width <= length);
                assert(bytes@.skip(at as int).take(width as int) =~= bytes@.subrange(
                    at as int,
                    at + width,
                ));
                assert(bytes@.skip(at as int).skip(width as int) =~= bytes@.skip(at + width));
                lemma_decode_uint_bound(bytes@.subrange(at as int, at + width));
            }
            Some((value, at + width))
        },
        None => None,
    }
}

/// Reads a checksum of thirty-two bytes at `at`, and gives the offset past
/// it.
pub fn read_hash(bytes: &[u8], at: usize) -> (read: Option<([u8; 32], usize)>)
    requires
        at <= bytes@.len(),
    ensures
        match read {
            Some((hash, next)) => {
                &&& at < next <= bytes@.len()
                &&& take_bytes(bytes@.skip(at as int), 32) == Some(
                    (hash@, bytes@.skip(next as int)),
                )
            },
            None => take_bytes(bytes@.skip(at as int), 32) is None,
        },
{
    if bytes.len() - at < 32 {
        return None;
    }
    let mut hash = [0u8; 32];
    let mut i: usize = 0;
    while i < 32
        invariant
            i <= 32,
            at + 32 <= bytes.len(),
            forall|j: int| 0 <= j < i ==> hash@[j] == bytes@[at + j],
        decreases 32 - i,
    {
        hash[i] = bytes[at + i];
        i += 1;
    }
    proof {
        assert(hash@ =~= bytes@.skip(at as int).take(32));
        assert(bytes@.skip(at as int).skip(32) =~= bytes@.skip(at + 32));
    }
    Some((hash, at + 32))
}

/// Reads `count` bytes at `at`, and gives the offset past them.
pub fn read_bytes(bytes: &[u8], at: usize, count: u128) -> (read: Option<(Vec<u8>, usize)>)
    requires
        at <= bytes@.len(),
    ensures
        match read {
            Some((taken, next)) => {
                &&& at <= next <= bytes@.len()
                &&& next == at + count
                &&& take_bytes(bytes@.skip(at as int), count as nat) == Some(
                    (taken@, bytes@.skip(next as int)),
                )
            },
            None => take_bytes(bytes@.skip(at as int), count as nat) is None,
        },
{
    if count > (bytes.len() - at) as u128 {
        return None;
    }
    let length = count as usize;
    let taken = vstd::slice::slice_to_vec(vstd::slice::slice_subrange(bytes, at, at + length));
    proof {
        assert(taken@ =~= bytes@.skip(at as int).take(length as int));
        assert(bytes@.skip(at as int).skip(length as int) =~= bytes@.skip(at + length));
    }
    Some((taken, at + length))
}

/// Appends the encoding of `chunk` to `out`.
pub fn write_chunk_ref(out: &mut Vec<u8>, chunk: &Chunk)
    ensures
        final(out)@ == old(out)@ + encode_chunk(chunk_model(*chunk)),
{
    put_uint(out, chunk.size as u128, 8);
    out.extend_from_slice(chunk.hash.as_slice());
    assert(out@ =~= old(out)@ + encode_chunk(chunk_model(*chunk)));
}

/// Reads a chunk reference at `at`, and gives the offset past it.
pub fn read_chunk_ref(bytes: &[u8], at: usize) -> (read: Option<(Chunk, usize)>)
    requires
        at <= bytes@.len(),
    ensures
        match read {
            Some((chunk, next)) => {
                &&& at < next <= bytes@.len()
                &&& take_chunk(bytes@.skip(at as int)) == Some(
                    (chunk_model(chunk), bytes@.skip(next as int)),
                )
            },
            None => take_chunk(bytes@.skip(at as int)) is None,
        },
{
    proof {
        reveal(take_chunk);
    }
    let (size, at) = match read_uint(bytes, at, 8) {
        Some(read) => read,
        None => {
            return None;
        },
    };
    if size > usize::MAX as u128 {
        return None;
    }
    let (hash, at) = match read_hash(bytes, at) {
        Some(read) => read,
        None => {
            return None;
        },
    };
    Some((Chunk { size: size as usize, hash }, at))
}

/// Appends the encodings of `chunks` to `out`.
pub fn write_chunk_refs(out: &mut Vec<u8>, chunks: &Vec<Chunk>)
    ensures
        final(out)@ == old(out)@ + encode_chunks(chunk_models(chunks@)),
{
    let mut i: usize = 0;
    proof {
        assert(chunk_models(chunks@.take(0)) =~= Seq::<ChunkModel>::empty());
        assert(old(out)@ + Seq::<u8>::empty() =~= old(out)@);
    }
    while i < chunks.len()
        invariant
            i <= chunks.len(),
            out@ == old(out)@ + encode_chunks(chunk_models(chunks@.take(i as int))),
        decreases chunks.len() - i,
    {
        let ghost before = out@;
        write_chunk_ref(out, &chunks[i]);
        proof {
            let done = chunk_models(chunks@.take(i as int));
            let item = chunk_model(chunks@[i as int]);
            assert(chunk_models(chunks@.take(i + 1)) =~= done.push(item));
            lemma_encode_chunks_push(done, item);
            assert(out@ =~= old(out)@ + (encode_chunks(done) + encode_chunk(item)));
        }
        i += 1;
    }
    proof {
        assert(chunks@.take(i as int) =~= chunks@);
    }
}

/// Reads `count` chunk references at `at`, and gives the offset past them.
#[verifier::rlimit(50)]
pub fn read_chunk_refs(bytes: &[u8], at: usize, count: u128) -> (read: Option<(Vec<Chunk>, usize)>)
    requires
        at <= bytes@.len(),
    ensures
        match read {
            Some((chunks, next)) => {
                &&& at <= next <= bytes@.len()
                &&& take_chunks(bytes@.skip(at as int), count as nat) == Some(
                    (chunk_models(chunks@), bytes@.skip(next as int)),
                )
            },
            None => take_chunks(bytes@.skip(at as int), count as nat) is None,
        },
{
    let mut chunks: Vec<Chunk> = Vec::new();
    let mut cursor: usize = at;
    let mut i: u128 = 0;
    let ghost whole = take_chunks(bytes@.skip(at as int), count as nat);
    proof {
        assert(chunk_models(chunks@) =~= Seq::<ChunkModel>::empty());
        if whole is Some {
            assert(Seq::<ChunkModel>::empty() + whole.unwrap().0 =~= whole.unwrap().0);
        }
    }
    while i < count
        invariant
            i <= count,
            at <= cursor <= bytes@.len(),
            whole == take_chunks(bytes@.skip(at as int), count as nat),
            whole == match take_chunks(bytes@.skip(cursor as int), (count - i) as nat) {
                None => None::<(Seq<ChunkModel>, Seq<u8>)>,
                Some((rest, left)) => Some((chunk_models(chunks@) + rest, left)),
            },
        decreases count - i,
    {
        let ghost done = chunk_models(chunks@);
        let (chunk, next) = match read_chunk_ref(bytes, cursor) {
            Some(read) => read,
            None => {
                return None;
            },
        };
        chunks.push(chunk);
        proof {
            assert(chunk_models(chunks@) =~= done.push(chunk_model(chunk)));
            let tail = take_chunks(bytes@.skip(next as int), (count - i - 1) as nat);
            if tail is Some {
                assert(done + (seq![chunk_model(chunk)] + tail.unwrap().0) =~= done.push(
                    chunk_model(chunk),
                ) + tail.unwrap().0);
            }
        }
        cursor = next;
        i += 1;
    }
    proof {
        assert(chunk_models(chunks@) + Seq::<ChunkModel>::empty() =~= chunk_models(chunks@));
    }
    Some((chunks, cursor))
}

/// Appends the encoding of `entry` to `out`.
pub fn write_entry(out: &mut Vec<u8>, entry: &ChunkEntry)
    ensures
        final(out)@ == old(out)@ + encode_entry(entry_model(*entry)),
{
    out.extend_from_slice(entry.hash.as_slice());
    put_uint(out, entry.blob, 16);
    put_uint(out, entry.refcount as u128, 4);
    assert(out@ =~= old(out)@ + encode_entry(entry_model(*entry)));
}

/// Reads a chunk entry at `at`, and gives the offset past it.
pub fn read_entry(bytes: &[u8], at: usize) -> (read: Option<(ChunkEntry, usize)>)
    requires
        at <= bytes@.len(),
    ensures
        match read {
            Some((entry, next)) => {
                &&& at < next <= bytes@.len()
                &&& take_entry(bytes@.skip(at as int)) == Some(
                    (entry_model(entry), bytes@.skip(next as int)),
                )
            },
            None => take_entry(bytes@.skip(at as int)) is None,
        },
{
    proof {
        reveal(take_entry);
    }
    let (hash, at) = match read_hash(bytes, at) {
        Some(read) => read,
        None => {
            return None;
        },
    };
    let (blob, at) = match read_uint(bytes, at, 16) {
        Some(read) => read,
        None => {
            return None;
        },
    };
    let (refcount, at) = match read_uint(bytes, at, 4) {
        Some(read) => read,
        None => {
            return None;
        },
    };
    proof {
        lemma_pow256_values();
    }
    Some((ChunkEntry { hash, blob, refcount: refcount as u32 }, at))
}

/// Appends the encodings of `entries` to `out`.
pub fn write_entries(out: &mut Vec<u8>, entries: &Vec<ChunkEntry>)
    ensures
        final(out)@ == old(out)@ + encode_entries(entry_models(entries@)),
{
    let mut i: usize = 0;
    proof {
        assert(entry_models(entries@.take(0)) =~= Seq::<EntryModel>::empty());
        assert(old(out)@ + Seq::<u8>::empty() =~= old(out)@);
    }
    while i < entries.len()
        invariant
            i <= entries.len(),
            out@ == old(out)@ + encode_entries(entry_models(entries@.take(i as int))),
        decreases entries.len() - i,
    {
        write_entry(out, &entries[i]);
        proof {
            let done = entry_models(entries@.take(i as int));
            let item = entry_model(entries@[i as int]);
            assert(entry_models(entries@.take(i + 1)) =~= done.push(item));
            lemma_encode_entries_push(done, item);
            assert(out@ =~= old(out)@ + (encode_entries(done) + encode_entry(item)));
        }
        i += 1;
    }
    proof {
        assert(entries@.take(i as int) =~= entries@);
    }
}

/// Reads `count` chunk entries at `at`, and gives the offset past them.
#[verifier::rlimit(50)]
pub fn read_entries(bytes: &[u8], at: usize, count: u128) -> (read: Option<(Vec<ChunkEntry>, usize)>)
    requires
        at <= bytes@.len(),
    ensures
        match read {
            Some((entries, next)) => {
                &&& at <= next <= bytes@.len()
                &&& take_entries(bytes@.skip(at as int), count as nat) == Some(
                    (entry_models(entries@), bytes@.skip(next as int)),
                )
            },
            None => take_entries(bytes@.skip(at as int), count as nat) is None,
        },
{
    let mut entries: Vec<ChunkEntry> = Vec::new();
    let mut cursor: usize = at;
    let mut i: u128 = 0;
    let ghost whole = take_entries(bytes@.skip(at as int), count as nat);
    proof {
        assert(entry_models(entries@) =~= Seq::<EntryModel>::empty());
        if whole is Some {
            assert(Seq::<EntryModel>::empty() + whole.unwrap().0 =~= whole.unwrap().0);
        }
    }
    while i < count
        invariant
            i <= count,
            at <= cursor <= bytes@.len(),
            whole == take_entries(bytes@.skip(at as int), count as nat),
            whole == match take_entries(bytes@.skip(cursor as int), (count - i) as nat) {
                None => None::<(Seq<EntryModel>, Seq<u8>)>,
                Some((rest, left)) => Some((entry_models(entries@) + rest, left)),
            },
        decreases count - i,
    {
        let ghost done = entry_models(entries@);
        let (entry, next) = match read_entry(bytes, cursor) {
            Some(read) => read,
            None => {
                return None;
            },
        };
        entries.push(entry);
        proof {
            assert(entry_models(entries@) =~= done.push(entry_model(entry)));
            let tail = take_entries(bytes@.skip(next as int), (count - i - 1) as nat);
            if tail is Some {
                assert(done + (seq![entry_model(entry)] + tail.unwrap().0) =~= done.push(
                    entry_model(entry),
                ) + tail.unwrap().0);
            }
        }
        cursor = next;
        i += 1;
    }
    proof {
        assert(entry_models(entries@) + Seq::<EntryModel>::empty() =~= entry_models(entries@));
    }
    Some((entries, cursor))
}

/// Appends the encodings of `ids` to `out`.
pub fn write_ids(out: &mut Vec<u8>, ids: &Vec<u64>)
    ensures
        final(out)@ == old(out)@ + encode_ids(ids@),
{
    let mut i: usize = 0;
    proof {
        assert(ids@.take(0) =~= Seq::<u64>::empty());
        assert(old(out)@ + Seq::<u8>::empty() =~= old(out)@);
    }
    while i < ids.len()
        invariant
            i <= ids.len(),
            out@ == old(out)@ + encode_ids(ids@.take(i as int)),
        decreases ids.len() - i,
    {
        put_uint(out, ids[i] as u128, 8);
        proof {
            let done = ids@.take(i as int);
            assert(ids@.take(i + 1) =~= done.push(ids@[i as int]));
            lemma_encode_ids_push(done, ids@[i as int]);
            assert(out@ =~= old(out)@ + (encode_ids(done) + encode_uint(ids@[i as int] as nat, 8)));
        }
        i += 1;
    }
    proof {
        assert(ids@.take(i as int) =~= ids@);
    }
}

/// Reads `count` identifiers at `at`, and gives the offset past them.
pub fn read_ids(bytes: &[u8], at: usize, count: u128) -> (read: Option<(Vec<u64>, usize)>)
    requires
        at <= bytes@.len(),
    ensures
        match read {
            Some((ids, next)) => {
                &&& at <= next <= bytes@.len()
                &&& take_ids(bytes@.skip(at as int), count as nat) == Some(
                    (ids@, bytes@.skip(next as int)),
                )
            },
            None => take_ids(bytes@.skip(at as int), count as nat) is None,
        },
{
    let mut ids: Vec<u64> = Vec::new();
    let mut cursor: usize = at;
    let mut i: u128 = 0;
    let ghost whole = take_ids(bytes@.skip(at as int), count as nat);
    proof {
        lemma_pow256_values();
        if whole is Some {
            assert(ids@ + whole.unwrap().0 =~= whole.unwrap().0);
        }
    }
    while i < count
        invariant
            i <= count,
            at <= cursor <= bytes@.len(),
            whole == take_ids(bytes@.skip(at as int), count as nat),
            whole == match take_ids(bytes@.skip(cursor as int), (count - i) as nat) {
                None => None::<(Seq<u64>, Seq<u8>)>,
                Some((rest, left)) => Some((ids@ + rest, left)),
            },
        decreases count - i,
    {
        let ghost done = ids@;
        let (id, next) = match read_uint(bytes, cursor, 8) {
            Some(read) => read,
            None => {
                return None;
            },
        };
        proof {
            lemma_pow256_values();
        }
        ids.push(id as u64);
        proof {
            let tail = take_ids(bytes@.skip(next as int), (count - i - 1) as nat);
            if tail is Some {
                assert(done + (seq![id as u64] + tail.unwrap().0) =~= done.push(id as u64)
                    + tail.unwrap().0);
            }
        }
        cursor = next;
        i += 1;
    }
    proof {
        assert(ids@ + Seq::<u64>::empty() =~= ids@);
    }
    Some((ids, cursor))
}

/// Appends the encoding of `handle` to `out`.
pub fn write_handle(out: &mut Vec<u8>, handle: &ObjectHandle)
    ensures
        final(out)@ == old(out)@ + encode_handle(handle_model(*handle)),
{
    put_uint(out, handle.repo_id, 16);
    put_uint(out, handle.instance_id, 16);
    put_uint(out, handle.handle_id as u128, 8);
    put_uint(out, handle.size as u128, 8);
    put_uint(out, handle.chunks.len() as u128, 8);
    write_chunk_refs(out, &handle.chunks);
    assert(out@ =~= old(out)@ + encode_handle(handle_model(*handle)));
}

/// Reads a handle at `at`, and gives the offset past it.
pub fn read_handle(bytes: &[u8], at: usize) -> (read: Option<(ObjectHandle, usize)>)
    requires
        at <= bytes@.len(),
    ensures
        match read {
            Some((handle, next)) => {
                &&& at < next <= bytes@.len()
                &&& take_handle(bytes@.skip(at as int)) == Some(
                    (handle_model(handle), bytes@.skip(next as int)),
                )
            },
            None => take_handle(bytes@.skip(at as int)) is None,
        },
{
    proof {
        reveal(take_handle);
    }
    let (repo_id, at) = match read_uint(bytes, at, 16) {
        Some(read) => read,
        None => {
            return None;
        },
    };
    let (instance_id, at) = match read_uint(bytes, at, 16) {
        Some(read) => read,
        None => {
            return None;
        },
    };
    let (handle_id, at) = match read_uint(bytes, at, 8) {
        Some(read) => read,
        None => {
            return None;
        },
    };
    let (size, at) = match read_uint(bytes, at, 8) {
        Some(read) => read,
        None => {
            return None;
        },
    };
    let (count, at) = match read_uint(bytes, at, 8) {
        Some(read) => read,
        None => {
            return None;
        },
    };
    let (chunks, at) = match read_chunk_refs(bytes, at, count) {
        Some(read) => read,
        None => {
            return None;
        },
    };
    proof {
        lemma_pow256_values();
    }
    Some(
        (
            ObjectHandle {
                repo_id,
                instance_id,
                handle_id: handle_id as u64,
                size: size as u64,
                chunks,
            },
            at,
        ),
    )
}

/// Appends the encoding of `entry` to `out`.
pub fn write_object(out: &mut Vec<u8>, entry: &ObjectEntry)
    ensures
        final(out)@ == old(out)@ + encode_object(object_model(*entry)),
{
    put_uint(out, entry.name.len() as u128, 8);
    out.extend_from_slice(entry.name.as_slice());
    write_handle(out, &entry.handle);
    assert(out@ =~= old(out)@ + encode_object(object_model(*entry)));
}

/// Reads an object at `at`, and gives the offset past it.
pub fn read_object(bytes: &[u8], at: usize) -> (read: Option<(ObjectEntry, usize)>)
    requires
        at <= bytes@.len(),
    ensures
        match read {
            Some((entry, next)) => {
                &&& at < next <= bytes@.len()
                &&& take_object(bytes@.skip(at as int)) == Some(
                    (object_model(entry), bytes@.skip(next as int)),
                )
            },
            None => take_object(bytes@.skip(at as int)) is None,
        },
{
    proof {
        reveal(take_object);
    }
    let (length, at) = match read_uint(bytes, at, 8) {
        Some(read) => read,
        None => {
            return None;
        },
    };
    let (name, at) = match read_bytes(bytes, at, length) {
        Some(read) => read,
        None => {
            return None;
        },
    };
    let (handle, at) = match read_handle(bytes, at) {
        Some(read) => read,
        None => {
            return None;
        },
    };
    Some((ObjectEntry { name, handle }, at))
}

/// Appends the encodings of `objects` to `out`.
pub fn write_objects(out: &mut Vec<u8>, objects: &Vec<ObjectEntry>)
    ensures
        final(out)@ == old(out)@ + encode_objects(object_models(objects@)),
{
    let mut i: usize = 0;
    proof {
        assert(object_models(objects@.take(0)) =~= Seq::<ObjectModel>::empty());
        assert(old(out)@ + Seq::<u8>::empty() =~= old(out)@);
    }
    while i < objects.len()
        invariant
            i <= objects.len(),
            out@ == old(out)@ + encode_objects(object_models(objects@.take(i as int))),
        decreases objects.len() - i,
    {
        write_object(out, &objects[i]);
        proof {
            let done = object_models(objects@.take(i as int));
            let item = object_model(objects@[i as int]);
            assert(object_models(objects@.take(i + 1)) =~= done.push(item));
            lemma_encode_objects_push(done, item);
            assert(out@ =~= old(out)@ + (encode_objects(done) + encode_object(item)));
        }
        i += 1;
    }
    proof {
        assert(objects@.take(i as int) =~= objects@);
    }
}

/// Reads `count` objects at `at`, and gives the offset past them.
#[verifier::rlimit(50)]
pub fn read_objects(bytes: &[u8], at: usize, count: u128) -> (read: Option<(Vec<ObjectEntry>, usize)>)
    requires
        at <= bytes@.len(),
    ensures
        match read {
            Some((objects, next)) => {
                &&& at <= next <= bytes@.len()
                &&& take_objects(bytes@.skip(at as int), count as nat) == Some(
                    (object_models(objects@), bytes@.skip(next as int)),
                )
            },
            None => take_objects(bytes@.skip(at as int), count as nat) is None,
        },
{
    let mut objects: Vec<ObjectEntry> = Vec::new();
    let mut cursor: usize = at;
    let mut i: u128 = 0;
    let ghost whole = take_objects(bytes@.skip(at as int), count as nat);
    proof {
        assert(object_models(objects@) =~= Seq::<ObjectModel>::empty());
        if whole is Some {
            assert(Seq::<ObjectModel>::empty() + whole.unwrap().0 =~= whole.unwrap().0);
        }
    }
    while i < count
        invariant
            i <= count,
            at <= cursor <= bytes@.len(),
            whole == take_objects(bytes@.skip(at as int), count as nat),
            whole == match take_objects(bytes@.skip(cursor as int), (count - i) as nat) {
                None => None::<(Seq<ObjectModel>, Seq<u8>)>,
                Some((rest, left)) => Some((object_models(objects@) + rest, left)),
            },
        decreases count - i,
    {
        let ghost done = object_models(objects@);
        let (entry, next) = match read_object(bytes, cursor) {
            Some(read) => read,
            None => {
                return None;
            },
        };
        proof {
            let tail = take_objects(bytes@.skip(next as int), (count - i - 1) as nat);
            if tail is Some {
                assert(done + (seq![object_model(entry)] + tail.unwrap().0) =~= done.push(
                    object_model(entry),
                ) + tail.unwrap().0);
            }
        }
        let ghost model = object_model(entry);
        objects.push(entry);
        proof {
            assert(object_models(objects@) =~= done.push(model));
        }
        cursor = next;
        i += 1;
    }
    proof {
        assert(object_models(objects@) + Seq::<ObjectModel>::empty() =~= object_models(objects@));
    }
    Some((objects, cursor))
}

/// The number that stands for a compression method in a header.
pub open spec fn compression_tag(compression: Compression) -> u8 {
    match compression {
        Compression::Off => 0,
        Compression::Deflate { level } => 1,
        Compression::Lzma { level } => 2,
        Compression::Lz4 { level } => 3,
    }
}

/// The level of a compression method, and zero of none.
pub open spec fn compression_level(compression: Compression) -> u32 {
    match compression {
        Compression::Off => 0,
        Compression::Deflate { level } => level,
        Compression::Lzma { level } => level,
        Compression::Lz4 { level } => level,
    }
}

/// The encoding of a compression method: its tag in one byte and its level
/// in four.
pub open spec fn encode_compression(compression: Compression) -> Seq<u8> {
    encode_uint(compression_tag(compression) as nat, 1) + encode_uint(
        compression_level(compression) as nat,
        4,
    )
}

/// Takes a compression method from the front of `bytes`.
#[verifier::opaque]
pub open spec fn take_compression(bytes: Seq<u8>) -> Option<(Compression, Seq<u8>)> {
    match take_uint(bytes, 1) {
        None => None,
        Some((tag, rest)) => match take_uint(rest, 4) {
            None => None,
            Some((level, rest)) => if tag == 0 {
                Some((Compression::Off, rest))
            } else if tag == 1 {
                Some((Compression::Deflate { level: level as u32 }, rest))
            } else if tag == 2 {
                Some((Compression::Lzma { level: level as u32 }, rest))
            } else if tag == 3 {
                Some((Compression::Lz4 { level: level as u32 }, rest))
            } else {
                None
            },
        },
    }
}

/// The encoding of the settings of a header: the identifier of the
/// repository in sixteen bytes, the chunking parameters in four, eight and
/// eight bytes, and the next identifiers in sixteen and eight bytes.
pub open spec fn encode_settings(header: HeaderModel) -> Seq<u8> {
    encode_uint(header.repo_id as nat, 16) + encode_uint(
        header.config.chunking.avg_bits as nat,
        4,
    ) + encode_uint(header.config.chunking.min_size as nat, 8) + encode_uint(
        header.config.chunking.max_size as nat,
        8,
    ) + encode_uint(header.next_blob as nat, 16) + encode_uint(header.next_handle as nat, 8)
}

/// Takes the settings of a header from the front of `bytes`: the identifier
/// of the repository, the chunking parameters, and the next identifiers.
#[verifier::opaque]
pub open spec fn take_settings(bytes: Seq<u8>) -> Option<
    ((u128, ChunkerConfig, u128, u64), Seq<u8>),
> {
    match take_uint(bytes, 16) {
        None => None,
        Some((repo_id, rest)) => match take_uint(rest, 4) {
            None => None,
            Some((avg_bits, rest)) => match take_uint(rest, 8) {
                None => None,
                Some((min_size, rest)) => match take_uint(rest, 8) {
                    None => None,
                    Some((max_size, rest)) => match take_uint(rest, 16) {
                        None => None,
                        Some((next_blob, rest)) => match take_uint(rest, 8) {
                            None => None,
                            Some((next_handle, rest)) => if min_size > usize::MAX || max_size
                                > usize::MAX {
                                None
                            } else {
                                Some(
                                    (
                                        (
                                            repo_id as u128,
                                            ChunkerConfig {
                                                avg_bits: avg_bits as u32,
                                                min_size: min_size as usize,
                                                max_size: max_size as usize,
                                            },
                                            next_blob as u128,
                                            next_handle as u64,
                                        ),
                                        rest,
                                    ),
                                )
                            },
                        },
                    },
                },
            },
        },
    }
}

/// The encoding of the tables of a header: the chunk entries, the objects
/// and the free handle identifiers, each list after the number of its items
/// in eight bytes.
pub open spec fn encode_tables(header: HeaderModel) -> Seq<u8> {
    encode_uint(header.chunks.len(), 8) + encode_entries(header.chunks) + encode_uint(
        header.objects.len(),
        8,
    ) + encode_objects(header.objects) + encode_uint(header.free_handles.len(), 8) + encode_ids(
        header.free_handles,
    )
}

/// Reads what `encode_tables` writes. Nothing may be left over.
#[verifier::opaque]
pub open spec fn decode_tables(bytes: Seq<u8>) -> Option<
    (Seq<EntryModel>, Seq<ObjectModel>, Seq<u64>),
> {
    match take_uint(bytes, 8) {
        None => None,
        Some((entry_count, rest)) => match take_entries(rest, entry_count) {
            None => None,
            Some((chunks, rest)) => match take_uint(rest, 8) {
                None => None,
                Some((object_count, rest)) => match take_objects(rest, object_count) {
                    None => None,
                    Some((objects, rest)) => match take_uint(rest, 8) {
                        None => None,
                        Some((free_count, rest)) => match take_ids(rest, free_count) {
                            None => None,
                            Some((free_handles, rest)) => if rest.len() != 0 {
                                None
                            } else {
                                Some((chunks, objects, free_handles))
                            },
                        },
                    },
                },
            },
        },
    }
}

/// The encoding of what a header says but for the version and the
/// compression method: the settings, and then the tables.
pub open spec fn encode_body(header: HeaderModel) -> Seq<u8> {
    encode_settings(header) + encode_tables(header)
}

/// Reads what `encode_body` writes. Nothing may be left over.
pub open spec fn decode_body(bytes: Seq<u8>, version: u32, compression: Compression) -> Option<
    HeaderModel,
> {
    match take_settings(bytes) {
        None => None,
        Some(((repo_id, chunking, next_blob, next_handle), rest)) => match decode_tables(rest) {
            None => None,
            Some((chunks, objects, free_handles)) => Some(
                HeaderModel {
                    version,
                    repo_id,
                    config: RepoConfig { chunking, compression },
                    objects,
                    chunks,
                    next_blob,
                    next_handle,
                    free_handles,
                },
            ),
        },
    }
}

/// Whether what a header says can be encoded.
pub open spec fn header_fits(header: HeaderModel) -> bool {
    &&& header.chunks.len() < pow256(8)
    &&& header.objects.len() < pow256(8)
    &&& header.free_handles.len() < pow256(8)
    &&& entries_fit(header.chunks)
    &&& objects_fit(header.objects)
}

/// What any header says can be encoded.
#[verifier::rlimit(50)]
pub proof fn lemma_header_fits(header: &Header)
    ensures
        header_fits(header@),
{
    lemma_pow256_values();
    assert(header.objects.len() <= usize::MAX);
    assert(header.chunks.len() <= usize::MAX);
    assert(header.free_handles.len() <= usize::MAX);
    assert forall|i: int| 0 <= i < header@.chunks.len() implies (
    #[trigger] header@.chunks[i]).hash.len() == 32 by {
        assert(header@.chunks[i] == entry_model(header.chunks@[i]));
        assert(header.chunks@[i].hash@.len() == 32);
    }
    assert forall|i: int| 0 <= i < header@.objects.len() implies object_fits(
        #[trigger] header@.objects[i],
    ) by {
        let entry = header.objects@[i];
        assert(header@.objects[i] == object_model(entry));
        assert(entry.name.len() <= usize::MAX);
        assert(entry.handle.chunks.len() <= usize::MAX);
        assert forall|j: int| 0 <= j < chunk_models(entry.handle.chunks@).len() implies chunk_fits(
            #[trigger] chunk_models(entry.handle.chunks@)[j],
        ) by {
            assert(entry.handle.chunks@[j].hash@.len() == 32);
        }
    }
}

/// The settings are taken from the front of their encoding.
#[verifier::rlimit(50)]
pub proof fn lemma_take_settings(header: HeaderModel, rest: Seq<u8>)
    ensures
        take_settings(encode_settings(header) + rest) == Some(
            (
                (
                    header.repo_id,
                    header.config.chunking,
                    header.next_blob,
                    header.next_handle,
                ),
                rest,
            ),
        ),
{
    reveal(take_settings);
    lemma_pow256_values();
    let a = encode_uint(header.repo_id as nat, 16);
    let b = encode_uint(header.config.chunking.avg_bits as nat, 4);
    let c = encode_uint(header.config.chunking.min_size as nat, 8);
    let d = encode_uint(header.config.chunking.max_size as nat, 8);
    let e = encode_uint(header.next_blob as nat, 16);
    let f = encode_uint(header.next_handle as nat, 8);
    assert(encode_settings(header) + rest =~= a + (b + (c + (d + (e + (f + rest))))));
    lemma_take_uint(header.repo_id as nat, 16, b + (c + (d + (e + (f + rest)))));
    lemma_take_uint(header.config.chunking.avg_bits as nat, 4, c + (d + (e + (f + rest))));
    lemma_take_uint(header.config.chunking.min_size as nat, 8, d + (e + (f + rest)));
    lemma_take_uint(header.config.chunking.max_size as nat, 8, e + (f + rest));
    lemma_take_uint(header.next_blob as nat, 16, f + rest);
    lemma_take_uint(header.next_handle as nat, 8, rest);
}

/// The tables are decoded from their encoding.
#[verifier::rlimit(50)]
pub proof fn lemma_decode_tables(header: HeaderModel)
    requires
        header_fits(header),
    ensures
        decode_tables(encode_tables(header)) == Some(
            (header.chunks, header.objects, header.free_handles),
        ),
{
    reveal(decode_tables);
    let g = encode_uint(header.chunks.len(), 8);
    let h = encode_entries(header.chunks);
    let i = encode_uint(header.objects.len(), 8);
    let j = encode_objects(header.objects);
    let k = encode_uint(header.free_handles.len(), 8);
    let l = encode_ids(header.free_handles);
    let none = Seq::<u8>::empty();
    assert(encode_tables(header) =~= g + (h + (i + (j + (k + (l + none))))));
    lemma_take_uint(header.chunks.len(), 8, h + (i + (j + (k + (l + none)))));
    lemma_take_entries(header.chunks, i + (j + (k + (l + none))));
    lemma_take_uint(header.objects.len(), 8, j + (k + (l + none)));
    lemma_take_objects(header.objects, k + (l + none));
    lemma_take_uint(header.free_handles.len(), 8, l + none);
    lemma_take_ids(header.free_handles, none);
}

/// A body is decoded from its encoding.
pub proof fn lemma_body_round_trip(header: HeaderModel)
    requires
        header_fits(header),
    ensures
        decode_body(encode_body(header), header.version, header.config.compression) == Some(header),
{
    lemma_take_settings(header, encode_tables(header));
    lemma_decode_tables(header);
}

/// A compression method is taken from the front of its encoding.
pub proof fn lemma_take_compression(compression: Compression, rest: Seq<u8>)
    ensures
        take_compression(encode_compression(compression) + rest) == Some((compression, rest)),
{
    reveal(take_compression);
    lemma_pow256_values();
    let level = encode_uint(compression_level(compression) as nat, 4);
    assert(encode_compression(compression) + rest =~= encode_uint(
        compression_tag(compression) as nat,
        1,
    ) + (level + rest));
    lemma_take_uint(compression_tag(compression) as nat, 1, level + rest);
    lemma_take_uint(compression_level(compression) as nat, 4, rest);
}

/// Appends the encoding of `compression` to `out`.
pub fn write_compression(out: &mut Vec<u8>, compression: Compression)
    ensures
        final(out)@ == old(out)@ + encode_compression(compression),
{
    let (tag, level): (u8, u32) = match compression {
        Compression::Off => (0, 0),
        Compression::Deflate { level } => (1, level),
        Compression::Lzma { level } => (2, level),
        Compression::Lz4 { level } => (3, level),
    };
    put_uint(out, tag as u128, 1);
    put_uint(out, level as u128, 4);
    assert(out@ =~= old(out)@ + encode_compression(compression));
}

/// Reads a compression method at `at`, and gives the offset past it.
pub fn read_compression(bytes: &[u8], at: usize) -> (read: Option<(Compression, usize)>)
    requires
        at <= bytes@.len(),
    ensures
        match read {
            Some((compression, next)) => {
                &&& at < next <= bytes@.len()
                &&& take_compression(bytes@.skip(at as int)) == Some(
                    (compression, bytes@.skip(next as int)),
                )
            },
            None => take_compression(bytes@.skip(at as int)) is None,
        },
{
    proof {
        reveal(take_compression);
    }
    let (tag, at) = match read_uint(bytes, at, 1) {
        Some(read) => read,
        None => {
            return None;
        },
    };
    let (level, at) = match read_uint(bytes, at, 4) {
        Some(read) => read,
        None => {
            return None;
        },
    };
    proof {
        lemma_pow256_values();
    }
    if tag == 0 {
        Some((Compression::Off, at))
    } else if tag == 1 {
        Some((Compression::Deflate { level: level as u32 }, at))
    } else if tag == 2 {
        Some((Compression::Lzma { level: level as u32 }, at))
    } else if tag == 3 {
        Some((Compression::Lz4 { level: level as u32 }, at))
    } else {
        None
    }
}

/// Encodes what `header` says but for the version and the compression method.
pub fn write_body(header: &Header) -> (out: Vec<u8>)
    ensures
        out@ == encode_body(header@),
{
    let mut out: Vec<u8> = Vec::new();
    put_uint(&mut out, header.repo_id, 16);
    put_uint(&mut out, header.config.chunking.avg_bits as u128, 4);
    put_uint(&mut out, header.config.chunking.min_size as u128, 8);
    put_uint(&mut out, header.config.chunking.max_size as u128, 8);
    put_uint(&mut out, header.next_blob, 16);
    put_uint(&mut out, header.next_handle as u128, 8);
    assert(out@ =~= encode_settings(header@));
    let ghost settings = out@;
    put_uint(&mut out, header.chunks.len() as u128, 8);
    write_entries(&mut out, &header.chunks);
    put_uint(&mut out, header.objects.len() as u128, 8);
    write_objects(&mut out, &header.objects);
    put_uint(&mut out, header.free_handles.len() as u128, 8);
    write_ids(&mut out, &header.free_handles);
    assert(out@ =~= settings + encode_tables(header@));
    out
}

/// Decodes what `write_body` encodes.
#[verifier::rlimit(50)]
pub fn read_body(bytes: &[u8], version: u32, compression: Compression) -> (read: Option<Header>)
    ensures
        match read {
            Some(header) => decode_body(bytes@, version, compression) == Some(header@),
            None => decode_body(bytes@, version, compression) is None,
        },
{
    proof {
        reveal(take_settings);
        reveal(decode_tables);
    }
    proof {
        assert(bytes@.skip(0) =~= bytes@);
        lemma_pow256_values();
    }
    let (repo_id, at) = match read_uint(bytes, 0, 16) {
        Some(read) => read,
        None => {
            return None;
        },
    };
    let (avg_bits, at) = match read_uint(bytes, at, 4) {
        Some(read) => read,
        None => {
            return None;
        },
    };
    let (min_size, at) = match read_uint(bytes, at, 8) {
        Some(read) => read,
        None => {
            return None;
        },
    };
    let (max_size, at) = match read_uint(bytes, at, 8) {
        Some(read) => read,
        None => {
            return None;
        },
    };
    let (next_blob, at) = match read_uint(bytes, at, 16) {
        Some(read) => read,
        None => {
            return None;
        },
    };
    let (next_handle, at) = match read_uint(bytes, at, 8) {
        Some(read) => read,
        None => {
            return None;
        },
    };
    if min_size > usize::MAX as u128 || max_size > usize::MAX as u128 {
        return None;
    }
    let (entry_count, at) = match read_uint(bytes, at, 8) {
        Some(read) => read,
        None => {
            return None;
        },
    };
    let (chunks, at) = match read_entries(bytes, at, entry_count) {
        Some(read) => read,
        None => {
            return None;
        },
    };
    let (object_count, at) = match read_uint(bytes, at, 8) {
        Some(read) => read,
        None => {
            return None;
        },
    };
    let (objects, at) = match read_objects(bytes, at, object_count) {
        Some(read) => read,
        None => {
            return None;
        },
    };
    let (free_count, at) = match read_uint(bytes, at, 8) {
        Some(read) => read,
        None => {
            return None;
        },
    };
    let (free_handles, at) = match read_ids(bytes, at, free_count) {
        Some(read) => read,
        None => {
            return None;
        },
    };
    if at != bytes.len() {
        return None;
    }
    Some(
        Header {
            version,
            repo_id,
            config: RepoConfig {
                chunking: ChunkerConfig {
                    avg_bits: avg_bits as u32,
                    min_size: min_size as usize,
                    max_size: max_size as usize,
                },
                compression,
            },
            objects,
            chunks,
            next_blob,
            next_handle: next_handle as u64,
            free_handles,
        },
    )
}

/// Lists of chunks that say the same add up to the same size.
pub proof fn lemma_total_size_by_model(a: Seq<Chunk>, b: Seq<Chunk>)
    requires
        chunk_models(a) == chunk_models(b),
    ensures
        crate::chunk::total_size(a) == crate::chunk::total_size(b),
    decreases a.len(),
{
    assert(a.len() == chunk_models(a).len());
    assert(b.len() == chunk_models(b).len());
    if a.len() > 0 {
        assert(chunk_models(a.drop_last()) =~= chunk_models(a).drop_last());
        assert(chunk_models(b.drop_last()) =~= chunk_models(b).drop_last());
        lemma_total_size_by_model(a.drop_last(), b.drop_last());
        assert(chunk_models(a)[a.len() - 1] == chunk_model(a.last()));
        assert(chunk_models(b)[b.len() - 1] == chunk_model(b.last()));
    }
}

/// Whether a header that is in order depends on nothing but what it says.
#[verifier::rlimit(50)]
pub proof fn lemma_wf_by_model(a: &Header, b: &Header)
    requires
        a@ == b@,
        a.wf(),
    ensures
        b.wf(),
{
    assert(a.chunks@.len() == a@.chunks.len());
    assert(b.chunks@.len() == b@.chunks.len());
    assert(a.objects@.len() == a@.objects.len());
    assert(b.objects@.len() == b@.objects.len());
    assert forall|i: int| 0 <= i < b.chunks@.len() implies b.chunks@[i].hash@
        == a.chunks@[i].hash@ && b.chunks@[i].blob == a.chunks@[i].blob by {
        assert(a@.chunks[i] == entry_model(a.chunks@[i]));
        assert(b@.chunks[i] == entry_model(b.chunks@[i]));
    }
    assert forall|i: int| 0 <= i < b.objects@.len() implies {
        &&& b.objects@[i].name@ == a.objects@[i].name@
        &&& b.objects@[i].handle.handle_id == a.objects@[i].handle.handle_id
        &&& b.objects@[i].handle.instance_id == a.objects@[i].handle.instance_id
        &&& (#[trigger] b.objects@[i]).handle.wf()
    } by {
        assert(a@.objects[i] == object_model(a.objects@[i]));
        assert(b@.objects[i] == object_model(b.objects@[i]));
        lemma_total_size_by_model(a.objects@[i].handle.chunks@, b.objects@[i].handle.chunks@);
        assert(a.objects@[i].handle.wf());
    }
    assert forall|i: int| 0 <= i < b.chunks.len() implies (#[trigger] b.chunks[i]).blob
        < b.next_blob by {
        assert(a.chunks[i].blob < a.next_blob);
    }
    assert forall|i: int| 0 <= i < b.objects.len() implies (
    #[trigger] b.objects[i]).handle.handle_id < b.next_handle by {
        assert(a.objects[i].handle.handle_id < a.next_handle);
    }
    assert(b.free_handles@ == a.free_handles@);
    assert(crate::header::free_handles_fit(b.free_handles@, b.objects@, b.next_handle)) by {
        assert forall|i: int, k: int|
            0 <= i < b.objects@.len() && 0 <= k < b.free_handles@.len() implies b.objects@[i].handle.handle_id
            != b.free_handles@[k] by {
            assert(a.objects@[i].handle.handle_id != a.free_handles@[k]);
        }
    }
}

/// Whether a header that is in order says this.
pub open spec fn model_ok(model: HeaderModel) -> bool {
    exists|header: Header| header@ == model && header.wf()
}

/// The blob that holds a header: the version in four bytes, the compression
/// method, and the compressed body. There is none where the body cannot be
/// compressed.
pub open spec fn spec_encode_header(header: HeaderModel) -> Result<Seq<u8>, crate::error::Error> {
    match header.config.compression.spec_compress(encode_body(header)) {
        Ok(packed) => Ok(
            encode_uint(header.version as nat, 4) + encode_compression(header.config.compression)
                + packed,
        ),
        Err(error) => Err(error),
    }
}

/// What a blob says as a header. It is `Error::UnsupportedFormat` where the
/// version is not the one of this library, and `Error::InvalidData` where the
/// blob is not the encoding of a header that is in order.
pub open spec fn spec_decode_header(blob: Seq<u8>) -> Result<HeaderModel, crate::error::Error> {
    match take_uint(blob, 4) {
        None => Err(crate::error::Error::InvalidData),
        Some((version, rest)) => if version != crate::header::FORMAT_VERSION {
            Err(crate::error::Error::UnsupportedFormat)
        } else {
            match take_compression(rest) {
                None => Err(crate::error::Error::InvalidData),
                Some((compression, rest)) => match compression.spec_decompress(rest) {
                    Err(_) => Err(crate::error::Error::InvalidData),
                    Ok(body) => match decode_body(body, version as u32, compression) {
                        None => Err(crate::error::Error::InvalidData),
                        Some(model) => if model_ok(model) {
                            Ok(model)
                        } else {
                            Err(crate::error::Error::InvalidData)
                        },
                    },
                },
            }
        },
    }
}

/// A header that is in order is decoded from its blob, if its body comes
/// back from the codec as it went in.
#[verifier::rlimit(50)]
pub proof fn lemma_header_round_trip(header: &Header, blob: Seq<u8>)
    requires
        header.wf(),
        header.config.compression.round_trips(encode_body(header@)),
        spec_encode_header(header@) == Ok::<Seq<u8>, crate::error::Error>(blob),
    ensures
        spec_decode_header(blob) == Ok::<HeaderModel, crate::error::Error>(header@),
{
    lemma_pow256_values();
    lemma_header_fits(header);
    lemma_body_round_trip(header@);
    let packed = header.config.compression.spec_compress(encode_body(header@))->Ok_0;
    let version = encode_uint(header.version as nat, 4);
    let method = encode_compression(header.config.compression);
    assert(blob =~= version + (method + packed));
    lemma_take_uint(header.version as nat, 4, method + packed);
    lemma_take_compression(header.config.compression, packed);
    assert(model_ok(header@));
}

/// Encodes `header` as a blob.
pub fn encode_header(header: &Header) -> (result: Result<Vec<u8>, crate::error::Error>)
    ensures
        crate::compression::is_result(result, spec_encode_header(header@)),
{
    let body = write_body(header);
    let packed = match header.config.compression.compress(body.as_slice()) {
        Ok(packed) => packed,
        Err(error) => {
            return Err(error);
        },
    };
    let mut out: Vec<u8> = Vec::new();
    put_uint(&mut out, header.version as u128, 4);
    write_compression(&mut out, header.config.compression);
    out.extend_from_slice(packed.as_slice());
    assert(out@ =~= encode_uint(header.version as nat, 4) + encode_compression(
        header.config.compression,
    ) + packed@);
    Ok(out)
}

/// Decodes a blob as a header, and checks that the header is in order.
#[verifier::rlimit(50)]
pub fn decode_header(blob: &[u8]) -> (result: Result<Header, crate::error::Error>)
    ensures
        match result {
            Ok(header) => spec_decode_header(blob@) == Ok::<HeaderModel, crate::error::Error>(
                header@,
            ) && header.wf(),
            Err(error) => spec_decode_header(blob@) == Err::<HeaderModel, crate::error::Error>(
                error,
            ),
        },
{
    proof {
        assert(blob@.skip(0) =~= blob@);
        lemma_pow256_values();
    }
    let (version, at) = match read_uint(blob, 0, 4) {
        Some(read) => read,
        None => {
            return Err(crate::error::Error::InvalidData);
        },
    };
    if version != crate::header::FORMAT_VERSION as u128 {
        return Err(crate::error::Error::UnsupportedFormat);
    }
    let (compression, at) = match read_compression(blob, at) {
        Some(read) => read,
        None => {
            return Err(crate::error::Error::InvalidData);
        },
    };
    let packed = vstd::slice::slice_subrange(blob, at, blob.len());
    assert(packed@ =~= blob@.skip(at as int));
    let body = match compression.decompress(packed) {
        Ok(body) => body,
        Err(_) => {
            return Err(crate::error::Error::InvalidData);
        },
    };
    let header = match read_body(body.as_slice(), version as u32, compression) {
        Some(header) => header,
        None => {
            return Err(crate::error::Error::InvalidData);
        },
    };
    if !header.validate() {
        proof {
            if model_ok(header@) {
                let other = choose|other: Header| other@ == header@ && other.wf();
                lemma_wf_by_model(&other, &header);
            }
        }
        return Err(crate::error::Error::InvalidData);
    }
    Ok(header)
}

} // verus!
