use crate::chunk::{spec_locate, total_size, Chunk};
use crate::chunker::ChunkerConfig;
use crate::commit::{commits_to, committed, recounted, references, as_refcount, store_after_commit};
use crate::compression::Compression;
use crate::content_id::{same_contents, ContentId};
use crate::error::Error;
use crate::format::{encode_body, spec_encode_header, HeaderModel};
use crate::hash::spec_chunk_hash;
use crate::header::{ChunkEntry, Header, ObjectEntry};
use crate::object::Object;
use crate::repo::{
    collision_free, spec_chunk_blob, spec_header_blob, spec_pointer_target, ObjectRepo,
};
use crate::state::{refer_to, ObjectState, SeekFrom};
use crate::store::{BlobId, BlobKind, BlobStore};
use vstd::prelude::*;

verus! {

/// After a seek, the position is the intended offset, but no less than zero
/// and no more than the size; a seek to before the start fails with
/// `Error::InvalidInput`.
pub proof fn law_seek_bounds(to: SeekFrom, size: u64, position: u64)
    ensures
        match to.resolve(size, position) {
            Ok(reached) => {
                let intended = to.intended(size, position);
                let raised = if intended < 0 {
                    0
                } else {
                    intended
                };
                &&& intended >= 0
                &&& reached == if raised < size {
                    raised
                } else {
                    size as int
                }
            },
            Err(error) => error == Error::InvalidInput && to.intended(size, position) < 0,
        },
{
}

/// Chunks that refer to payloads which the repository holds can be read, and
/// their content is the payloads, one after the other.
pub proof fn lemma_held_pieces_are_content<S: BlobStore>(
    repo: &ObjectRepo<S>,
    chunks: Seq<Chunk>,
    pieces: Seq<Seq<u8>>,
)
    requires
        refer_to(chunks, pieces),
        forall|i: int| 0 <= i < pieces.len() ==> repo.holds(#[trigger] pieces[i]),
    ensures
        repo.readable(chunks),
        repo.payloads_of(chunks) == pieces,
        repo.content(chunks) == pieces.flatten(),
{
    assert forall|i: int| 0 <= i < chunks.len() implies repo.read_outcome(#[trigger] chunks[i])
        == Ok::<Seq<u8>, Error>(pieces[i]) by {
        assert(chunks[i].refers_to(pieces[i]));
        assert(repo.holds(pieces[i]));
    }
    assert(repo.payloads_of(chunks) =~= pieces);
}

/// Round trip: bytes that are written to a new object and flushed are the
/// content of the object.
///
/// What no store can show is asked for: that no two of the payloads
/// concerned share a checksum, that each of them comes back from the codec as
/// it went in, and that a chunk which the repository already records under
/// the checksum of one of them holds that payload.
#[verifier::rlimit(50)]
pub proof fn law_round_trip<S: BlobStore>(
    fresh: &Object,
    written: &Object,
    flushed: &Object,
    repo: &ObjectRepo<S>,
    after_write: &ObjectRepo<S>,
    after_flush: &ObjectRepo<S>,
    bytes: Seq<u8>,
    count: usize,
    payloads: Set<Seq<u8>>,
)
    requires
        repo.wf(),
        fresh.wf(),
        fresh.attached(repo),
        fresh.handle.chunks@.len() == 0,
        !fresh.state.needs_flush,
        Object::writes_to(fresh, written, repo, after_write, bytes, Ok(count)),
        Object::flushes_to(written, flushed, after_write, after_flush, Ok(())),
        collision_free(payloads),
        repo.sound_on(payloads),
        repo.header.config.chunking.split(bytes).to_set().subset_of(payloads),
    ensures
        after_flush.readable(flushed.handle.chunks@),
        after_flush.content(flushed.handle.chunks@) == bytes,
        flushed.handle.size == bytes.len(),
        refer_to(flushed.handle.chunks@, repo.header.config.chunking.split(bytes)),
        same_contents(flushed.handle.chunks@, bytes),
{
    let config = repo.header.config.chunking;
    let none = Seq::<Chunk>::empty();
    assert(fresh.handle.chunks@ =~= none);
    assert(spec_locate(fresh.handle.chunks@, fresh.state.position) is None);
    assert(written.state.staged@ =~= bytes);
    assert(written.handle.chunks@ =~= none);
    assert(spec_locate(written.handle.chunks@, written.state.position) is None);
    assert(written.state.flush_bytes(written.handle.chunks@, after_write) =~= bytes);
    let pieces = config.split(bytes);
    let scanned = config.scan(Seq::empty(), bytes);
    assert(scanned.0.to_set().subset_of(payloads)) by {
        assert forall|piece: Seq<u8>| scanned.0.to_set().contains(piece) implies payloads.contains(
            piece,
        ) by {
            let i = choose|i: int| 0 <= i < scanned.0.len() && scanned.0[i] == piece;
            assert(pieces[i] == piece);
            assert(pieces.to_set().contains(piece));
        }
    }
    assert(after_write.sound_on(payloads));
    assert(after_flush.sound_on(payloads));
    let chunks = flushed.handle.chunks@;
    assert(written.state.flush_from() == 0);
    assert(written.state.flush_to(written.handle.chunks@) == 0);
    let new = chunks.subrange(0, pieces.len() as int);
    assert(chunks =~= new);
    assert forall|i: int| 0 <= i < pieces.len() implies after_flush.holds(#[trigger] pieces[i]) by {
        assert(chunks[i].refers_to(pieces[i]));
        assert(after_flush.records(chunks[i].hash@));
        assert(pieces.to_set().contains(pieces[i]));
        assert(payloads.contains(pieces[i]));
    }
    lemma_held_pieces_are_content(after_flush, chunks, pieces);
    config.lemma_split_keeps_bytes(bytes);
    after_flush.lemma_content_length(chunks);
    crate::content_id::lemma_pieces_have_same_contents(chunks, pieces);
}

/// The content of an object whose chunks can be read is the content of the
/// chunks before the one that holds a position, the payload of that chunk,
/// and the content of the chunks after it; and the chunks before it have
/// as many bytes as the offset at which it begins.
pub proof fn lemma_content_around<S: BlobStore>(
    repo: &ObjectRepo<S>,
    chunks: Seq<Chunk>,
    location: crate::chunk::ChunkLocation,
)
    requires
        repo.readable(chunks),
        location.locates(chunks, location.position),
    ensures
        repo.content(chunks) == repo.content(chunks.take(location.index as int)) + (
        repo.payload_of(location.chunk) + repo.content(chunks.skip(location.index + 1))),
        repo.content(chunks.take(location.index as int)).len() == location.start,
        repo.payload_of(location.chunk).len() == location.chunk.size,
        repo.content(chunks).len() == total_size(chunks),
{
    let index = location.index as int;
    let front = chunks.take(index);
    let back = chunks.skip(index);
    assert(chunks =~= front + back);
    repo.lemma_content_concat(front, back);
    repo.lemma_content_unfold(back);
    assert(back[0] == chunks[index]);
    assert(back.skip(1) =~= chunks.skip(index + 1));
    assert forall|i: int| 0 <= i < front.len() implies repo.read_outcome(#[trigger] front[i])
        is Ok by {
        assert(front[i] == chunks[i]);
    }
    repo.lemma_content_length(front);
    repo.lemma_content_length(chunks);
    assert(repo.read_outcome(chunks[index]) is Ok);
}

/// Splice: bytes that are written at a position of an object without
/// unflushed data and flushed take the place of the bytes that the object
/// had there, and reach past its end where they are more. A write that
/// begins at or past the end leaves nothing of what the object had.
///
/// It is asked that the chunks of the object can be read, and of the chunks
/// that the flush stores, what `law_round_trip` asks of its payloads.
#[verifier::rlimit(100)]
pub proof fn law_splice<S: BlobStore>(
    object: &Object,
    written: &Object,
    flushed: &Object,
    repo: &ObjectRepo<S>,
    after_write: &ObjectRepo<S>,
    after_flush: &ObjectRepo<S>,
    bytes: Seq<u8>,
    count: usize,
    payloads: Set<Seq<u8>>,
)
    requires
        repo.wf(),
        object.wf(),
        object.attached(repo),
        !object.state.needs_flush,
        repo.readable(object.handle.chunks@),
        Object::writes_to(object, written, repo, after_write, bytes, Ok(count)),
        Object::flushes_to(written, flushed, after_write, after_flush, Ok(())),
        collision_free(payloads),
        repo.sound_on(payloads),
        repo.header.config.chunking.split(
            written.state.flush_bytes(written.handle.chunks@, after_write),
        ).to_set().subset_of(payloads),
    ensures
        after_flush.readable(flushed.handle.chunks@),
        after_flush.content(flushed.handle.chunks@) == if object.state.position
            < object.handle.size {
            let old_content = repo.content(object.handle.chunks@);
            let end = object.state.position + bytes.len();
            old_content.take(object.state.position as int) + bytes + old_content.skip(
                if end < object.handle.size {
                    end
                } else {
                    object.handle.size as int
                },
            )
        } else {
            bytes
        },
        flushed.state.position == object.state.position + bytes.len(),
{
    let config = repo.header.config.chunking;
    let chunks = object.handle.chunks@;
    let position = object.state.position;
    let end = written.state.position;
    let content = repo.content(chunks);
    assert(object.handle.chunks.len() <= usize::MAX);
    crate::chunk::lemma_located_within(chunks, position);
    crate::chunk::lemma_located_within(chunks, end);
    repo.lemma_content_length(chunks);
    let start = spec_locate(chunks, position);
    let stop = spec_locate(chunks, end);
    let all = written.state.flush_bytes(chunks, after_write);
    let pieces = config.split(all);
    let scanned = config.scan(Seq::empty(), written.state.staged@);
    assert(written.handle.chunks@ == chunks);

    // The chunks that the write has stored are among those that the flush counts.
    crate::chunker::lemma_chunking_is_incremental(
        config,
        written.state.staged@,
        ObjectState::kept_after(after_write, stop),
    );
    assert(scanned.0.to_set().subset_of(payloads)) by {
        assert forall|piece: Seq<u8>| scanned.0.to_set().contains(piece) implies payloads.contains(
            piece,
        ) by {
            let i = choose|i: int| 0 <= i < scanned.0.len() && scanned.0[i] == piece;
            assert(pieces[i] == piece);
            assert(pieces.to_set().contains(piece));
        }
    }
    assert(after_write.sound_on(payloads));
    assert(after_flush.sound_on(payloads));

    // What is kept of the chunk in which the write ends is what `repo` has there.
    assert forall|i: int| 0 <= i < chunks.len() implies repo.records(#[trigger] chunks[i].hash@) by {
        assert(repo.read_outcome(chunks[i]) is Ok);
    }
    repo.lemma_kept_content(after_write, chunks);
    ObjectRepo::lemma_kept_by_transitive(repo, after_write, after_flush);
    if stop is Some {
        let last = stop.unwrap();
        assert(chunks[last.index as int] == last.chunk);
        assert(repo.records(last.chunk.hash@));
        assert(after_write.payload_of(last.chunk) == repo.payload_of(last.chunk));
    }
    let before = ObjectState::kept_before(repo, start);
    let after = ObjectState::kept_after(repo, stop);
    assert(all == before + bytes + after);

    // The new chunks hold the pieces.
    let from = written.state.flush_from();
    let to = written.state.flush_to(chunks);
    let list = flushed.handle.chunks@;
    let new = list.subrange(from, from + pieces.len());
    assert forall|i: int| 0 <= i < pieces.len() implies after_flush.holds(#[trigger] pieces[i]) by {
        assert(new[i] == list[from + i]);
        assert(new[i].refers_to(pieces[i]));
        assert(after_flush.records(list[from + i].hash@));
        assert(pieces.to_set().contains(pieces[i]));
    }
    lemma_held_pieces_are_content(after_flush, new, pieces);
    config.lemma_split_keeps_bytes(all);

    // The chunks around them are read as before.
    let front = chunks.take(from);
    let back = chunks.skip(to);
    assert forall|i: int| 0 <= i < front.len() implies repo.records(#[trigger] front[i].hash@)
        && repo.read_outcome(front[i]) is Ok by {
        assert(front[i] == chunks[i]);
        assert(repo.read_outcome(chunks[i]) is Ok);
    }
    assert forall|i: int| 0 <= i < back.len() implies repo.records(#[trigger] back[i].hash@)
        && repo.read_outcome(back[i]) is Ok by {
        assert(back[i] == chunks[to + i]);
        assert(repo.read_outcome(chunks[to + i]) is Ok);
    }
    repo.lemma_kept_content(after_flush, front);
    repo.lemma_kept_content(after_flush, back);
    assert(list == front + new + back);
    after_flush.lemma_content_concat(front + new, back);
    after_flush.lemma_content_concat(front, new);
    assert forall|i: int| 0 <= i < list.len() implies after_flush.read_outcome(#[trigger] list[i])
        is Ok by {
        if i < from {
            assert(list[i] == front[i]);
        } else if i < from + new.len() {
            assert(list[i] == new[i - from]);
        } else {
            assert(list[i] == back[i - from - new.len()]);
        }
    }

    // What is around the written bytes is what the object had around them.
    if start is Some {
        let first = start.unwrap();
        lemma_content_around(repo, chunks, first);
        let head = repo.content(front);
        let payload = repo.payload_of(first.chunk);
        assert(content.take(position as int) =~= head + payload.take(
            first.spec_relative_position() as int,
        ));
        if stop is Some {
            let last = stop.unwrap();
            lemma_content_around(repo, chunks, last);
            let tail = repo.content(back);
            let ending = repo.payload_of(last.chunk);
            assert(content.skip(end as int) =~= ending.skip(last.spec_relative_position() as int)
                + tail);
        } else {
            assert(back =~= Seq::<Chunk>::empty());
            assert(repo.payloads_of(back) =~= Seq::<Seq<u8>>::empty());
            assert(content.skip(object.handle.size as int) =~= Seq::<u8>::empty());
        }
        assert(after_flush.content(list) =~= content.take(position as int) + bytes + content.skip(
            if end < object.handle.size {
                end as int
            } else {
                object.handle.size as int
            },
        ));
    } else {
        assert(front =~= Seq::<Chunk>::empty());
        assert(back =~= Seq::<Chunk>::empty());
        assert(after_flush.payloads_of(front) =~= Seq::<Seq<u8>>::empty());
        assert(after_flush.payloads_of(back) =~= Seq::<Seq<u8>>::empty());
        assert(after_flush.content(list) =~= bytes);
    }
}

/// Truncate: an object without unflushed data that is cut to `length` bytes
/// has the lesser of its size and `length` as its size, and the first that
/// many bytes of its content as its content.
///
/// It is asked that the chunks of the object can be read, and of the bytes
/// that stay of the chunk that is cut, what `law_round_trip` asks of its
/// payloads.
#[verifier::rlimit(50)]
pub proof fn law_truncate<S: BlobStore>(
    object: &Object,
    cut: &Object,
    repo: &ObjectRepo<S>,
    after: &ObjectRepo<S>,
    length: u64,
    payloads: Set<Seq<u8>>,
)
    requires
        repo.wf(),
        object.wf(),
        object.attached(repo),
        !object.state.needs_flush,
        repo.readable(object.handle.chunks@),
        Object::cuts_to(object, cut, repo, after, length, Ok(())),
        collision_free(payloads),
        repo.sound_on(payloads),
        payloads.contains(ObjectState::cut_rest(object.handle.chunks@, repo, length)),
    ensures
        cut.handle.size == if object.handle.size < length {
            object.handle.size
        } else {
            length
        },
        after.readable(cut.handle.chunks@),
        after.content(cut.handle.chunks@) == repo.content(object.handle.chunks@).take(
            cut.handle.size as int,
        ),
{
    let chunks = object.handle.chunks@;
    repo.lemma_content_length(chunks);
    if length >= object.handle.size {
        assert(repo.content(chunks).take(object.handle.size as int) =~= repo.content(chunks));
    } else {
        let location = spec_locate(chunks, length).unwrap();
        assert(object.handle.chunks.len() <= usize::MAX);
        crate::chunk::lemma_located_within(chunks, length);
        let index = location.index as int;
        let rest = ObjectState::cut_rest(chunks, repo, length);
        let front = chunks.take(index);
        let kept = cut.handle.chunks@;
        let last = kept[index];
        assert(set![rest].subset_of(payloads));
        assert(after.sound_on(payloads));
        assert(after.holds(rest));
        assert(after.read_outcome(last) == Ok::<Seq<u8>, Error>(rest));
        assert forall|i: int| 0 <= i < front.len() implies repo.records(
            #[trigger] front[i].hash@,
        ) && repo.read_outcome(front[i]) is Ok by {
            assert(front[i] == chunks[i]);
            assert(repo.read_outcome(chunks[i]) is Ok);
        }
        repo.lemma_kept_content(after, front);
        assert(kept =~= front + seq![last]);
        assert forall|i: int| 0 <= i < kept.len() implies after.read_outcome(#[trigger] kept[i])
            is Ok by {
            if i < index {
                assert(kept[i] == front[i]);
                assert(repo.records(front[i].hash@));
            }
        }
        after.lemma_content_concat(front, seq![last]);
        after.lemma_content_unfold(seq![last]);
        assert(after.payloads_of(seq![last].skip(1)) =~= Seq::<Seq<u8>>::empty());
        assert(after.content(seq![last]) =~= rest);
        assert(chunks =~= front + chunks.skip(index));
        repo.lemma_content_concat(front, chunks.skip(index));
        repo.lemma_content_unfold(chunks.skip(index));
        assert(chunks.skip(index)[0] == chunks[index]);
        repo.lemma_content_length(front);
        assert(repo.read_outcome(chunks[index]) is Ok);
        let payload = repo.payload_of(chunks[index]);
        let tail = repo.content(chunks.skip(index).skip(1));
        assert(repo.content(chunks) == repo.content(front) + (payload + tail));
        assert(rest == payload.take(location.spec_relative_position() as int));
        assert((repo.content(front) + (payload + tail)).take(length as int) =~= repo.content(front)
            + payload.take(location.spec_relative_position() as int));
    }
}

/// Content identifiers that are equal stand for the same content, of the
/// same size.
pub proof fn law_equal_ids_equal_content<S: BlobStore>(
    repo: &ObjectRepo<S>,
    a: &ContentId,
    b: &ContentId,
)
    requires
        a.same_as(b),
    ensures
        a.size == b.size,
        repo.content(a.chunks@) == repo.content(b.chunks@),
        repo.readable(a.chunks@) == repo.readable(b.chunks@),
{
}

/// Two new objects of one repository to which the same bytes are written
/// have, once flushed, the same chunks, and so equal content identifiers.
#[verifier::rlimit(50)]
pub proof fn law_same_bytes_same_id<S: BlobStore>(
    one: &Object,
    one_written: &Object,
    one_flushed: &Object,
    one_repo: &ObjectRepo<S>,
    one_after_write: &ObjectRepo<S>,
    one_after_flush: &ObjectRepo<S>,
    other: &Object,
    other_written: &Object,
    other_flushed: &Object,
    other_repo: &ObjectRepo<S>,
    other_after_write: &ObjectRepo<S>,
    other_after_flush: &ObjectRepo<S>,
    bytes: Seq<u8>,
    count: usize,
)
    requires
        one.wf() && one.attached(one_repo) && !one.state.needs_flush,
        other.wf() && other.attached(other_repo) && !other.state.needs_flush,
        one.handle.chunks@.len() == 0,
        other.handle.chunks@.len() == 0,
        one.handle.repo_id == other.handle.repo_id,
        one_repo.header.config.chunking == other_repo.header.config.chunking,
        Object::writes_to(one, one_written, one_repo, one_after_write, bytes, Ok(count)),
        Object::flushes_to(one_written, one_flushed, one_after_write, one_after_flush, Ok(())),
        Object::writes_to(other, other_written, other_repo, other_after_write, bytes, Ok(count)),
        Object::flushes_to(
            other_written,
            other_flushed,
            other_after_write,
            other_after_flush,
            Ok(()),
        ),
    ensures
        one_flushed.handle.chunks@ == other_flushed.handle.chunks@,
        one_flushed.handle.size == other_flushed.handle.size,
        forall|a: ContentId, b: ContentId|
            a.repo_id == one_flushed.handle.repo_id && a.size == one_flushed.handle.size
                && a.chunks@ == one_flushed.handle.chunks@ && b.repo_id
                == other_flushed.handle.repo_id && b.size == other_flushed.handle.size && b.chunks@
                == other_flushed.handle.chunks@ ==> a.same_as(&b),
{
    let config = one_repo.header.config.chunking;
    let none = Seq::<Chunk>::empty();
    let pieces = config.split(bytes);
    assert(one.handle.chunks@ =~= none);
    assert(other.handle.chunks@ =~= none);
    assert(one_written.state.staged@ =~= bytes);
    assert(other_written.state.staged@ =~= bytes);
    assert(one_written.state.flush_bytes(one_written.handle.chunks@, one_after_write) =~= bytes);
    assert(other_written.state.flush_bytes(other_written.handle.chunks@, other_after_write)
        =~= bytes);
    let a = one_flushed.handle.chunks@;
    let b = other_flushed.handle.chunks@;
    assert(a =~= a.subrange(0, pieces.len() as int));
    assert(b =~= b.subrange(0, pieces.len() as int));
    assert forall|i: int| 0 <= i < a.len() implies a[i] == b[i] by {
        assert(a[i].refers_to(pieces[i]));
        assert(b[i].refers_to(pieces[i]));
        crate::chunk::lemma_same_chunk_is_equal(a[i], b[i]);
    }
    assert(a =~= b);
}

/// Content identifiers of different repositories are never equal.
pub proof fn law_other_repository_other_id(a: &ContentId, b: &ContentId)
    requires
        a.repo_id != b.repo_id,
    ensures
        !a.same_as(b),
{
}

/// Verify: an object whose first chunk that cannot be read is invalid, does
/// not verify.
pub proof fn law_invalid_chunk_fails_verify<S: BlobStore>(
    repo: &ObjectRepo<S>,
    chunks: Seq<Chunk>,
    index: int,
)
    requires
        0 <= index < chunks.len(),
        forall|i: int| 0 <= i < index ==> repo.read_outcome(#[trigger] chunks[i]) is Ok,
        repo.read_outcome(chunks[index]) == Err::<Seq<u8>, Error>(Error::InvalidData),
    ensures
        repo.verify_outcome(chunks) == Ok::<bool, Error>(false),
    decreases index,
{
    if index > 0 {
        let rest = chunks.skip(1);
        assert forall|i: int| 0 <= i < index - 1 implies repo.read_outcome(#[trigger] rest[i])
            is Ok by {
            assert(rest[i] == chunks[i + 1]);
        }
        assert(rest[index - 1] == chunks[index]);
        assert(repo.read_outcome(chunks[0]) is Ok);
        law_invalid_chunk_fails_verify(repo, rest, index - 1);
    }
}

/// An object verifies exactly when all its chunks can be read.
pub proof fn law_verified_is_readable<S: BlobStore>(repo: &ObjectRepo<S>, chunks: Seq<Chunk>)
    ensures
        repo.verify_outcome(chunks) == Ok::<bool, Error>(true) <==> repo.readable(chunks),
{
    repo.lemma_no_failure_is_readable(chunks);
}

/// Without compression every payload comes back as it went in: a
/// repository is sound on a set of payloads as soon as the chunks that it
/// records under their checksums hold them.
pub proof fn law_sound_without_compression<S: BlobStore>(
    repo: &ObjectRepo<S>,
    payloads: Set<Seq<u8>>,
)
    requires
        repo.header.config.compression == Compression::Off,
        forall|payload: Seq<u8>|
            payloads.contains(payload) && repo.records(spec_chunk_hash(payload)) ==> repo.holds(
                payload,
            ),
    ensures
        repo.sound_on(payloads),
{
    assert forall|payload: Seq<u8>| #[trigger] payloads.contains(payload) implies {
        &&& repo.header.config.compression.round_trips(payload)
        &&& repo.records(spec_chunk_hash(payload)) ==> repo.holds(payload)
    } by {
        crate::compression::lemma_no_compression_round_trips(payload);
    }
}

/// In a repository without compression, a chunk whose blob no longer holds
/// the payload that the chunk refers to is invalid, unless what the blob
/// holds now has the checksum of that payload.
pub proof fn law_changed_blob_is_invalid<S: BlobStore>(
    repo: &ObjectRepo<S>,
    chunk: Chunk,
    payload: Seq<u8>,
    blob: u128,
)
    requires
        repo.header.config.compression == Compression::Off,
        chunk.refers_to(payload),
        repo.header.blob_of(chunk.hash@) == Some(blob),
        repo.store.blobs().contains_key(spec_chunk_blob(blob)),
        repo.store.blobs()[spec_chunk_blob(blob)] != payload,
        collision_free(set![payload, repo.store.blobs()[spec_chunk_blob(blob)]]),
    ensures
        repo.read_outcome(chunk) == Err::<Seq<u8>, Error>(Error::InvalidData),
{
    let held = repo.store.blobs()[spec_chunk_blob(blob)];
    assert(set![payload, held].contains(payload));
    assert(set![payload, held].contains(held));
}

/// A list of entries to which the handles refer, each with the number of
/// references as its count, is what recounting it gives.
pub proof fn lemma_recounted_fixed(entries: Seq<ChunkEntry>, objects: Seq<ObjectEntry>)
    requires
        forall|i: int|
            0 <= i < entries.len() ==> references(objects, (#[trigger] entries[i]).hash@) > 0
                && entries[i].refcount == as_refcount(references(objects, entries[i].hash@)),
    ensures
        recounted(entries, objects) == entries,
    decreases entries.len(),
{
    if entries.len() > 0 {
        let front = entries.drop_last();
        assert forall|i: int| 0 <= i < front.len() implies references(
            objects,
            (#[trigger] front[i]).hash@,
        ) > 0 && front[i].refcount == as_refcount(references(objects, front[i].hash@)) by {
            assert(front[i] == entries[i]);
        }
        lemma_recounted_fixed(front, objects);
        let last = entries.last();
        assert(entries[entries.len() - 1] == last);
        assert(front.push(last) =~= entries);
    } else {
        assert(recounted(entries, objects) =~= entries);
    }
}

/// Idempotent commit: a commit that follows a commit makes the same state
/// durable; only one more blob identifier is used up.
pub proof fn law_commit_is_idempotent(before: &Header, once: &Header, twice: &Header)
    requires
        commits_to(before, once),
        commits_to(once, twice),
    ensures
        twice.chunks@ == once.chunks@,
        twice.objects == once.objects,
        twice.repo_id == once.repo_id,
        twice.config == once.config,
        twice.version == once.version,
        twice.next_handle == once.next_handle,
        twice.free_handles == once.free_handles,
        twice.next_blob == once.next_blob + 1,
{
    let entries = once.chunks@;
    assert forall|j: int| 0 <= j < entries.len() implies references(
        once.objects@,
        (#[trigger] entries[j]).hash@,
    ) > 0 && entries[j].refcount == as_refcount(references(once.objects@, entries[j].hash@)) by {
        let i = crate::commit::lemma_recounted_from(before.chunks@, before.objects@, j);
    }
    lemma_recounted_fixed(entries, once.objects@);
}

/// A chunk of a handle is referred to.
pub proof fn lemma_chunk_is_referenced(objects: Seq<ObjectEntry>, index: int, at: int)
    requires
        0 <= index < objects.len(),
        0 <= at < objects[index].handle.chunks@.len(),
    ensures
        references(objects, objects[index].handle.chunks@[at].hash@) > 0,
    decreases objects.len(),
{
    let hash = objects[index].handle.chunks@[at].hash@;
    if index == objects.len() - 1 {
        lemma_counted(objects[index].handle.chunks@, at);
    } else {
        assert(objects.drop_last()[index] == objects[index]);
        lemma_chunk_is_referenced(objects.drop_last(), index, at);
    }
}

/// A chunk of a list is counted among the chunks of the list with its
/// checksum.
pub proof fn lemma_counted(chunks: Seq<Chunk>, at: int)
    requires
        0 <= at < chunks.len(),
    ensures
        crate::commit::count_in(chunks, chunks[at].hash@) > 0,
    decreases chunks.len(),
{
    if at < chunks.len() - 1 {
        assert(chunks.drop_last()[at] == chunks[at]);
        lemma_counted(chunks.drop_last(), at);
    }
}

/// No orphan references, and no unreferenced chunks, after a commit: where
/// no handle referred to a chunk that the header did not record, none does
/// after the commit; and every chunk that the header then records is
/// referred to, and counts at least one reference.
pub proof fn law_commit_leaves_no_orphans<S: BlobStore>(
    before: &ObjectRepo<S>,
    after: &ObjectRepo<S>,
)
    requires
        before.wf(),
        before.closed(),
        commits_to(&before.header, &after.header),
    ensures
        after.closed(),
        forall|j: int|
            0 <= j < after.header.chunks@.len() ==> (#[trigger] after.header.chunks@[j]).refcount
                >= 1 && references(after.header.objects@, after.header.chunks@[j].hash@) >= 1,
{
    let entries = before.header.chunks@;
    let objects = before.header.objects@;
    let kept = after.header.chunks@;
    crate::commit::lemma_recounted_distinct(entries, objects);
    assert forall|i: int| 0 <= i < objects.len() implies after.grounds(
        #[trigger] after.header.objects@[i].handle.chunks@,
    ) by {
        let chunks = objects[i].handle.chunks@;
        assert(before.grounds(chunks));
        assert forall|j: int| 0 <= j < chunks.len() implies after.records(
            #[trigger] chunks[j].hash@,
        ) by {
            let hash = chunks[j].hash@;
            assert(before.records(hash));
            lemma_chunk_is_referenced(objects, i, j);
            let at = crate::header::chunk_index(entries, hash).unwrap();
            let found = crate::commit::lemma_recounted_has(entries, objects, at);
            assert(kept[found].hash@ == hash);
        }
    }
    assert forall|j: int| 0 <= j < kept.len() implies (#[trigger] kept[j]).refcount >= 1
        && references(objects, kept[j].hash@) >= 1 by {
        let i = crate::commit::lemma_recounted_from(entries, objects, j);
    }
}

/// No orphan references after a flush: where no handle referred to a chunk
/// that the header did not record, and the header recorded the chunks of the
/// view, none does after the flush, and the header records the chunks of the
/// view as they then are.
pub proof fn law_flush_leaves_no_orphans<S: BlobStore>(
    object: &Object,
    flushed: &Object,
    repo: &ObjectRepo<S>,
    after: &ObjectRepo<S>,
)
    requires
        repo.wf(),
        object.wf(),
        repo.closed(),
        repo.grounds(object.handle.chunks@),
        Object::flushes_to(object, flushed, repo, after, Ok(())),
    ensures
        after.closed(),
        after.grounds(flushed.handle.chunks@),
{
    if object.state.needs_flush {
        let chunks = object.handle.chunks@;
        let list = flushed.handle.chunks@;
        assert(object.handle.chunks.len() <= usize::MAX);
        crate::chunk::lemma_located_within(chunks, object.state.position);
        let pieces = object.state.chunker.config.split(object.state.flush_bytes(chunks, repo));
        let from = object.state.flush_from();
        let to = object.state.flush_to(chunks);
        let new = list.subrange(from, from + pieces.len());
        assert(list == chunks.take(from) + new + chunks.skip(to));
        assert forall|j: int| 0 <= j < list.len() implies after.records(#[trigger] list[j].hash@) by {
            if j < from {
                assert(list[j] == chunks[j]);
                assert(repo.records(chunks[j].hash@));
            } else if j < from + pieces.len() {
            } else {
                assert(list[j] == chunks[j - from - pieces.len() + to]);
                assert(repo.records(chunks[j - from - pieces.len() + to].hash@));
            }
        }
        let index = crate::header::handle_index(repo.header.objects@, object.handle.handle_id).unwrap();
        assert forall|i: int| 0 <= i < after.header.objects@.len() implies after.grounds(
            #[trigger] after.header.objects@[i].handle.chunks@,
        ) by {
            if i != index {
                assert(after.header.objects@[i] == repo.header.objects@[i]);
                let other = repo.header.objects@[i].handle.chunks@;
                assert(repo.grounds(other));
                assert forall|j: int| 0 <= j < other.len() implies after.records(
                    #[trigger] other[j].hash@,
                ) by {
                    assert(repo.records(other[j].hash@));
                }
            }
        }
    }
}

/// A commit keeps the chunks to which a handle refers: each reads after the
/// commit as it did before.
#[verifier::rlimit(50)]
pub proof fn law_commit_keeps_referenced<S: BlobStore>(
    before: &ObjectRepo<S>,
    after: &ObjectRepo<S>,
    hash: Seq<u8>,
    size: nat,
)
    requires
        before.wf(),
        commits_to(&before.header, &after.header),
        references(before.header.objects@, hash) > 0,
        forall|blob: u128|
            after.store.blobs().contains_key(spec_chunk_blob(blob))
                == before.store.blobs().contains_key(spec_chunk_blob(blob)) && (
            before.store.blobs().contains_key(spec_chunk_blob(blob))
                ==> after.store.blobs()[spec_chunk_blob(blob)]
                == before.store.blobs()[spec_chunk_blob(blob)]),
    ensures
        after.stored(hash, size) == before.stored(hash, size),
{
    let entries = before.header.chunks@;
    let kept = after.header.chunks@;
    crate::commit::lemma_recounted_distinct(entries, before.header.objects@);
    if crate::header::chunk_index(entries, hash) is Some {
        let i = crate::header::chunk_index(entries, hash).unwrap();
        let j = crate::commit::lemma_recounted_has(entries, before.header.objects@, i);
        assert(kept[j].hash@ == hash);
        let found = crate::header::chunk_index(kept, hash).unwrap();
        assert(found == j);
    } else if crate::header::chunk_index(kept, hash) is Some {
        let j = crate::header::chunk_index(kept, hash).unwrap();
        let i = crate::commit::lemma_recounted_from(entries, before.header.objects@, j);
        assert(entries[i].hash@ == hash);
    }
}

/// Crash safety: whatever of a commit has reached the store, the store names
/// the header that it named before the commit, or the header that was
/// committed. It is asked that the body of the new header comes back from
/// the codec as it went in.
pub proof fn law_crash_during_commit<S: BlobStore>(repo: &ObjectRepo<S>, next: &Header, blob: Seq<u8>)
    requires
        repo.wf(),
        commits_to(&repo.header, next),
        next.wf(),
        spec_encode_header(next@) == Ok::<Seq<u8>, Error>(blob),
        next.config.compression.round_trips(encode_body(next@)),
    ensures
        committed(
            repo.store.blobs().insert(spec_header_blob(repo.header.next_blob), blob),
        ) == committed(repo.store.blobs()),
        committed(store_after_commit(repo.store.blobs(), repo.header.next_blob, blob)) == Ok::<
            HeaderModel,
            Error,
        >(next@),
{
    crate::commit::lemma_header_blob_is_inert(repo.store.blobs(), repo.header.next_blob, blob);
    crate::commit::lemma_commit_is_loaded(repo.store.blobs(), next, repo.header.next_blob, blob);
}

/// Rollback: a store in which nothing but chunk blobs has changed since a
/// commit names the header that was committed, which a rollback loads.
pub proof fn law_rollback_discards(at_commit: Map<BlobId, Seq<u8>>, later: Map<BlobId, Seq<u8>>)
    requires
        forall|key: BlobId|
            key.kind != BlobKind::Chunk ==> (#[trigger] later.contains_key(key)
                <==> at_commit.contains_key(key)) && (at_commit.contains_key(key) ==> later[key]
                == at_commit[key]),
    ensures
        committed(later) == committed(at_commit),
        spec_pointer_target(later) == spec_pointer_target(at_commit),
{
    assert(later.contains_key(crate::store::spec_header_pointer()) == at_commit.contains_key(
        crate::store::spec_header_pointer(),
    ));
    if spec_pointer_target(at_commit) is Some {
        let target = spec_pointer_target(at_commit).unwrap();
        assert(later.contains_key(spec_header_blob(target)) == at_commit.contains_key(
            spec_header_blob(target),
        ));
    }
}

/// What a view does to a repository changes nothing but chunk blobs: the
/// store names the header that it named.
pub proof fn law_views_leave_commits<S: BlobStore>(before: &ObjectRepo<S>, after: &ObjectRepo<S>)
    requires
        before.kept_by(after),
    ensures
        committed(after.store.blobs()) == committed(before.store.blobs()),
{
    law_rollback_discards(before.store.blobs(), after.store.blobs());
}

/// A stream of bytes has no more chunks than it has bytes over the least
/// chunk size, rounded up.
pub proof fn lemma_split_count(config: ChunkerConfig, bytes: Seq<u8>)
    requires
        config.spec_valid(),
    ensures
        config.split(bytes).len() * config.min_size <= bytes.len() + config.min_size - 1
            || config.split(bytes).len() == 0,
        bytes.len() == 0 ==> config.split(bytes).len() == 0,
{
    let pieces = config.split(bytes);
    config.lemma_split_keeps_bytes(bytes);
    config.lemma_split_sizes(bytes);
    if pieces.len() > 0 {
        lemma_flatten_at_least(pieces, config.min_size as nat);
        assert((pieces.len() - 1) * config.min_size + 1 <= bytes.len());
        assert(pieces.len() * config.min_size == (pieces.len() - 1) * config.min_size
            + config.min_size) by (nonlinear_arith);
    } else {
        assert(pieces.flatten() =~= Seq::<u8>::empty());
    }
    if bytes.len() == 0 && pieces.len() > 0 {
        pieces.lemma_flatten_length_ge_single_element_length(0);
    }
}

/// Pieces of which the last is not empty and the others have at least `least`
/// bytes have, put together, at least `least` bytes for each but the last,
/// and one more.
pub proof fn lemma_flatten_at_least(pieces: Seq<Seq<u8>>, least: nat)
    requires
        pieces.len() > 0,
        forall|i: int| 0 <= i < pieces.len() ==> 1 <= (#[trigger] pieces[i]).len(),
        forall|i: int| 0 <= i < pieces.len() - 1 ==> least <= (#[trigger] pieces[i]).len(),
    ensures
        (pieces.len() - 1) * least + 1 <= pieces.flatten().len(),
    decreases pieces.len(),
{
    let rest = pieces.drop_first();
    assert(pieces.flatten() == pieces.first() + rest.flatten());
    if pieces.len() == 1 {
        assert(pieces[0].len() >= 1);
        assert((pieces.len() - 1) * least == 0) by (nonlinear_arith)
            requires
                pieces.len() == 1,
        ;
    } else {
        assert forall|i: int| 0 <= i < rest.len() implies 1 <= (#[trigger] rest[i]).len() by {
            assert(rest[i] == pieces[i + 1]);
        }
        assert forall|i: int| 0 <= i < rest.len() - 1 implies least <= (#[trigger] rest[i]).len() by {
            assert(rest[i] == pieces[i + 1]);
        }
        lemma_flatten_at_least(rest, least);
        assert(pieces[0].len() >= least);
        assert((pieces.len() - 1) * least == (rest.len() - 1) * least + least) by (nonlinear_arith)
            requires
                rest.len() == pieces.len() - 1,
        ;
    }
}

/// Dedup: writing bytes to a new object and flushing it takes no more blobs
/// than the bytes have chunks, and that is no more than the number of bytes
/// over the least chunk size, rounded up. Each new blob holds a chunk. Where
/// the repository records all the chunks of the bytes, as it does once the
/// same bytes were written to another object, the store does not change.
#[verifier::rlimit(50)]
pub proof fn law_dedup<S: BlobStore>(
    fresh: &Object,
    written: &Object,
    flushed: &Object,
    repo: &ObjectRepo<S>,
    after_write: &ObjectRepo<S>,
    after_flush: &ObjectRepo<S>,
    bytes: Seq<u8>,
    count: usize,
)
    requires
        repo.wf(),
        fresh.wf(),
        fresh.attached(repo),
        fresh.handle.chunks@.len() == 0,
        !fresh.state.needs_flush,
        Object::writes_to(fresh, written, repo, after_write, bytes, Ok(count)),
        Object::flushes_to(written, flushed, after_write, after_flush, Ok(())),
    ensures
        ObjectRepo::stores_at_most(repo, after_flush, repo.header.config.chunking.split(bytes)),
        after_flush.header.next_blob - repo.header.next_blob
            <= repo.header.config.chunking.split(bytes).len(),
        repo.header.config.chunking.split(bytes).len() * repo.header.config.chunking.min_size
            <= bytes.len() + repo.header.config.chunking.min_size - 1
            || repo.header.config.chunking.split(bytes).len() == 0,
        (forall|i: int|
            0 <= i < repo.header.config.chunking.split(bytes).len() ==> repo.records(
                spec_chunk_hash(#[trigger] repo.header.config.chunking.split(bytes)[i]),
            )) ==> after_flush.store.blobs() == repo.store.blobs(),
        forall|i: int|
            0 <= i < flushed.handle.chunks@.len() ==> after_flush.records(
                #[trigger] flushed.handle.chunks@[i].hash@,
            ),
{
    let config = repo.header.config.chunking;
    let none = Seq::<Chunk>::empty();
    let pieces = config.split(bytes);
    let scanned = config.scan(Seq::empty(), bytes);
    assert(fresh.handle.chunks@ =~= none);
    assert(written.handle.chunks@ =~= none);
    assert(written.state.staged@ =~= bytes);
    assert(written.state.flush_bytes(written.handle.chunks@, after_write) =~= bytes);
    assert(fresh.state.new_chunks@.len() == 0) by {
        assert(config.scan(Seq::empty(), Seq::empty()).0 =~= Seq::<Seq<u8>>::empty());
        assert(fresh.state.staged@ =~= Seq::<u8>::empty());
    }
    assert(scanned.0.skip(0) =~= scanned.0);
    assert(written.state.new_chunks@.len() == scanned.0.len());
    ObjectRepo::lemma_stores_at_most_chain(
        repo,
        after_write,
        after_flush,
        scanned.0,
        pieces.skip(scanned.0.len() as int),
    );
    assert(scanned.0 + pieces.skip(scanned.0.len() as int) =~= pieces);
    lemma_split_count(config, bytes);
    let chunks = flushed.handle.chunks@;
    assert(chunks =~= chunks.subrange(0, pieces.len() as int));
}

} // verus!
