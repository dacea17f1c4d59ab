use crate::chunk::{
    lemma_offset_step, lemma_position_within, locate, offset_of, spec_locate, total_size, Chunk,
    ChunkLocation,
};
use crate::chunker::{payloads, Chunker, ChunkerConfig};
use crate::error::Error;
use crate::hash::spec_chunk_hash;
use crate::header::{handle_index, ObjectHandle};
use crate::repo::{lemma_storing_fails_later, objects_put, storing_fails_with, ObjectRepo};
use crate::store::BlobStore;
use vstd::prelude::*;

verus! {

/// A position to seek to in an object.
#[derive(Clone, Copy, Debug, PartialEq, Eq, Structural)]
pub enum SeekFrom {
    /// The given number of bytes from the start.
    Start(u64),
    /// The given number of bytes back from the end.
    End(i64),
    /// The given number of bytes on from the current position.
    Current(i64),
}

impl SeekFrom {
    /// The offset from the start that is meant, for an object of `size` bytes
    /// and the current position `position`. It may lie before the start or
    /// past the end.
    pub open spec fn intended(&self, size: u64, position: u64) -> int {
        match *self {
            SeekFrom::Start(offset) => offset as int,
            SeekFrom::End(offset) => size - offset,
            SeekFrom::Current(offset) => position + offset,
        }
    }

    /// What seeking gives: the intended offset, but no more than `size`; and
    /// `Error::InvalidInput` where the intended offset lies before the start.
    pub open spec fn resolve(&self, size: u64, position: u64) -> Result<u64, Error> {
        let intended = self.intended(size, position);
        if intended < 0 {
            Err(Error::InvalidInput)
        } else if intended > size {
            Ok(size)
        } else {
            Ok(intended as u64)
        }
    }

    /// Computes the position that seeking gives.
    pub fn resolved(&self, size: u64, position: u64) -> (result: Result<u64, Error>)
        ensures
            result == self.resolve(size, position),
    {
        let intended: i128 = match *self {
            SeekFrom::Start(offset) => offset as i128,
            SeekFrom::End(offset) => size as i128 - offset as i128,
            SeekFrom::Current(offset) => position as i128 + offset as i128,
        };
        if intended < 0 {
            Err(Error::InvalidInput)
        } else if intended > size as i128 {
            Ok(size)
        } else {
            Ok(intended as u64)
        }
    }
}

/// The state of a view of an object that goes away with the view.
pub struct ObjectState {
    /// The seek position.
    pub position: u64,
    /// The chunker that written bytes go through.
    pub chunker: Chunker,
    /// The chunks that were stored since the last flush.
    pub new_chunks: Vec<Chunk>,
    /// Where the first write since the last flush began.
    pub start_location: Option<ChunkLocation>,
    /// Whether bytes were written since the last flush.
    pub needs_flush: bool,
    /// The chunk that was read last.
    pub buffered_chunk: Option<Chunk>,
    /// The payload of the chunk that was read last.
    pub read_buffer: Vec<u8>,
    /// The bytes that went to the chunker since the last flush.
    pub staged: Ghost<Seq<u8>>,
}

impl ObjectState {
    /// The invariant of the state of a view of the object with `chunks`.
    pub open spec fn wf(&self, chunks: Seq<Chunk>) -> bool {
        let scanned = self.chunker.config.scan(Seq::empty(), self.staged@);
        &&& self.chunker.wf()
        &&& self.chunker.waiting().len() == 0
        &&& (self.buffered_chunk matches Some(chunk) ==> chunk.refers_to(self.read_buffer@))
        &&& self.chunker.open_bytes() == scanned.1
        &&& self.new_chunks@.len() == scanned.0.len()
        &&& forall|i: int|
            0 <= i < self.new_chunks@.len() ==> (#[trigger] self.new_chunks@[i]).refers_to(
                scanned.0[i],
            )
        &&& !self.needs_flush ==> self.staged@.len() == 0
        &&& self.needs_flush ==> (self.start_location matches Some(location) ==> location.locates(
            chunks,
            location.position,
        ) && location.position <= self.position)
    }

    /// Whether the payload that is kept from the last read is the one that
    /// `repo` gives for its chunk.
    pub open spec fn cache_agrees<S: BlobStore>(&self, repo: &ObjectRepo<S>) -> bool {
        self.buffered_chunk matches Some(chunk) ==> repo.read_outcome(chunk) == Ok::<
            Seq<u8>,
            Error,
        >(self.read_buffer@)
    }

    /// The state of a view that was just opened.
    pub fn new(config: ChunkerConfig) -> (state: ObjectState)
        requires
            config.spec_valid(),
        ensures
            state.position == 0,
            !state.needs_flush,
            state.buffered_chunk is None,
            state.start_location is None,
            state.chunker.config == config,
            state.staged@ == Seq::<u8>::empty(),
            state.new_chunks@.len() == 0,
            forall|chunks: Seq<Chunk>| state.wf(chunks),
    {
        ObjectState {
            position: 0,
            chunker: Chunker::new(config),
            new_chunks: Vec::new(),
            start_location: None,
            needs_flush: false,
            buffered_chunk: None,
            read_buffer: Vec::new(),
            staged: Ghost(Seq::empty()),
        }
    }

    /// Moves the seek position, as `SeekFrom::resolve` says. A failed seek
    /// leaves the position where it was.
    pub fn seek(&mut self, handle: &ObjectHandle, to: SeekFrom) -> (result: Result<u64, Error>)
        ensures
            result == to.resolve(handle.size, old(self).position),
            final(self).position == match result {
                Ok(position) => position,
                Err(_) => old(self).position,
            },
            final(self).chunker == old(self).chunker,
            final(self).new_chunks == old(self).new_chunks,
            final(self).start_location == old(self).start_location,
            final(self).needs_flush == old(self).needs_flush,
            final(self).buffered_chunk == old(self).buffered_chunk,
            final(self).read_buffer == old(self).read_buffer,
            final(self).staged == old(self).staged,
    {
        match to.resolved(handle.size, self.position) {
            Ok(position) => {
                self.position = position;
                Ok(position)
            },
            Err(error) => Err(error),
        }
    }

    /// What a read of at most `limit` bytes at `position` takes from the
    /// payload of the chunk at `location`: the bytes from the position to the
    /// end of the chunk, but no more than `limit`.
    pub open spec fn taken(location: ChunkLocation, payload: Seq<u8>, limit: usize) -> Seq<u8> {
        let start = location.spec_relative_position() as int;
        let end = if start + limit < location.chunk.size {
            start + limit
        } else {
            location.chunk.size as int
        };
        payload.subrange(start, end)
    }

    /// Whether a read of at most `limit` bytes that ends with `result` makes
    /// `post` of `pre`.
    pub open spec fn read_outcome<S: BlobStore>(
        pre: &Self,
        post: &Self,
        handle: &ObjectHandle,
        repo: &ObjectRepo<S>,
        limit: usize,
        result: Result<Vec<u8>, Error>,
    ) -> bool {
        &&& post.chunker == pre.chunker
        &&& post.new_chunks == pre.new_chunks
        &&& post.start_location == pre.start_location
        &&& post.needs_flush == pre.needs_flush
        &&& post.staged == pre.staged
        &&& match result {
            Ok(bytes) => if limit == 0 || pre.position >= handle.size {
                bytes@.len() == 0 && *post == *pre
            } else {
                exists|location: ChunkLocation|
                    {
                        &&& location.locates(handle.chunks@, pre.position)
                        &&& repo.read_outcome(location.chunk) is Ok
                        &&& bytes@ == Self::taken(location, repo.payload_of(location.chunk), limit)
                        &&& post.position == pre.position + bytes@.len()
                    }
            },
            Err(error) => {
                &&& limit > 0
                &&& *post == *pre
                &&& exists|location: ChunkLocation|
                    {
                        &&& location.locates(handle.chunks@, pre.position)
                        &&& (repo.read_outcome(location.chunk) == Err::<Seq<u8>, Error>(error) || (
                        error == Error::Store && !repo.reliable()))
                    }
            },
        }
    }

    /// Reads at most `limit` bytes at the seek position, and moves the
    /// position past them. A read does not go past the end of the chunk that
    /// holds the position; at the end of the object, and with a limit of
    /// zero, it gives no bytes and does nothing else.
    ///
    /// The payload of the chunk is read from the repository unless it is the
    /// chunk that was read last, whose payload was kept.
    #[verifier::rlimit(50)]
    pub fn read<S: BlobStore>(
        &mut self,
        handle: &ObjectHandle,
        repo: &ObjectRepo<S>,
        limit: usize,
    ) -> (result: Result<Vec<u8>, Error>)
        requires
            old(self).wf(handle.chunks@),
            old(self).cache_agrees(repo),
            handle.wf(),
            repo.wf(),
        ensures
            final(self).wf(handle.chunks@),
            final(self).cache_agrees(repo),
            Self::read_outcome(old(self), final(self), handle, repo, limit, result),
    {
        if limit == 0 {
            return Ok(Vec::new());
        }
        let location = match locate(&handle.chunks, self.position) {
            Some(location) => location,
            None => {
                return Ok(Vec::new());
            },
        };
        proof {
            lemma_position_within(handle.chunks@, location.index as int, self.position as nat);
        }
        let hit = match self.buffered_chunk {
            Some(chunk) => chunk.same(&location.chunk),
            None => false,
        };
        if !hit {
            match repo.read_chunk(&location.chunk) {
                Ok(payload) => {
                    self.buffered_chunk = Some(location.chunk);
                    self.read_buffer = payload;
                },
                Err(error) => {
                    return Err(error);
                },
            }
        } else {
            proof {
                crate::chunk::lemma_same_chunk_is_equal(
                    self.buffered_chunk.unwrap(),
                    location.chunk,
                );
            }
        }
        let start = location.relative_position();
        let end = if limit < location.chunk.size - start {
            start + limit
        } else {
            location.chunk.size
        };
        let bytes = vstd::slice::slice_to_vec(
            vstd::slice::slice_subrange(self.read_buffer.as_slice(), start, end),
        );
        self.position = self.position + (end - start) as u64;
        Ok(bytes)
    }
}

/// A list of chunks with the chunks from `from` up to `to` replaced by
/// `with`.
pub open spec fn spliced(chunks: Seq<Chunk>, from: int, to: int, with: Seq<Chunk>) -> Seq<Chunk> {
    chunks.take(from) + with + chunks.skip(to)
}

/// Builds the list that `spliced` describes.
pub fn splice_chunks(chunks: &Vec<Chunk>, from: usize, to: usize, with: &Vec<Chunk>) -> (list: Vec<
    Chunk,
>)
    requires
        from <= to <= chunks.len(),
    ensures
        list@ == spliced(chunks@, from as int, to as int, with@),
{
    let mut list: Vec<Chunk> = Vec::new();
    let mut i: usize = 0;
    while i < from
        invariant
            i <= from <= chunks.len(),
            list@ == chunks@.take(i as int),
        decreases from - i,
    {
        list.push(chunks[i]);
        assert(chunks@.take(i + 1) =~= chunks@.take(i as int).push(chunks@[i as int]));
        i += 1;
    }
    let mut j: usize = 0;
    while j < with.len()
        invariant
            j <= with.len(),
            list@ == chunks@.take(from as int) + with@.take(j as int),
        decreases with.len() - j,
    {
        list.push(with[j]);
        assert(with@.take(j + 1) =~= with@.take(j as int).push(with@[j as int]));
        assert(chunks@.take(from as int) + with@.take(j as int).push(with@[j as int]) =~= (
        chunks@.take(from as int) + with@.take(j as int)).push(with@[j as int]));
        j += 1;
    }
    assert(with@.take(j as int) =~= with@);
    let mut k: usize = to;
    while k < chunks.len()
        invariant
            to <= k <= chunks.len(),
            list@ == chunks@.take(from as int) + with@ + chunks@.subrange(to as int, k as int),
        decreases chunks.len() - k,
    {
        list.push(chunks[k]);
        assert(chunks@.subrange(to as int, k + 1) =~= chunks@.subrange(to as int, k as int).push(
            chunks@[k as int],
        ));
        assert((chunks@.take(from as int) + with@ + chunks@.subrange(to as int, k as int)).push(
            chunks@[k as int],
        ) =~= chunks@.take(from as int) + with@ + chunks@.subrange(to as int, k as int).push(
            chunks@[k as int],
        ));
        k += 1;
    }
    assert(chunks@.subrange(to as int, k as int) =~= chunks@.skip(to as int));
    list
}

/// Adds up the sizes of a list of chunks. There is no sum where it would not
/// fit the type.
pub fn sum_sizes(chunks: &Vec<Chunk>) -> (sum: Option<u64>)
    ensures
        match sum {
            Some(size) => size == total_size(chunks@),
            None => total_size(chunks@) > u64::MAX,
        },
{
    let mut size: u64 = 0;
    let mut i: usize = 0;
    while i < chunks.len()
        invariant
            i <= chunks.len(),
            size == total_size(chunks@.take(i as int)),
        decreases chunks.len() - i,
    {
        proof {
            assert(chunks@.take(i + 1).drop_last() =~= chunks@.take(i as int));
            lemma_offset_step(chunks@, i as int);
        }
        let chunk_size = chunks[i].size as u64;
        if chunk_size > u64::MAX - size {
            return None;
        }
        size = size + chunk_size;
        i += 1;
    }
    assert(chunks@.take(i as int) =~= chunks@);
    Some(size)
}

impl ObjectState {
    /// Whether the view can work on `repo`: it cuts chunks as the repository
    /// does, the chunks it has stored since the last flush are recorded, and
    /// the payload it has kept is the one that the repository gives.
    pub open spec fn attached<S: BlobStore>(&self, repo: &ObjectRepo<S>) -> bool {
        &&& self.chunker.config == repo.header.config.chunking
        &&& self.cache_agrees(repo)
        &&& forall|i: int|
            0 <= i < self.new_chunks@.len() ==> repo.records(#[trigger] self.new_chunks@[i].hash@)
    }

    /// A view that is attached to a repository is attached to one that keeps
    /// what the first has stored, as long as its own chunks are recorded.
    pub proof fn lemma_stays_attached<S: BlobStore>(
        &self,
        pre: &ObjectRepo<S>,
        post: &ObjectRepo<S>,
    )
        requires
            self.cache_agrees(pre),
            pre.kept_by(post),
        ensures
            self.cache_agrees(post),
    {
        if self.buffered_chunk is Some {
            let chunk = self.buffered_chunk.unwrap();
            assert(pre.records(chunk.hash@));
        }
    }

    /// Where the first write since the last flush began, or begins now.
    pub open spec fn write_start(&self, chunks: Seq<Chunk>) -> Option<ChunkLocation> {
        if self.needs_flush {
            self.start_location
        } else {
            spec_locate(chunks, self.position)
        }
    }

    /// The bytes of the chunk at `location` that lie before the position.
    pub open spec fn kept_before<S: BlobStore>(
        repo: &ObjectRepo<S>,
        location: Option<ChunkLocation>,
    ) -> Seq<u8> {
        match location {
            Some(location) => repo.payload_of(location.chunk).take(
                location.spec_relative_position() as int,
            ),
            None => Seq::empty(),
        }
    }

    /// The bytes of the chunk at `location` from the position on.
    pub open spec fn kept_after<S: BlobStore>(
        repo: &ObjectRepo<S>,
        location: Option<ChunkLocation>,
    ) -> Seq<u8> {
        match location {
            Some(location) => repo.payload_of(location.chunk).skip(
                location.spec_relative_position() as int,
            ),
            None => Seq::empty(),
        }
    }

    /// The bytes that have gone to the chunker once `bytes` are written: on
    /// the first write since the last flush, what lies before the position in
    /// its chunk, and then `bytes`; later, what had gone there, and then
    /// `bytes`.
    pub open spec fn staged_with<S: BlobStore>(
        &self,
        chunks: Seq<Chunk>,
        repo: &ObjectRepo<S>,
        bytes: Seq<u8>,
    ) -> Seq<u8> {
        if self.needs_flush {
            self.staged@ + bytes
        } else {
            Self::kept_before(repo, spec_locate(chunks, self.position)) + bytes
        }
    }

    /// Whether `post` is `pre` with what was written since the last flush
    /// given up: nothing is staged, and no chunk waits to be put in place.
    pub open spec fn discarded(pre: &Self, post: &Self) -> bool {
        &&& post.position == pre.position
        &&& post.buffered_chunk == pre.buffered_chunk
        &&& post.read_buffer == pre.read_buffer
        &&& post.chunker.config == pre.chunker.config
        &&& !post.needs_flush
        &&& post.start_location is None
        &&& post.staged@ == Seq::<u8>::empty()
        &&& post.new_chunks@.len() == 0
    }

    /// Gives up what was written since the last flush.
    pub fn discard(&mut self)
        requires
            old(self).chunker.config.spec_valid(),
            old(self).buffered_chunk matches Some(chunk) ==> chunk.refers_to(
                old(self).read_buffer@,
            ),
        ensures
            Self::discarded(old(self), final(self)),
            forall|chunks: Seq<Chunk>| final(self).wf(chunks),
    {
        self.chunker.clear();
        self.new_chunks = Vec::new();
        self.start_location = None;
        self.needs_flush = false;
        self.staged = Ghost(Seq::empty());
    }

    /// Whether `post` is what a write of `bytes` makes of `pre`: the position
    /// has moved past the bytes, the bytes are staged, and the chunks that the
    /// staged bytes complete are stored.
    pub open spec fn written<S: BlobStore>(
        pre: &Self,
        post: &Self,
        chunks: Seq<Chunk>,
        repo: &ObjectRepo<S>,
        bytes: Seq<u8>,
    ) -> bool {
        &&& post.position == pre.position + bytes.len()
        &&& post.needs_flush
        &&& post.start_location == pre.write_start(chunks)
        &&& post.staged@ == pre.staged_with(chunks, repo, bytes)
        &&& post.buffered_chunk == pre.buffered_chunk
        &&& post.read_buffer == pre.read_buffer
        &&& post.chunker.config == pre.chunker.config
    }

    /// Whether a write of `bytes` that ends with `result` makes `post` and
    /// `post_repo` of `pre` and `pre_repo`.
    pub open spec fn write_outcome<S: BlobStore>(
        pre: &Self,
        post: &Self,
        handle: &ObjectHandle,
        pre_repo: &ObjectRepo<S>,
        post_repo: &ObjectRepo<S>,
        bytes: Seq<u8>,
        result: Result<usize, Error>,
    ) -> bool {
        match result {
            Ok(count) => {
                &&& count == bytes.len()
                &&& Self::written(pre, post, handle.chunks@, pre_repo, bytes)
            },
            Err(error) => {
                ||| {
                    &&& error == Error::InvalidInput
                    &&& pre.position + bytes.len() > u64::MAX
                    &&& *post == *pre
                    &&& *post_repo == *pre_repo
                }
                ||| {
                    &&& !pre.needs_flush
                    &&& spec_locate(handle.chunks@, pre.position) matches Some(location)
                    &&& (pre_repo.read_outcome(location.chunk) == Err::<Seq<u8>, Error>(error)
                        || (error == Error::Store && !pre_repo.reliable()))
                    &&& *post == *pre
                    &&& *post_repo == *pre_repo
                }
                ||| {
                    &&& Self::discarded(pre, post)
                    &&& storing_fails_with(
                        pre_repo,
                        post_repo,
                        pre.chunker.config.scan(
                            Seq::empty(),
                            pre.staged_with(handle.chunks@, pre_repo, bytes),
                        ).0,
                        error,
                    )
                }
            },
        }
    }

    /// Writes `bytes` at the seek position and moves the position past them.
    ///
    /// The first write after a flush notes where it begins, and stages what
    /// lies before the position in the chunk that holds it. The bytes are then
    /// staged, and each chunk that the staged bytes complete is stored. The
    /// object itself changes with the next flush.
    ///
    /// Fails with `Error::InvalidInput` where the position would pass the
    /// greatest offset, and with the error of reading the first chunk; both
    /// leave everything as it was. Where a chunk cannot be stored, what was
    /// written since the last flush is given up.
    #[verifier::rlimit(50)]
    pub fn write<S: BlobStore>(
        &mut self,
        handle: &ObjectHandle,
        repo: &mut ObjectRepo<S>,
        bytes: &[u8],
    ) -> (result: Result<usize, Error>)
        requires
            old(self).wf(handle.chunks@),
            old(self).attached(old(repo)),
            handle.wf(),
            old(repo).wf(),
        ensures
            final(self).wf(handle.chunks@),
            final(self).attached(final(repo)),
            final(repo).wf(),
            old(repo).kept_by(final(repo)),
            ObjectRepo::same_objects(old(repo), final(repo)),
            ObjectRepo::stays_sound(
                old(repo),
                final(repo),
                old(self).chunker.config.scan(
                    Seq::empty(),
                    old(self).staged_with(handle.chunks@, old(repo), bytes@),
                ).0.to_set(),
            ),
            ObjectRepo::stores_at_most(
                old(repo),
                final(repo),
                old(self).chunker.config.scan(
                    Seq::empty(),
                    old(self).staged_with(handle.chunks@, old(repo), bytes@),
                ).0.skip(old(self).new_chunks@.len() as int),
            ),
            Self::write_outcome(old(self), final(self), handle, old(repo), final(repo), bytes@, result),
    {
        let ghost config = self.chunker.config;
        let ghost staged = self.staged_with(handle.chunks@, repo, bytes@);
        proof {
            ObjectRepo::lemma_stays_sound_same(
                old(repo),
                config.scan(Seq::empty(), staged).0.to_set(),
            );
        }
        if bytes.len() as u64 > u64::MAX - self.position {
            return Err(Error::InvalidInput);
        }
        let mut start = self.start_location;
        let ghost mut before: Seq<u8> = self.staged@;
        if !self.needs_flush {
            start = locate(&handle.chunks, self.position);
            proof {
                before = Seq::empty();
                assert(self.chunker.open_bytes() =~= Seq::<u8>::empty());
            }
            match start {
                Some(location) => {
                    let first_chunk = match repo.read_chunk(&location.chunk) {
                        Ok(payload) => payload,
                        Err(error) => {
                            return Err(error);
                        },
                    };
                    let kept = vstd::slice::slice_subrange(
                        first_chunk.as_slice(),
                        0,
                        location.relative_position(),
                    );
                    self.chunker.write(kept);
                    proof {
                        before = kept@;
                        assert(kept@ =~= Self::kept_before(repo, start));
                    }
                },
                None => {
                    proof {
                        assert(config.scan(Seq::empty(), Seq::empty()).0 =~= Seq::<
                            Seq<u8>,
                        >::empty());
                    }
                },
            }
        }
        proof {
            assert(staged == before + bytes@);
            assert(self.chunker.open_bytes() == config.scan(Seq::empty(), before).1);
            assert(old(self).new_chunks@.len() + self.chunker.waiting().len() == config.scan(
                Seq::empty(),
                before,
            ).0.len()) by {
                if !old(self).needs_flush {
                    assert(Seq::<Seq<u8>>::empty() + config.scan(Seq::empty(), before).0
                        =~= config.scan(Seq::empty(), before).0);
                }
            }
        }
        let ghost waiting_first = self.chunker.waiting();
        self.chunker.write(bytes);
        let pieces = self.chunker.drain_chunks();
        proof {
            config.lemma_scan_concat(Seq::empty(), before, bytes@);
            let scanned = config.scan(Seq::empty(), staged);
            let earlier = old(self).new_chunks@.len() as int;
            assert(payloads(pieces@) == waiting_first + config.scan(
                config.scan(Seq::empty(), before).1,
                bytes@,
            ).0);
            assert(earlier + payloads(pieces@).len() == scanned.0.len());
            assert forall|i: int| 0 <= i < payloads(pieces@).len() implies payloads(pieces@)[i]
                == scanned.0[earlier + i] by {
                if !old(self).needs_flush {
                    assert(waiting_first =~= config.scan(Seq::empty(), before).0);
                } else {
                    assert(waiting_first =~= Seq::<Seq<u8>>::empty());
                }
            }
            assert(payloads(pieces@) =~= scanned.0.skip(earlier));
            assert forall|i: int| 0 <= i < earlier implies scanned.0[i] == config.scan(
                Seq::empty(),
                old(self).staged@,
            ).0[i] by {}
            assert(payloads(pieces@).to_set().subset_of(scanned.0.to_set())) by {
                assert forall|piece: Seq<u8>| payloads(pieces@).to_set().contains(
                    piece,
                ) implies scanned.0.to_set().contains(piece) by {
                    let i = choose|i: int|
                        0 <= i < payloads(pieces@).len() && payloads(pieces@)[i] == piece;
                    assert(scanned.0[earlier + i] == piece);
                }
            }
        }
        match repo.write_chunks(&pieces, &mut self.new_chunks) {
            Ok(()) => {},
            Err(error) => {
                self.discard();
                proof {
                    self.lemma_stays_attached(old(repo), repo);
                    ObjectRepo::lemma_stays_sound_more(
                        old(repo),
                        repo,
                        payloads(pieces@).to_set(),
                        config.scan(Seq::empty(), staged).0.to_set(),
                    );
                    let scanned = config.scan(Seq::empty(), staged);
                    let earlier = old(self).new_chunks@.len() as int;
                    assert forall|k: int| 0 <= k < earlier implies repo.records(
                        spec_chunk_hash(#[trigger] scanned.0[k]),
                    ) by {
                        assert(old(self).new_chunks@[k].refers_to(scanned.0[k]));
                        assert(old(repo).records(old(self).new_chunks@[k].hash@));
                    }
                    lemma_storing_fails_later(old(repo), repo, scanned.0, earlier, error);
                }
                return Err(error);
            },
        }
        self.position = self.position + bytes.len() as u64;
        self.needs_flush = true;
        self.start_location = start;
        self.staged = Ghost(staged);
        proof {
            self.lemma_stays_attached(old(repo), repo);
            ObjectRepo::lemma_stays_sound_more(
                old(repo),
                repo,
                payloads(pieces@).to_set(),
                config.scan(Seq::empty(), staged).0.to_set(),
            );
            let scanned = config.scan(Seq::empty(), staged);
            let earlier = old(self).new_chunks@.len() as int;
            assert forall|i: int| 0 <= i < self.new_chunks@.len() implies (
            #[trigger] self.new_chunks@[i]).refers_to(scanned.0[i]) && repo.records(
                self.new_chunks@[i].hash@,
            ) by {
                if i < earlier {
                    assert(self.new_chunks@[i] == self.new_chunks@.take(earlier)[i]);
                    assert(old(repo).records(old(self).new_chunks@[i].hash@));
                } else {
                    assert(self.new_chunks@[earlier + (i - earlier)].refers_to(
                        pieces@[i - earlier]@,
                    ));
                    assert(payloads(pieces@)[i - earlier] == pieces@[i - earlier]@);
                }
            }
        }
        Ok(bytes.len())
    }
}

/// Whether each chunk of `chunks` is the reference to the payload at the same
/// place in `pieces`.
pub open spec fn refer_to(chunks: Seq<Chunk>, pieces: Seq<Seq<u8>>) -> bool {
    &&& chunks.len() == pieces.len()
    &&& forall|i: int| 0 <= i < chunks.len() ==> (#[trigger] chunks[i]).refers_to(pieces[i])
}

impl ObjectState {
    /// The bytes that a flush cuts into chunks: what is staged, and what lies
    /// from the position on in the chunk that holds it.
    pub open spec fn flush_bytes<S: BlobStore>(
        &self,
        chunks: Seq<Chunk>,
        repo: &ObjectRepo<S>,
    ) -> Seq<u8> {
        self.staged@ + Self::kept_after(repo, spec_locate(chunks, self.position))
    }

    /// The index of the first chunk that a flush replaces.
    pub open spec fn flush_from(&self) -> int {
        match self.start_location {
            Some(location) => location.index as int,
            None => 0,
        }
    }

    /// The index past the last chunk that a flush replaces.
    pub open spec fn flush_to(&self, chunks: Seq<Chunk>) -> int {
        match spec_locate(chunks, self.position) {
            Some(location) => location.index + 1,
            None => chunks.len() as int,
        }
    }

    /// Whether `after` is the chunk list that a flush makes of `before`: the
    /// chunks from where the first write began up to the one that holds the
    /// position are replaced by the references to the chunks of
    /// `flush_bytes`.
    pub open spec fn flushed_chunks<S: BlobStore>(
        &self,
        before: Seq<Chunk>,
        after: Seq<Chunk>,
        repo: &ObjectRepo<S>,
    ) -> bool {
        let pieces = self.chunker.config.split(self.flush_bytes(before, repo));
        let from = self.flush_from();
        let new = after.subrange(from, from + pieces.len());
        &&& from + pieces.len() <= after.len()
        &&& refer_to(new, pieces)
        &&& after == spliced(before, from, self.flush_to(before), new)
    }

    /// Whether a flush that ends with `result` makes `post`, `post_handle` and
    /// `post_repo` of `pre`, `pre_handle` and `pre_repo`.
    pub open spec fn flush_outcome<S: BlobStore>(
        pre: &Self,
        post: &Self,
        pre_handle: &ObjectHandle,
        post_handle: &ObjectHandle,
        pre_repo: &ObjectRepo<S>,
        post_repo: &ObjectRepo<S>,
        result: Result<(), Error>,
    ) -> bool {
        &&& !pre.needs_flush ==> result is Ok && *post == *pre && *post_handle == *pre_handle
            && *post_repo == *pre_repo
        &&& pre.needs_flush ==> match result {
            Ok(()) => {
                &&& Self::discarded(pre, post)
                &&& pre.flushed_chunks(
                    pre_handle.chunks@,
                    post_handle.chunks@,
                    pre_repo,
                )
                &&& handle_index(pre_repo.header.objects@, pre_handle.handle_id) matches Some(
                    index,
                )
                &&& objects_put(
                    pre_repo.header.objects@,
                    post_repo.header.objects@,
                    index,
                    *post_handle,
                )
                &&& forall|i: int|
                    pre.flush_from() <= i < pre.flush_from() + pre.chunker.config.split(
                        pre.flush_bytes(pre_handle.chunks@, pre_repo),
                    ).len() ==> post_repo.records(#[trigger] post_handle.chunks@[i].hash@)
            },
            Err(error) => {
                &&& *post_handle == *pre_handle
                &&& ObjectRepo::same_objects(pre_repo, post_repo)
                &&& {
                    ||| {
                        &&& error == Error::NotFound
                        &&& handle_index(pre_repo.header.objects@, pre_handle.handle_id)
                            is None
                        &&& *post == *pre
                        &&& *post_repo == *pre_repo
                    }
                    ||| {
                        &&& spec_locate(pre_handle.chunks@, pre.position) matches Some(
                            location,
                        )
                        &&& (pre_repo.read_outcome(location.chunk) == Err::<Seq<u8>, Error>(
                            error,
                        ) || (error == Error::Store && !pre_repo.reliable()))
                        &&& *post == *pre
                        &&& *post_repo == *pre_repo
                    }
                    ||| {
                        &&& Self::discarded(pre, post)
                        &&& storing_fails_with(
                            pre_repo,
                            post_repo,
                            pre.chunker.config.split(
                                pre.flush_bytes(pre_handle.chunks@, pre_repo),
                            ),
                            error,
                        )
                    }
                    ||| {
                        &&& error == Error::InvalidInput
                        &&& Self::discarded(pre, post)
                        &&& exists|after: Seq<Chunk>|
                            pre.flushed_chunks(pre_handle.chunks@, after, pre_repo)
                                && total_size(after) > u64::MAX
                    }
                }
            },
        }
    }

    /// Puts what was written since the last flush in place.
    ///
    /// Without a write since the last flush, nothing is done. Else what lies
    /// from the position on in the chunk that holds it is staged as well, the
    /// chunker is flushed and its chunks are stored. Then the chunks from the
    /// one where the first write began up to the one that holds the position
    /// are replaced by the new chunks, the size becomes the sum of the sizes of
    /// the chunks, and the repository records the handle as it now is.
    ///
    /// Fails with `Error::NotFound` where the repository has no object with
    /// this handle, and with the error of reading the last chunk; both leave
    /// everything as it was. Where a chunk cannot be stored, or the size would
    /// not fit (`Error::InvalidInput`), what was written is given up; the
    /// handle is as it was.
    #[verifier::rlimit(50)]
    pub fn flush<S: BlobStore>(&mut self, handle: &mut ObjectHandle, repo: &mut ObjectRepo<S>) -> (result:
        Result<(), Error>)
        requires
            old(self).wf(old(handle).chunks@),
            old(self).attached(old(repo)),
            old(handle).wf(),
            old(repo).wf(),
        ensures
            final(self).wf(final(handle).chunks@),
            final(self).attached(final(repo)),
            final(handle).wf(),
            final(repo).wf(),
            old(repo).kept_by(final(repo)),
            final(handle).repo_id == old(handle).repo_id,
            final(handle).instance_id == old(handle).instance_id,
            final(handle).handle_id == old(handle).handle_id,
            final(self).position == old(self).position,
            ObjectRepo::stays_sound(
                old(repo),
                final(repo),
                old(self).chunker.config.split(
                    old(self).flush_bytes(old(handle).chunks@, old(repo)),
                ).to_set(),
            ),
            ObjectRepo::stores_at_most(
                old(repo),
                final(repo),
                old(self).chunker.config.split(
                    old(self).flush_bytes(old(handle).chunks@, old(repo)),
                ).skip(old(self).new_chunks@.len() as int),
            ),
            Self::flush_outcome(
                old(self),
                final(self),
                old(handle),
                final(handle),
                old(repo),
                final(repo),
                result,
            ),
    {
        let ghost config = self.chunker.config;
        let ghost all = self.flush_bytes(handle.chunks@, repo);
        proof {
            ObjectRepo::lemma_stays_sound_same(old(repo), config.split(all).to_set());
        }
        if !self.needs_flush {
            return Ok(());
        }
        let index = match repo.header.find_handle(handle.handle_id) {
            Some(index) => index,
            None => {
                return Err(Error::NotFound);
            },
        };
        let end = locate(&handle.chunks, self.position);
        let ghost suffix = Self::kept_after(repo, end);
        match end {
            Some(location) => {
                let last_chunk = match repo.read_chunk(&location.chunk) {
                    Ok(payload) => payload,
                    Err(error) => {
                        return Err(error);
                    },
                };
                let kept = vstd::slice::slice_subrange(
                    last_chunk.as_slice(),
                    location.relative_position(),
                    last_chunk.len(),
                );
                assert(kept@ =~= suffix);
                self.chunker.write(kept);
            },
            None => {
                let nothing: Vec<u8> = Vec::new();
                assert(nothing@ =~= suffix);
                self.chunker.write(nothing.as_slice());
            },
        }
        self.chunker.flush();
        let pieces = self.chunker.drain_chunks();
        let ghost earlier = old(self).new_chunks@.len() as int;
        proof {
            let staged = old(self).staged@;
            crate::chunker::lemma_chunking_is_incremental(config, staged, suffix);
            let first = config.scan(Seq::empty(), staged);
            let second = config.scan(first.1, suffix);
            assert(payloads(pieces@) =~= config.finish(second)) by {
                assert(Seq::<Seq<u8>>::empty() + second.0 =~= second.0);
                if second.1.len() > 0 {
                    assert(Seq::<Seq<u8>>::empty().push(second.1) =~= seq![second.1]);
                    assert(second.0 + seq![second.1] =~= second.0.push(second.1));
                } else {
                    assert(second.0 + Seq::<Seq<u8>>::empty() =~= second.0);
                }
            }
            assert(config.split(all) == first.0 + payloads(pieces@));
            assert(payloads(pieces@) =~= config.split(all).skip(earlier));
            assert(payloads(pieces@).to_set().subset_of(config.split(all).to_set())) by {
                assert forall|piece: Seq<u8>| payloads(pieces@).to_set().contains(
                    piece,
                ) implies config.split(all).to_set().contains(piece) by {
                    let i = choose|i: int|
                        0 <= i < payloads(pieces@).len() && payloads(pieces@)[i] == piece;
                    assert(config.split(all)[earlier + i] == piece);
                }
            }
        }
        match repo.write_chunks(&pieces, &mut self.new_chunks) {
            Ok(()) => {},
            Err(error) => {
                self.discard();
                proof {
                    self.lemma_stays_attached(old(repo), repo);
                    ObjectRepo::lemma_stays_sound_more(
                        old(repo),
                        repo,
                        payloads(pieces@).to_set(),
                        config.split(all).to_set(),
                    );
                    assert forall|k: int| 0 <= k < earlier implies repo.records(
                        spec_chunk_hash(#[trigger] config.split(all)[k]),
                    ) by {
                        assert(old(self).new_chunks@[k].refers_to(config.split(all)[k]));
                        assert(old(repo).records(old(self).new_chunks@[k].hash@));
                    }
                    lemma_storing_fails_later(old(repo), repo, config.split(all), earlier, error);
                }
                return Err(error);
            },
        }
        let from: usize = match self.start_location {
            Some(location) => location.index,
            None => 0,
        };
        let to: usize = match end {
            Some(location) => {
                assert(location.locates(handle.chunks@, self.position));
                assert(location.index < handle.chunks.len());
                location.index + 1
            },
            None => handle.chunks.len(),
        };
        proof {
            if self.start_location is Some && end is Some {
                let first = self.start_location.unwrap();
                let last = end.unwrap();
                if last.index < first.index {
                    crate::chunk::lemma_offset_step(handle.chunks@, last.index as int);
                    crate::chunk::lemma_offset_monotone(
                        handle.chunks@,
                        last.index + 1,
                        first.index as int,
                    );
                }
            }
        }
        let ghost stored_chunks = self.new_chunks@;
        proof {
            ObjectRepo::lemma_stays_sound_more(
                old(repo),
                repo,
                payloads(pieces@).to_set(),
                config.split(all).to_set(),
            );
            assert(refer_to(stored_chunks, config.split(all))) by {
                assert forall|i: int| 0 <= i < stored_chunks.len() implies (
                #[trigger] stored_chunks[i]).refers_to(config.split(all)[i]) by {
                    if i < earlier {
                        assert(stored_chunks[i] == stored_chunks.take(earlier)[i]);
                    } else {
                        assert(stored_chunks[earlier + (i - earlier)].refers_to(
                            pieces@[i - earlier]@,
                        ));
                        assert(payloads(pieces@)[i - earlier] == pieces@[i - earlier]@);
                    }
                }
            }
            assert forall|i: int| 0 <= i < stored_chunks.len() implies repo.records(
                #[trigger] stored_chunks[i].hash@,
            ) by {
                if i < earlier {
                    assert(stored_chunks[i] == stored_chunks.take(earlier)[i]);
                    assert(old(repo).records(old(self).new_chunks@[i].hash@));
                } else {
                    assert(stored_chunks[earlier + (i - earlier)].refers_to(
                        pieces@[i - earlier]@,
                    ));
                }
            }
        }
        let list = splice_chunks(&handle.chunks, from, to, &self.new_chunks);
        proof {
            assert(list@.subrange(from as int, from + stored_chunks.len()) =~= stored_chunks);
        }
        let size = match sum_sizes(&list) {
            Some(size) => size,
            None => {
                self.discard();
                proof {
                    self.lemma_stays_attached(old(repo), repo);
                    assert(old(self).flushed_chunks(old(handle).chunks@, list@, old(repo)));
                }
                return Err(Error::InvalidInput);
            },
        };
        handle.chunks = list;
        handle.size = size;
        self.discard();
        let ghost stored_repo = *repo;
        repo.put_handle(index, handle);
        proof {
            self.lemma_stays_attached(old(repo), &stored_repo);
            self.lemma_stays_attached(&stored_repo, repo);
            ObjectRepo::lemma_kept_by_transitive(old(repo), &stored_repo, repo);
            ObjectRepo::lemma_stores_at_most_chain(
                old(repo),
                &stored_repo,
                repo,
                payloads(pieces@),
                Seq::empty(),
            );
            assert(payloads(pieces@) + Seq::<Seq<u8>>::empty() =~= payloads(pieces@));
            ObjectRepo::lemma_stays_sound_chain(
                old(repo),
                &stored_repo,
                repo,
                config.split(all).to_set(),
                config.split(all).to_set(),
            );
            assert(config.split(all).to_set().union(config.split(all).to_set())
                =~= config.split(all).to_set());
            assert forall|i: int|
                from <= i < from + config.split(all).len() implies repo.records(
                #[trigger] handle.chunks@[i].hash@,
            ) by {
                assert(handle.chunks@[i] == stored_chunks[i - from]);
                assert(stored_repo.records(stored_chunks[i - from].hash@));
            }
        }
        Ok(())
    }
}

impl ObjectState {
    /// The bytes that stay of the chunk that holds offset `length`, when an
    /// object is cut to `length` bytes.
    pub open spec fn cut_rest<S: BlobStore>(
        chunks: Seq<Chunk>,
        repo: &ObjectRepo<S>,
        length: u64,
    ) -> Seq<u8> {
        Self::kept_before(repo, spec_locate(chunks, length))
    }

    /// Whether cutting an object to `length` bytes, ending with `result`,
    /// makes `post`, `post_handle` and `post_repo` of `pre`, `pre_handle` and
    /// `pre_repo`.
    pub open spec fn cut_outcome<S: BlobStore>(
        pre: &Self,
        post: &Self,
        pre_handle: &ObjectHandle,
        post_handle: &ObjectHandle,
        pre_repo: &ObjectRepo<S>,
        post_repo: &ObjectRepo<S>,
        length: u64,
        result: Result<(), Error>,
    ) -> bool {
        &&& length >= pre_handle.size ==> result is Ok && *post == *pre && *post_handle
            == *pre_handle && *post_repo == *pre_repo
        &&& length < pre_handle.size ==> match result {
            Ok(()) => {
                &&& spec_locate(pre_handle.chunks@, length) matches Some(location)
                &&& post_handle.chunks@.len() == location.index + 1
                &&& post_handle.chunks@.take(location.index as int) == pre_handle.chunks@.take(
                    location.index as int,
                )
                &&& post_handle.chunks@[location.index as int].refers_to(
                    Self::cut_rest(pre_handle.chunks@, pre_repo, length),
                )
                &&& post_repo.records(post_handle.chunks@[location.index as int].hash@)
                &&& post_handle.size == length
                &&& post.position == if pre.position < length {
                    pre.position
                } else {
                    length
                }
                &&& post.chunker == pre.chunker
                &&& post.new_chunks == pre.new_chunks
                &&& post.start_location == pre.start_location
                &&& post.needs_flush == pre.needs_flush
                &&& post.buffered_chunk == pre.buffered_chunk
                &&& post.read_buffer == pre.read_buffer
                &&& post.staged == pre.staged
                &&& handle_index(pre_repo.header.objects@, pre_handle.handle_id) matches Some(index)
                &&& objects_put(
                    pre_repo.header.objects@,
                    post_repo.header.objects@,
                    index,
                    *post_handle,
                )
            },
            Err(error) => {
                &&& *post_handle == *pre_handle
                &&& *post == *pre
                &&& ObjectRepo::same_objects(pre_repo, post_repo)
                &&& {
                    ||| {
                        &&& error == Error::NotFound
                        &&& handle_index(pre_repo.header.objects@, pre_handle.handle_id) is None
                        &&& *post_repo == *pre_repo
                    }
                    ||| {
                        &&& spec_locate(pre_handle.chunks@, length) matches Some(location)
                        &&& (pre_repo.read_outcome(location.chunk) == Err::<Seq<u8>, Error>(error)
                            || (error == Error::Store && !pre_repo.reliable()))
                        &&& *post_repo == *pre_repo
                    }
                    ||| storing_fails_with(
                        pre_repo,
                        post_repo,
                        seq![Self::cut_rest(pre_handle.chunks@, pre_repo, length)],
                        error,
                    )
                }
            },
        }
    }

    /// Cuts an object without staged writes to `length` bytes.
    ///
    /// An object that has no more bytes than that stays as it is. Else the
    /// chunk that holds offset `length` is read, and what lies before that
    /// offset in it is stored as a chunk of its own, which takes the place of
    /// that chunk and of all that follow. The size becomes `length`, the
    /// position is moved back to `length` if it was past it, and the repository
    /// records the handle as it now is.
    #[verifier::rlimit(50)]
    pub fn cut<S: BlobStore>(
        &mut self,
        handle: &mut ObjectHandle,
        repo: &mut ObjectRepo<S>,
        length: u64,
    ) -> (result: Result<(), Error>)
        requires
            old(self).wf(old(handle).chunks@),
            old(self).attached(old(repo)),
            !old(self).needs_flush,
            old(handle).wf(),
            old(repo).wf(),
        ensures
            final(self).wf(final(handle).chunks@),
            final(self).attached(final(repo)),
            final(handle).wf(),
            final(repo).wf(),
            old(repo).kept_by(final(repo)),
            final(handle).repo_id == old(handle).repo_id,
            final(handle).instance_id == old(handle).instance_id,
            final(handle).handle_id == old(handle).handle_id,
            ObjectRepo::stays_sound(
                old(repo),
                final(repo),
                set![Self::cut_rest(old(handle).chunks@, old(repo), length)],
            ),
            ObjectRepo::stores_at_most(
                old(repo),
                final(repo),
                seq![Self::cut_rest(old(handle).chunks@, old(repo), length)],
            ),
            Self::cut_outcome(
                old(self),
                final(self),
                old(handle),
                final(handle),
                old(repo),
                final(repo),
                length,
                result,
            ),
    {
        let ghost rest = Self::cut_rest(handle.chunks@, repo, length);
        proof {
            ObjectRepo::lemma_stays_sound_same(old(repo), set![rest]);
        }
        if length >= handle.size {
            return Ok(());
        }
        let index = match repo.header.find_handle(handle.handle_id) {
            Some(index) => index,
            None => {
                return Err(Error::NotFound);
            },
        };
        let location = match locate(&handle.chunks, length) {
            Some(location) => location,
            None => {
                return Ok(());
            },
        };
        let last_chunk = match repo.read_chunk(&location.chunk) {
            Ok(payload) => payload,
            Err(error) => {
                return Err(error);
            },
        };
        let kept = vstd::slice::slice_subrange(
            last_chunk.as_slice(),
            0,
            location.relative_position(),
        );
        assert(kept@ =~= rest);
        let chunk = match repo.write_chunk(kept) {
            Ok(chunk) => chunk,
            Err(error) => {
                proof {
                    self.lemma_stays_attached(old(repo), repo);
                    assert(seq![rest][0] == rest);
                }
                return Err(error);
            },
        };
        let mut last: Vec<Chunk> = Vec::new();
        last.push(chunk);
        let list = splice_chunks(&handle.chunks, location.index, handle.chunks.len(), &last);
        proof {
            let kept_chunks = handle.chunks@.take(location.index as int);
            assert(handle.chunks@.skip(handle.chunks@.len() as int) =~= Seq::<Chunk>::empty());
            assert(list@ =~= kept_chunks.push(chunk));
            assert(list@.drop_last() =~= kept_chunks);
            assert(list@.take(location.index as int) =~= kept_chunks);
        }
        handle.chunks = list;
        handle.size = length;
        if self.position > length {
            self.position = length;
        }
        let ghost stored_repo = *repo;
        repo.put_handle(index, handle);
        proof {
            self.lemma_stays_attached(old(repo), &stored_repo);
            self.lemma_stays_attached(&stored_repo, repo);
            ObjectRepo::lemma_kept_by_transitive(old(repo), &stored_repo, repo);
            ObjectRepo::lemma_stores_at_most_chain(
                old(repo),
                &stored_repo,
                repo,
                seq![rest],
                Seq::empty(),
            );
            assert(seq![rest] + Seq::<Seq<u8>>::empty() =~= seq![rest]);
            ObjectRepo::lemma_stays_sound_chain(
                old(repo),
                &stored_repo,
                repo,
                set![rest],
                set![rest],
            );
            assert(set![rest].union(set![rest]) =~= set![rest]);
            assert(stored_repo.records(chunk.hash@));
        }
        Ok(())
    }
}

impl ObjectState {
    /// Reads from the seek position to the end of the object, and leaves the
    /// position at the end.
    #[verifier::rlimit(50)]
    pub fn read_to_end<S: BlobStore>(&mut self, handle: &ObjectHandle, repo: &ObjectRepo<S>) -> (result:
        Result<Vec<u8>, Error>)
        requires
            old(self).wf(handle.chunks@),
            old(self).cache_agrees(repo),
            handle.wf(),
            repo.wf(),
        ensures
            final(self).wf(handle.chunks@),
            final(self).cache_agrees(repo),
            final(self).chunker == old(self).chunker,
            final(self).new_chunks == old(self).new_chunks,
            final(self).start_location == old(self).start_location,
            final(self).needs_flush == old(self).needs_flush,
            final(self).staged == old(self).staged,
            final(self).position >= old(self).position,
            match result {
                Ok(bytes) => {
                    &&& bytes@ == repo.content_from(handle.chunks@, old(self).position)
                    &&& final(self).position == if old(self).position < handle.size {
                        handle.size
                    } else {
                        old(self).position
                    }
                },
                Err(error) => exists|i: int|
                    0 <= i < handle.chunks@.len() && (repo.read_outcome(
                        #[trigger] handle.chunks@[i],
                    ) == Err::<Seq<u8>, Error>(error) || (error == Error::Store
                        && !repo.reliable())),
            },
    {
        let mut out: Vec<u8> = Vec::new();
        let count = handle.chunks.len();
        proof {
            assert(out@ + repo.content_from(handle.chunks@, self.position) =~= repo.content_from(
                handle.chunks@,
                self.position,
            ));
        }
        while self.position < handle.size
            invariant
                self.wf(handle.chunks@),
                self.cache_agrees(repo),
                handle.wf(),
                repo.wf(),
                self.chunker == old(self).chunker,
                self.new_chunks == old(self).new_chunks,
                self.start_location == old(self).start_location,
                self.needs_flush == old(self).needs_flush,
                self.staged == old(self).staged,
                self.position >= old(self).position,
                self.position <= handle.size || self.position == old(self).position,
                count == handle.chunks@.len(),
                out@ + repo.content_from(handle.chunks@, self.position) == repo.content_from(
                    handle.chunks@,
                    old(self).position,
                ),
            decreases handle.size - self.position,
        {
            let ghost position = self.position;
            let ghost collected = out@;
            let bytes = match self.read(handle, repo, usize::MAX) {
                Ok(bytes) => bytes,
                Err(error) => {
                    proof {
                        let location = choose|location: ChunkLocation|
                            location.locates(handle.chunks@, position) && (repo.read_outcome(
                                location.chunk,
                            ) == Err::<Seq<u8>, Error>(error) || (error == Error::Store
                                && !repo.reliable()));
                        assert(handle.chunks@[location.index as int] == location.chunk);
                    }
                    return Err(error);
                },
            };
            out.extend_from_slice(bytes.as_slice());
            proof {
                let chunks = handle.chunks@;
                let location = choose|location: ChunkLocation|
                    {
                        &&& location.locates(chunks, position)
                        &&& repo.read_outcome(location.chunk) is Ok
                        &&& bytes@ == Self::taken(
                            location,
                            repo.payload_of(location.chunk),
                            usize::MAX,
                        )
                        &&& self.position == position + bytes@.len()
                    };
                crate::chunk::lemma_location_is_unique(
                    chunks,
                    position,
                    location,
                    spec_locate(chunks, position).unwrap(),
                );
                lemma_offset_step(chunks, location.index as int);
                repo.lemma_content_from_chunk(chunks, location.index + 1);
                assert(bytes@ =~= repo.payload_of(location.chunk).skip(
                    location.spec_relative_position() as int,
                ));
                assert(self.position == offset_of(chunks, location.index + 1));
                assert(out@ + repo.content_from(chunks, self.position) =~= collected + (bytes@
                    + repo.content_from(chunks, self.position)));
            }
        }
        proof {
            crate::chunk::lemma_located_within(handle.chunks@, self.position);
            assert(out@ + Seq::<u8>::empty() =~= out@);
        }
        Ok(out)
    }
}

impl ObjectState {
    /// The bytes of `rest` that a read of at most `size` bytes gives: all of
    /// them, but no more than `size`.
    pub open spec fn up_to(rest: Seq<u8>, size: usize) -> Seq<u8> {
        if rest.len() <= size {
            rest
        } else {
            rest.take(size as int)
        }
    }

    /// Within a chunk, the bytes of an object from a position on are the
    /// bytes of the chunk from there to some later position in it, and then
    /// the bytes of the object from that position on.
    #[verifier::rlimit(50)]
    pub proof fn lemma_content_from_within<S: BlobStore>(
        repo: &ObjectRepo<S>,
        chunks: Seq<Chunk>,
        location: ChunkLocation,
        count: nat,
    )
        requires
            location.locates(chunks, location.position),
            chunks.len() <= usize::MAX,
            total_size(chunks) <= u64::MAX,
            repo.read_outcome(location.chunk) is Ok,
            location.position + count <= location.end,
        ensures
            repo.content_from(chunks, location.position) == repo.payload_of(
                location.chunk,
            ).subrange(
                location.spec_relative_position() as int,
                (location.spec_relative_position() + count) as int,
            ) + repo.content_from(chunks, (location.position + count) as u64),
    {
        let position = location.position;
        let index = location.index as int;
        let start = location.spec_relative_position() as int;
        let payload = repo.payload_of(location.chunk);
        crate::chunk::lemma_location_is_unique(
            chunks,
            position,
            location,
            spec_locate(chunks, position).unwrap(),
        );
        lemma_offset_step(chunks, index);
        let next = (position + count) as u64;
        if next < location.end {
            let later = ChunkLocation {
                chunk: location.chunk,
                start: location.start,
                end: location.end,
                position: next,
                index: location.index,
            };
            assert(later.locates(chunks, next));
            crate::chunk::lemma_location_is_unique(
                chunks,
                next,
                later,
                spec_locate(chunks, next).unwrap(),
            );
            assert(payload.skip(start) =~= payload.subrange(start, start + count) + payload.skip(
                start + count,
            ));
            assert((payload.subrange(start, start + count) + payload.skip(start + count))
                + repo.content(chunks.skip(index + 1)) =~= payload.subrange(start, start + count)
                + (payload.skip(start + count) + repo.content(chunks.skip(index + 1))));
        } else {
            repo.lemma_content_from_chunk(chunks, index + 1);
            assert(payload.skip(start) =~= payload.subrange(start, start + count));
        }
    }

    /// Reads at the seek position until `size` bytes are read or the end of
    /// the object is reached, and moves the position past what was read.
    #[verifier::rlimit(50)]
    pub fn read_up_to<S: BlobStore>(
        &mut self,
        handle: &ObjectHandle,
        repo: &ObjectRepo<S>,
        size: usize,
    ) -> (result: Result<Vec<u8>, Error>)
        requires
            old(self).wf(handle.chunks@),
            old(self).cache_agrees(repo),
            handle.wf(),
            repo.wf(),
        ensures
            final(self).wf(handle.chunks@),
            final(self).cache_agrees(repo),
            final(self).chunker == old(self).chunker,
            final(self).new_chunks == old(self).new_chunks,
            final(self).start_location == old(self).start_location,
            final(self).needs_flush == old(self).needs_flush,
            final(self).staged == old(self).staged,
            final(self).position >= old(self).position,
            match result {
                Ok(bytes) => {
                    &&& bytes@ == Self::up_to(
                        repo.content_from(handle.chunks@, old(self).position),
                        size,
                    )
                    &&& final(self).position == old(self).position + bytes@.len()
                },
                Err(error) => exists|i: int|
                    0 <= i < handle.chunks@.len() && (repo.read_outcome(
                        #[trigger] handle.chunks@[i],
                    ) == Err::<Seq<u8>, Error>(error) || (error == Error::Store
                        && !repo.reliable())),
            },
    {
        let mut out: Vec<u8> = Vec::new();
        let count = handle.chunks.len();
        let ghost whole = repo.content_from(handle.chunks@, self.position);
        proof {
            assert(out@ + whole =~= whole);
        }
        while out.len() < size && self.position < handle.size
            invariant
                self.wf(handle.chunks@),
                self.cache_agrees(repo),
                handle.wf(),
                repo.wf(),
                self.chunker == old(self).chunker,
                self.new_chunks == old(self).new_chunks,
                self.start_location == old(self).start_location,
                self.needs_flush == old(self).needs_flush,
                self.staged == old(self).staged,
                self.position == old(self).position + out@.len(),
                out@.len() <= size,
                count == handle.chunks@.len(),
                whole == repo.content_from(handle.chunks@, old(self).position),
                out@ + repo.content_from(handle.chunks@, self.position) == whole,
            decreases size - out.len(),
        {
            let ghost position = self.position;
            let ghost collected = out@;
            let bytes = match self.read(handle, repo, size - out.len()) {
                Ok(bytes) => bytes,
                Err(error) => {
                    proof {
                        let location = choose|location: ChunkLocation|
                            location.locates(handle.chunks@, position) && (repo.read_outcome(
                                location.chunk,
                            ) == Err::<Seq<u8>, Error>(error) || (error == Error::Store
                                && !repo.reliable()));
                        assert(handle.chunks@[location.index as int] == location.chunk);
                    }
                    return Err(error);
                },
            };
            proof {
                let chunks = handle.chunks@;
                let location = choose|location: ChunkLocation|
                    {
                        &&& location.locates(chunks, position)
                        &&& repo.read_outcome(location.chunk) is Ok
                        &&& bytes@ == Self::taken(
                            location,
                            repo.payload_of(location.chunk),
                            (size - collected.len()) as usize,
                        )
                        &&& self.position == position + bytes@.len()
                    };
                Self::lemma_content_from_within(repo, chunks, location, bytes@.len());
                assert(bytes@.len() >= 1);
                assert((collected + bytes@) + repo.content_from(chunks, self.position)
                    =~= collected + (bytes@ + repo.content_from(chunks, self.position)));
            }
            out.extend_from_slice(bytes.as_slice());
        }
        proof {
            if self.position >= handle.size {
                crate::chunk::lemma_located_within(handle.chunks@, self.position);
                assert(out@ + Seq::<u8>::empty() =~= out@);
            } else {
                assert(whole.take(size as int) =~= out@);
            }
        }
        Ok(out)
    }
}

} // verus!
