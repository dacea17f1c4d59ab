use crate::hash::{hash_eq, spec_chunk_hash, ChunkHash};
use vstd::prelude::*;

verus! {

/// A reference to a stored chunk: the length of its payload and the checksum
/// of its payload.
#[derive(Clone, Copy, Debug, PartialEq, Eq, Hash, Default)]
pub struct Chunk {
    /// The size of the chunk in bytes.
    pub size: usize,
    /// The checksum of the chunk.
    pub hash: ChunkHash,
}

impl Chunk {
    /// Whether this reference is the one that belongs to `payload`.
    pub open spec fn refers_to(&self, payload: Seq<u8>) -> bool {
        &&& self.size == payload.len()
        &&& self.hash@ == spec_chunk_hash(payload)
    }

    /// Whether two references name the same chunk.
    pub open spec fn same_as(&self, other: &Chunk) -> bool {
        self.size == other.size && self.hash@ == other.hash@
    }

    /// The reference that belongs to `payload`.
    pub fn of(payload: &[u8]) -> (chunk: Chunk)
        ensures
            chunk.refers_to(payload@),
    {
        Chunk { size: payload.len(), hash: crate::hash::chunk_hash(payload) }
    }

    /// Compares two references field by field.
    pub fn same(&self, other: &Chunk) -> (same: bool)
        ensures
            same == self.same_as(other),
    {
        self.size == other.size && hash_eq(&self.hash, &other.hash)
    }
}

/// References to the same chunk are equal values.
pub proof fn lemma_same_chunk_is_equal(a: Chunk, b: Chunk)
    requires
        a.same_as(&b),
    ensures
        a == b,
{
    assert(a.hash =~= b.hash);
}

/// The number of bytes that a list of chunks stands for.
pub open spec fn total_size(chunks: Seq<Chunk>) -> nat
    decreases chunks.len(),
{
    if chunks.len() == 0 {
        0
    } else {
        total_size(chunks.drop_last()) + chunks.last().size as nat
    }
}

/// The offset in the object at which chunk `index` begins.
pub open spec fn offset_of(chunks: Seq<Chunk>, index: int) -> nat {
    total_size(chunks.take(index))
}

/// Whether chunk `index` holds the byte at offset `position`.
pub open spec fn holds_position(chunks: Seq<Chunk>, index: int, position: nat) -> bool {
    &&& 0 <= index < chunks.len()
    &&& offset_of(chunks, index) <= position < offset_of(chunks, index) + chunks[index].size
}

/// The size of a concatenation is the sum of the sizes.
pub proof fn lemma_total_size_concat(a: Seq<Chunk>, b: Seq<Chunk>)
    ensures
        total_size(a + b) == total_size(a) + total_size(b),
    decreases b.len(),
{
    if b.len() == 0 {
        assert(a + b =~= a);
    } else {
        assert((a + b).drop_last() =~= a + b.drop_last());
        lemma_total_size_concat(a, b.drop_last());
    }
}

/// Offsets grow with the index, by the sizes of the chunks in between.
pub proof fn lemma_offset_step(chunks: Seq<Chunk>, index: int)
    requires
        0 <= index < chunks.len(),
    ensures
        offset_of(chunks, index + 1) == offset_of(chunks, index) + chunks[index].size,
        offset_of(chunks, index + 1) <= total_size(chunks),
{
    assert(chunks.take(index + 1).drop_last() =~= chunks.take(index));
    assert(chunks =~= chunks.take(index + 1) + chunks.skip(index + 1));
    lemma_total_size_concat(chunks.take(index + 1), chunks.skip(index + 1));
}

/// Offsets never decrease from one index to a later one.
pub proof fn lemma_offset_monotone(chunks: Seq<Chunk>, i: int, j: int)
    requires
        0 <= i <= j <= chunks.len(),
    ensures
        offset_of(chunks, i) <= offset_of(chunks, j),
    decreases j - i,
{
    if i < j {
        lemma_offset_step(chunks, j - 1);
        lemma_offset_monotone(chunks, i, j - 1);
    }
}

/// At most one chunk holds a given position.
pub proof fn lemma_position_has_one_chunk(chunks: Seq<Chunk>, i: int, j: int, position: nat)
    requires
        holds_position(chunks, i, position),
        holds_position(chunks, j, position),
    ensures
        i == j,
{
    if i < j {
        lemma_offset_step(chunks, i);
        lemma_offset_monotone(chunks, i + 1, j);
    } else if j < i {
        lemma_offset_step(chunks, j);
        lemma_offset_monotone(chunks, j + 1, i);
    }
}

/// A position that a chunk holds lies before the end.
pub proof fn lemma_position_within(chunks: Seq<Chunk>, index: int, position: nat)
    requires
        holds_position(chunks, index, position),
    ensures
        position < total_size(chunks),
{
    lemma_offset_step(chunks, index);
}

/// Where a seek position falls in the chunk list of an object.
#[derive(Clone, Copy, Debug)]
pub struct ChunkLocation {
    /// The chunk that holds the position.
    pub chunk: Chunk,
    /// The offset of the first byte of the chunk in the object.
    pub start: u64,
    /// The offset just past the last byte of the chunk in the object.
    pub end: u64,
    /// The position itself.
    pub position: u64,
    /// The index of the chunk in the list.
    pub index: usize,
}

impl ChunkLocation {
    /// Whether this location describes where `position` falls in `chunks`.
    pub open spec fn locates(&self, chunks: Seq<Chunk>, position: u64) -> bool {
        &&& holds_position(chunks, self.index as int, position as nat)
        &&& self.chunk == chunks[self.index as int]
        &&& self.start == offset_of(chunks, self.index as int)
        &&& self.end == self.start + self.chunk.size
        &&& self.position == position
    }

    /// The offset of the position from the start of the chunk.
    pub open spec fn spec_relative_position(&self) -> nat {
        (self.position - self.start) as nat
    }

    /// The offset of the position from the start of the chunk.
    pub fn relative_position(&self) -> (offset: usize)
        requires
            self.start <= self.position < self.end,
            self.end == self.start + self.chunk.size,
        ensures
            offset == self.spec_relative_position(),
            offset < self.chunk.size,
    {
        (self.position - self.start) as usize
    }
}

/// Where `position` falls in `chunks`: the location of the one chunk that
/// holds it, and none when the position is at or past the end.
pub open spec fn spec_locate(chunks: Seq<Chunk>, position: u64) -> Option<ChunkLocation> {
    if exists|location: ChunkLocation| location.locates(chunks, position) {
        Some(choose|location: ChunkLocation| location.locates(chunks, position))
    } else {
        None
    }
}

/// A position has one location.
pub proof fn lemma_location_is_unique(
    chunks: Seq<Chunk>,
    position: u64,
    a: ChunkLocation,
    b: ChunkLocation,
)
    requires
        a.locates(chunks, position),
        b.locates(chunks, position),
    ensures
        a == b,
{
    lemma_position_has_one_chunk(chunks, a.index as int, b.index as int, position as nat);
}

/// A position at or past the end has no location, and any other has one.
pub proof fn lemma_located_within(chunks: Seq<Chunk>, position: u64)
    requires
        total_size(chunks) <= u64::MAX,
        chunks.len() <= usize::MAX,
    ensures
        spec_locate(chunks, position) is Some <==> position < total_size(chunks),
        spec_locate(chunks, position) matches Some(location) ==> location.locates(
            chunks,
            position,
        ),
    decreases chunks.len(),
{
    if spec_locate(chunks, position) is Some {
        let location = spec_locate(chunks, position).unwrap();
        lemma_position_within(chunks, location.index as int, position as nat);
    } else if position < total_size(chunks) {
        let index = lemma_some_chunk_holds(chunks, position as nat);
        lemma_offset_step(chunks, index);
        let location = ChunkLocation {
            chunk: chunks[index],
            start: offset_of(chunks, index) as u64,
            end: (offset_of(chunks, index) + chunks[index].size) as u64,
            position,
            index: index as usize,
        };
        assert(location.locates(chunks, position));
    }
}

/// A position before the end is held by some chunk.
pub proof fn lemma_some_chunk_holds(chunks: Seq<Chunk>, position: nat) -> (index: int)
    requires
        position < total_size(chunks),
    ensures
        holds_position(chunks, index, position),
    decreases chunks.len(),
{
    let last = chunks.len() - 1;
    assert(chunks.take(last) =~= chunks.drop_last());
    if position < total_size(chunks.drop_last()) {
        let index = lemma_some_chunk_holds(chunks.drop_last(), position);
        assert(chunks.drop_last().take(index) =~= chunks.take(index));
        index
    } else {
        last
    }
}

/// Finds the chunk that holds the byte at `position`, scanning the list from
/// its start. There is none when the position is at or past the end.
pub fn locate(chunks: &Vec<Chunk>, position: u64) -> (found: Option<ChunkLocation>)
    requires
        total_size(chunks@) <= u64::MAX,
    ensures
        found == spec_locate(chunks@, position),
        match found {
            Some(location) => location.locates(chunks@, position),
            None => position >= total_size(chunks@),
        },
{
    let mut chunk_start: u64 = 0;
    let mut index: usize = 0;
    while index < chunks.len()
        invariant
            index <= chunks.len(),
            chunk_start == offset_of(chunks@, index as int),
            total_size(chunks@) <= u64::MAX,
            position >= chunk_start,
        decreases chunks.len() - index,
    {
        let chunk = chunks[index];
        proof {
            lemma_offset_step(chunks@, index as int);
        }
        let chunk_end: u64 = chunk_start + chunk.size as u64;
        if position < chunk_end {
            let location = ChunkLocation {
                chunk,
                start: chunk_start,
                end: chunk_end,
                position,
                index,
            };
            proof {
                assert(location.locates(chunks@, position));
                lemma_location_is_unique(
                    chunks@,
                    position,
                    location,
                    spec_locate(chunks@, position).unwrap(),
                );
            }
            return Some(location);
        }
        chunk_start = chunk_end;
        index += 1;
    }
    assert(chunks@.take(index as int) =~= chunks@);
    proof {
        lemma_located_within(chunks@, position);
    }
    None
}

} // verus!
