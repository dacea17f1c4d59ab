use vstd::prelude::*;
use vstd::seq_lib::lemma_flatten_concat;

verus! {

/// The factor of the rolling hash. It is even, so that a byte leaves the hash
/// after thirty-two steps: the hash is one of the last thirty-two bytes.
pub const HASH_FACTOR: u64 = 271828182;

/// The parameters of content-defined chunking.
#[derive(Clone, Copy, Debug, PartialEq, Eq, Structural)]
pub struct ChunkerConfig {
    /// The binary logarithm of the size that chunks have on average.
    pub avg_bits: u32,
    /// The least size of a chunk, but for the last one of a stream.
    pub min_size: usize,
    /// The greatest size of a chunk.
    pub max_size: usize,
}

/// The hash after one more byte.
pub open spec fn roll(hash: u32, byte: u8) -> u32 {
    (((hash as int + byte as int + 1) * (HASH_FACTOR as int)) % 0x1_0000_0000int) as u32
}

/// The rolling hash of the bytes of a chunk.
pub open spec fn hash_of(bytes: Seq<u8>) -> u32
    decreases bytes.len(),
{
    if bytes.len() == 0 {
        0
    } else {
        roll(hash_of(bytes.drop_last()), bytes.last())
    }
}

impl Default for ChunkerConfig {
    /// Chunks of a mebibyte on average, of at least a quarter and at most
    /// eight of that.
    fn default() -> (config: ChunkerConfig)
        ensures
            config == (ChunkerConfig { avg_bits: 20, min_size: 0x4_0000, max_size: 0x80_0000 }),
            config.spec_valid(),
    {
        ChunkerConfig { avg_bits: 20, min_size: 0x4_0000, max_size: 0x80_0000 }
    }
}

impl ChunkerConfig {
    /// Whether the parameters can be used: at most thirty-two bits, and sizes
    /// with `1 <= min_size <= max_size`.
    pub open spec fn spec_valid(&self) -> bool {
        &&& self.avg_bits <= 32
        &&& 1 <= self.min_size <= self.max_size
    }

    /// Whether the parameters can be used.
    #[verifier::when_used_as_spec(spec_valid)]
    pub fn valid(&self) -> (ok: bool)
        ensures
            ok == self.spec_valid(),
    {
        self.avg_bits <= 32 && 1 <= self.min_size && self.min_size <= self.max_size
    }

    /// The parameters with the given values, if they can be used.
    pub fn new(avg_bits: u32, min_size: usize, max_size: usize) -> (config: Option<ChunkerConfig>)
        ensures
            config == if (ChunkerConfig { avg_bits, min_size, max_size }).spec_valid() {
                Some(ChunkerConfig { avg_bits, min_size, max_size })
            } else {
                None
            },
    {
        let config = ChunkerConfig { avg_bits, min_size, max_size };
        if config.valid() {
            Some(config)
        } else {
            None
        }
    }

    /// The bound under which the hash marks a boundary: two to the power of
    /// thirty-two less `avg_bits`. A hash is under the bound when its upper
    /// `avg_bits` bits are clear, as one hash in two to the power of
    /// `avg_bits` is.
    pub open spec fn spec_threshold(&self) -> u64 {
        1u64 << ((32 - self.avg_bits) as u64)
    }

    /// The bound under which the hash marks a boundary.
    #[verifier::when_used_as_spec(spec_threshold)]
    pub fn threshold(&self) -> (bound: u64)
        requires
            self.spec_valid(),
        ensures
            bound == self.spec_threshold(),
    {
        1u64 << ((32 - self.avg_bits) as u64)
    }

    /// Whether a chunk ends after `bytes`: it has reached the greatest size,
    /// or it has reached the least size and its hash is under the bound.
    pub open spec fn is_cut(&self, bytes: Seq<u8>) -> bool {
        ||| bytes.len() >= self.max_size
        ||| (bytes.len() >= self.min_size && (hash_of(bytes) as u64) < self.spec_threshold())
    }

    /// Feeds `rest` to a chunk that holds `current`: the chunks completed on
    /// the way, and the bytes of the chunk left open at the end.
    pub open spec fn scan(&self, current: Seq<u8>, rest: Seq<u8>) -> (Seq<Seq<u8>>, Seq<u8>)
        decreases rest.len(),
    {
        if rest.len() == 0 {
            (Seq::empty(), current)
        } else {
            let next = current.push(rest[0]);
            if self.is_cut(next) {
                let (chunks, open) = self.scan(Seq::empty(), rest.skip(1));
                (seq![next] + chunks, open)
            } else {
                self.scan(next, rest.skip(1))
            }
        }
    }

    /// The chunks of a whole stream: those completed while scanning it, and
    /// the bytes left open at its end as a last, short chunk.
    pub open spec fn split(&self, data: Seq<u8>) -> Seq<Seq<u8>> {
        self.finish(self.scan(Seq::empty(), data))
    }

    /// Closes a scan: the bytes left open, if any, become the last chunk.
    pub open spec fn finish(&self, scanned: (Seq<Seq<u8>>, Seq<u8>)) -> Seq<Seq<u8>> {
        if scanned.1.len() == 0 {
            scanned.0
        } else {
            scanned.0.push(scanned.1)
        }
    }

    /// Scanning `a + b` is scanning `a` and then `b`.
    pub proof fn lemma_scan_concat(&self, current: Seq<u8>, a: Seq<u8>, b: Seq<u8>)
        ensures
            self.scan(current, a + b).0 == self.scan(current, a).0 + self.scan(
                self.scan(current, a).1,
                b,
            ).0,
            self.scan(current, a + b).1 == self.scan(self.scan(current, a).1, b).1,
        decreases a.len(),
    {
        if a.len() == 0 {
            assert(a + b =~= b);
            assert(self.scan(current, a).0 + self.scan(current, b).0 =~= self.scan(current, b).0);
        } else {
            let next = current.push(a[0]);
            assert((a + b)[0] == a[0]);
            assert((a + b).skip(1) =~= a.skip(1) + b);
            if self.is_cut(next) {
                self.lemma_scan_concat(Seq::empty(), a.skip(1), b);
                let first = self.scan(Seq::empty(), a.skip(1));
                assert(seq![next] + (first.0 + self.scan(first.1, b).0) =~= (seq![next] + first.0)
                    + self.scan(first.1, b).0);
            } else {
                self.lemma_scan_concat(next, a.skip(1), b);
            }
        }
    }

    /// A scan loses no byte and adds none.
    pub proof fn lemma_scan_keeps_bytes(&self, current: Seq<u8>, rest: Seq<u8>)
        ensures
            self.scan(current, rest).0.flatten() + self.scan(current, rest).1 == current + rest,
        decreases rest.len(),
    {
        if rest.len() == 0 {
            assert(Seq::<Seq<u8>>::empty().flatten() =~= Seq::<u8>::empty());
            assert(current + rest =~= current);
        } else {
            let next = current.push(rest[0]);
            assert(current + rest =~= next + rest.skip(1));
            if self.is_cut(next) {
                self.lemma_scan_keeps_bytes(Seq::empty(), rest.skip(1));
                let after = self.scan(Seq::empty(), rest.skip(1));
                lemma_flatten_concat(seq![next], after.0);
                seq![next].lemma_flatten_one_element();
                assert(Seq::<u8>::empty() + rest.skip(1) =~= rest.skip(1));
                assert((next + after.0.flatten()) + after.1 =~= next + (after.0.flatten()
                    + after.1));
            } else {
                self.lemma_scan_keeps_bytes(next, rest.skip(1));
            }
        }
    }

    /// The chunks of a stream, put together, are the stream.
    pub proof fn lemma_split_keeps_bytes(&self, data: Seq<u8>)
        ensures
            self.split(data).flatten() == data,
    {
        self.lemma_scan_keeps_bytes(Seq::empty(), data);
        let scanned = self.scan(Seq::empty(), data);
        assert(Seq::<u8>::empty() + data =~= data);
        if scanned.1.len() == 0 {
            assert(scanned.0.flatten() + scanned.1 =~= scanned.0.flatten());
        } else {
            scanned.0.lemma_flatten_push(scanned.1);
        }
    }

    /// The sizes of what a scan yields: each completed chunk has between
    /// `min_size` and `max_size` bytes, and fewer than `max_size` stay open.
    pub proof fn lemma_scan_sizes(&self, current: Seq<u8>, rest: Seq<u8>)
        requires
            self.spec_valid(),
            current.len() < self.max_size,
        ensures
            self.scan(current, rest).1.len() < self.max_size,
            forall|i: int|
                0 <= i < self.scan(current, rest).0.len() ==> self.min_size <= (
                #[trigger] self.scan(current, rest).0[i]).len() <= self.max_size,
        decreases rest.len(),
    {
        if rest.len() > 0 {
            let next = current.push(rest[0]);
            if self.is_cut(next) {
                self.lemma_scan_sizes(Seq::empty(), rest.skip(1));
            } else {
                self.lemma_scan_sizes(next, rest.skip(1));
            }
        }
    }

    /// The sizes of the chunks of a stream: none is empty or has more than
    /// `max_size` bytes, and all but the last have at least `min_size`.
    pub proof fn lemma_split_sizes(&self, data: Seq<u8>)
        requires
            self.spec_valid(),
        ensures
            forall|i: int|
                0 <= i < self.split(data).len() ==> 1 <= (#[trigger] self.split(data)[i]).len()
                    <= self.max_size,
            forall|i: int|
                0 <= i < self.split(data).len() - 1 ==> self.min_size <= (#[trigger] self.split(
                    data,
                )[i]).len(),
    {
        self.lemma_scan_sizes(Seq::empty(), data);
        let scanned = self.scan(Seq::empty(), data);
        assert forall|i: int| 0 <= i < self.split(data).len() implies 1 <= (#[trigger] self.split(
            data,
        )[i]).len() <= self.max_size by {
            if i < scanned.0.len() {
                assert(self.split(data)[i] == scanned.0[i]);
            }
        }
        assert forall|i: int| 0 <= i < self.split(data).len() - 1 implies self.min_size <= (
        #[trigger] self.split(data)[i]).len() by {
            assert(self.split(data)[i] == scanned.0[i]);
        }
    }
}

/// The byte sequences that a list of byte vectors holds.
pub open spec fn payloads(chunks: Seq<Vec<u8>>) -> Seq<Seq<u8>> {
    Seq::new(chunks.len(), |i: int| chunks[i]@)
}

/// An incremental content-defined chunker.
///
/// Bytes are written in any number of pieces. Chunks that are complete wait
/// to be drained; the bytes of the chunk that is still open are kept, fewer
/// than `max_size` of them at any time.
pub struct Chunker {
    /// The parameters.
    pub config: ChunkerConfig,
    /// The bytes of the chunk that is open.
    pub buffer: Vec<u8>,
    /// The rolling hash of the bytes of the open chunk.
    pub hash: u32,
    /// The complete chunks that have not been drained.
    pub ready: Vec<Vec<u8>>,
}

impl Chunker {
    /// The invariant of a chunker.
    pub open spec fn wf(&self) -> bool {
        &&& self.config.spec_valid()
        &&& self.buffer.len() < self.config.max_size
        &&& self.hash == hash_of(self.buffer@)
    }

    /// The bytes of the chunk that is open.
    pub open spec fn open_bytes(&self) -> Seq<u8> {
        self.buffer@
    }

    /// The complete chunks that wait to be drained.
    pub open spec fn waiting(&self) -> Seq<Seq<u8>> {
        payloads(self.ready@)
    }

    /// A chunker with nothing written to it.
    pub fn new(config: ChunkerConfig) -> (chunker: Chunker)
        requires
            config.spec_valid(),
        ensures
            chunker.wf(),
            chunker.config == config,
            chunker.open_bytes() == Seq::<u8>::empty(),
            chunker.waiting() == Seq::<Seq<u8>>::empty(),
    {
        let chunker = Chunker { config, buffer: Vec::new(), hash: 0, ready: Vec::new() };
        assert(chunker.waiting() =~= Seq::<Seq<u8>>::empty());
        chunker
    }

    /// Whether nothing is held: no open bytes and no waiting chunk.
    pub fn is_empty(&self) -> (empty: bool)
        ensures
            empty == (self.open_bytes().len() == 0 && self.waiting().len() == 0),
    {
        self.buffer.len() == 0 && self.ready.len() == 0
    }

    /// Writes `bytes` to the stream. The chunks that this completes are added
    /// to those waiting.
    #[verifier::rlimit(50)]
    pub fn write(&mut self, bytes: &[u8])
        requires
            old(self).wf(),
        ensures
            final(self).wf(),
            final(self).config == old(self).config,
            final(self).waiting() == old(self).waiting() + old(self).config.scan(
                old(self).open_bytes(),
                bytes@,
            ).0,
            final(self).open_bytes() == old(self).config.scan(old(self).open_bytes(), bytes@).1,
    {
        let threshold = self.config.threshold();
        let mut i: usize = 0;
        proof {
            assert(bytes@.skip(0) =~= bytes@);
            assert(self.waiting() + self.config.scan(self.open_bytes(), bytes@).0 =~= old(
                self,
            ).waiting() + old(self).config.scan(old(self).open_bytes(), bytes@).0);
        }
        while i < bytes.len()
            invariant
                i <= bytes.len(),
                self.wf(),
                self.config == old(self).config,
                threshold == self.config.spec_threshold(),
                self.waiting() + self.config.scan(self.open_bytes(), bytes@.skip(i as int)).0
                    == old(self).waiting() + old(self).config.scan(
                    old(self).open_bytes(),
                    bytes@,
                ).0,
                self.config.scan(self.open_bytes(), bytes@.skip(i as int)).1 == old(
                    self,
                ).config.scan(old(self).open_bytes(), bytes@).1,
            decreases bytes.len() - i,
        {
            let ghost before = *self;
            let ghost rest = bytes@.skip(i as int);
            let byte = bytes[i];
            self.buffer.push(byte);
            self.hash = (((self.hash as u64 + byte as u64 + 1) * HASH_FACTOR)
                % 0x1_0000_0000u64) as u32;
            proof {
                assert(rest[0] == byte);
                assert(rest.skip(1) =~= bytes@.skip(i + 1));
                assert(self.buffer@ == before.buffer@.push(rest[0]));
                assert(self.buffer@.drop_last() =~= before.buffer@);
                assert(self.hash == hash_of(self.buffer@));
            }
            if self.buffer.len() >= self.config.max_size || (self.buffer.len()
                >= self.config.min_size && (self.hash as u64) < threshold) {
                let mut full: Vec<u8> = Vec::new();
                core::mem::swap(&mut self.buffer, &mut full);
                self.hash = 0;
                self.ready.push(full);
                proof {
                    let next = before.buffer@.push(rest[0]);
                    assert(self.config.is_cut(next));
                    assert(self.waiting() =~= before.waiting().push(next));
                    let tail = self.config.scan(Seq::empty(), rest.skip(1));
                    assert(self.waiting() + tail.0 =~= before.waiting() + (seq![next] + tail.0));
                }
            } else {
                proof {
                    assert(!self.config.is_cut(self.buffer@));
                    assert(self.waiting() =~= before.waiting());
                }
            }
            i += 1;
        }
        proof {
            assert(bytes@.skip(i as int) =~= Seq::<u8>::empty());
            assert(self.waiting() + Seq::<Seq<u8>>::empty() =~= self.waiting());
        }
    }

    /// Ends the stream: the bytes of the open chunk, if any, become a last
    /// chunk, and the next byte written starts a new stream.
    pub fn flush(&mut self)
        requires
            old(self).wf(),
        ensures
            final(self).wf(),
            final(self).config == old(self).config,
            final(self).open_bytes() == Seq::<u8>::empty(),
            final(self).waiting() == old(self).waiting() + old(self).config.finish(
                (Seq::empty(), old(self).open_bytes()),
            ),
    {
        if self.buffer.len() > 0 {
            let mut last: Vec<u8> = Vec::new();
            core::mem::swap(&mut self.buffer, &mut last);
            self.hash = 0;
            self.ready.push(last);
            assert(self.waiting() =~= old(self).waiting() + seq![old(self).open_bytes()]);
            assert(Seq::<Seq<u8>>::empty().push(old(self).open_bytes()) =~= seq![
                old(self).open_bytes(),
            ]);
        } else {
            assert(self.waiting() =~= old(self).waiting() + Seq::<Seq<u8>>::empty());
        }
    }

    /// Hands out the chunks that wait, in the order in which they were
    /// completed, and keeps none of them.
    pub fn drain_chunks(&mut self) -> (chunks: Vec<Vec<u8>>)
        ensures
            payloads(chunks@) == old(self).waiting(),
            final(self).waiting() == Seq::<Seq<u8>>::empty(),
            final(self).open_bytes() == old(self).open_bytes(),
            final(self).config == old(self).config,
            final(self).hash == old(self).hash,
    {
        let mut chunks: Vec<Vec<u8>> = Vec::new();
        core::mem::swap(&mut self.ready, &mut chunks);
        assert(self.waiting() =~= Seq::<Seq<u8>>::empty());
        chunks
    }

    /// Drops what is held: the open bytes and the waiting chunks.
    pub fn clear(&mut self)
        ensures
            final(self).config == old(self).config,
            final(self).open_bytes() == Seq::<u8>::empty(),
            final(self).waiting() == Seq::<Seq<u8>>::empty(),
            old(self).config.spec_valid() ==> final(self).wf(),
    {
        self.buffer = Vec::new();
        self.ready = Vec::new();
        self.hash = 0;
        assert(self.waiting() =~= Seq::<Seq<u8>>::empty());
    }
}

/// Writing a stream in two pieces yields the chunks of writing it in one:
/// the chunks of `a + b` are those completed by `a`, followed by those that
/// `b` completes from what `a` left open.
pub proof fn lemma_chunking_is_incremental(config: ChunkerConfig, a: Seq<u8>, b: Seq<u8>)
    ensures
        config.split(a + b) == config.scan(Seq::empty(), a).0 + config.finish(
            config.scan(config.scan(Seq::empty(), a).1, b),
        ),
{
    config.lemma_scan_concat(Seq::empty(), a, b);
    let first = config.scan(Seq::empty(), a);
    let second = config.scan(first.1, b);
    if second.1.len() > 0 {
        assert((first.0 + second.0).push(second.1) =~= first.0 + second.0.push(second.1));
    }
}

} // verus!
