use crate::chunk::{total_size, Chunk};
use crate::chunker::ChunkerConfig;
use crate::compression::Compression;
use crate::hash::{hash_eq, ChunkHash};
use vstd::prelude::*;

verus! {

/// The version of the format that this library writes and reads.
pub const FORMAT_VERSION: u32 = 1;

/// The settings that a repository is created with.
#[derive(Clone, Copy, Debug, PartialEq, Eq, Structural)]
pub struct RepoConfig {
    /// How byte streams are cut into chunks.
    pub chunking: ChunkerConfig,
    /// How chunks and headers are compressed before they are stored.
    pub compression: Compression,
}

impl Default for RepoConfig {
    /// The default chunking, and no compression.
    fn default() -> (config: RepoConfig)
        ensures
            config.chunking == (ChunkerConfig {
                avg_bits: 20,
                min_size: 0x4_0000,
                max_size: 0x80_0000,
            }),
            config.compression == Compression::Off,
            config.spec_valid(),
    {
        RepoConfig { chunking: ChunkerConfig::default(), compression: Compression::Off }
    }
}

impl RepoConfig {
    /// Whether the settings can be used.
    pub open spec fn spec_valid(&self) -> bool {
        self.chunking.spec_valid() && self.compression.spec_valid()
    }

    /// Whether the settings can be used.
    #[verifier::when_used_as_spec(spec_valid)]
    pub fn valid(&self) -> (ok: bool)
        ensures
            ok == self.spec_valid(),
    {
        self.chunking.valid() && self.compression.valid()
    }
}

/// What the header records of one stored chunk.
#[derive(Clone, Copy, Debug)]
pub struct ChunkEntry {
    /// The checksum of the payload.
    pub hash: ChunkHash,
    /// The identifier of the blob that holds the encoded payload.
    pub blob: u128,
    /// The number of references that were taken to the chunk.
    pub refcount: u32,
}

/// A handle for accessing data in a repository: the address of an object.
#[derive(Clone, Debug)]
pub struct ObjectHandle {
    /// The identifier of the repository that the handle belongs to.
    pub repo_id: u128,
    /// The identifier of the instance that the handle belongs to.
    pub instance_id: u128,
    /// The identifier of the handle, unique within its repository.
    pub handle_id: u64,
    /// The size of the data in bytes.
    pub size: u64,
    /// The chunks which make up the data, in order.
    pub chunks: Vec<Chunk>,
}

impl Default for ObjectHandle {
    /// The handle of an object without data, that belongs nowhere yet.
    fn default() -> (handle: ObjectHandle)
        ensures
            handle.repo_id == 0,
            handle.instance_id == 0,
            handle.handle_id == 0,
            handle.size == 0,
            handle.chunks@.len() == 0,
            handle.wf(),
    {
        ObjectHandle { repo_id: 0, instance_id: 0, handle_id: 0, size: 0, chunks: Vec::new() }
    }
}

impl ObjectHandle {
    /// The invariant of a handle: its size is the sum of the sizes of its
    /// chunks.
    pub open spec fn wf(&self) -> bool {
        self.size == total_size(self.chunks@)
    }

    /// The size of the object in bytes.
    pub fn size(&self) -> (size: u64)
        ensures
            size == self.size,
    {
        self.size
    }

    /// A copy of the handle.
    pub fn duplicate(&self) -> (copy: ObjectHandle)
        ensures
            copy.repo_id == self.repo_id,
            copy.instance_id == self.instance_id,
            copy.handle_id == self.handle_id,
            copy.size == self.size,
            copy.chunks@ == self.chunks@,
    {
        ObjectHandle {
            repo_id: self.repo_id,
            instance_id: self.instance_id,
            handle_id: self.handle_id,
            size: self.size,
            chunks: copy_chunks(&self.chunks),
        }
    }
}

/// A copy of a list of chunks.
pub fn copy_chunks(chunks: &Vec<Chunk>) -> (copy: Vec<Chunk>)
    ensures
        copy@ == chunks@,
{
    let mut copy: Vec<Chunk> = Vec::new();
    let mut i: usize = 0;
    while i < chunks.len()
        invariant
            i <= chunks.len(),
            copy@ == chunks@.take(i as int),
        decreases chunks.len() - i,
    {
        copy.push(chunks[i]);
        assert(chunks@.take(i + 1) =~= chunks@.take(i as int).push(chunks@[i as int]));
        i += 1;
    }
    assert(chunks@.take(i as int) =~= chunks@);
    copy
}

/// An object of a repository: its name within its instance, and its handle.
#[derive(Debug)]
pub struct ObjectEntry {
    /// The bytes of the name.
    pub name: Vec<u8>,
    /// The handle.
    pub handle: ObjectHandle,
}

/// The index of the entry for the chunk with checksum `hash`, if there is one.
pub open spec fn chunk_index(entries: Seq<ChunkEntry>, hash: Seq<u8>) -> Option<int> {
    if exists|i: int| 0 <= i < entries.len() && entries[i].hash@ == hash {
        Some(choose|i: int| 0 <= i < entries.len() && entries[i].hash@ == hash)
    } else {
        None
    }
}

/// No two entries are for the same checksum, and no two name the same blob.
pub open spec fn distinct_chunks(entries: Seq<ChunkEntry>) -> bool {
    forall|i: int, j: int|
        0 <= i < entries.len() && 0 <= j < entries.len() && i != j ==> entries[i].hash@
            != entries[j].hash@ && entries[i].blob != entries[j].blob
}

/// The index of the object with the given name in the given instance, if
/// there is one.
pub open spec fn object_index(entries: Seq<ObjectEntry>, instance: u128, name: Seq<u8>) -> Option<
    int,
> {
    if exists|i: int|
        0 <= i < entries.len() && entries[i].handle.instance_id == instance && entries[i].name@
            == name {
        Some(
            choose|i: int|
                0 <= i < entries.len() && entries[i].handle.instance_id == instance
                    && entries[i].name@ == name,
        )
    } else {
        None
    }
}

/// The index of the object whose handle has the given identifier, if there is
/// one.
pub open spec fn handle_index(entries: Seq<ObjectEntry>, handle_id: u64) -> Option<int> {
    if exists|i: int| 0 <= i < entries.len() && entries[i].handle.handle_id == handle_id {
        Some(choose|i: int| 0 <= i < entries.len() && entries[i].handle.handle_id == handle_id)
    } else {
        None
    }
}

/// No two objects have the same handle identifier, and no two of one instance
/// the same name.
pub open spec fn distinct_objects(entries: Seq<ObjectEntry>) -> bool {
    forall|i: int, j: int|
        0 <= i < entries.len() && 0 <= j < entries.len() && i != j ==> {
            &&& entries[i].handle.handle_id != entries[j].handle.handle_id
            &&& (entries[i].handle.instance_id != entries[j].handle.instance_id || entries[i].name@
                != entries[j].name@)
        }
}

/// The state of a repository that a commit makes durable.
#[derive(Debug)]
pub struct Header {
    /// The version of the format.
    pub version: u32,
    /// The identifier of the repository.
    pub repo_id: u128,
    /// The settings of the repository.
    pub config: RepoConfig,
    /// The objects of all instances.
    pub objects: Vec<ObjectEntry>,
    /// The stored chunks.
    pub chunks: Vec<ChunkEntry>,
    /// The least blob identifier that was never given out.
    pub next_blob: u128,
    /// The least handle identifier that was never given out.
    pub next_handle: u64,
    /// The handle identifiers that were given out and given back, and are to
    /// be given out again.
    pub free_handles: Vec<u64>,
}

/// Whether a list of free handle identifiers is in order for `objects`: each
/// was given out, none is listed twice, and none is that of an object.
pub open spec fn free_handles_fit(free: Seq<u64>, objects: Seq<ObjectEntry>, next_handle: u64) -> bool {
    &&& forall|i: int| 0 <= i < free.len() ==> #[trigger] free[i] < next_handle
    &&& forall|i: int, j: int| 0 <= i < free.len() && 0 <= j < free.len() && i != j ==> free[i] != free[j]
    &&& forall|i: int, k: int|
        0 <= i < objects.len() && 0 <= k < free.len() ==> objects[i].handle.handle_id != free[k]
}

impl Header {
    /// The invariant of a header.
    pub open spec fn wf(&self) -> bool {
        &&& self.version == FORMAT_VERSION
        &&& self.config.spec_valid()
        &&& distinct_chunks(self.chunks@)
        &&& distinct_objects(self.objects@)
        &&& forall|i: int| 0 <= i < self.chunks.len() ==> (#[trigger] self.chunks[i]).blob < self.next_blob
        &&& forall|i: int|
            0 <= i < self.objects.len() ==> (#[trigger] self.objects[i]).handle.handle_id
                < self.next_handle
        &&& forall|i: int| 0 <= i < self.objects.len() ==> (#[trigger] self.objects[i]).handle.wf()
        &&& free_handles_fit(self.free_handles@, self.objects@, self.next_handle)
    }

    /// The handle identifier that is given out next: the one that was given
    /// back last, and without such a one, the least that was never given out.
    pub open spec fn next_free(&self) -> u64 {
        if self.free_handles@.len() > 0 {
            self.free_handles@.last()
        } else {
            self.next_handle
        }
    }

    /// The identifier of the blob that holds the chunk with checksum `hash`,
    /// if the header records that chunk.
    pub open spec fn blob_of(&self, hash: Seq<u8>) -> Option<u128> {
        match chunk_index(self.chunks@, hash) {
            Some(i) => Some(self.chunks[i].blob),
            None => None,
        }
    }

    /// A header without objects and chunks.
    pub fn new(repo_id: u128, config: RepoConfig) -> (header: Header)
        requires
            config.spec_valid(),
        ensures
            header.wf(),
            header.version == FORMAT_VERSION,
            header.repo_id == repo_id,
            header.config == config,
            header.objects@.len() == 0,
            header.chunks@.len() == 0,
            header.next_blob == 1,
            header.next_handle == 1,
            header.free_handles@.len() == 0,
    {
        Header {
            version: FORMAT_VERSION,
            repo_id,
            config,
            objects: Vec::new(),
            chunks: Vec::new(),
            next_blob: 1,
            next_handle: 1,
            free_handles: Vec::new(),
        }
    }

    /// Finds the entry of the chunk with the given checksum.
    pub fn find_chunk(&self, hash: &ChunkHash) -> (found: Option<usize>)
        requires
            distinct_chunks(self.chunks@),
        ensures
            match found {
                Some(i) => i < self.chunks.len() && self.chunks[i as int].hash@ == hash@
                    && chunk_index(self.chunks@, hash@) == Some(i as int),
                None => chunk_index(self.chunks@, hash@) is None,
            },
    {
        let mut i: usize = 0;
        while i < self.chunks.len()
            invariant
                i <= self.chunks.len(),
                distinct_chunks(self.chunks@),
                forall|j: int| 0 <= j < i ==> self.chunks[j].hash@ != hash@,
            decreases self.chunks.len() - i,
        {
            if hash_eq(&self.chunks[i].hash, hash) {
                proof {
                    let c = chunk_index(self.chunks@, hash@).unwrap();
                    assert(self.chunks[c].hash@ == self.chunks[i as int].hash@);
                }
                return Some(i);
            }
            i += 1;
        }
        None
    }

    /// Finds the object with the given name in the given instance.
    pub fn find_object(&self, instance: u128, name: &[u8]) -> (found: Option<usize>)
        requires
            distinct_objects(self.objects@),
        ensures
            match found {
                Some(i) => i < self.objects.len() && self.objects[i as int].name@ == name@
                    && self.objects[i as int].handle.instance_id == instance && object_index(
                    self.objects@,
                    instance,
                    name@,
                ) == Some(i as int),
                None => object_index(self.objects@, instance, name@) is None,
            },
    {
        let mut i: usize = 0;
        while i < self.objects.len()
            invariant
                i <= self.objects.len(),
                distinct_objects(self.objects@),
                forall|j: int|
                    0 <= j < i ==> !(self.objects[j].handle.instance_id == instance
                        && self.objects[j].name@ == name@),
            decreases self.objects.len() - i,
        {
            if self.objects[i].handle.instance_id == instance && bytes_eq(
                self.objects[i].name.as_slice(),
                name,
            ) {
                proof {
                    let c = object_index(self.objects@, instance, name@).unwrap();
                    assert(self.objects[c].name@ == self.objects[i as int].name@);
                }
                return Some(i);
            }
            i += 1;
        }
        None
    }

    /// Finds the object whose handle has the given identifier.
    pub fn find_handle(&self, handle_id: u64) -> (found: Option<usize>)
        requires
            distinct_objects(self.objects@),
        ensures
            match found {
                Some(i) => i < self.objects.len() && self.objects[i as int].handle.handle_id
                    == handle_id && handle_index(self.objects@, handle_id) == Some(i as int),
                None => handle_index(self.objects@, handle_id) is None,
            },
    {
        let mut i: usize = 0;
        while i < self.objects.len()
            invariant
                i <= self.objects.len(),
                distinct_objects(self.objects@),
                forall|j: int| 0 <= j < i ==> self.objects[j].handle.handle_id != handle_id,
            decreases self.objects.len() - i,
        {
            if self.objects[i].handle.handle_id == handle_id {
                proof {
                    let c = handle_index(self.objects@, handle_id).unwrap();
                    assert(self.objects[c].handle.handle_id == self.objects[i as int].handle.handle_id);
                }
                return Some(i);
            }
            i += 1;
        }
        None
    }
}

/// Whether two byte strings are the same.
pub fn bytes_eq(a: &[u8], b: &[u8]) -> (same: bool)
    ensures
        same == (a@ == b@),
{
    if a.len() != b.len() {
        return false;
    }
    let mut i: usize = 0;
    while i < a.len()
        invariant
            i <= a.len(),
            a.len() == b.len(),
            forall|j: int| 0 <= j < i ==> a@[j] == b@[j],
        decreases a.len() - i,
    {
        if a[i] != b[i] {
            return false;
        }
        i += 1;
    }
    assert(a@ =~= b@);
    true
}

/// Whether the sizes of the chunks of a handle add up to its size.
pub fn handle_is_consistent(handle: &ObjectHandle) -> (ok: bool)
    ensures
        ok == handle.wf(),
{
    let mut size: u64 = 0;
    let mut i: usize = 0;
    while i < handle.chunks.len()
        invariant
            i <= handle.chunks.len(),
            size == total_size(handle.chunks@.take(i as int)),
            size <= handle.size,
        decreases handle.chunks.len() - i,
    {
        proof {
            assert(handle.chunks@.take(i + 1).drop_last() =~= handle.chunks@.take(i as int));
            crate::chunk::lemma_offset_step(handle.chunks@, i as int);
        }
        let chunk_size = handle.chunks[i].size as u64;
        if chunk_size > handle.size - size {
            return false;
        }
        size = size + chunk_size;
        i += 1;
    }
    assert(handle.chunks@.take(i as int) =~= handle.chunks@);
    size == handle.size
}

impl Header {
    /// Whether the entry at `index` shares neither its checksum nor its blob
    /// with an entry before it, and its blob identifier was given out.
    fn chunk_is_new(&self, index: usize) -> (ok: bool)
        requires
            index < self.chunks.len(),
        ensures
            ok == (self.chunks[index as int].blob < self.next_blob && forall|j: int|
                0 <= j < index ==> self.chunks[j].hash@ != self.chunks[index as int].hash@
                    && self.chunks[j].blob != self.chunks[index as int].blob),
    {
        if self.chunks[index].blob >= self.next_blob {
            return false;
        }
        let mut j: usize = 0;
        while j < index
            invariant
                j <= index < self.chunks.len(),
                forall|k: int|
                    0 <= k < j ==> self.chunks[k].hash@ != self.chunks[index as int].hash@
                        && self.chunks[k].blob != self.chunks[index as int].blob,
            decreases index - j,
        {
            if self.chunks[j].blob == self.chunks[index].blob || hash_eq(
                &self.chunks[j].hash,
                &self.chunks[index].hash,
            ) {
                return false;
            }
            j += 1;
        }
        true
    }

    /// Whether the object at `index` shares neither its handle identifier nor
    /// its name within its instance with an object before it, its handle
    /// identifier was given out, and its handle is consistent.
    fn object_is_new(&self, index: usize) -> (ok: bool)
        requires
            index < self.objects.len(),
        ensures
            ok == (self.objects[index as int].handle.handle_id < self.next_handle
                && self.objects[index as int].handle.wf() && forall|j: int|
                0 <= j < index ==> self.objects[j].handle.handle_id
                    != self.objects[index as int].handle.handle_id && (
                self.objects[j].handle.instance_id != self.objects[index as int].handle.instance_id
                    || self.objects[j].name@ != self.objects[index as int].name@)),
    {
        if self.objects[index].handle.handle_id >= self.next_handle {
            return false;
        }
        if !handle_is_consistent(&self.objects[index].handle) {
            return false;
        }
        let mut j: usize = 0;
        while j < index
            invariant
                j <= index < self.objects.len(),
                forall|k: int|
                    0 <= k < j ==> self.objects[k].handle.handle_id
                        != self.objects[index as int].handle.handle_id && (
                    self.objects[k].handle.instance_id
                        != self.objects[index as int].handle.instance_id || self.objects[k].name@
                        != self.objects[index as int].name@),
            decreases index - j,
        {
            if self.objects[j].handle.handle_id == self.objects[index].handle.handle_id {
                return false;
            }
            if self.objects[j].handle.instance_id == self.objects[index].handle.instance_id
                && bytes_eq(self.objects[j].name.as_slice(), self.objects[index].name.as_slice()) {
                return false;
            }
            j += 1;
        }
        true
    }

    /// Checks the invariant of a header.
    #[verifier::rlimit(50)]
    pub fn validate(&self) -> (ok: bool)
        ensures
            ok == self.wf(),
    {
        if self.version != FORMAT_VERSION || !self.config.valid() {
            return false;
        }
        let mut i: usize = 0;
        while i < self.chunks.len()
            invariant
                i <= self.chunks.len(),
                forall|a: int, b: int|
                    0 <= a < i && 0 <= b < i && a != b ==> self.chunks[a].hash@
                        != self.chunks[b].hash@ && self.chunks[a].blob != self.chunks[b].blob,
                forall|a: int| 0 <= a < i ==> (#[trigger] self.chunks[a]).blob < self.next_blob,
            decreases self.chunks.len() - i,
        {
            if !self.chunk_is_new(i) {
                proof {
                    if self.chunks[i as int].blob < self.next_blob {
                        let j = choose|j: int|
                            0 <= j < i && !(self.chunks[j].hash@ != self.chunks[i as int].hash@
                                && self.chunks[j].blob != self.chunks[i as int].blob);
                        assert(!distinct_chunks(self.chunks@));
                    }
                }
                return false;
            }
            i += 1;
        }
        let mut k: usize = 0;
        while k < self.objects.len()
            invariant
                k <= self.objects.len(),
                forall|a: int, b: int|
                    0 <= a < k && 0 <= b < k && a != b ==> self.objects[a].handle.handle_id
                        != self.objects[b].handle.handle_id && (self.objects[a].handle.instance_id
                        != self.objects[b].handle.instance_id || self.objects[a].name@
                        != self.objects[b].name@),
                forall|a: int|
                    0 <= a < k ==> (#[trigger] self.objects[a]).handle.handle_id < self.next_handle
                        && self.objects[a].handle.wf(),
            decreases self.objects.len() - k,
        {
            if !self.object_is_new(k) {
                proof {
                    if self.objects[k as int].handle.handle_id < self.next_handle
                        && self.objects[k as int].handle.wf() {
                        let j = choose|j: int|
                            0 <= j < k && !(self.objects[j].handle.handle_id
                                != self.objects[k as int].handle.handle_id && (
                            self.objects[j].handle.instance_id
                                != self.objects[k as int].handle.instance_id
                                || self.objects[j].name@ != self.objects[k as int].name@));
                        assert(!distinct_objects(self.objects@));
                    }
                }
                return false;
            }
            k += 1;
        }
        self.free_handles_are_in_order()
    }

    /// Whether the free handle identifier at `index` was given out, is not
    /// listed before, and is not that of an object.
    fn free_handle_is_new(&self, index: usize) -> (ok: bool)
        requires
            index < self.free_handles.len(),
        ensures
            ok == (self.free_handles[index as int] < self.next_handle && (forall|j: int|
                0 <= j < index ==> self.free_handles[j] != self.free_handles[index as int])
                && forall|i: int|
                0 <= i < self.objects.len() ==> self.objects[i].handle.handle_id
                    != self.free_handles[index as int]),
    {
        let id: u64 = self.free_handles[index];
        if id >= self.next_handle {
            return false;
        }
        let mut j: usize = 0;
        while j < index
            invariant
                j <= index < self.free_handles.len(),
                id == self.free_handles[index as int],
                forall|k: int| 0 <= k < j ==> self.free_handles[k] != id,
            decreases index - j,
        {
            if self.free_handles[j] == id {
                return false;
            }
            j += 1;
        }
        let mut i: usize = 0;
        while i < self.objects.len()
            invariant
                i <= self.objects.len(),
                id == self.free_handles[index as int],
                forall|k: int| 0 <= k < i ==> self.objects[k].handle.handle_id != id,
            decreases self.objects.len() - i,
        {
            if self.objects[i].handle.handle_id == id {
                return false;
            }
            i += 1;
        }
        true
    }

    /// Checks the list of free handle identifiers.
    fn free_handles_are_in_order(&self) -> (ok: bool)
        ensures
            ok == free_handles_fit(self.free_handles@, self.objects@, self.next_handle),
    {
        let mut k: usize = 0;
        while k < self.free_handles.len()
            invariant
                k <= self.free_handles.len(),
                forall|i: int| 0 <= i < k ==> #[trigger] self.free_handles[i] < self.next_handle,
                forall|i: int, j: int|
                    0 <= i < k && 0 <= j < k && i != j ==> self.free_handles[i]
                        != self.free_handles[j],
                forall|i: int, j: int|
                    0 <= i < self.objects.len() && 0 <= j < k
                        ==> self.objects[i].handle.handle_id != self.free_handles[j],
            decreases self.free_handles.len() - k,
        {
            if !self.free_handle_is_new(k) {
                return false;
            }
            k += 1;
        }
        true
    }
}

} // verus!
