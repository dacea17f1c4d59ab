use crate::error::Error;
use vstd::prelude::*;

verus! {

/// What a blob in the store holds.
#[derive(Clone, Copy, Debug, PartialEq, Eq, Structural)]
pub enum BlobKind {
    /// The one blob that names the current header.
    HeaderPointer,
    /// An encoded header.
    Header,
    /// An encoded chunk payload.
    Chunk,
    /// The identifier of the instance that holds the lock.
    Lock,
    /// The format version the repository was created with.
    Version,
}

/// The key of a blob in the store.
#[derive(Clone, Copy, Debug, PartialEq, Eq, Structural)]
pub struct BlobId {
    /// What the blob holds.
    pub kind: BlobKind,
    /// A 128-bit identifier, zero for the blobs of which there is only one.
    pub id: u128,
}

/// The key of the blob that names the current header.
pub open spec fn spec_header_pointer() -> BlobId {
    BlobId { kind: BlobKind::HeaderPointer, id: 0 }
}

/// The key of the blob that names the current header.
#[verifier::when_used_as_spec(spec_header_pointer)]
pub fn header_pointer() -> (id: BlobId)
    ensures
        id == spec_header_pointer(),
{
    BlobId { kind: BlobKind::HeaderPointer, id: 0 }
}

/// The key of the lock blob.
pub open spec fn spec_lock_blob() -> BlobId {
    BlobId { kind: BlobKind::Lock, id: 0 }
}

/// The key of the lock blob.
#[verifier::when_used_as_spec(spec_lock_blob)]
pub fn lock_blob() -> (id: BlobId)
    ensures
        id == spec_lock_blob(),
{
    BlobId { kind: BlobKind::Lock, id: 0 }
}

/// The key of the version blob.
pub open spec fn spec_version_blob() -> BlobId {
    BlobId { kind: BlobKind::Version, id: 0 }
}

/// The key of the version blob.
#[verifier::when_used_as_spec(spec_version_blob)]
pub fn version_blob() -> (id: BlobId)
    ensures
        id == spec_version_blob(),
{
    BlobId { kind: BlobKind::Version, id: 0 }
}

/// What a store that does not say which blobs it holds has for its blobs.
pub open spec fn unnamed_blobs() -> Map<BlobId, Seq<u8>> {
    Map::empty()
}

/// A store of named blobs: the backend that a repository keeps its data in.
///
/// The store is modelled as a map from keys to byte sequences. A store that
/// is `reliable` never reports a failure of its own; of any other store a
/// call may fail with `Error::Store`. Writing and removing are atomic: where
/// one fails, the blob is either as it was or as it was to be. The overwrite
/// of the pointer blob is the one point at which a repository relies on
/// that.
///
/// `MemoryStore` is proved to be such a store. A store that is implemented
/// elsewhere gives the four methods and leaves `blobs`, `reliable` and `inv`
/// as they are; what is proved of a repository then holds of it as far as it
/// behaves as the contracts of the methods say of some map.
pub trait BlobStore {
    /// The blobs that the store holds.
    open spec fn blobs(&self) -> Map<BlobId, Seq<u8>> {
        unnamed_blobs()
    }

    /// Whether the store never fails of its own.
    open spec fn reliable(&self) -> bool {
        false
    }

    /// The invariant of the implementation.
    open spec fn inv(&self) -> bool {
        true
    }

    /// Writes `bytes` under `id`, replacing what was there.
    fn write(&mut self, id: BlobId, bytes: &[u8]) -> (result: Result<(), Error>)
        requires
            old(self).inv(),
        ensures
            final(self).inv(),
            final(self).reliable() == old(self).reliable(),
            final(self).blobs().remove(id) == old(self).blobs().remove(id),
            result is Ok ==> final(self).blobs() == old(self).blobs().insert(id, bytes@),
            result is Err ==> result == Err::<(), Error>(Error::Store) && !old(self).reliable(),
            result is Err ==> final(self).blobs() == old(self).blobs() || final(self).blobs()
                == old(self).blobs().insert(id, bytes@),
    ;

    /// Reads the blob under `id`.
    fn read(&self, id: BlobId) -> (result: Result<Vec<u8>, Error>)
        requires
            self.inv(),
        ensures
            match result {
                Ok(bytes) => self.blobs().contains_key(id) && bytes@ == self.blobs()[id],
                Err(Error::NotFound) => !self.blobs().contains_key(id),
                Err(error) => error == Error::Store && !self.reliable(),
            },
    ;

    /// Removes the blob under `id`.
    fn remove(&mut self, id: BlobId) -> (result: Result<(), Error>)
        requires
            old(self).inv(),
        ensures
            final(self).inv(),
            final(self).reliable() == old(self).reliable(),
            final(self).blobs().remove(id) == old(self).blobs().remove(id),
            match result {
                Ok(()) => old(self).blobs().contains_key(id) && final(self).blobs() == old(
                    self,
                ).blobs().remove(id),
                Err(Error::NotFound) => !old(self).blobs().contains_key(id) && final(self).blobs()
                    == old(self).blobs(),
                Err(error) => {
                    &&& error == Error::Store
                    &&& !old(self).reliable()
                    &&& final(self).blobs() == old(self).blobs() || final(self).blobs() == old(
                        self,
                    ).blobs().remove(id)
                },
            },
    ;

    /// Lists the keys of all blobs, each once.
    fn list(&self) -> (result: Result<Vec<BlobId>, Error>)
        requires
            self.inv(),
        ensures
            match result {
                Ok(ids) => ids@.no_duplicates() && ids@.to_set() == self.blobs().dom(),
                Err(error) => error == Error::Store && !self.reliable(),
            },
    ;
}

/// One blob of a `MemoryStore`.
pub struct BlobEntry {
    /// The key of the blob.
    pub id: BlobId,
    /// The bytes of the blob.
    pub bytes: Vec<u8>,
}

/// The keys of a list of entries are pairwise different.
pub open spec fn distinct_ids(entries: Seq<BlobEntry>) -> bool {
    forall|i: int, j: int|
        0 <= i < entries.len() && 0 <= j < entries.len() && i != j ==> entries[i].id
            != entries[j].id
}

/// The index of the entry with key `id`, if there is one.
pub open spec fn index_of_id(entries: Seq<BlobEntry>, id: BlobId) -> Option<int> {
    if exists|i: int| 0 <= i < entries.len() && entries[i].id == id {
        Some(choose|i: int| 0 <= i < entries.len() && entries[i].id == id)
    } else {
        None
    }
}

/// The map that a list of entries stands for.
pub open spec fn entries_map(entries: Seq<BlobEntry>) -> Map<BlobId, Seq<u8>> {
    Map::new(
        |id: BlobId| index_of_id(entries, id) is Some,
        |id: BlobId| entries[index_of_id(entries, id).unwrap()].bytes@,
    )
}

/// A blob store that keeps its blobs in memory.
pub struct MemoryStore {
    /// The blobs, no two under the same key.
    pub entries: Vec<BlobEntry>,
}

impl MemoryStore {
    /// A store without blobs.
    pub fn new() -> (store: MemoryStore)
        ensures
            store.inv(),
            store.reliable(),
            store.blobs() == Map::<BlobId, Seq<u8>>::empty(),
    {
        let store = MemoryStore { entries: Vec::new() };
        assert(store.blobs() =~= Map::<BlobId, Seq<u8>>::empty());
        store
    }

    /// The number of blobs of the given kind.
    pub fn count(&self, kind: BlobKind) -> (n: usize)
        ensures
            n == self.spec_count(kind),
    {
        let mut n: usize = 0;
        let mut i: usize = 0;
        while i < self.entries.len()
            invariant
                i <= self.entries.len(),
                n <= i,
                n == count_kind(self.entries@.take(i as int), kind),
            decreases self.entries.len() - i,
        {
            assert(self.entries@.take(i + 1).drop_last() =~= self.entries@.take(i as int));
            if self.entries[i].id.kind == kind {
                n += 1;
            }
            i += 1;
        }
        assert(self.entries@.take(i as int) =~= self.entries@);
        n
    }

    /// The number of blobs of the given kind.
    pub open spec fn spec_count(&self, kind: BlobKind) -> nat {
        count_kind(self.entries@, kind)
    }

    /// The position of the blob under `id` in the list.
    fn find(&self, id: BlobId) -> (found: Option<usize>)
        requires
            self.inv(),
        ensures
            match found {
                Some(i) => i < self.entries.len() && self.entries[i as int].id == id
                    && index_of_id(self.entries@, id) == Some(i as int),
                None => index_of_id(self.entries@, id) is None,
            },
    {
        let mut i: usize = 0;
        while i < self.entries.len()
            invariant
                i <= self.entries.len(),
                self.inv(),
                forall|j: int| 0 <= j < i ==> self.entries[j].id != id,
            decreases self.entries.len() - i,
        {
            if self.entries[i].id == id {
                proof {
                    let c = index_of_id(self.entries@, id).unwrap();
                    assert(self.entries[c].id == self.entries[i as int].id);
                }
                return Some(i);
            }
            i += 1;
        }
        None
    }
}

/// The number of entries of the given kind in a list.
pub open spec fn count_kind(entries: Seq<BlobEntry>, kind: BlobKind) -> nat
    decreases entries.len(),
{
    if entries.len() == 0 {
        0
    } else {
        count_kind(entries.drop_last(), kind) + if entries.last().id.kind == kind {
            1nat
        } else {
            0nat
        }
    }
}

impl BlobStore for MemoryStore {
    open spec fn blobs(&self) -> Map<BlobId, Seq<u8>> {
        entries_map(self.entries@)
    }

    open spec fn reliable(&self) -> bool {
        true
    }

    open spec fn inv(&self) -> bool {
        distinct_ids(self.entries@)
    }

    #[verifier::rlimit(50)]
    fn write(&mut self, id: BlobId, bytes: &[u8]) -> (result: Result<(), Error>) {
        let copy = vstd::slice::slice_to_vec(bytes);
        match self.find(id) {
            Some(i) => {
                self.entries.set(i, BlobEntry { id, bytes: copy });
            },
            None => {
                self.entries.push(BlobEntry { id, bytes: copy });
            },
        }
        proof {
            let before = old(self).entries@;
            let after = self.entries@;
            assert forall|k: BlobId| index_of_id(after, k) is Some <==> (k == id || index_of_id(
                before,
                k,
            ) is Some) by {
                if index_of_id(before, k) is Some {
                    let i = index_of_id(before, k).unwrap();
                    assert(after[i].id == k);
                }
                if k == id {
                    if index_of_id(before, id) is Some {
                        let i = index_of_id(before, id).unwrap();
                        assert(after[i].id == id);
                    } else {
                        assert(after[after.len() - 1].id == id);
                    }
                }
                if index_of_id(after, k) is Some && k != id {
                    let i = index_of_id(after, k).unwrap();
                    assert(before[i].id == k);
                }
            }
            assert forall|k: BlobId| k != id && index_of_id(before, k) is Some implies entries_map(
                after,
            )[k] == entries_map(before)[k] by {
                let i = index_of_id(before, k).unwrap();
                let j = index_of_id(after, k).unwrap();
                assert(after[i].id == k);
                assert(i == j);
            }
            assert(entries_map(after)[id] == bytes@) by {
                let j = index_of_id(after, id).unwrap();
                assert(after[j].bytes@ == bytes@);
            }
            assert(self.blobs() =~= old(self).blobs().insert(id, bytes@));
        }
        Ok(())
    }

    fn read(&self, id: BlobId) -> (result: Result<Vec<u8>, Error>) {
        match self.find(id) {
            Some(i) => Ok(self.entries[i].bytes.clone()),
            None => Err(Error::NotFound),
        }
    }

    #[verifier::rlimit(50)]
    fn remove(&mut self, id: BlobId) -> (result: Result<(), Error>) {
        match self.find(id) {
            Some(i) => {
                self.entries.remove(i);
                proof {
                    let before = old(self).entries@;
                    let after = self.entries@;
                    assert forall|a: int, b: int|
                        0 <= a < after.len() && 0 <= b < after.len() && a != b implies after[a].id
                        != after[b].id by {
                        let a0 = if a < i { a } else { a + 1 };
                        let b0 = if b < i { b } else { b + 1 };
                        assert(after[a] == before[a0]);
                        assert(after[b] == before[b0]);
                    }
                    assert forall|k: BlobId| index_of_id(after, k) is Some <==> (k != id
                        && index_of_id(before, k) is Some) by {
                        if index_of_id(after, k) is Some {
                            let a = index_of_id(after, k).unwrap();
                            let a0 = if a < i { a } else { a + 1 };
                            assert(before[a0].id == k);
                        }
                        if k != id && index_of_id(before, k) is Some {
                            let b = index_of_id(before, k).unwrap();
                            let b1 = if b < i { b } else { b - 1 };
                            assert(after[b1].id == k);
                        }
                    }
                    assert forall|k: BlobId| index_of_id(after, k) is Some implies entries_map(
                        after,
                    )[k] == entries_map(before)[k] by {
                        let a = index_of_id(after, k).unwrap();
                        let a0 = if a < i { a } else { a + 1 };
                        assert(before[a0].id == k);
                        assert(index_of_id(before, k).unwrap() == a0);
                    }
                    assert(self.blobs() =~= old(self).blobs().remove(id));
                }
                Ok(())
            },
            None => Err(Error::NotFound),
        }
    }

    fn list(&self) -> (result: Result<Vec<BlobId>, Error>) {
        let mut ids: Vec<BlobId> = Vec::new();
        let mut i: usize = 0;
        while i < self.entries.len()
            invariant
                i <= self.entries.len(),
                ids.len() == i,
                forall|j: int| 0 <= j < i ==> ids[j] == self.entries[j].id,
            decreases self.entries.len() - i,
        {
            ids.push(self.entries[i].id);
            i += 1;
        }
        proof {
            assert forall|k: BlobId| ids@.to_set().contains(k) <==> self.blobs().dom().contains(
                k,
            ) by {
                if ids@.contains(k) {
                    let j = choose|j: int| 0 <= j < ids.len() && ids[j] == k;
                    assert(self.entries[j].id == k);
                }
                if index_of_id(self.entries@, k) is Some {
                    let j = index_of_id(self.entries@, k).unwrap();
                    assert(ids[j] == k);
                }
            }
            assert(ids@.to_set() =~= self.blobs().dom());
        }
        Ok(ids)
    }
}

} // verus!
