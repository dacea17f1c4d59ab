use acid_store::chunker::ChunkerConfig;
use acid_store::compression::Compression;
use acid_store::error::Error;
use acid_store::header::RepoConfig;
use acid_store::posix::{to_system_time, to_timespec, EpochOffset, Errno, Timespec};
use acid_store::repo::{chunk_blob, header_blob, ObjectRepo};
use acid_store::store::{
    header_pointer, lock_blob, version_blob, BlobId, BlobKind, BlobStore, MemoryStore,
};

/// A store that fails each call once its allowance is used up.
struct Failing {
    inner: MemoryStore,
    calls_left: std::cell::Cell<usize>,
}

impl Failing {
    fn allow(&self) -> bool {
        let left = self.calls_left.get();
        if left == 0 {
            return false;
        }
        self.calls_left.set(left - 1);
        true
    }
}

impl BlobStore for Failing {
    fn write(&mut self, id: BlobId, bytes: &[u8]) -> Result<(), Error> {
        if self.allow() {
            self.inner.write(id, bytes)
        } else {
            Err(Error::Store)
        }
    }

    fn read(&self, id: BlobId) -> Result<Vec<u8>, Error> {
        if self.allow() {
            self.inner.read(id)
        } else {
            Err(Error::Store)
        }
    }

    fn remove(&mut self, id: BlobId) -> Result<(), Error> {
        if self.allow() {
            self.inner.remove(id)
        } else {
            Err(Error::Store)
        }
    }

    fn list(&self) -> Result<Vec<BlobId>, Error> {
        if self.allow() {
            self.inner.list()
        } else {
            Err(Error::Store)
        }
    }
}

fn config() -> RepoConfig {
    RepoConfig {
        chunking: ChunkerConfig { avg_bits: 10, min_size: 256, max_size: 8192 },
        compression: Compression::Off,
    }
}

#[test]
fn memory_store_holds_blobs() {
    let mut store = MemoryStore::new();
    let a = chunk_blob(1);
    let b = header_blob(1);
    assert_eq!(store.read(a), Err(Error::NotFound));
    assert_eq!(store.remove(a), Err(Error::NotFound));
    assert_eq!(store.write(a, b"one"), Ok(()));
    assert_eq!(store.write(b, b"two"), Ok(()));
    assert_eq!(store.read(a), Ok(b"one".to_vec()));
    assert_eq!(store.write(a, b"three"), Ok(()));
    assert_eq!(store.read(a), Ok(b"three".to_vec()));
    assert_eq!(store.read(b), Ok(b"two".to_vec()));
    assert_eq!(store.list(), Ok(vec![a, b]));
    assert_eq!(store.count(BlobKind::Chunk), 1);
    assert_eq!(store.count(BlobKind::Lock), 0);
    assert_eq!(store.remove(a), Ok(()));
    assert_eq!(store.list(), Ok(vec![b]));
    assert_eq!(store.read(a), Err(Error::NotFound));
}

#[test]
fn blob_keys() {
    assert_eq!(chunk_blob(3), BlobId { kind: BlobKind::Chunk, id: 3 });
    assert_eq!(header_blob(3), BlobId { kind: BlobKind::Header, id: 3 });
    assert_eq!(header_pointer(), BlobId { kind: BlobKind::HeaderPointer, id: 0 });
    assert_eq!(lock_blob(), BlobId { kind: BlobKind::Lock, id: 0 });
    assert_eq!(version_blob(), BlobId { kind: BlobKind::Version, id: 0 });
}

#[test]
fn failures_of_the_store_are_reported() {
    let store = Failing { inner: MemoryStore::new(), calls_left: std::cell::Cell::new(0) };
    assert!(matches!(ObjectRepo::create_with_id(store, config(), 1), Err(Error::Store)));
    let store = Failing { inner: MemoryStore::new(), calls_left: std::cell::Cell::new(2) };
    assert!(matches!(ObjectRepo::create_with_id(store, config(), 1), Err(Error::Store)));
    let store = Failing { inner: MemoryStore::new(), calls_left: std::cell::Cell::new(4) };
    let mut repo = ObjectRepo::create_with_id(store, config(), 1).unwrap();
    let mut object = repo.insert("k").unwrap();
    assert_eq!(object.write(&mut repo, b"data"), Ok(4));
    assert_eq!(object.flush(&mut repo), Err(Error::Store));
    assert_eq!(object.size(), 0);
    assert_eq!(object.flush(&mut repo), Ok(()));
    assert_eq!(object.size(), 0);
    assert_eq!(repo.commit(), Err(Error::Store));
    assert_eq!(repo.rollback(), Err(Error::Store));
    assert_eq!(repo.clean(), Err(Error::Store));
    assert!(repo.contains("k"));
}

#[test]
fn a_failed_commit_leaves_the_committed_state() {
    let store = Failing { inner: MemoryStore::new(), calls_left: std::cell::Cell::new(5) };
    let mut repo = ObjectRepo::create_with_id(store, config(), 1).unwrap();
    repo.insert("k").unwrap();
    assert_eq!(repo.commit(), Err(Error::Store));
    assert!(repo.contains("k"));
    assert_eq!(repo.header.next_blob, 3);
    let reopened = ObjectRepo::open(repo.into_store().inner).unwrap();
    assert!(!reopened.contains("k"));
}

#[test]
fn errors_have_conditions_and_messages() {
    assert_eq!(Error::AlreadyExists.to_errno(), Errno::Exists);
    assert_eq!(Error::NotFound.to_errno(), Errno::NoEntry);
    for error in [
        Error::InvalidData,
        Error::InvalidInput,
        Error::Serialize,
        Error::Deserialize,
        Error::UnsupportedFormat,
        Error::AlreadyLocked,
        Error::Store,
        Error::Io,
    ] {
        assert_eq!(error.to_errno(), Errno::Io);
    }
    assert_eq!(Error::NotFound.message(), "not found");
    assert_eq!(Error::InvalidData.message(), "invalid data");
    assert_eq!(Error::Store.message(), "data store failure");
}

#[test]
fn times_are_told_from_the_epoch() {
    assert_eq!(
        to_system_time(Timespec { sec: 5, nsec: 7 }),
        EpochOffset { forward: true, secs: 5, nanos: 7 }
    );
    assert_eq!(
        to_system_time(Timespec { sec: -5, nsec: -7 }),
        EpochOffset { forward: false, secs: 5, nanos: 7 }
    );
    assert_eq!(
        to_system_time(Timespec { sec: 0, nsec: 7 }),
        EpochOffset { forward: false, secs: 0, nanos: 7 }
    );
    assert_eq!(
        to_system_time(Timespec { sec: i64::MIN, nsec: i32::MIN }),
        EpochOffset { forward: false, secs: 1 << 63, nanos: 1 << 31 }
    );
    assert_eq!(
        to_timespec(EpochOffset { forward: true, secs: 5, nanos: 7 }),
        Timespec { sec: 5, nsec: 7 }
    );
    assert_eq!(
        to_timespec(EpochOffset { forward: false, secs: 5, nanos: 7 }),
        Timespec { sec: -5, nsec: -7 }
    );
    assert_eq!(
        to_timespec(EpochOffset { forward: true, secs: u64::MAX, nanos: u32::MAX }),
        Timespec { sec: i64::MAX, nsec: i32::MAX }
    );
    assert_eq!(
        to_timespec(EpochOffset { forward: false, secs: u64::MAX, nanos: 0 }),
        Timespec { sec: -i64::MAX, nsec: 0 }
    );
}
