use acid_store::chunker::ChunkerConfig;
use acid_store::commit::{acquire_lock, load_header, release_lock, LockStrategy};
use acid_store::compression::Compression;
use acid_store::error::Error;
use acid_store::header::RepoConfig;
use acid_store::repo::ObjectRepo;
use acid_store::store::{BlobId, BlobKind, BlobStore, MemoryStore};

fn config(compression: Compression) -> RepoConfig {
    RepoConfig {
        chunking: ChunkerConfig { avg_bits: 10, min_size: 256, max_size: 8192 },
        compression,
    }
}

fn create(compression: Compression) -> ObjectRepo<MemoryStore> {
    ObjectRepo::create_with_id(MemoryStore::new(), config(compression), 42).unwrap()
}

fn flip_first_byte(store: &mut MemoryStore, kind: BlobKind) -> BlobId {
    let index = store.entries.iter().position(|entry| entry.id.kind == kind).unwrap();
    store.entries[index].bytes[0] ^= 0xff;
    store.entries[index].id
}

#[test]
fn create_writes_version_header_and_pointer() {
    let repo = create(Compression::Off);
    assert_eq!(repo.store.count(BlobKind::Version), 1);
    assert_eq!(repo.store.count(BlobKind::Header), 1);
    assert_eq!(repo.store.count(BlobKind::HeaderPointer), 1);
    assert_eq!(repo.store.count(BlobKind::Chunk), 0);
    let pointer = repo.store.read(BlobId { kind: BlobKind::HeaderPointer, id: 0 }).unwrap();
    assert_eq!(pointer, vec![1, 0, 0, 0, 0, 0, 0, 0, 0, 0, 0, 0, 0, 0, 0, 0]);
    let version = repo.store.read(BlobId { kind: BlobKind::Version, id: 0 }).unwrap();
    assert_eq!(version, vec![1, 0, 0, 0]);
    assert_eq!(repo.header.repo_id, 42);
    assert_eq!(repo.header.next_blob, 2);
}

#[test]
fn create_rejects_bad_settings_and_used_stores() {
    let bad = RepoConfig {
        chunking: ChunkerConfig { avg_bits: 10, min_size: 0, max_size: 8192 },
        compression: Compression::Off,
    };
    assert!(matches!(
        ObjectRepo::create_with_id(MemoryStore::new(), bad, 1),
        Err(Error::InvalidInput)
    ));
    assert!(matches!(
        ObjectRepo::create_with_id(MemoryStore::new(), config(Compression::Lzma { level: 10 }), 1),
        Err(Error::InvalidInput)
    ));
    let store = create(Compression::Off).into_store();
    assert!(matches!(
        ObjectRepo::create_with_id(store, config(Compression::Off), 1),
        Err(Error::AlreadyExists)
    ));
}

#[test]
fn create_gives_repositories_their_own_identifiers() {
    let a = ObjectRepo::create(MemoryStore::new(), config(Compression::Off)).unwrap();
    let b = ObjectRepo::create(MemoryStore::new(), config(Compression::Off)).unwrap();
    assert_ne!(a.header.repo_id, b.header.repo_id);
    let mut a = a;
    let mut b = b;
    let mut x = a.insert("x").unwrap();
    let mut y = b.insert("x").unwrap();
    x.write(&mut a, b"same bytes").unwrap();
    y.write(&mut b, b"same bytes").unwrap();
    x.flush(&mut a).unwrap();
    y.flush(&mut b).unwrap();
    assert_eq!(x.content_id().chunks, y.content_id().chunks);
    assert_ne!(x.content_id(), y.content_id());
}

#[test]
fn open_needs_a_repository() {
    assert!(matches!(ObjectRepo::open(MemoryStore::new()), Err(Error::NotFound)));
    let mut store = create(Compression::Off).into_store();
    store.remove(BlobId { kind: BlobKind::HeaderPointer, id: 0 }).unwrap();
    assert!(matches!(ObjectRepo::open(store), Err(Error::NotFound)));
}

#[test]
fn open_rejects_another_version() {
    let mut store = create(Compression::Off).into_store();
    store.write(BlobId { kind: BlobKind::Version, id: 0 }, &[2, 0, 0, 0]).unwrap();
    assert!(matches!(ObjectRepo::open(store), Err(Error::UnsupportedFormat)));
    let mut store = create(Compression::Off).into_store();
    let id = flip_first_byte(&mut store, BlobKind::Header);
    assert_eq!(id.id, 1);
    assert!(matches!(ObjectRepo::open(store), Err(Error::UnsupportedFormat)));
}

#[test]
fn open_rejects_a_corrupt_header() {
    let mut store = create(Compression::Off).into_store();
    let index = store.entries.iter().position(|e| e.id.kind == BlobKind::Header).unwrap();
    store.entries[index].bytes.truncate(20);
    assert!(matches!(ObjectRepo::open(store), Err(Error::InvalidData)));
    let mut store = create(Compression::Off).into_store();
    let index = store.entries.iter().position(|e| e.id.kind == BlobKind::Header).unwrap();
    store.entries[index].bytes.push(0);
    assert!(matches!(ObjectRepo::open(store), Err(Error::InvalidData)));
    let mut store = create(Compression::Off).into_store();
    store.write(BlobId { kind: BlobKind::HeaderPointer, id: 0 }, &[1, 0]).unwrap();
    assert!(matches!(ObjectRepo::open(store), Err(Error::InvalidData)));
    let mut store = create(Compression::Off).into_store();
    store.write(BlobId { kind: BlobKind::HeaderPointer, id: 0 }, &[9u8; 16]).unwrap();
    assert!(matches!(ObjectRepo::open(store), Err(Error::InvalidData)));
    let mut store = create(Compression::Deflate { level: 3 }).into_store();
    let index = store.entries.iter().position(|e| e.id.kind == BlobKind::Header).unwrap();
    let last = store.entries[index].bytes.len() - 1;
    store.entries[index].bytes[last - 5] ^= 0x55;
    assert!(matches!(ObjectRepo::open(store), Err(Error::InvalidData)));
}

#[test]
fn commit_then_rollback_restores_the_committed_state() {
    let mut repo = create(Compression::Off);
    let mut object = repo.insert("k").unwrap();
    object.write(&mut repo, b"A").unwrap();
    object.flush(&mut repo).unwrap();
    assert_eq!(repo.commit(), Ok(()));
    let mut object = repo.get_mut("k").unwrap();
    object.write(&mut repo, b"B").unwrap();
    object.flush(&mut repo).unwrap();
    assert_eq!(object.read_all(&mut repo), Ok(b"B".to_vec()));
    assert_eq!(repo.rollback(), Ok(()));
    let mut object = repo.get_mut("k").unwrap();
    assert_eq!(object.read_all(&mut repo), Ok(b"A".to_vec()));
    let mut reopened = ObjectRepo::open(repo.into_store()).unwrap();
    let mut object = reopened.get_mut("k").unwrap();
    assert_eq!(object.read_all(&mut reopened), Ok(b"A".to_vec()));
}

#[test]
fn rollback_discards_inserted_objects() {
    let mut repo = create(Compression::Off);
    repo.insert("kept").unwrap();
    repo.commit().unwrap();
    repo.insert("dropped").unwrap();
    repo.remove("kept").unwrap();
    repo.rollback().unwrap();
    assert!(repo.contains("kept"));
    assert!(!repo.contains("dropped"));
}

#[test]
fn uncommitted_changes_are_not_durable() {
    let mut repo = create(Compression::Off);
    let mut object = repo.insert("k").unwrap();
    object.write(&mut repo, b"never committed").unwrap();
    object.flush(&mut repo).unwrap();
    let reopened = ObjectRepo::open(repo.into_store()).unwrap();
    assert!(!reopened.contains("k"));
    assert_eq!(reopened.header.chunks.len(), 0);
}

#[test]
fn a_header_blob_without_the_pointer_changes_nothing() {
    let mut repo = create(Compression::Off);
    repo.insert("committed").unwrap();
    repo.commit().unwrap();
    let before = load_header(&repo.store).unwrap();
    repo.insert("not yet").unwrap();
    let mut store = repo.into_store();
    store.write(BlobId { kind: BlobKind::Header, id: 3 }, &[1, 2, 3]).unwrap();
    let after = load_header(&store).unwrap();
    assert_eq!(after.objects.len(), before.objects.len());
    assert_eq!(after.next_blob, before.next_blob);
    let reopened = ObjectRepo::open(store).unwrap();
    assert!(reopened.contains("committed"));
    assert!(!reopened.contains("not yet"));
}

#[test]
fn commit_twice_is_commit_once() {
    let mut repo = create(Compression::Deflate { level: 6 });
    let mut object = repo.insert("k").unwrap();
    object.write(&mut repo, &vec![9u8; 5000]).unwrap();
    object.flush(&mut repo).unwrap();
    repo.commit().unwrap();
    let objects = repo.header.objects.len();
    let chunks: Vec<_> = repo.header.chunks.iter().map(|c| (c.hash, c.blob, c.refcount)).collect();
    let next = repo.header.next_blob;
    repo.commit().unwrap();
    assert_eq!(repo.header.objects.len(), objects);
    let again: Vec<_> = repo.header.chunks.iter().map(|c| (c.hash, c.blob, c.refcount)).collect();
    assert_eq!(again, chunks);
    assert_eq!(repo.header.next_blob, next + 1);
    let mut reopened = ObjectRepo::open(repo.into_store()).unwrap();
    let mut object = reopened.get_mut("k").unwrap();
    assert_eq!(object.read_all(&mut reopened), Ok(vec![9u8; 5000]));
}

#[test]
fn commit_counts_references() {
    let mut repo = create(Compression::Off);
    for name in ["a", "b", "c"] {
        let mut object = repo.insert(name).unwrap();
        object.write(&mut repo, b"shared").unwrap();
        object.flush(&mut repo).unwrap();
    }
    let mut object = repo.insert("d").unwrap();
    object.write(&mut repo, b"alone").unwrap();
    object.flush(&mut repo).unwrap();
    repo.remove("d").unwrap();
    repo.remove("c").unwrap();
    assert_eq!(repo.header.chunks.len(), 2);
    assert_eq!(repo.header.chunks[0].refcount, 3);
    repo.commit().unwrap();
    assert_eq!(repo.header.chunks.len(), 1);
    assert_eq!(repo.header.chunks[0].refcount, 2);
}

#[test]
fn clean_removes_what_nothing_refers_to() {
    let mut repo = create(Compression::Off);
    let mut object = repo.insert("k").unwrap();
    object.write(&mut repo, &vec![1u8; 300]).unwrap();
    object.flush(&mut repo).unwrap();
    repo.commit().unwrap();
    assert_eq!(repo.store.count(BlobKind::Header), 2);
    assert_eq!(repo.clean(), Ok(()));
    assert_eq!(repo.store.count(BlobKind::Header), 1);
    let chunks = repo.store.count(BlobKind::Chunk);
    assert!(chunks >= 1);
    repo.remove("k").unwrap();
    assert_eq!(repo.clean(), Ok(()));
    assert_eq!(repo.store.count(BlobKind::Chunk), chunks);
    repo.commit().unwrap();
    assert_eq!(repo.header.chunks.len(), 0);
    assert_eq!(repo.clean(), Ok(()));
    assert_eq!(repo.store.count(BlobKind::Chunk), 0);
    assert_eq!(repo.store.count(BlobKind::Header), 1);
    assert_eq!(repo.store.count(BlobKind::Version), 1);
    assert!(ObjectRepo::open(repo.into_store()).is_ok());
}

#[test]
fn clean_keeps_what_was_written_since_the_commit() {
    let mut repo = create(Compression::Off);
    repo.commit().unwrap();
    let mut object = repo.insert("k").unwrap();
    object.write(&mut repo, b"fresh").unwrap();
    object.flush(&mut repo).unwrap();
    assert_eq!(repo.clean(), Ok(()));
    assert_eq!(object.read_all(&mut repo), Ok(b"fresh".to_vec()));
}

#[test]
fn clean_needs_a_committed_header() {
    let mut repo = create(Compression::Off);
    repo.store.remove(BlobId { kind: BlobKind::HeaderPointer, id: 0 }).unwrap();
    assert_eq!(repo.clean(), Err(Error::NotFound));
    assert_eq!(repo.rollback(), Err(Error::NotFound));
}

#[test]
fn corruption_is_found() {
    let mut repo = create(Compression::Off);
    let mut object = repo.insert("k").unwrap();
    let data: Vec<u8> = (0..100u8).collect();
    object.write(&mut repo, &data).unwrap();
    object.flush(&mut repo).unwrap();
    repo.commit().unwrap();
    assert_eq!(object.verify(&repo), Ok(true));
    assert_eq!(repo.verify(), Ok(vec![]));
    let mut store = repo.into_store();
    flip_first_byte(&mut store, BlobKind::Chunk);
    let mut repo = ObjectRepo::open(store).unwrap();
    let mut object = repo.get_mut("k").unwrap();
    assert_eq!(object.verify(&repo), Ok(false));
    assert_eq!(object.read(&mut repo, 10), Err(Error::InvalidData));
    assert_eq!(object.read_all(&mut repo), Err(Error::InvalidData));
    assert_eq!(repo.verify(), Ok(vec![object.content_id().chunks[0].hash]));
}

#[test]
fn corruption_is_found_under_compression() {
    for compression in [
        Compression::Deflate { level: 6 },
        Compression::Lzma { level: 6 },
        Compression::Lz4 { level: 6 },
    ] {
        let mut repo = create(compression);
        let mut object = repo.insert("k").unwrap();
        object.write(&mut repo, &vec![3u8; 100]).unwrap();
        object.flush(&mut repo).unwrap();
        let index = repo.store.entries.iter().position(|e| e.id.kind == BlobKind::Chunk).unwrap();
        let last = repo.store.entries[index].bytes.len() - 1;
        repo.store.entries[index].bytes[last] ^= 0xff;
        assert_eq!(object.verify(&repo), Ok(false));
    }
}

#[test]
fn a_wrong_size_is_invalid() {
    let mut repo = create(Compression::Off);
    let chunk = repo.write_chunk(b"payload").unwrap();
    let longer = acid_store::chunk::Chunk { size: 8, hash: chunk.hash };
    assert_eq!(repo.read_chunk(&longer), Err(Error::InvalidData));
    assert_eq!(repo.verify_chunks(&vec![chunk, longer, chunk]), Ok(false));
    assert_eq!(repo.verify_chunks(&vec![chunk, chunk]), Ok(true));
    assert_eq!(repo.verify_chunks(&vec![]), Ok(true));
}

#[test]
fn missing_chunk_is_not_found() {
    let mut repo = create(Compression::Off);
    let mut object = repo.insert("k").unwrap();
    object.write(&mut repo, b"data").unwrap();
    object.flush(&mut repo).unwrap();
    let index = repo.store.entries.iter().position(|e| e.id.kind == BlobKind::Chunk).unwrap();
    let id = repo.store.entries[index].id;
    repo.store.remove(id).unwrap();
    let mut object = repo.get_mut("k").unwrap();
    assert_eq!(object.verify(&repo), Err(Error::NotFound));
    assert_eq!(object.read(&mut repo, 4), Err(Error::NotFound));
    assert_eq!(repo.verify(), Ok(vec![object.content_id().chunks[0].hash]));
}

#[test]
fn compressed_repositories_round_trip() {
    for compression in [
        Compression::Deflate { level: 1 },
        Compression::Lzma { level: 1 },
        Compression::Lz4 { level: 1 },
    ] {
        let mut repo = create(compression);
        let mut object = repo.insert("k").unwrap();
        let data: Vec<u8> = (0..20000u32).map(|i| (i % 251) as u8).collect();
        object.write(&mut repo, &data).unwrap();
        object.flush(&mut repo).unwrap();
        repo.commit().unwrap();
        let reopened = ObjectRepo::open(repo.into_store()).unwrap();
        assert_eq!(reopened.header.config.compression, compression);
        let mut object = reopened.get("k").unwrap();
        assert_eq!(object.deserialize(&reopened), Ok(data));
    }
}

#[test]
fn instances_keep_their_objects_apart() {
    let mut repo = create(Compression::Off);
    repo.insert("a").unwrap();
    repo.set_instance(5);
    assert!(!repo.contains("a"));
    repo.insert("a").unwrap();
    repo.commit().unwrap();
    let mut reopened = ObjectRepo::open(repo.into_store()).unwrap();
    assert!(reopened.contains("a"));
    reopened.remove("a").unwrap();
    reopened.set_instance(5);
    assert!(reopened.contains("a"));
}

#[test]
fn locking() {
    let mut store = MemoryStore::new();
    assert_eq!(acquire_lock(&mut store, LockStrategy::Abort, 11), Ok(true));
    assert_eq!(store.read(BlobId { kind: BlobKind::Lock, id: 0 }).unwrap()[0], 11);
    assert_eq!(acquire_lock(&mut store, LockStrategy::Abort, 12), Err(Error::AlreadyLocked));
    assert_eq!(acquire_lock(&mut store, LockStrategy::Wait, 12), Ok(false));
    assert_eq!(release_lock(&mut store, 12), Ok(false));
    assert_eq!(acquire_lock(&mut store, LockStrategy::Force, 12), Ok(true));
    assert_eq!(release_lock(&mut store, 11), Ok(false));
    assert_eq!(release_lock(&mut store, 12), Ok(true));
    assert_eq!(release_lock(&mut store, 12), Ok(false));
    assert_eq!(acquire_lock(&mut store, LockStrategy::Wait, 13), Ok(true));
}

#[test]
fn opening_takes_the_lock() {
    let store = create(Compression::Off).into_store();
    let repo = ObjectRepo::open_locked(store, LockStrategy::Abort, 77).unwrap();
    assert_eq!(repo.instance_id, 77);
    assert_eq!(repo.store.count(BlobKind::Lock), 1);
    let store = repo.into_store();
    assert!(matches!(
        ObjectRepo::open_locked(store, LockStrategy::Abort, 78),
        Err(Error::AlreadyLocked)
    ));
    let store = create(Compression::Off).into_store();
    let first = ObjectRepo::open_locked(store, LockStrategy::Wait, 1).unwrap();
    let store = first.into_store();
    assert!(matches!(
        ObjectRepo::open_locked(store, LockStrategy::Wait, 2),
        Err(Error::AlreadyLocked)
    ));
    let store = create(Compression::Off).into_store();
    let first = ObjectRepo::open_locked(store, LockStrategy::Abort, 1).unwrap();
    let second = ObjectRepo::open_locked(first.into_store(), LockStrategy::Force, 2).unwrap();
    let (store, released) = second.close();
    assert_eq!(released, Ok(true));
    assert_eq!(store.count(BlobKind::Lock), 0);
    let third = ObjectRepo::open_locked(store, LockStrategy::Abort, 3).unwrap();
    let mut other = third;
    other.set_instance(4);
    let (store, released) = other.close();
    assert_eq!(released, Ok(false));
    assert_eq!(store.count(BlobKind::Lock), 1);
}

#[test]
fn a_failed_open_gives_the_lock_up() {
    assert!(matches!(
        ObjectRepo::open_locked(MemoryStore::new(), LockStrategy::Abort, 1),
        Err(Error::NotFound)
    ));
}

#[test]
fn default_settings_can_be_used() {
    let config = RepoConfig::default();
    assert!(config.valid());
    assert_eq!(config.chunking, ChunkerConfig::default());
    assert_eq!(config.chunking.avg_bits, 20);
    assert_eq!(config.compression, Compression::Off);
    assert!(ObjectRepo::create_with_id(MemoryStore::new(), config, 1).is_ok());
}
