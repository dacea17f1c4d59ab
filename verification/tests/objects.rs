use acid_store::chunker::ChunkerConfig;
use acid_store::compression::Compression;
use acid_store::error::Error;
use acid_store::header::RepoConfig;
use acid_store::object::Object;
use acid_store::repo::ObjectRepo;
use acid_store::state::SeekFrom;
use acid_store::store::{BlobKind, MemoryStore};

fn small_config() -> RepoConfig {
    RepoConfig {
        chunking: ChunkerConfig { avg_bits: 10, min_size: 256, max_size: 8192 },
        compression: Compression::Off,
    }
}

fn tiny_chunks() -> RepoConfig {
    RepoConfig {
        chunking: ChunkerConfig { avg_bits: 32, min_size: 4, max_size: 4 },
        compression: Compression::Off,
    }
}

fn new_repo() -> ObjectRepo<MemoryStore> {
    ObjectRepo::create_with_id(MemoryStore::new(), small_config(), 7).unwrap()
}

fn filled(repo: &mut ObjectRepo<MemoryStore>, name: &str, bytes: &[u8]) -> Object {
    let mut object = repo.insert(name).unwrap();
    assert_eq!(object.write(repo, bytes), Ok(bytes.len()));
    assert_eq!(object.flush(repo), Ok(()));
    object
}

#[test]
fn write_then_read_back() {
    let mut repo = new_repo();
    let mut object = repo.insert("a").unwrap();
    let bytes: Vec<u8> = (0u8..16).collect();
    assert_eq!(object.write(&mut repo, &bytes), Ok(16));
    assert_eq!(object.size(), 0);
    assert_eq!(object.flush(&mut repo), Ok(()));
    assert_eq!(object.size(), 16);
    assert_eq!(object.position(), 16);
    assert_eq!(object.read_all(&mut repo), Ok(bytes));
}

#[test]
fn round_trip_of_many_sizes() {
    let mut repo = new_repo();
    for (index, size) in [0usize, 1, 255, 256, 257, 8192, 8193, 50_000].iter().enumerate() {
        let bytes: Vec<u8> =
            (0..*size as u32).map(|i| (i.wrapping_mul(2654435761) >> 24) as u8).collect();
        let mut object = filled(&mut repo, &format!("object {}", index), &bytes);
        assert_eq!(object.size(), *size as u64);
        assert_eq!(object.read_all(&mut repo), Ok(bytes.clone()));
        assert!(object.compare_contents(&bytes));
        assert_eq!(object.verify(&repo), Ok(true));
    }
}

#[test]
fn chunks_are_stored_once() {
    let mut repo = ObjectRepo::create_with_id(
        MemoryStore::new(),
        RepoConfig {
            chunking: ChunkerConfig { avg_bits: 10, min_size: 256, max_size: 8192 },
            compression: Compression::Off,
        },
        7,
    )
    .unwrap();
    let data: Vec<u8> = b"acid".iter().cycle().take(1 << 20).cloned().collect();
    let x = filled(&mut repo, "x", &data);
    let blobs = repo.store.count(BlobKind::Chunk);
    assert!(blobs >= 1);
    assert!(blobs <= (1 << 20) / 256);
    let mut y = filled(&mut repo, "y", &data);
    assert_eq!(repo.store.count(BlobKind::Chunk), blobs);
    assert_eq!(x.content_id(), y.content_id());
    assert_eq!(y.read_all(&mut repo), Ok(data));
}

#[test]
fn new_blobs_are_no_more_than_chunks() {
    let mut repo = ObjectRepo::create_with_id(MemoryStore::new(), tiny_chunks(), 7).unwrap();
    let data: Vec<u8> = (0..10).collect();
    let object = filled(&mut repo, "x", &data);
    assert_eq!(object.content_id().chunks.len(), 3);
    assert_eq!(repo.store.count(BlobKind::Chunk), 3);
    assert_eq!(repo.header.next_blob, 5);
}

#[test]
fn splice_in_the_middle() {
    let mut repo = new_repo();
    let mut object = filled(&mut repo, "f", b"Hello, World!");
    assert_eq!(object.seek(&mut repo, SeekFrom::Start(7)), Ok(7));
    assert_eq!(object.write(&mut repo, b"there"), Ok(5));
    assert_eq!(object.flush(&mut repo), Ok(()));
    assert_eq!(object.size(), 13);
    assert_eq!(object.read_all(&mut repo), Ok(b"Hello, there!".to_vec()));
}

#[test]
fn splice_across_chunks() {
    let mut repo = ObjectRepo::create_with_id(MemoryStore::new(), tiny_chunks(), 7).unwrap();
    let mut object = filled(&mut repo, "f", b"0123456789abcdef");
    assert_eq!(object.content_id().chunks.len(), 4);
    assert_eq!(object.seek(&mut repo, SeekFrom::Start(6)), Ok(6));
    assert_eq!(object.write(&mut repo, b"XYZ"), Ok(3));
    assert_eq!(object.flush(&mut repo), Ok(()));
    assert_eq!(object.read_all(&mut repo), Ok(b"012345XYZ9abcdef".to_vec()));
    assert_eq!(object.size(), 16);
    assert_eq!(object.seek(&mut repo, SeekFrom::Start(14)), Ok(14));
    assert_eq!(object.write(&mut repo, b"1234"), Ok(4));
    assert_eq!(object.flush(&mut repo), Ok(()));
    assert_eq!(object.read_all(&mut repo), Ok(b"012345XYZ9abcd1234".to_vec()));
    assert_eq!(object.size(), 18);
}

#[test]
fn write_that_begins_at_the_end_replaces_the_object() {
    let mut repo = new_repo();
    let mut object = filled(&mut repo, "f", b"first");
    assert_eq!(object.position(), 5);
    assert_eq!(object.write(&mut repo, b"second"), Ok(6));
    assert_eq!(object.flush(&mut repo), Ok(()));
    assert_eq!(object.read_all(&mut repo), Ok(b"second".to_vec()));
    assert_eq!(object.size(), 6);
}

#[test]
fn writes_before_a_flush_follow_each_other() {
    let mut repo = new_repo();
    let mut object = repo.insert("f").unwrap();
    assert_eq!(object.write(&mut repo, b"one, "), Ok(5));
    assert_eq!(object.write(&mut repo, b"two"), Ok(3));
    assert_eq!(object.position(), 8);
    assert_eq!(object.flush(&mut repo), Ok(()));
    assert_eq!(object.read_all(&mut repo), Ok(b"one, two".to_vec()));
}

#[test]
fn flush_without_a_write_does_nothing() {
    let mut repo = new_repo();
    let mut object = filled(&mut repo, "f", b"data");
    let id = object.content_id();
    assert_eq!(object.flush(&mut repo), Ok(()));
    assert_eq!(object.content_id(), id);
}

#[test]
fn truncate_keeps_the_front() {
    let mut repo = new_repo();
    let mut object = filled(&mut repo, "f", b"Hello, World!");
    assert_eq!(object.seek(&mut repo, SeekFrom::Start(7)), Ok(7));
    assert_eq!(object.write(&mut repo, b"there"), Ok(5));
    assert_eq!(object.flush(&mut repo), Ok(()));
    assert_eq!(object.truncate(&mut repo, 5), Ok(()));
    assert_eq!(object.size(), 5);
    assert_eq!(object.position(), 5);
    assert_eq!(object.read_all(&mut repo), Ok(b"Hello".to_vec()));
    assert_eq!(object.truncate(&mut repo, 100), Ok(()));
    assert_eq!(object.size(), 5);
    assert_eq!(object.truncate(&mut repo, 5), Ok(()));
    assert_eq!(object.size(), 5);
    assert_eq!(object.truncate(&mut repo, 0), Ok(()));
    assert_eq!(object.size(), 0);
    assert_eq!(object.read_all(&mut repo), Ok(vec![]));
}

#[test]
fn truncate_leaves_an_earlier_position() {
    let mut repo = ObjectRepo::create_with_id(MemoryStore::new(), tiny_chunks(), 7).unwrap();
    let mut object = filled(&mut repo, "f", b"0123456789");
    assert_eq!(object.seek(&mut repo, SeekFrom::Start(2)), Ok(2));
    assert_eq!(object.truncate(&mut repo, 8), Ok(()));
    assert_eq!(object.position(), 2);
    assert_eq!(object.size(), 8);
    assert_eq!(object.content_id().chunks.len(), 3);
    assert_eq!(object.content_id().chunks[2].size, 0);
    assert_eq!(object.read(&mut repo, 100), Ok(b"23".to_vec()));
    assert_eq!(object.read_all(&mut repo), Ok(b"01234567".to_vec()));
}

#[test]
fn truncate_flushes_first() {
    let mut repo = new_repo();
    let mut object = repo.insert("f").unwrap();
    object.write(&mut repo, b"unflushed").unwrap();
    assert_eq!(object.truncate(&mut repo, 2), Ok(()));
    assert_eq!(object.read_all(&mut repo), Ok(b"un".to_vec()));
}

#[test]
fn read_stays_within_a_chunk() {
    let mut repo = ObjectRepo::create_with_id(MemoryStore::new(), tiny_chunks(), 7).unwrap();
    let mut object = filled(&mut repo, "f", b"0123456789");
    assert_eq!(object.seek(&mut repo, SeekFrom::Start(1)), Ok(1));
    assert_eq!(object.read(&mut repo, 2), Ok(b"12".to_vec()));
    assert_eq!(object.read(&mut repo, 100), Ok(b"3".to_vec()));
    assert_eq!(object.read(&mut repo, 100), Ok(b"4567".to_vec()));
    assert_eq!(object.read(&mut repo, 0), Ok(vec![]));
    assert_eq!(object.position(), 8);
    assert_eq!(object.read(&mut repo, 100), Ok(b"89".to_vec()));
    assert_eq!(object.read(&mut repo, 100), Ok(vec![]));
    assert_eq!(object.position(), 10);
}

#[test]
fn read_at_reads_across_chunks() {
    let mut repo = ObjectRepo::create_with_id(MemoryStore::new(), tiny_chunks(), 7).unwrap();
    let mut object = filled(&mut repo, "f", b"0123456789");
    assert_eq!(object.read_at(&mut repo, 1, 7), Ok(b"1234567".to_vec()));
    assert_eq!(object.position(), 8);
    assert_eq!(object.read_at(&mut repo, 6, 100), Ok(b"6789".to_vec()));
    assert_eq!(object.read_at(&mut repo, 10, 5), Ok(vec![]));
    assert_eq!(object.read_at(&mut repo, 50, 5), Ok(vec![]));
    assert_eq!(object.read_at(&mut repo, 3, 0), Ok(vec![]));
    assert_eq!(object.position(), 3);
}

#[test]
fn write_at_seeks_where_it_must() {
    let mut repo = new_repo();
    let mut object = filled(&mut repo, "f", b"Hello, World!");
    assert_eq!(object.write_at(&mut repo, 7, false, b"the"), Ok(3));
    assert_eq!(object.write_at(&mut repo, 10, false, b"re"), Ok(2));
    assert_eq!(object.size(), 13);
    assert_eq!(object.flush(&mut repo), Ok(()));
    assert_eq!(object.read_all(&mut repo), Ok(b"Hello, there!".to_vec()));
    assert_eq!(object.write_at(&mut repo, 0, false, b"J"), Ok(1));
    assert_eq!(object.flush(&mut repo), Ok(()));
    assert_eq!(object.read_all(&mut repo), Ok(b"Jello, there!".to_vec()));
    assert_eq!(object.write_at(&mut repo, 2, true, b"!"), Ok(1));
    assert_eq!(object.position(), 14);
}

#[test]
fn seek_flushes_and_reports_the_position() {
    let mut repo = new_repo();
    let mut object = repo.insert("f").unwrap();
    object.write(&mut repo, b"0123456789").unwrap();
    assert_eq!(object.seek(&mut repo, SeekFrom::End(4)), Ok(6));
    assert_eq!(object.size(), 10);
    assert_eq!(object.seek(&mut repo, SeekFrom::Current(-7)), Err(Error::InvalidInput));
    assert_eq!(object.position(), 6);
    assert_eq!(object.seek(&mut repo, SeekFrom::Current(-6)), Ok(0));
    assert_eq!(object.seek(&mut repo, SeekFrom::End(11)), Err(Error::InvalidInput));
    assert_eq!(object.seek(&mut repo, SeekFrom::Start(99)), Ok(10));
}

#[test]
fn serialized_form_replaces_the_content() {
    let mut repo = new_repo();
    let mut object = filled(&mut repo, "f", b"a long value that was here before");
    assert_eq!(object.serialize(&mut repo, b"short"), Ok(()));
    assert_eq!(object.size(), 5);
    assert_eq!(object.deserialize(&mut repo), Ok(b"short".to_vec()));
    assert_eq!(object.serialize(&mut repo, b"a longer value again"), Ok(()));
    assert_eq!(object.deserialize(&mut repo), Ok(b"a longer value again".to_vec()));
    assert_eq!(object.serialize(&mut repo, b""), Ok(()));
    assert_eq!(object.size(), 0);
}

#[test]
fn flush_of_a_removed_object_is_not_found() {
    let mut repo = new_repo();
    let mut object = repo.insert("f").unwrap();
    object.write(&mut repo, b"data").unwrap();
    repo.remove("f").unwrap();
    assert_eq!(object.flush(&mut repo), Err(Error::NotFound));
    assert_eq!(object.size(), 0);
}

#[test]
fn views_are_found_by_name() {
    let mut repo = new_repo();
    filled(&mut repo, "f", b"data");
    assert!(repo.get("g").is_none());
    assert!(repo.get_mut("g").is_none());
    let mut view = repo.get("f").unwrap();
    assert_eq!(view.size(), 4);
    assert_eq!(view.read(&repo, 2), Ok(b"da".to_vec()));
    assert_eq!(view.seek(SeekFrom::End(1)), Ok(3));
    assert_eq!(view.read(&repo, 9), Ok(b"a".to_vec()));
    assert_eq!(view.seek(SeekFrom::Current(-9)), Err(Error::InvalidInput));
    assert_eq!(view.deserialize(&repo), Ok(b"data".to_vec()));
    assert_eq!(view.verify(&repo), Ok(true));
    assert!(view.compare_contents(b"data"));
    let object = repo.get_mut("f").unwrap();
    assert_eq!(view.content_id(), object.content_id());
}

#[test]
fn reset_gives_up_unflushed_data() {
    let mut repo = new_repo();
    let mut object = filled(&mut repo, "f", b"kept");
    object.seek(&mut repo, SeekFrom::Start(0)).unwrap();
    object.write(&mut repo, b"lost").unwrap();
    object.reset();
    assert_eq!(object.flush(&mut repo), Ok(()));
    assert_eq!(object.read_all(&mut repo), Ok(b"kept".to_vec()));
}

#[test]
fn insert_twice_already_exists() {
    let mut repo = new_repo();
    assert!(repo.insert("a").is_ok());
    assert!(matches!(repo.insert("a"), Err(Error::AlreadyExists)));
    assert!(repo.contains("a"));
    assert_eq!(repo.remove("a"), Ok(()));
    assert!(!repo.contains("a"));
    assert_eq!(repo.remove("a"), Err(Error::NotFound));
    assert!(repo.lookup("a").is_none());
}

#[test]
fn references_are_counted_and_dropped() {
    let mut repo = new_repo();
    let object = filled(&mut repo, "a", b"payload");
    let chunk = object.content_id().chunks[0];
    assert_eq!(repo.header.chunks[0].refcount, 1);
    assert_eq!(repo.write_chunk(b"payload"), Ok(chunk));
    assert_eq!(repo.header.chunks[0].refcount, 2);
    assert_eq!(repo.header.chunks.len(), 1);
    assert_eq!(repo.read_chunk(&chunk), Ok(b"payload".to_vec()));
    assert!(repo.drop_chunk(&chunk));
    assert!(repo.drop_chunk(&chunk));
    assert!(repo.drop_chunk(&chunk));
    assert_eq!(repo.header.chunks[0].refcount, 0);
    let other = acid_store::chunk::Chunk::of(b"another");
    assert!(!repo.drop_chunk(&other));
    assert_eq!(repo.read_chunk(&other), Err(Error::NotFound));
}

#[test]
fn handle_identifiers_are_given_out_again() {
    let mut repo = new_repo();
    let a = repo.insert("a").unwrap();
    let b = repo.insert("b").unwrap();
    let c = repo.insert("c").unwrap();
    assert_eq!((a.handle.handle_id, b.handle.handle_id, c.handle.handle_id), (1, 2, 3));
    assert_eq!(a.handle.repo_id, 7);
    assert_eq!(a.handle.instance_id, 0);
    repo.remove("a").unwrap();
    repo.remove("c").unwrap();
    assert_eq!(repo.header.free_handles, vec![1, 3]);
    assert_eq!(repo.header.next_handle, 4);
    assert_eq!(repo.insert("d").unwrap().handle.handle_id, 3);
    assert_eq!(repo.insert("e").unwrap().handle.handle_id, 1);
    assert_eq!(repo.insert("f").unwrap().handle.handle_id, 4);
    assert_eq!(repo.header.next_handle, 5);
    assert!(repo.header.free_handles.is_empty());
    assert!(repo.header.validate());
    repo.commit().unwrap();
    let reopened = ObjectRepo::open(repo.into_store()).unwrap();
    assert_eq!(reopened.lookup("d").unwrap().handle_id, 3);
}
