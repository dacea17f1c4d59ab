use acid_store::chunk::{locate, Chunk};
use acid_store::content_id::{same_chunks, ContentId};
use acid_store::header::{handle_is_consistent, ObjectHandle};

fn id_of(repo_id: u128, pieces: &[&[u8]]) -> ContentId {
    ContentId {
        repo_id,
        size: pieces.iter().map(|piece| piece.len() as u64).sum(),
        chunks: pieces.iter().map(|piece| Chunk::of(piece)).collect(),
    }
}

#[test]
fn same_contents_compare_equal() {
    let id = id_of(1, &[b"Hello, ", b"World", b"!"]);
    assert!(id.compare_contents(b"Hello, World!"));
    assert_eq!(id.size(), 13);
    assert_eq!(id.chunk_count(), 3);
}

#[test]
fn other_contents_compare_different() {
    let id = id_of(1, &[b"Hello, ", b"World", b"!"]);
    assert!(!id.compare_contents(b"Hello, there!"));
    assert!(!id.compare_contents(b"Hello, World"));
    assert!(!id.compare_contents(b"Hello, Wor"));
    assert!(!id.compare_contents(b"Hello, World!!"));
    assert!(!id.compare_contents(b""));
    assert!(id_of(1, &[]).compare_contents(b""));
    assert!(!id_of(1, &[]).compare_contents(b"x"));
    assert!(id_of(1, &[b"", b"x", b""]).compare_contents(b"x"));
}

#[test]
fn comparison_goes_chunk_by_chunk() {
    let id = id_of(1, &[b"Hello, ", b"World"]);
    assert_eq!(id.expected_len(0), Some(7));
    assert_eq!(id.expected_len(1), Some(5));
    assert_eq!(id.expected_len(2), None);
    assert!(id.chunk_matches(0, b"Hello, "));
    assert!(!id.chunk_matches(0, b"Hello"));
    assert!(!id.chunk_matches(1, b"Hello, "));
    assert!(id.chunk_matches(1, b"World"));
    assert!(!id.chunk_matches(2, b""));
}

#[test]
fn content_ids_are_equal_by_repository_size_and_chunks() {
    let id = id_of(1, &[b"Hello, ", b"World"]);
    assert_eq!(id, id_of(1, &[b"Hello, ", b"World"]));
    assert_eq!(id, id.duplicate());
    assert_ne!(id, id_of(2, &[b"Hello, ", b"World"]));
    assert_ne!(id, id_of(1, &[b"Hello, ", b"Wor1d"]));
    assert_ne!(id, id_of(1, &[b"Hello, World"]));
    assert_ne!(id, ContentId { repo_id: 1, size: 13, chunks: id.duplicate().chunks });
    assert!(same_chunks(&id.chunks, &id.duplicate().chunks));
    assert!(!same_chunks(&id.chunks, &vec![]));
}

#[test]
fn content_id_of_a_handle() {
    let handle = ObjectHandle {
        repo_id: 9,
        instance_id: 2,
        handle_id: 3,
        size: 5,
        chunks: vec![Chunk::of(b"ab"), Chunk::of(b"cde")],
    };
    assert!(handle_is_consistent(&handle));
    assert_eq!(handle.size(), 5);
    let id = ContentId::of(&handle);
    assert_eq!(id, id_of(9, &[b"ab", b"cde"]));
    let copy = handle.duplicate();
    assert_eq!(copy.handle_id, 3);
    assert_eq!(copy.chunks, handle.chunks);
    let wrong = ObjectHandle { size: 6, ..handle.duplicate() };
    assert!(!handle_is_consistent(&wrong));
}

#[test]
fn positions_are_located() {
    let chunks = vec![Chunk::of(b"abc"), Chunk::of(b""), Chunk::of(b"de")];
    let first = locate(&chunks, 0).unwrap();
    assert_eq!((first.index, first.start, first.end, first.position), (0, 0, 3, 0));
    assert_eq!(first.relative_position(), 0);
    let inside = locate(&chunks, 2).unwrap();
    assert_eq!((inside.index, inside.relative_position()), (0, 2));
    let last = locate(&chunks, 3).unwrap();
    assert_eq!((last.index, last.start, last.end), (2, 3, 5));
    assert_eq!(last.chunk, chunks[2]);
    assert_eq!(locate(&chunks, 4).unwrap().relative_position(), 1);
    assert!(locate(&chunks, 5).is_none());
    assert!(locate(&chunks, 6).is_none());
    assert!(locate(&vec![], 0).is_none());
}

#[test]
fn handles_compare_contents() {
    let handle = ObjectHandle {
        repo_id: 9,
        instance_id: 2,
        handle_id: 3,
        size: 5,
        chunks: vec![Chunk::of(b"ab"), Chunk::of(b"cde")],
    };
    assert_eq!(handle.content_id(), id_of(9, &[b"ab", b"cde"]));
    assert!(handle.compare_contents(b"abcde"));
    assert!(!handle.compare_contents(b"abcdf"));
}

#[test]
fn default_handle_is_empty() {
    let handle = ObjectHandle::default();
    assert_eq!(handle.size(), 0);
    assert!(handle.chunks.is_empty());
    assert!(handle_is_consistent(&handle));
    assert!(handle.compare_contents(b""));
}
