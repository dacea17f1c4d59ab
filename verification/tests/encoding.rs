use acid_store::chunk::Chunk;
use acid_store::chunker::ChunkerConfig;
use acid_store::compression::Compression;
use acid_store::error::Error;
use acid_store::format::{decode_header, encode_header, read_chunk_ref, write_chunk_ref};
use acid_store::header::{ChunkEntry, Header, ObjectEntry, ObjectHandle, RepoConfig};
use acid_store::wire::{get_uint, put_uint};

fn sample(compression: Compression) -> Header {
    let chunk = Chunk::of(b"payload");
    Header {
        version: 1,
        repo_id: 0x0102_0304_0506_0708_090a_0b0c_0d0e_0f10,
        config: RepoConfig {
            chunking: ChunkerConfig { avg_bits: 12, min_size: 100, max_size: 9000 },
            compression,
        },
        objects: vec![
            ObjectEntry {
                name: b"first".to_vec(),
                handle: ObjectHandle {
                    repo_id: 0x0102_0304_0506_0708_090a_0b0c_0d0e_0f10,
                    instance_id: 0,
                    handle_id: 1,
                    size: 14,
                    chunks: vec![chunk, chunk],
                },
            },
            ObjectEntry {
                name: vec![],
                handle: ObjectHandle {
                    repo_id: 0x0102_0304_0506_0708_090a_0b0c_0d0e_0f10,
                    instance_id: 77,
                    handle_id: 2,
                    size: 0,
                    chunks: vec![],
                },
            },
        ],
        chunks: vec![ChunkEntry { hash: chunk.hash, blob: 5, refcount: 2 }],
        next_blob: 6,
        next_handle: 5,
        free_handles: vec![4, 3],
    }
}

fn same(a: &Header, b: &Header) -> bool {
    a.version == b.version
        && a.repo_id == b.repo_id
        && a.config == b.config
        && a.next_blob == b.next_blob
        && a.next_handle == b.next_handle
        && a.free_handles == b.free_handles
        && a.chunks.len() == b.chunks.len()
        && a.chunks.iter().zip(&b.chunks).all(|(x, y)| {
            x.hash == y.hash && x.blob == y.blob && x.refcount == y.refcount
        })
        && a.objects.len() == b.objects.len()
        && a.objects.iter().zip(&b.objects).all(|(x, y)| {
            x.name == y.name
                && x.handle.repo_id == y.handle.repo_id
                && x.handle.instance_id == y.handle.instance_id
                && x.handle.handle_id == y.handle.handle_id
                && x.handle.size == y.handle.size
                && x.handle.chunks == y.handle.chunks
        })
}

#[test]
fn numbers_are_written_least_byte_first() {
    let mut out = vec![0xaa];
    put_uint(&mut out, 0x0102_0304, 4);
    assert_eq!(out, vec![0xaa, 4, 3, 2, 1]);
    put_uint(&mut out, 0x1_00, 1);
    assert_eq!(out, vec![0xaa, 4, 3, 2, 1, 0]);
    put_uint(&mut out, 7, 0);
    assert_eq!(out.len(), 6);
    assert_eq!(get_uint(&out, 1, 4), Some(0x0102_0304));
    assert_eq!(get_uint(&out, 1, 2), Some(0x0304));
    assert_eq!(get_uint(&out, 5, 1), Some(0));
    assert_eq!(get_uint(&out, 6, 0), Some(0));
    assert_eq!(get_uint(&out, 3, 4), None);
    assert_eq!(get_uint(&out, 7, 0), None);
    let mut wide = Vec::new();
    put_uint(&mut wide, u128::MAX, 16);
    assert_eq!(wide, vec![0xff; 16]);
    assert_eq!(get_uint(&wide, 0, 16), Some(u128::MAX));
}

#[test]
fn chunk_references_round_trip() {
    let chunk = Chunk::of(b"some payload");
    let mut out = Vec::new();
    write_chunk_ref(&mut out, &chunk);
    assert_eq!(out.len(), 40);
    assert_eq!(&out[..8], &[12, 0, 0, 0, 0, 0, 0, 0]);
    assert_eq!(&out[8..], &chunk.hash);
    assert_eq!(read_chunk_ref(&out, 0), Some((chunk, 40)));
    assert_eq!(read_chunk_ref(&out[..39], 0), None);
    assert_eq!(read_chunk_ref(&out, 1), None);
}

#[test]
fn headers_round_trip() {
    for compression in [
        Compression::Off,
        Compression::Deflate { level: 9 },
        Compression::Lzma { level: 3 },
        Compression::Lz4 { level: 16 },
    ] {
        let header = sample(compression);
        assert!(header.validate());
        let blob = encode_header(&header).unwrap();
        assert_eq!(&blob[..4], &[1, 0, 0, 0]);
        let decoded = decode_header(&blob).unwrap();
        assert!(same(&header, &decoded));
    }
}

#[test]
fn header_layout() {
    let blob = encode_header(&sample(Compression::Off)).unwrap();
    assert_eq!(blob[4], 0);
    assert_eq!(&blob[9..25], &[16, 15, 14, 13, 12, 11, 10, 9, 8, 7, 6, 5, 4, 3, 2, 1]);
    assert_eq!(&blob[25..29], &[12, 0, 0, 0]);
    assert_eq!(&blob[29..37], &[100, 0, 0, 0, 0, 0, 0, 0]);
    let lz4 = encode_header(&sample(Compression::Lz4 { level: 16 })).unwrap();
    assert_eq!(&lz4[4..9], &[3, 16, 0, 0, 0]);
}

#[test]
fn headers_that_are_not_in_order_are_rejected() {
    let mut twice = sample(Compression::Off);
    let entry = twice.chunks[0];
    twice.chunks.push(entry);
    assert!(!twice.validate());
    assert!(matches!(decode_header(&encode_header(&twice).unwrap()), Err(Error::InvalidData)));
    let mut size = sample(Compression::Off);
    size.objects[0].handle.size = 15;
    assert!(!size.validate());
    assert!(matches!(decode_header(&encode_header(&size).unwrap()), Err(Error::InvalidData)));
    let mut name = sample(Compression::Off);
    name.objects[1].name = b"first".to_vec();
    assert!(name.validate());
    name.objects[1].handle.instance_id = 0;
    assert!(!name.validate());
    let mut handle = sample(Compression::Off);
    handle.objects[1].handle.handle_id = 1;
    assert!(!handle.validate());
    let mut next = sample(Compression::Off);
    next.next_blob = 5;
    assert!(!next.validate());
    let mut given = sample(Compression::Off);
    given.next_handle = 2;
    assert!(!given.validate());
    let mut free = sample(Compression::Off);
    free.free_handles = vec![3, 3];
    assert!(!free.validate());
    free.free_handles = vec![5];
    assert!(!free.validate());
    free.free_handles = vec![2];
    assert!(!free.validate());
    free.free_handles = vec![0, 4];
    assert!(free.validate());
    assert!(matches!(decode_header(&encode_header(&free).unwrap()), Ok(_)));
    let mut settings = sample(Compression::Off);
    settings.config.chunking.min_size = 0;
    assert!(!settings.validate());
    let mut version = sample(Compression::Off);
    version.version = 2;
    assert!(!version.validate());
    assert!(matches!(
        decode_header(&encode_header(&version).unwrap()),
        Err(Error::UnsupportedFormat)
    ));
}

#[test]
fn blobs_that_are_no_headers_are_rejected() {
    assert!(matches!(decode_header(&[]), Err(Error::InvalidData)));
    assert!(matches!(decode_header(&[1, 0, 0]), Err(Error::InvalidData)));
    assert!(matches!(decode_header(&[1, 0, 0, 0, 4, 0, 0, 0, 0]), Err(Error::InvalidData)));
    assert!(matches!(decode_header(&[1, 0, 0, 0, 0, 0, 0, 0, 0]), Err(Error::InvalidData)));
    let mut blob = encode_header(&sample(Compression::Off)).unwrap();
    blob.push(0);
    assert!(matches!(decode_header(&blob), Err(Error::InvalidData)));
    blob.truncate(blob.len() - 2);
    assert!(matches!(decode_header(&blob), Err(Error::InvalidData)));
}
