use acid_store::chunk::Chunk;
use acid_store::content_id::ContentId;
use acid_store::hash::{chunk_hash, hash_eq, CHUNK_HASH_SIZE};

fn hex(bytes: &[u8]) -> String {
    bytes.iter().map(|byte| format!("{:02x}", byte)).collect()
}

#[test]
fn chunk_hash_of_nothing() {
    assert_eq!(
        hex(&chunk_hash(b"")),
        "af1349b9f5f9a1a6a0404dea36dcc9499bcb25c9adc112b7cc9a93cae41f3262"
    );
    assert_eq!(chunk_hash(b"").len(), CHUNK_HASH_SIZE);
}

#[test]
fn chunk_hash_tells_inputs_apart() {
    let a = chunk_hash(b"Hello, World!");
    let b = chunk_hash(b"Hello, there!");
    assert_ne!(a, b);
    assert_eq!(a, chunk_hash(b"Hello, World!"));
    assert!(hash_eq(&a, &a));
    assert!(!hash_eq(&a, &b));
    let mut almost = a;
    almost[31] ^= 1;
    assert!(!hash_eq(&a, &almost));
}

#[test]
fn chunk_of_payload() {
    let chunk = Chunk::of(b"abc");
    assert_eq!(chunk.size, 3);
    assert_eq!(chunk.hash, chunk_hash(b"abc"));
    assert!(chunk.same(&Chunk::of(b"abc")));
    assert!(!chunk.same(&Chunk::of(b"abd")));
    assert!(!chunk.same(&Chunk { size: 4, hash: chunk.hash }));
}

#[test]
fn checksum_of_no_chunks() {
    let id = ContentId { repo_id: 1, size: 0, chunks: vec![] };
    assert_eq!(
        hex(&id.checksum()),
        "0e5751c026e543b2e8ab2eb06099daa1d1e5df47778f7787faab45cdf12fe3a8"
    );
}

#[test]
fn checksum_of_one_chunk_is_the_digest_of_its_hash() {
    let id = ContentId { repo_id: 1, size: 0, chunks: vec![Chunk { size: 0, hash: [0u8; 32] }] };
    assert_eq!(
        hex(&id.checksum()),
        "89eb0d6a8a691dae2cd15ed0369931ce0a949ecafa5c3f93f8121833646e15c3"
    );
    let other = ContentId { repo_id: 1, size: 0, chunks: vec![Chunk { size: 9, hash: [1u8; 32] }] };
    assert_ne!(id.checksum(), other.checksum());
}
