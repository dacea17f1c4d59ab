use acid_store::chunker::{Chunker, ChunkerConfig};

fn sizes(chunks: &[Vec<u8>]) -> Vec<usize> {
    chunks.iter().map(|chunk| chunk.len()).collect()
}

fn split(config: ChunkerConfig, data: &[u8]) -> Vec<Vec<u8>> {
    let mut chunker = Chunker::new(config);
    chunker.write(data);
    chunker.flush();
    chunker.drain_chunks()
}

#[test]
fn settings_are_checked() {
    assert_eq!(
        ChunkerConfig::new(10, 256, 8192),
        Some(ChunkerConfig { avg_bits: 10, min_size: 256, max_size: 8192 })
    );
    assert_eq!(ChunkerConfig::new(33, 256, 8192), None);
    assert_eq!(ChunkerConfig::new(10, 0, 8192), None);
    assert_eq!(ChunkerConfig::new(10, 9000, 8192), None);
    assert!(ChunkerConfig::new(32, 1, 1).is_some());
    assert!(ChunkerConfig::new(0, 5, 5).unwrap().valid());
}

#[test]
fn threshold_is_a_power_of_two() {
    assert_eq!(ChunkerConfig { avg_bits: 32, min_size: 1, max_size: 1 }.threshold(), 1);
    assert_eq!(ChunkerConfig { avg_bits: 10, min_size: 1, max_size: 1 }.threshold(), 1 << 22);
    assert_eq!(ChunkerConfig { avg_bits: 0, min_size: 1, max_size: 1 }.threshold(), 1 << 32);
}

#[test]
fn rolling_hash_of_one_byte() {
    let mut chunker = Chunker::new(ChunkerConfig { avg_bits: 32, min_size: 4, max_size: 8 });
    chunker.write(&[0]);
    assert_eq!(chunker.hash, 271828182);
    chunker.write(&[1]);
    assert_eq!(chunker.hash as u64, ((271828182u64 + 2) * 271828182) % (1 << 32));
    assert_eq!(chunker.buffer, vec![0, 1]);
    assert!(!chunker.is_empty());
    chunker.clear();
    assert!(chunker.is_empty());
    assert_eq!(chunker.hash, 0);
}

#[test]
fn every_hash_marks_a_boundary_at_the_least_size() {
    let config = ChunkerConfig { avg_bits: 0, min_size: 3, max_size: 8 };
    let data: Vec<u8> = (0..10).collect();
    let chunks = split(config, &data);
    assert_eq!(chunks, vec![vec![0, 1, 2], vec![3, 4, 5], vec![6, 7, 8], vec![9]]);
}

#[test]
fn chunks_end_at_the_greatest_size() {
    let config = ChunkerConfig { avg_bits: 32, min_size: 2, max_size: 4 };
    let data: Vec<u8> = (10..20).collect();
    let chunks = split(config, &data);
    assert_eq!(sizes(&chunks), vec![4, 4, 2]);
    assert_eq!(chunks.concat(), data);
}

#[test]
fn nothing_written_gives_no_chunk() {
    let config = ChunkerConfig { avg_bits: 10, min_size: 256, max_size: 8192 };
    assert!(split(config, &[]).is_empty());
}

#[test]
fn pieces_give_the_chunks_of_the_whole() {
    let config = ChunkerConfig { avg_bits: 6, min_size: 16, max_size: 512 };
    let data: Vec<u8> = (0..20000u32).map(|i| (i.wrapping_mul(2654435761) >> 24) as u8).collect();
    let whole = split(config, &data);
    assert!(whole.len() > 10);
    assert_eq!(whole.concat(), data);
    for chunk in &whole[..whole.len() - 1] {
        assert!(chunk.len() >= 16 && chunk.len() <= 512);
    }
    assert!(!whole.last().unwrap().is_empty() && whole.last().unwrap().len() <= 512);
    let mut chunker = Chunker::new(config);
    let mut pieces = Vec::new();
    for part in data.chunks(777) {
        chunker.write(part);
        pieces.extend(chunker.drain_chunks());
    }
    chunker.flush();
    pieces.extend(chunker.drain_chunks());
    assert_eq!(pieces, whole);
    assert!(chunker.is_empty());
}

#[test]
fn boundaries_follow_the_content() {
    let config = ChunkerConfig { avg_bits: 6, min_size: 16, max_size: 512 };
    let data: Vec<u8> = (0..20000u32).map(|i| (i.wrapping_mul(2654435761) >> 24) as u8).collect();
    let whole = split(config, &data);
    let mut shifted = vec![1u8, 2, 3];
    shifted.extend_from_slice(&data);
    let moved = split(config, &shifted);
    let shared = whole.iter().filter(|chunk| moved.contains(chunk)).count();
    assert!(shared * 2 > whole.len());
}
