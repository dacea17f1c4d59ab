use acid_store::compression::{decoded, encoded, Compression};
use acid_store::error::Error;

fn sample() -> Vec<u8> {
    (0..2000u32).map(|i| (i % 7) as u8).collect()
}

#[test]
fn off_keeps_the_bytes() {
    let data = vec![1u8, 2, 3, 4];
    assert_eq!(Compression::Off.compress(&data), Ok(data.clone()));
    assert_eq!(Compression::Off.decompress(&data), Ok(data));
}

#[test]
fn deflate_round_trip() {
    let method = Compression::Deflate { level: 6 };
    let packed = method.compress(&sample()).unwrap();
    assert_eq!(&packed[..3], &[0x1f, 0x8b, 8]);
    assert!(packed.len() < sample().len());
    assert_eq!(method.decompress(&packed), Ok(sample()));
}

#[test]
fn lzma_round_trip() {
    let method = Compression::Lzma { level: 6 };
    let packed = method.compress(&sample()).unwrap();
    assert_eq!(&packed[..6], &[0xfd, b'7', b'z', b'X', b'Z', 0]);
    assert!(packed.len() < sample().len());
    assert_eq!(method.decompress(&packed), Ok(sample()));
}

#[test]
fn lz4_round_trip() {
    let method = Compression::Lz4 { level: 1 };
    let packed = method.compress(&sample()).unwrap();
    assert_eq!(&packed[..4], &[0x04, 0x22, 0x4d, 0x18]);
    assert!(packed.len() < sample().len());
    assert_eq!(method.decompress(&packed), Ok(sample()));
}

#[test]
fn empty_input_round_trips() {
    for method in [
        Compression::Off,
        Compression::Deflate { level: 0 },
        Compression::Lzma { level: 0 },
        Compression::Lz4 { level: 0 },
    ] {
        let packed = method.compress(&[]).unwrap();
        assert_eq!(method.decompress(&packed), Ok(vec![]));
    }
}

#[test]
fn level_out_of_range_is_rejected() {
    let data = vec![0u8; 16];
    assert_eq!(Compression::Deflate { level: 10 }.compress(&data), Err(Error::InvalidInput));
    assert_eq!(Compression::Lzma { level: 10 }.compress(&data), Err(Error::InvalidInput));
    assert!(Compression::Deflate { level: 9 }.compress(&data).is_ok());
    assert!(Compression::Lzma { level: 9 }.compress(&data).is_ok());
    assert!(Compression::Lz4 { level: 100 }.compress(&data).is_ok());
    assert!(Compression::Lz4 { level: 100 }.valid());
    assert!(!Compression::Lzma { level: 10 }.valid());
    assert!(Compression::Off.valid());
}

#[test]
fn malformed_input_is_invalid_data() {
    let junk = vec![7u8; 40];
    assert_eq!(Compression::Deflate { level: 6 }.decompress(&junk), Err(Error::InvalidData));
    assert_eq!(Compression::Lzma { level: 6 }.decompress(&junk), Err(Error::InvalidData));
    assert_eq!(Compression::Lz4 { level: 1 }.decompress(&junk), Err(Error::InvalidData));
}

#[test]
fn answers_of_the_codec_become_results() {
    assert_eq!(encoded(Some(vec![1, 2])), Ok(vec![1, 2]));
    assert_eq!(encoded(None), Err(Error::Io));
    assert_eq!(decoded(Some(vec![1, 2])), Ok(vec![1, 2]));
    assert_eq!(decoded(None), Err(Error::InvalidData));
}
