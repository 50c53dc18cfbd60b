use zvcr::io::compression::{compress_zstd_parts, decompress_zstd, ZSTD_COMPRESSION_LEVEL_DEFAULT};
use zvcr::io::file_location::RegionLocation;
use zvcr::dimension::DimensionType;

#[test]
fn compressed_parts_decompress_to_their_concatenation() {
    let a = b"hello, ".to_vec();
    let b = vec![7u8; 5000];
    let c = b"world".to_vec();
    let frame = compress_zstd_parts(&[&a, &b, &c], ZSTD_COMPRESSION_LEVEL_DEFAULT).unwrap();
    let mut joined = a.clone();
    joined.extend_from_slice(&b);
    joined.extend_from_slice(&c);
    assert_ne!(frame, joined);
    assert!(frame.len() < joined.len());
    assert_eq!(decompress_zstd(&frame).unwrap(), joined);
}

#[test]
fn empty_parts_compress_to_an_empty_frame() {
    let frame = compress_zstd_parts(&[], 3).unwrap();
    assert!(!frame.is_empty());
    assert_eq!(decompress_zstd(&frame).unwrap(), Vec::<u8>::new());
}

#[test]
fn garbage_does_not_decompress() {
    assert!(decompress_zstd(b"this is not a zstd frame").is_err());
}

#[test]
fn directory_components_name_dimension_and_sectors() {
    let loc = RegionLocation { rx: -1, rz: 40, dimension_type: DimensionType::Nether };
    let (dim, sx, sz) = loc.directory_components();
    assert_eq!(dim, "the_nether");
    assert_eq!(sx, "-1");
    assert_eq!(sz, "1");
    let loc = RegionLocation { rx: -33, rz: 31, dimension_type: DimensionType::Overworld };
    let (dim, sx, sz) = loc.directory_components();
    assert_eq!((dim, sx.as_str(), sz.as_str()), ("overworld", "-2", "0"));
}
