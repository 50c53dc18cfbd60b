use zvcr::region::delta::PackedDeltaData;
use zvcr::region::packed_data::{Data, PackedData, PackedSnapshot};
use zvcr::dimension::DimensionType;
use zvcr::io::serialize::deserialize::ReadHandle;
use zvcr::io::serialize::error::ReadError;
use zvcr::region::palette::Palette;
use zvcr::region::segment_info::SegmentStateType;
use zvcr::version::Version;

#[test]
fn header_fields_read_in_order() {
    let mut bytes = b"zvcr3d".to_vec();
    bytes.push(8);
    bytes.push(1);
    let mut h = ReadHandle::new(bytes, 0);
    assert!(h.validate_file_prefix("zvcr3d").is_ok());
    assert_eq!(h.deserialize_version(Version::Zvcr3d1001).unwrap(), Version::Zvcr3d1001);
    assert_eq!(h.deserialize_dimension_type().unwrap(), DimensionType::Nether);
    assert_eq!(h.ctx.section_count, 16);
    assert_eq!(h.offset(), 8);
}

#[test]
fn wrong_prefix_is_a_mismatch() {
    let mut h = ReadHandle::new(b"zvcr4d".to_vec(), 0);
    assert!(matches!(h.validate_file_prefix("zvcr3d"), Err(ReadError::HeaderMismatch)));
}

#[test]
fn short_input_is_out_of_bounds() {
    let mut h = ReadHandle::new(b"zv".to_vec(), 0);
    assert!(matches!(h.validate_file_prefix("zvcr3d"), Err(ReadError::OutOfBounds { offset: 0 })));
}

#[test]
fn newer_version_is_refused() {
    let mut h = ReadHandle::new(vec![8], 0);
    assert!(matches!(h.deserialize_version(Version::Zvcr3d1000), Err(ReadError::InvalidVersion(8))));
    let mut h = ReadHandle::new(vec![0], 0);
    assert!(matches!(h.deserialize_version(Version::Zvcr3d1001), Err(ReadError::InvalidVersion(0))));
}

#[test]
fn unknown_dimension_is_refused() {
    let mut h = ReadHandle::new(vec![3], 0);
    assert!(matches!(h.deserialize_dimension_type(), Err(ReadError::InvalidDimensionType(3))));
}

#[test]
fn segment_info_reads_states() {
    let mut bytes = vec![2, 0, 0, 0, 0, 0, 0, 0];
    bytes.push(1);
    bytes.extend_from_slice(&100u64.to_le_bytes());
    bytes.push(2);
    bytes.extend_from_slice(&50u64.to_le_bytes());
    let mut h = ReadHandle::new(bytes, 0);
    let info = h.deserialize_segment_info().unwrap();
    assert_eq!(info.reverse_deltas.len(), 2);
    assert_eq!(info.reverse_deltas[0].state_type, SegmentStateType::New);
    assert_eq!(info.reverse_deltas[0].timestamp, 100);
    assert_eq!(info.reverse_deltas[1].state_type, SegmentStateType::Old);
}

#[test]
fn invalid_segment_state_is_generic_error() {
    let mut h = ReadHandle::new(vec![9, 0, 0, 0, 0, 0, 0, 0, 0], 0);
    assert!(matches!(h.deserialize_segment_state(), Err(ReadError::Generic(_))));
}

#[test]
fn too_many_states_is_length_exceeded() {
    let mut h = ReadHandle::new((65537u64).to_le_bytes().to_vec(), 0);
    assert!(matches!(h.deserialize_segment_info(), Err(ReadError::LengthExceeded(_))));
}

#[test]
fn palette_table_reads_palettes_and_skips_long_ones() {
    let mut bytes = 2u32.to_le_bytes().to_vec();
    bytes.extend_from_slice(&2u16.to_le_bytes());
    bytes.extend_from_slice(&7u16.to_le_bytes());
    bytes.extend_from_slice(&9u16.to_le_bytes());
    bytes.extend_from_slice(&300u16.to_le_bytes());
    bytes.extend(std::iter::repeat_n(0u8, 600));
    let mut h = ReadHandle::new(bytes, 0);
    let mut table: Vec<Palette> = Vec::new();
    assert!(h.deserialize_palette_table(&mut table).is_ok());
    assert_eq!(table.len(), 2);
    assert_eq!(table[0].palette, vec![7, 9]);
    assert_eq!(table[0].bits_per_entry, 4);
    assert!(table[1].palette.is_empty());
    assert_eq!(table[1].bits_per_entry, 16);
    assert_eq!(h.offset(), 4 + 2 + 4 + 2 + 600);
}

#[test]
fn tile_entities_read_puts_and_erases() {
    let mut bytes = 1u64.to_le_bytes().to_vec();
    bytes.extend_from_slice(&77u64.to_le_bytes());
    bytes.extend_from_slice(&2u64.to_le_bytes());
    bytes.extend_from_slice(&((5u32 << 16) | (2 << 8) | 1).to_le_bytes());
    bytes.push(1);
    bytes.extend_from_slice(&12u32.to_le_bytes());
    bytes.extend_from_slice(&3u64.to_le_bytes());
    bytes.extend_from_slice(&[4, 5, 6]);
    bytes.extend_from_slice(&9u32.to_le_bytes());
    bytes.push(0);
    let mut h = ReadHandle::new(bytes, 0);
    let data = h.deserialize_tile_entities().unwrap();
    assert_eq!(data.reverse_deltas.len(), 1);
    assert_eq!(data.reverse_deltas[0].timestamp, 77);
    assert_eq!(data.reverse_deltas[0].deltas.len(), 2);
}

fn u64le(v: u64) -> Vec<u8> {
    v.to_le_bytes().to_vec()
}

fn blank<const N: usize>() -> PackedSnapshot<N> {
    PackedSnapshot { data: PackedData { data: Data::Single(0) }, timestamp: 0 }
}

#[test]
fn packed_snapshot_single_atom() {
    let mut bytes = u64le(5);
    bytes.push(0);
    bytes.extend_from_slice(&7u16.to_le_bytes());
    let mut h = ReadHandle::new(bytes, 0);
    let mut snap = blank::<64>();
    h.deserialize_packed_snapshot(&mut snap, &[]).unwrap();
    assert_eq!(snap.timestamp, 5);
    assert!(matches!(snap.data.data, Data::Single(7)));
    assert_eq!(h.offset(), 11);
}

#[test]
fn packed_snapshot_with_table_palette_and_direct_palette() {
    let table = vec![Palette { palette: vec![3, 4], bits_per_entry: 4 }];
    let mut bytes = u64le(9);
    bytes.push(1);
    bytes.extend(u64le(2));
    bytes.extend(u64le(0x1111));
    bytes.extend(u64le(0x2222));
    bytes.extend_from_slice(&0u32.to_le_bytes());
    let mut h = ReadHandle::new(bytes.clone(), 0);
    let mut snap = blank::<64>();
    h.deserialize_packed_snapshot(&mut snap, &table).unwrap();
    assert_eq!(snap.timestamp, 9);
    match &snap.data.data {
        Data::Paletted(p) => {
            assert_eq!(p.packed_long_array, vec![0x1111, 0x2222]);
            assert_eq!(p.palette.palette, vec![3, 4]);
            assert_eq!(p.palette.bits_per_entry, 4);
        }
        _ => panic!("expected paletted data"),
    }
    let n = bytes.len();
    bytes[n - 4..].copy_from_slice(&u32::MAX.to_le_bytes());
    let mut h = ReadHandle::new(bytes, 0);
    h.deserialize_packed_snapshot(&mut snap, &table).unwrap();
    match &snap.data.data {
        Data::Paletted(p) => {
            assert!(p.palette.palette.is_empty());
            assert_eq!(p.palette.bits_per_entry, 16);
        }
        _ => panic!("expected paletted data"),
    }
}

#[test]
fn packed_snapshot_errors() {
    let mut bytes = u64le(1);
    bytes.push(1);
    bytes.extend(u64le(0));
    bytes.extend_from_slice(&1u32.to_le_bytes());
    let mut h = ReadHandle::new(bytes, 0);
    let mut snap = blank::<64>();
    let table = vec![Palette { palette: vec![3], bits_per_entry: 4 }];
    assert!(matches!(
        h.deserialize_packed_snapshot(&mut snap, &table),
        Err(ReadError::InvalidPaletteIndex { index: 1, max: 1 })
    ));
    assert_eq!(snap.timestamp, 1);

    let mut bytes = u64le(1);
    bytes.push(2);
    bytes.extend(u64le(1025));
    let mut h = ReadHandle::new(bytes, 0);
    assert!(matches!(h.deserialize_packed_snapshot(&mut snap, &table), Err(ReadError::LengthExceeded(_))));

    let mut h = ReadHandle::new(vec![1, 2, 3], 0);
    let mut snap = blank::<64>();
    assert!(matches!(h.deserialize_packed_snapshot(&mut snap, &table), Err(ReadError::OutOfBounds { offset: 0 })));
    assert_eq!(snap.timestamp, 0);
}

#[test]
fn delta_data_reads_and_skips_past_max_deltas() {
    let mut bytes = u64le(2);
    bytes.extend(u64le(20));
    bytes.push(0);
    bytes.extend_from_slice(&4u16.to_le_bytes());
    bytes.extend(u64le(10));
    bytes.push(1);
    bytes.extend(u64le(1));
    bytes.extend(u64le(77));
    bytes.extend_from_slice(&u32::MAX.to_le_bytes());
    let total = bytes.len();

    let mut h = ReadHandle::new(bytes.clone(), 1);
    let mut deltas = PackedDeltaData::<64>::default();
    h.deserialize_packed_delta_data(&mut deltas, &[]).unwrap();
    assert_eq!(h.offset(), total);
    assert_eq!(deltas.reverse_deltas.len(), 2);
    assert_eq!(deltas.reverse_deltas[0].timestamp, 20);
    assert!(matches!(deltas.reverse_deltas[0].data.data, Data::Single(4)));
    assert_eq!(deltas.reverse_deltas[1].timestamp, 0);
    assert!(matches!(deltas.reverse_deltas[1].data.data, Data::Single(0)));

    let mut h = ReadHandle::new(bytes, 0);
    let mut deltas = PackedDeltaData::<64>::default();
    h.deserialize_packed_delta_data(&mut deltas, &[]).unwrap();
    assert_eq!(deltas.reverse_deltas[1].timestamp, 10);
    match &deltas.reverse_deltas[1].data.data {
        Data::Paletted(p) => assert_eq!(p.packed_long_array, vec![77]),
        _ => panic!("expected paletted data"),
    }
}

#[test]
fn delta_data_length_limit() {
    let mut h = ReadHandle::new(u64le(65537), 0);
    let mut deltas = PackedDeltaData::<64>::default();
    assert!(matches!(h.deserialize_packed_delta_data(&mut deltas, &[]), Err(ReadError::LengthExceeded(_))));
}
