use zvcr::definitions::{SECTION_SIZE_BIOMES, SECTION_SIZE_BLOCKS, SEGMENTS_PER_REGION};
use zvcr::dimension::DimensionType;
use zvcr::io::serialize::deserialize::ReadHandle;
use zvcr::io::serialize::error::ReadError;
use zvcr::io::serialize::experimental::reader::tile_entities::read;
use zvcr::io::serialize::experimental::{ExperimentalReader, ExperimentalWriter};
use zvcr::raw::{RegionData, SegmentData};
use zvcr::region::delta::PackedDeltaData;
use zvcr::region::packed_data::{PackedData, PackedSnapshot};
use zvcr::region::segment_info::{SegmentState, SegmentStateType};
use zvcr::region::tile_entities::{DeltaTileEntityData, TileEntity, TileEntityDelta, TileEntityPosition};
use zvcr::version::Version;

fn block_history(seed: u16) -> PackedDeltaData<SECTION_SIZE_BLOCKS> {
    let mut h = PackedDeltaData::default();
    let mut cells = [0u16; SECTION_SIZE_BLOCKS];
    for (i, c) in cells.iter_mut().enumerate() {
        *c = seed + (i % 7) as u16;
    }
    h.insert_snapshot(PackedSnapshot { data: PackedData::pack(&cells), timestamp: 100 }).unwrap();
    cells[3] = 999;
    h.insert_snapshot(PackedSnapshot { data: PackedData::pack(&cells), timestamp: 200 }).unwrap();
    h
}

fn biome_history() -> PackedDeltaData<SECTION_SIZE_BIOMES> {
    let mut h = PackedDeltaData::default();
    h.insert_snapshot(PackedSnapshot { data: PackedData::pack(&[5u16; SECTION_SIZE_BIOMES]), timestamp: 50 }).unwrap();
    h
}

fn sample_segment(seed: u16) -> SegmentData {
    let mut tile_entities = DeltaTileEntityData::default();
    let te = TileEntity { tile_type: 4, pos: TileEntityPosition { x: 1, z: 2, y: 3 }, nbt: vec![9, 8, 7] };
    tile_entities.insert_snapshot(100, &[te]).unwrap();
    tile_entities.insert_snapshot(300, &[]).unwrap();
    SegmentData {
        block_sections: vec![block_history(seed), block_history(seed + 20)],
        biome_sections: vec![biome_history()],
        states: vec![SegmentState { state_type: SegmentStateType::New, timestamp: 100 }],
        tile_entities,
    }
}

fn sample_region() -> RegionData {
    let mut segments = Vec::new();
    for i in 0..SEGMENTS_PER_REGION {
        segments.push(if i == 0 || i == 517 { Some(sample_segment(i as u16)) } else { None });
    }
    RegionData { version: Version::Zvcr3d1000, protocol_version: 769, dimension: DimensionType::End, segments }
}

fn same_history<const N: usize>(a: &PackedDeltaData<N>, b: &PackedDeltaData<N>) {
    assert_eq!(a.reverse_deltas.len(), b.reverse_deltas.len());
    for (x, y) in a.reverse_deltas.iter().zip(b.reverse_deltas.iter()) {
        assert_eq!(x.timestamp, y.timestamp);
        assert_eq!(x.data.unpack(), y.data.unpack());
    }
}

#[test]
fn experimental_region_reads_back() {
    let data = sample_region();
    let bytes = ExperimentalWriter::new(8).to_bytes(&data).unwrap();
    assert_eq!(&bytes[..6], b"zvcr3d");
    assert_eq!(bytes[6], 7);
    assert_eq!(bytes[7], DimensionType::End.id());
    assert_eq!(&bytes[8..10], &769u16.to_le_bytes());

    let read = ExperimentalReader::new().from_bytes(&bytes).unwrap();
    assert_eq!(read.version, Version::Zvcr3d1000);
    assert_eq!(read.protocol_version, 769);
    assert_eq!(read.dimension, DimensionType::End);
    assert_eq!(read.segments.len(), SEGMENTS_PER_REGION);
    for (a, b) in data.segments.iter().zip(read.segments.iter()) {
        match (a, b) {
            (None, None) => {},
            (Some(x), Some(y)) => {
                assert_eq!(x.block_sections.len(), y.block_sections.len());
                for (p, q) in x.block_sections.iter().zip(y.block_sections.iter()) {
                    same_history(p, q);
                }
                assert_eq!(x.biome_sections.len(), y.biome_sections.len());
                for (p, q) in x.biome_sections.iter().zip(y.biome_sections.iter()) {
                    same_history(p, q);
                }
                assert_eq!(x.states, y.states);
                assert_eq!(x.tile_entities.reverse_deltas.len(), y.tile_entities.reverse_deltas.len());
                for (p, q) in x.tile_entities.reverse_deltas.iter().zip(y.tile_entities.reverse_deltas.iter()) {
                    assert_eq!(p.timestamp, q.timestamp);
                    assert_eq!(p.deltas.len(), q.deltas.len());
                }
            },
            _ => panic!("a slot changed"),
        }
    }
}

#[test]
fn experimental_reader_refuses_bad_headers() {
    let reader = ExperimentalReader::new();
    assert!(matches!(reader.from_bytes(b"zvc"), Err(ReadError::OutOfBounds { offset: 0 })));
    assert!(matches!(reader.from_bytes(b"zvcr4d\x08\x00\x01\x03"), Err(ReadError::HeaderMismatch)));
    assert!(matches!(reader.from_bytes(b"zvcr3d\x09\x00\x01\x03"), Err(ReadError::InvalidVersion(9))));
    assert!(matches!(reader.from_bytes(b"zvcr3d\x08\x07\x01\x03"), Err(ReadError::InvalidDimensionType(7))));
    assert!(matches!(reader.from_bytes(b"zvcr3d\x08\x00\x01\x03garbage"), Err(ReadError::Zstd(_))));
}

#[test]
fn experimental_body_with_bad_tag_is_refused() {
    let data = sample_region();
    let bytes = ExperimentalWriter::new(3).to_bytes(&data).unwrap();
    let read = ExperimentalReader::new().from_bytes(&bytes).unwrap();
    assert!(read.segments[517].is_some());
    // A body that announces a present first slot but ends right there.
    let mut body = vec![0u8; SEGMENTS_PER_REGION];
    body[0] = 1;
    let r = zvcr::io::serialize::experimental::reader::parse_region_data_body(body.clone());
    assert!(matches!(r, Err(ReadError::OutOfBounds { offset: 1024 })));
    // One block section whose only snapshot carries tag 2.
    body.extend_from_slice(&1u64.to_le_bytes());
    body.extend_from_slice(&1u64.to_le_bytes());
    body.extend_from_slice(&10u64.to_le_bytes());
    body.push(2);
    let r = zvcr::io::serialize::experimental::reader::parse_region_data_body(body);
    assert!(matches!(r, Err(ReadError::Generic(_))));
    // Too short for the presence bytes.
    let r = zvcr::io::serialize::experimental::reader::parse_region_data_body(vec![0u8; 10]);
    assert!(matches!(r, Err(ReadError::OutOfBounds { offset: 10 })));
}

fn column_list(positions: &[u32], ops: &[u8], types: &[u32], lengths: &[u32], data: &[u8]) -> Vec<u8> {
    let mut b = Vec::new();
    b.extend_from_slice(&1u32.to_le_bytes());
    b.extend_from_slice(&5u64.to_le_bytes());
    b.extend_from_slice(&(positions.len() as u32).to_le_bytes());
    for p in positions {
        b.extend_from_slice(&p.to_le_bytes());
    }
    b.extend_from_slice(ops);
    for t in types {
        b.extend_from_slice(&t.to_le_bytes());
    }
    for l in lengths {
        b.extend_from_slice(&l.to_le_bytes());
    }
    b.extend_from_slice(data);
    b
}

#[test]
fn column_tile_entities_read() {
    let bytes = column_list(&[10, 70000], &[0, 1], &[7], &[3], &[1, 2, 3]);
    let mut h = ReadHandle::new(bytes.clone(), 0);
    let data = read(&mut h).unwrap();
    assert_eq!(h.offset(), bytes.len());
    assert_eq!(data.reverse_deltas.len(), 1);
    assert_eq!(data.reverse_deltas[0].timestamp, 5);
    assert_eq!(data.reverse_deltas[0].deltas.len(), 2);
    let placed = TileEntityPosition::unpack(70000);
    match data.reverse_deltas[0].deltas.get(&placed) {
        Some(TileEntityDelta::Put(te)) => {
            assert_eq!(te.tile_type, 7);
            assert_eq!(te.nbt, vec![1, 2, 3]);
            assert_eq!(te.pos, placed);
        },
        _ => panic!("placement missing"),
    }
    assert!(matches!(data.reverse_deltas[0].deltas.get(&TileEntityPosition::unpack(10)), Some(TileEntityDelta::Erase)));

    let unordered = column_list(&[20, 10], &[0, 0], &[], &[], &[]);
    assert!(matches!(read(&mut ReadHandle::new(unordered, 0)), Err(ReadError::Generic(_))));
    let bad_op = column_list(&[10, 20], &[0, 2], &[], &[], &[]);
    assert!(matches!(read(&mut ReadHandle::new(bad_op, 0)), Err(ReadError::Generic(_))));
    let too_long = column_list(&[10], &[1], &[7], &[70000], &[]);
    assert!(matches!(read(&mut ReadHandle::new(too_long, 0)), Err(ReadError::LengthExceeded(_))));
    let short = column_list(&[10], &[1], &[7], &[3], &[1]);
    let at = short.len() - 1;
    assert!(matches!(read(&mut ReadHandle::new(short, 0)), Err(ReadError::OutOfBounds { offset }) if offset == at));
}

#[test]
fn column_tile_entities_written_read_back() {
    let data = sample_region();
    let mut out = Vec::new();
    zvcr::io::serialize::experimental::writer::tile_entities::write(&mut out, &data).unwrap();
    let mut h = ReadHandle::new(out.clone(), 0);
    for seg in data.segments.iter().flatten() {
        let read_back = read(&mut h).unwrap();
        assert_eq!(read_back.reverse_deltas.len(), seg.tile_entities.reverse_deltas.len());
        for (a, b) in read_back.reverse_deltas.iter().zip(seg.tile_entities.reverse_deltas.iter()) {
            assert_eq!(a.timestamp, b.timestamp);
            assert_eq!(a.deltas.len(), b.deltas.len());
            for i in 0..b.deltas.len() {
                let (pos, delta) = b.deltas.entry_at(i);
                match (delta, a.deltas.get(pos)) {
                    (TileEntityDelta::Erase, Some(TileEntityDelta::Erase)) => {},
                    (TileEntityDelta::Put(x), Some(TileEntityDelta::Put(y))) => assert!(x.same_as(y)),
                    _ => panic!("change differs"),
                }
            }
        }
    }
    assert_eq!(h.offset(), out.len());
}
