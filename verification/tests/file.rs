use std::sync::Arc;

use zvcr::definitions::{SECTION_SIZE_BIOMES, SECTION_SIZE_BLOCKS};
use zvcr::dimension::DimensionType;
use zvcr::io::serialize::deserialize::ReadHandle;
use zvcr::io::serialize::error::ReadError;
use zvcr::io::serialize::serialize::{File, WriteHandle};
use zvcr::region::packed_data::{PackedData, PackedSnapshot};
use zvcr::region::segment::{Region, Segment};
use zvcr::region::segment_info::{SegmentState, SegmentStateType};
use zvcr::raw::{reconstruct_history, reconstruct_tile_entities};
use zvcr::region::tile_entities::{TileEntity, TileEntityList, TileEntityPosition};
use zvcr::version::{Version, ZVCR3D_LATEST_VERSION};

fn block_snapshot(seed: u16, timestamp: i64) -> PackedSnapshot<SECTION_SIZE_BLOCKS> {
    let mut cells = [0u16; SECTION_SIZE_BLOCKS];
    for (i, c) in cells.iter_mut().enumerate() {
        *c = seed + (i % 5) as u16;
    }
    PackedSnapshot { data: PackedData::pack(&cells), timestamp }
}

fn sample_segment(dimension: DimensionType, seed: u16) -> Segment {
    let mut seg = Segment::new(dimension);
    let mut ups = Vec::new();
    for i in 0..seg.section_count {
        ups.push(block_snapshot(seed + i as u16, 100));
    }
    seg.block_sections.update_sections(&ups);
    let mut later = [7u16; SECTION_SIZE_BLOCKS];
    later[0] = seed;
    seg.block_sections.update_sections(&[PackedSnapshot { data: PackedData::pack(&later), timestamp: 200 }]);
    let biome = PackedSnapshot { data: PackedData::pack(&[3u16; SECTION_SIZE_BIOMES]), timestamp: 100 };
    seg.biome_sections.update_sections(&[biome]);
    seg.info.insert_snapshot(SegmentState { state_type: SegmentStateType::New, timestamp: 100 });
    let te = TileEntity { tile_type: 4, pos: TileEntityPosition { x: 1, z: 2, y: 3 }, nbt: vec![9, 8, 7] };
    seg.tile_entities.insert_snapshot(100, &[te]).unwrap();
    seg
}

fn same_segment(a: &Segment, b: &Segment) {
    assert_eq!(a.section_count, b.section_count);
    for i in 0..a.section_count {
        assert_eq!(a.block_sections.sections[i], b.block_sections.sections[i]);
        assert_eq!(a.biome_sections.sections[i], b.biome_sections.sections[i]);
    }
    assert_eq!(a.info, b.info);
    assert_eq!(a.tile_entities.reverse_deltas.len(), b.tile_entities.reverse_deltas.len());
    for (x, y) in a.tile_entities.reverse_deltas.iter().zip(b.tile_entities.reverse_deltas.iter()) {
        assert_eq!(x.timestamp, y.timestamp);
        assert_eq!(x.deltas.len(), y.deltas.len());
    }
}

#[test]
fn written_file_reads_back() {
    let mut region = Region::new(770);
    region.set(0, 0, Some(Arc::new(sample_segment(DimensionType::Nether, 10))));
    region.set(5, 31, Some(Arc::new(sample_segment(DimensionType::Nether, 20))));
    let file = File { version: ZVCR3D_LATEST_VERSION, protocol_version: 770, dimension_type: DimensionType::Nether, region };

    let mut w = WriteHandle::new(770, 3, 1);
    w.serialize_file(&file).unwrap();
    assert_eq!(&w.data[..6], b"zvcr3d");
    assert_eq!(w.data[6], ZVCR3D_LATEST_VERSION.id());
    assert_eq!(w.data[7], 1);
    assert_eq!(&w.data[8..10], &770u16.to_le_bytes());

    let mut r = ReadHandle::new(w.data.clone(), 0);
    let read = r.deserialize_file().unwrap();
    assert_eq!(read.version, Version::Zvcr3d1001);
    assert_eq!(read.protocol_version, 770);
    assert_eq!(read.dimension_type, DimensionType::Nether);
    assert_eq!(read.region.protocol_version, 770);
    for x in 0..32u8 {
        for z in 0..32u8 {
            match (file.region.get(x, z), read.region.get(x, z)) {
                (None, None) => {},
                (Some(a), Some(b)) => same_segment(a, b),
                _ => panic!("slot ({x}, {z}) differs"),
            }
        }
    }
}

#[test]
fn empty_file_reads_back() {
    let file = File::default();
    let mut w = WriteHandle::new(769, 3, 1);
    w.serialize_file(&file).unwrap();
    let read = ReadHandle::new(w.data.clone(), 0).deserialize_file().unwrap();
    assert_eq!(read.dimension_type, DimensionType::Overworld);
    assert_eq!(read.protocol_version, 769);
    assert!((0..1024).all(|i| read.region.segments[i].is_none()));
}

#[test]
fn bad_headers_are_refused() {
    let file = File::default();
    let mut w = WriteHandle::new(769, 3, 1);
    w.serialize_file(&file).unwrap();

    let mut bad = w.data.clone();
    bad[0] = b'y';
    assert!(matches!(ReadHandle::new(bad, 0).deserialize_file(), Err(ReadError::HeaderMismatch)));

    let mut bad = w.data.clone();
    bad[6] = 9;
    assert!(matches!(ReadHandle::new(bad, 0).deserialize_file(), Err(ReadError::InvalidVersion(9))));

    let mut bad = w.data.clone();
    bad[7] = 3;
    assert!(matches!(ReadHandle::new(bad, 0).deserialize_file(), Err(ReadError::InvalidDimensionType(3))));

    assert!(matches!(
        ReadHandle::new(w.data[..9].to_vec(), 0).deserialize_file(),
        Err(ReadError::OutOfBounds { offset: 8 })
    ));

    let mut bad = w.data[..10].to_vec();
    bad.extend_from_slice(&[1, 2, 3]);
    assert!(matches!(ReadHandle::new(bad, 0).deserialize_file(), Err(ReadError::Zstd(_))));
}

fn same_list(a: &TileEntityList, b: &TileEntityList) {
    assert_eq!(a.len(), b.len());
    for i in 0..a.len() {
        let (pos, te) = a.entry_at(i);
        let other = b.get(pos).expect("position missing");
        assert!(te.same_as(other));
    }
}

#[test]
fn reconstruct_history_matches_snapshot_before() {
    let segment = sample_segment(DimensionType::Overworld, 30);
    let mut checked = 0;
    for section in segment.block_sections.sections.iter().filter(|s| !s.reverse_deltas.is_empty()) {
        let history = reconstruct_history(section);
        for (i, snapshot) in history.iter().enumerate() {
            let expected = section.snapshot_before(section.reverse_deltas[i].timestamp).unwrap();
            assert_eq!(snapshot.data, expected);
            checked += 1;
        }
    }
    for section in segment.biome_sections.sections.iter().filter(|s| !s.reverse_deltas.is_empty()) {
        let history = reconstruct_history(section);
        for (i, snapshot) in history.iter().enumerate() {
            let expected = section.snapshot_before(section.reverse_deltas[i].timestamp).unwrap();
            assert_eq!(snapshot.data, expected);
        }
    }
    let tile_history = reconstruct_tile_entities(&segment.tile_entities);
    for (i, snapshot) in tile_history.iter().enumerate() {
        let expected = segment.tile_entities.snapshot_before(segment.tile_entities.reverse_deltas[i].timestamp).unwrap();
        same_list(&snapshot.data, &expected);
    }
    assert!(checked > 0);
}

#[test]
fn read_succeeds_with_zero_and_one_max_deltas() {
    let mut region = Region::new(769);
    region.set(31, 31, Some(Arc::new(sample_segment(DimensionType::Overworld, 40))));
    let file = File { version: ZVCR3D_LATEST_VERSION, protocol_version: 769, dimension_type: DimensionType::Overworld, region };
    let mut w = WriteHandle::new(769, 3, 1);
    w.serialize_file(&file).unwrap();
    let zero = ReadHandle::new(w.data.clone(), 0).deserialize_file();
    let one = ReadHandle::new(w.data.clone(), 1).deserialize_file();
    assert!(zero.is_ok(), "max_deltas=0 failed: {:?}", zero.err());
    assert!(one.is_ok(), "max_deltas=1 failed: {:?}", one.err());
}

#[test]
fn writability_is_checked() {
    let mut region = Region::new(769);
    region.set(2, 3, Some(Arc::new(sample_segment(DimensionType::Nether, 5))));
    let sc = DimensionType::Nether.section_count();
    assert!(zvcr::io::serialize::serialize::region_is_writable(&region, sc));
    assert!(!zvcr::io::serialize::serialize::region_is_writable(&region, 25));
}
