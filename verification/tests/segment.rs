use std::sync::Arc;

use zvcr::definitions::SECTION_SIZE_BIOMES;
use zvcr::dimension::DimensionType;
use zvcr::region::packed_data::{PackedData, PackedSnapshot};
use zvcr::region::segment::{DeltaSections, Region, Segment, MAX_SECTION_COUNT};

fn snapshot(fill: u16, timestamp: i64) -> PackedSnapshot<SECTION_SIZE_BIOMES> {
    PackedSnapshot { data: PackedData::pack(&[fill; SECTION_SIZE_BIOMES]), timestamp }
}

#[test]
fn new_sections_are_empty() {
    let s: DeltaSections<SECTION_SIZE_BIOMES> = DeltaSections::new(16);
    assert_eq!(s.section_count, 16);
    assert_eq!(s.sections.len(), MAX_SECTION_COUNT);
    assert!(s.latest_snapshot().is_none());
}

#[test]
fn update_then_latest_snapshot() {
    let mut s: DeltaSections<SECTION_SIZE_BIOMES> = DeltaSections::new(2);
    let first = vec![snapshot(1, 10), snapshot(2, 20), snapshot(3, 30)];
    // The third update has no section to go to.
    assert_eq!(s.update_sections(&first), 2 * SECTION_SIZE_BIOMES);
    assert!(s.sections[2].reverse_deltas.is_empty());
    let (snaps, earliest) = s.latest_snapshot().unwrap();
    assert_eq!(snaps.len(), 2);
    assert_eq!(snaps[0], [1u16; SECTION_SIZE_BIOMES]);
    assert_eq!(snaps[1], [2u16; SECTION_SIZE_BIOMES]);
    assert_eq!(earliest, 10);

    let mut cells = [1u16; SECTION_SIZE_BIOMES];
    cells[5] = 9;
    cells[6] = 9;
    let second = vec![
        PackedSnapshot { data: PackedData::pack(&cells), timestamp: 40 },
        // Older than the newest snapshot of section 1: refused, counts nothing.
        snapshot(7, 5),
    ];
    assert_eq!(s.update_sections(&second), 2);
    assert_eq!(s.sections[0].reverse_deltas.len(), 2);
    assert_eq!(s.sections[1].reverse_deltas.len(), 1);
    let (snaps, earliest) = s.latest_snapshot().unwrap();
    assert_eq!(snaps[0], cells);
    assert_eq!(earliest, 20);
}

#[test]
fn segment_takes_dimension_sections() {
    let s = Segment::new(DimensionType::Overworld);
    assert_eq!(s.section_count, 24);
    assert_eq!(s.block_sections.section_count, 24);
    let s = Segment::with_section_count(16);
    assert_eq!(s.biome_sections.section_count, 16);
    assert!(s.info.reverse_deltas.is_empty());
}

#[test]
fn region_slots() {
    let mut r = Region::new(770);
    assert_eq!(r.protocol_version, 770);
    assert_eq!(Region::segment_index(0, 0), 0);
    assert_eq!(Region::segment_index(0, 31), 31);
    assert_eq!(Region::segment_index(1, 0), 32);
    assert_eq!(Region::segment_index(31, 31), 1023);
    assert!(r.get(3, 4).is_none());
    r.set(3, 4, Some(Arc::new(Segment::new(DimensionType::Nether))));
    assert_eq!(r.get(3, 4).as_ref().unwrap().section_count, 16);
    assert!(r.get(4, 3).is_none());
    r.set(3, 4, None);
    assert!(r.get(3, 4).is_none());
}
