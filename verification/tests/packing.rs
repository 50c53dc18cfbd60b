use zvcr::definitions::{SECTION_SIZE_BIOMES, SECTION_SIZE_BLOCKS};
use zvcr::dimension::DimensionType;
use zvcr::io::file_location::RegionLocation;
use zvcr::region::packed_data::PackedData;

#[test]
fn palette_packing_roundtrip_blocks() {
    let mut buffer = [0u16; SECTION_SIZE_BLOCKS];
    for (i, slot) in buffer.iter_mut().enumerate() {
        *slot = i as u16;
    }
    let packed = PackedData::<SECTION_SIZE_BLOCKS>::pack(&buffer);
    assert_eq!(buffer, packed.unpack());
}

#[test]
fn palette_packing_roundtrip_biomes() {
    let mut buffer = [0u16; SECTION_SIZE_BIOMES];
    for (i, slot) in buffer.iter_mut().enumerate() {
        *slot = i as u16;
    }
    let packed = PackedData::<SECTION_SIZE_BIOMES>::pack(&buffer);
    assert_eq!(buffer, packed.unpack());
}

#[test]
fn from_file_name_parses_valid_and_rejects_invalid() {
    let dim = DimensionType::Overworld;

    let loc = RegionLocation::from_file_name(dim, "r.5.7.zvcr3d");
    assert!(loc.is_some());
    let loc = loc.unwrap();
    assert_eq!(loc.rx, 5);
    assert_eq!(loc.rz, 7);

    assert!(RegionLocation::from_file_name(dim, "r.-1.-1.zvcr3d").is_some());
    assert!(RegionLocation::from_file_name(dim, "notregion.zvcr3d").is_none());
    assert!(RegionLocation::from_file_name(dim, "r.-1.-1.txt").is_none());
    assert!(RegionLocation::from_file_name(dim, "r.abc.-1.zvcr3d").is_none());
}
