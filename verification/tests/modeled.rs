use zvcr::definitions::SECTION_SIZE_BLOCKS;
use zvcr::io::serialize::experimental::models::context::{ModelError, ResidualModel};
use zvcr::io::serialize::experimental::models::predictor::{HeadLite, NONE};
use zvcr::io::serialize::experimental::models::range::{Decoder, Encoder};
use zvcr::io::serialize::experimental::models::spatial::{SectionPos, Y_STRIDE, Z_STRIDE};
use zvcr::io::serialize::experimental::models::sweep::Modeler;
use zvcr::io::serialize::experimental::reader::sweeps::pack_modeled_section;
use zvcr::region::packed_data::{Data, PackedData};
use zvcr::region::palette::PackScratch;

fn section_index(slot: usize, section_y: usize, i: usize) -> usize {
    let (ox, oz, oy) = ((slot / 32) * 16, (slot % 32) * 16, section_y * 16);
    (oy + i / 256) * Y_STRIDE + (oz + (i / 16) % 16) * Z_STRIDE + ox + i % 16
}

#[test]
fn pack_orders_palette_by_count() {
    let mut cells = [2u16; SECTION_SIZE_BLOCKS];
    cells[0] = 1;
    let packed = PackedData::<SECTION_SIZE_BLOCKS>::pack(&cells);
    match &packed.data {
        Data::Paletted(p) => {
            assert_eq!(p.palette.palette, vec![2, 1]);
            assert_eq!(p.palette.bits_per_entry, 4);
        }
        Data::Single(_) => panic!("two atoms pack against a palette"),
    }
    assert_eq!(packed.unpack(), cells);
}

#[test]
fn modeled_section_packs_ranks_as_atoms() {
    let grid_len = 16 * Y_STRIDE;
    let mut grid = vec![0u16; grid_len];
    let slot = 33;
    for i in 0..SECTION_SIZE_BLOCKS {
        grid[section_index(slot, 0, i)] = if i % 3 == 0 { 2 } else { 0 };
    }
    let remap = vec![40u16, 41, 42];
    let mut scratch = PackScratch::new();
    let packed = pack_modeled_section(&grid, &remap, slot, 0, &mut scratch);
    let cells = packed.unpack();
    for i in 0..SECTION_SIZE_BLOCKS {
        assert_eq!(cells[i], if i % 3 == 0 { 42 } else { 40 });
    }
    match &packed.data {
        Data::Paletted(p) => assert_eq!(p.palette.palette, vec![40, 42]),
        Data::Single(_) => panic!("two ranks pack against a palette"),
    }
}

#[test]
fn modeled_uniform_section_is_single() {
    let grid = vec![1u16; 16 * Y_STRIDE];
    let remap = vec![7u16, 9];
    let mut scratch = PackScratch::new();
    let packed = pack_modeled_section(&grid, &remap, 0, 0, &mut scratch);
    assert!(matches!(packed.data, Data::Single(9)));
}

#[test]
fn modeled_section_past_256_ranks_is_direct() {
    let mut grid = vec![0u16; 16 * Y_STRIDE];
    for i in 0..SECTION_SIZE_BLOCKS {
        grid[section_index(5, 0, i)] = (i % 300) as u16;
    }
    let remap: Vec<u16> = (0..300u16).map(|r| r + 1000).collect();
    let mut scratch = PackScratch::new();
    let packed = pack_modeled_section(&grid, &remap, 5, 0, &mut scratch);
    match &packed.data {
        Data::Paletted(p) => {
            assert!(p.palette.palette.is_empty());
            assert_eq!(p.palette.bits_per_entry, 16);
        }
        Data::Single(_) => panic!("many ranks pack against the direct palette"),
    }
    let cells = packed.unpack();
    for i in 0..SECTION_SIZE_BLOCKS {
        assert_eq!(cells[i], (i % 300) as u16 + 1000);
    }
}

fn voxel(k: usize) -> ([u16; 12], HeadLite, u16, u16) {
    let mut neighbors = [NONE; 12];
    neighbors[0] = (k % 5) as u16;
    neighbors[3] = ((k + 1) % 5) as u16;
    if k % 4 == 0 {
        neighbors[9] = 4;
    }
    let head = HeadLite { primary_value: ((k + 2) % 5) as u16, mask: (k % 8) as u32, hash: (k as u32).wrapping_mul(2654435761), bit: 0 };
    let truth = ((k * 7) % 5) as u16;
    (neighbors, head, truth, truth)
}

#[test]
fn residuals_read_back() {
    let palette: Vec<u16> = (0..5u16).collect();
    let mut model = ResidualModel::new();
    let mut encoder = Encoder::new();
    let mut coded = Vec::new();
    for k in 0..400 {
        let (neighbors, head, truth, index) = voxel(k);
        let r = model.encode_residual(&mut encoder, truth, index, &neighbors, &head, &palette, 3, k % 24);
        coded.push(r.unwrap());
        assert_eq!(coded[k], truth);
    }
    let bytes = encoder.finish();
    let mut model = ResidualModel::new();
    let mut decoder = Decoder::new(&bytes);
    for k in 0..400 {
        let (neighbors, head, _, _) = voxel(k);
        let r = model.decode_residual(&mut decoder, &neighbors, &head, &palette, 3, k % 24);
        assert_eq!(r, Ok(coded[k]));
    }
}

#[test]
fn tree_index_past_palette_is_refused() {
    let palette = vec![10u16, 11, 12];
    let mut model = ResidualModel::new();
    let mut encoder = Encoder::new();
    let r = model.encode_tree(&mut encoder, 3, 77, &palette, 2, 0);
    assert_eq!(r, Err(ModelError::PaletteIndexOutOfRange { index: 3, len: 3 }));
    let ok = model.encode_tree(&mut encoder, 2, 77, &palette, 2, 0);
    assert_eq!(ok, Ok(12));
}

#[test]
fn modeled_sections_read_back() {
    let len = 16 * Y_STRIDE;
    let mut grid = vec![0u16; len];
    let palette: Vec<u16> = vec![0, 1, 2, 3, 4];
    let slots = [0usize, 1, 32, 33];
    let mut seed = 12345u64;
    for &slot in &slots {
        for i in 0..SECTION_SIZE_BLOCKS {
            seed = seed.wrapping_mul(6364136223846793005).wrapping_add(1442695040888963407);
            let v = if (seed >> 40) % 4 == 0 { ((seed >> 33) % 5) as u16 } else { ((i / 16) % 3) as u16 };
            grid[section_index(slot, 0, i)] = v;
        }
    }
    let mut modeler = Modeler::new(len);
    let mut encoder = Encoder::new();
    for &slot in &slots {
        let r = modeler.encode_section(&mut encoder, &grid, SectionPos { slot, section_y: 0 }, &palette, 3);
        assert_eq!(r, Ok(()));
    }
    let bytes = encoder.finish();
    let mut modeler = Modeler::new(len);
    let mut decoder = Decoder::new(&bytes);
    let mut decoded = vec![0u16; len];
    for &slot in &slots {
        let r = modeler.decode_section(&mut decoder, &mut decoded, SectionPos { slot, section_y: 0 }, &palette, 3);
        assert_eq!(r, Ok(()));
    }
    for &slot in &slots {
        for i in 0..SECTION_SIZE_BLOCKS {
            let idx = section_index(slot, 0, i);
            assert_eq!(decoded[idx], grid[idx]);
        }
    }
}
