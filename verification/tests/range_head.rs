use zvcr::io::serialize::experimental::models::predictor::{
    cluster_of, equality_mask, gather_neighbors, key_of_mask, select_primary_value, stretch_probs, weight_of_mask, HeadState,
    Predictor, SectionMetadata, NONE,
};
use zvcr::io::serialize::experimental::models::range::{Decoder, Encoder};
use zvcr::io::serialize::experimental::models::spatial::{fill_section, fill_uniform, section_origin, SectionPos, VoxelPos};

fn lcg(seed: &mut u64) -> u32 {
    *seed = seed.wrapping_mul(6364136223846793005).wrapping_add(1442695040888963407);
    (*seed >> 33) as u32
}

#[test]
fn range_coder_roundtrips_bits() {
    let mut seed = 7u64;
    let mut bits = Vec::new();
    let mut probs = Vec::new();
    for _ in 0..5000 {
        let p = lcg(&mut seed) % 4096;
        let b = if lcg(&mut seed) % 4096 < p { 1 } else { 0 };
        probs.push(p);
        bits.push(b);
    }
    let mut enc = Encoder::new();
    for (&p, &b) in probs.iter().zip(&bits) {
        enc.encode(p, b);
    }
    let bytes = enc.finish();
    let mut dec = Decoder::new(&bytes);
    for (&p, &b) in probs.iter().zip(&bits) {
        assert_eq!(dec.decode(p), b);
    }
}

#[test]
fn range_coder_empty_stream_is_four_zero_bytes() {
    let enc = Encoder::new();
    assert_eq!(enc.finish(), vec![0, 0, 0, 0]);
}

#[test]
fn likely_bits_cost_little() {
    let mut enc = Encoder::new();
    for _ in 0..8000 {
        enc.encode(4000, 1);
    }
    let bytes = enc.finish();
    assert!(bytes.len() < 200, "{} bytes", bytes.len());
}

#[test]
fn masks_weights_and_keys() {
    let mut nb = [NONE; 12];
    nb[0] = 5;
    nb[1] = 5;
    nb[2] = 7;
    nb[7] = 5;
    assert_eq!(equality_mask(&nb, 5), 0b1000_0011);
    assert_eq!(weight_of_mask(0b1000_0011), 3 + 3 + 1);
    assert_eq!(weight_of_mask(0x1FF), 19);
    assert_eq!(key_of_mask(0b1000_0011), (7 << 5) | 24);
    assert_eq!(select_primary_value(&nb), (5, 0b1000_0011));
    assert_eq!(select_primary_value(&[NONE; 12]), (NONE, 0x1FF));
}

#[test]
fn stretch_probs_are_logits() {
    let probs = [0, 1, 2048, 4095, 100, 4000, 2047, 2049, 3000, 1000];
    let s = stretch_probs(&probs);
    assert_eq!(s[0], -2047);
    assert_eq!(s[3], 2047);
    assert!(s[2].abs() <= 1);
    for k in 0..9 {
        if probs[k] < probs[k + 1] {
            assert!(s[k] <= s[k + 1]);
        }
    }
}

#[test]
fn cluster_reads_the_three_causal_misses() {
    let mut nb = [NONE; 12];
    let mut miss = vec![0u8; 300000];
    let idx = 262144 + 512 + 1;
    miss[idx - 1] = 1;
    miss[idx - 262144] = 1;
    miss[idx - 512] = 0;
    assert_eq!(cluster_of(&nb, &miss, idx), 0);
    nb[0] = 1;
    nb[1] = 1;
    nb[2] = 1;
    assert_eq!(cluster_of(&nb, &miss, idx), 0b011);
}

#[test]
fn spatial_helpers() {
    assert_eq!(section_origin(33, 2), (16, 16, 32));
    assert_eq!(SectionPos { slot: 31, section_y: 0 }.origin(), (0, 496, 0));
    assert_eq!(VoxelPos { x: 3, y: 2, z: 1 }.index(), 2 * 262144 + 512 + 3);
    let mut voxels = vec![0u16; 262144 * 16];
    let mut values = [0u16; 4096];
    for (i, v) in values.iter_mut().enumerate() {
        *v = i as u16;
    }
    fill_section(&mut voxels, (16, 32, 0), &values);
    assert_eq!(voxels[32 * 512 + 16], 0);
    assert_eq!(voxels[262144 + 33 * 512 + 18], 256 + 16 + 2);
    assert_eq!(voxels[0], 0);
    fill_uniform(&mut voxels, (0, 0, 0), 9);
    assert_eq!(voxels[15 * 262144 + 15 * 512 + 15], 9);
    assert_eq!(voxels[16], 0);
}

#[test]
fn gathered_neighbors_respect_the_edges() {
    let mut voxels = vec![0u16; 262144 * 3];
    for (i, v) in voxels.iter_mut().enumerate() {
        *v = (i % 60000) as u16;
    }
    let mut nb = [0u16; 12];
    gather_neighbors(&voxels, 0, 0, 0, 0, &mut nb);
    assert_eq!(nb, [NONE; 12]);
    let idx = 2 * 262144 + 2 * 512 + 2;
    gather_neighbors(&voxels, idx, 2, 2, 2, &mut nb);
    assert_eq!(nb[0], voxels[idx - 1]);
    assert_eq!(nb[1], voxels[idx - 262144]);
    assert_eq!(nb[11], voxels[idx - 2 * 262144]);
    assert_eq!(nb[7], voxels[idx + 1 - 262144]);
}

fn neighbors_of(values: &[u16], i: usize) -> [u16; 12] {
    let mut nb = [NONE; 12];
    if i > 0 {
        nb[0] = values[i - 1];
    }
    if i > 1 {
        nb[9] = values[i - 2];
    }
    nb
}

#[test]
fn head_model_roundtrips_a_row_of_voxels() {
    let mut seed = 3u64;
    let values: Vec<u16> = (0..400).map(|_| (lcg(&mut seed) % 3) as u16).collect();
    let section = SectionMetadata { section_y: 1, palette_bits: 2 };

    let mut predictor = Predictor::new();
    let mut state = HeadState::new();
    let mut miss = vec![0u8; values.len()];
    let mut enc = Encoder::new();
    let mut heads = Vec::new();
    for i in 0..values.len() {
        state.neighbors = neighbors_of(&values, i);
        let head = predictor.encode_head(&mut enc, section, &mut state, values[i], &mut miss, i);
        heads.push((head.primary_value, head.mask, head.hash, head.bit));
    }
    let bytes = enc.finish();

    let mut predictor = Predictor::new();
    let mut state = HeadState::new();
    let mut miss = vec![0u8; values.len()];
    let mut dec = Decoder::new(&bytes);
    for i in 0..values.len() {
        state.neighbors = neighbors_of(&values, i);
        let head = predictor.decode_head(&mut dec, section, &mut state, &mut miss, i);
        assert_eq!((head.primary_value, head.mask, head.hash, head.bit), heads[i]);
        assert_eq!(head.bit == 1, values[i] == head.primary_value);
    }
}
