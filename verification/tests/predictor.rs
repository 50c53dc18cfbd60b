use zvcr::io::serialize::experimental::models::predictor::{
    adapt_weights, adapt_weights_stretched, combine, direction_multiplier, mix_logits, mix_stretched,
    primary_contexts, squash, stretch, PrimaryCtx, CHAIN_SLOTS, FIRST_ORDER, FORWARD_NEIGHBORHOOD_SEED, NONE,
    PRIMARY_TABLE_MASK, REVERSE_NEIGHBORHOOD_SEED,
};

const SUBSET_CONTEXTS: [(u32, &[usize]); 4] = [
    (0x9E37_79B9, &[9, 10, 11]),
    (0x85EB_CA6B, &[3, 6, 7]),
    (0xC2B2_AE35, &[0, 1, 2]),
    (0x27D4_EB2F, &[1, 2]),
];

fn reference_directional_hash<const REVERSED: bool>(seed: u32, neighbors: &[u16; CHAIN_SLOTS]) -> u32 {
    let mut hash = seed;
    for step in 0..FIRST_ORDER {
        let slot = if REVERSED { FIRST_ORDER - 1 - step } else { step };
        hash = combine(hash, (neighbors[slot] as u32).wrapping_mul(direction_multiplier(slot)));
    }
    hash
}

fn reference_subset_hashes(neighbors: &[u16; CHAIN_SLOTS], primary_value: u32) -> [u32; 4] {
    SUBSET_CONTEXTS.map(|(seed, slots)| {
        let mut hash = seed;
        for &slot in slots {
            hash = combine(hash, neighbors[slot] as u32);
        }
        combine(hash, primary_value)
    })
}

fn reference_primary_contexts(
    neighbors: &[u16; CHAIN_SLOTS],
    primary_value: u32,
    mask: u32,
    run: u32,
    section_y: usize,
    palette_bits: usize,
) -> PrimaryCtx {
    let neighborhood = combine(
        reference_directional_hash::<false>(FORWARD_NEIGHBORHOOD_SEED, neighbors),
        primary_value,
    );
    let rotated_neighborhood = combine(
        reference_directional_hash::<true>(REVERSE_NEIGHBORHOOD_SEED, neighbors),
        primary_value,
    );
    let [distance_two, diagonal, axial, lower_pair] = reference_subset_hashes(neighbors, primary_value);
    let value_scaled_hash = combine(neighborhood, primary_value.wrapping_mul(3));
    PrimaryCtx {
        idx: [
            neighborhood & PRIMARY_TABLE_MASK,
            rotated_neighborhood & PRIMARY_TABLE_MASK,
            distance_two & PRIMARY_TABLE_MASK,
            (mask << 8) | run.min(255),
            combine(primary_value, mask << 1) & PRIMARY_TABLE_MASK,
            value_scaled_hash & PRIMARY_TABLE_MASK,
            ((section_y as u32) << 5) | palette_bits as u32,
            diagonal & PRIMARY_TABLE_MASK,
            axial & PRIMARY_TABLE_MASK,
            lower_pair & PRIMARY_TABLE_MASK,
        ],
        hash: neighborhood,
    }
}

#[test]
fn context_hashes_match_reference() {
    let mut state = 0x1234_5678u64;
    let mut next = move || {
        state ^= state << 13;
        state ^= state >> 7;
        state ^= state << 17;
        state
    };
    let mut neighbors = [NONE; CHAIN_SLOTS];
    for _ in 0..100_000 {
        for slot in neighbors.iter_mut() {
            let pick = next() % 10;
            *slot = match pick {
                0 => NONE,
                1..=2 => (next() % 9) as u16,
                _ => (next() % 60_001) as u16,
            };
        }
        let primary_value = if next() % 8 == 0 { NONE as u32 } else { (next() % 60_001) as u32 };
        let mask = next() as u32;
        let run = (next() % 256) as u32;
        let section_y = (next() % 1024) as usize;
        let palette_bits = (next() % 17) as usize;

        let new_ctx = primary_contexts(&neighbors, primary_value, mask, run, section_y, palette_bits);
        let old_ctx = reference_primary_contexts(&neighbors, primary_value, mask, run, section_y, palette_bits);
        assert_eq!(new_ctx.idx, old_ctx.idx, "idx mismatch");
        assert_eq!(new_ctx.hash, old_ctx.hash, "hash mismatch");
    }
}

#[test]
fn squash_samples_and_ends() {
    assert_eq!(squash(0), 2047);
    assert_eq!(squash(3000), 4095);
    assert_eq!(squash(-3000), 1);
    assert_eq!(squash(128), 2549);
    assert_eq!(squash(-128), 1546);
    // Halfway between the samples 2047 and 2549: (2047 * 64 + 2549 * 64 + 64) >> 7.
    assert_eq!(squash(64), 2298);
}

#[test]
fn stretch_inverts_squash() {
    assert_eq!(stretch(0), -2047);
    assert_eq!(stretch(4095), 2047);
    for p in 1..4095u32 {
        let l = stretch(p);
        assert!(squash(l) >= p as i32);
        if l > -2047 {
            assert!(squash(l - 1) < p as i32);
        }
    }
}

#[test]
fn mixing_and_adapting() {
    let probs = [2048u32, 2048, 2048];
    let weights = [65536i32, 0, 0];
    assert_eq!(mix_logits(&weights, &probs), squash(stretch(2048)) as u32);

    let mut w = [0i32; 3];
    adapt_weights(&mut w, &[4095, 1, 2048], 1, 2048);
    // error 2048 times the logits 2047, -2047 and stretch(2048), over 2^13.
    assert_eq!(w[0], (2048 * 2047) >> 13);
    assert_eq!(w[1], (2048 * -2047) >> 13);

    let stretched = [100i32; 10];
    let weights10 = [65536i32; 10];
    assert_eq!(mix_stretched(&weights10, &stretched), squash(1000) as u32);
    let mut w10 = [2_000_000i32; 10];
    adapt_weights_stretched(&mut w10, &stretched, 1, 0);
    assert!(w10.iter().all(|&x| x == 1_048_576));
}
