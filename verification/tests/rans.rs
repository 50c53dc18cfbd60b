use zvcr::io::serialize::experimental::rans::{
    build_cum_freqs, build_slot_table, flush_bit_recs, normalize_counts, BitChance, BitRec, NzCoder,
    RansDecoder, RansEncoder, ANS_M, EXP_DELTA, EXP_LIMIT,
};

#[test]
fn rans_roundtrip_binary_bits() {
    let bits = [0u32, 1, 0, 0, 1, 1, 0, 1, 0, 0, 0, 1, 1, 1, 0, 0];
    let recs: Vec<BitRec> = bits.iter().map(|&b| BitRec { f0: 3000, bit: b as u8 }).collect();
    let bytes = flush_bit_recs(&recs);

    let mut dec = RansDecoder::new(&bytes).unwrap();
    for &expected in &bits {
        let slot = dec.get_current_freq();
        let decoded = if slot < 3000 {
            dec.advance(0, 3000);
            0
        } else {
            dec.advance(3000, ANS_M - 3000);
            1
        };
        assert_eq!(decoded, expected);
    }
}

#[test]
fn rans_roundtrip_multi_symbol() {
    let cum = [0u32, 1000, 3000];
    let freq = [1000u32, 2000, 1096];
    let symbols = [0u32, 1, 2, 0, 1, 1, 0, 2, 1, 0, 0, 1, 2, 1, 0];

    let mut enc = RansEncoder::new();
    for &s in symbols.iter().rev() {
        enc.encode_symbol(cum[s as usize], freq[s as usize]);
    }
    let bytes = enc.flush();

    let mut dec = RansDecoder::new(&bytes).unwrap();
    for &expected in &symbols {
        let slot = dec.get_current_freq();
        let mut decoded = 0;
        for i in (0..3).rev() {
            if slot >= cum[i] {
                decoded = i as u32;
                break;
            }
        }
        dec.advance(cum[decoded as usize], freq[decoded as usize]);
        assert_eq!(decoded, expected);
    }
}

#[test]
fn fresh_encoder_flushes_initial_state() {
    let enc = RansEncoder::new();
    assert_eq!(enc.flush(), vec![0, 0, 1, 0]);
}

#[test]
fn decoder_refuses_short_stream() {
    assert!(RansDecoder::new(&[1, 2, 3]).is_err());
}

#[test]
fn normalize_counts_scales_to_table_total() {
    let counts = [5u32, 0, 10, 1];
    let table = normalize_counts(&counts);
    assert_eq!(table.iter().sum::<u32>(), 4096);
    assert_eq!(table[1], 0);
    assert!(table[0] > 0 && table[2] > 0 && table[3] > 0);
    // 5 * 4093 / 16 = 1279, 10 * 4093 / 16 = 2558, 1 * 4093 / 16 = 255, plus one each.
    assert_eq!(table, vec![1280, 0, 2559 + 1, 256]);
}

#[test]
fn normalize_counts_all_zero() {
    assert_eq!(normalize_counts(&[0, 0, 0]), vec![0, 0, 0]);
}

#[test]
fn normalize_counts_keeps_most_frequent_when_crowded() {
    let mut counts = vec![1u32; 5000];
    counts[4999] = 7;
    let table = normalize_counts(&counts);
    assert_eq!(table.iter().sum::<u32>(), 4096);
    assert_eq!(table[4999], 1);
    assert_eq!(table[0], 1);
    assert_eq!(table[4095], 0);
    assert_eq!(table[4094], 1);
}

#[test]
fn cumulative_frequencies_and_slots() {
    let cum = build_cum_freqs(&[2, 0, 3]);
    assert_eq!(cum, vec![0, 2, 2, 5]);
    let slots = build_slot_table(&cum);
    assert_eq!(slots.len(), 4096);
    assert_eq!(&slots[0..6], &[0, 0, 2, 2, 2, 0]);
}

#[test]
fn nz_coder_roundtrip() {
    let values = [0u32, 1, 2, 3, 7, 100, 65535, 0, 42];
    let mut coder = NzCoder::new();
    let mut recs: Vec<BitRec> = Vec::new();
    for &v in &values {
        coder.encode(&mut recs, v);
    }
    let bytes = flush_bit_recs(&recs);
    let mut dec = RansDecoder::new(&bytes).unwrap();
    let mut decoder = NzCoder::new();
    for &v in &values {
        assert_eq!(decoder.decode(&mut dec), Some(v));
    }
}

#[test]
fn bit_chance_records_and_adapts() {
    let mut chance = BitChance::fresh();
    let mut recs = Vec::new();
    chance.record_bit(&mut recs, 0, EXP_LIMIT, EXP_DELTA);
    assert_eq!(recs.len(), 1);
    assert_eq!(recs[0].f0, 2048);
    chance.record_bit(&mut recs, 0, EXP_LIMIT, EXP_DELTA);
    // After one 0 bit: 2048 + (4096 - 2048) / (1 + 3) = 2560.
    assert_eq!(recs[1].f0, 2560);
}
