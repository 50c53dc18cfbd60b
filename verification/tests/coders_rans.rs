use zvcr::io::serialize::experimental::coders::rans::{
    build_decode_table, build_freq_table, div_magic, fast_div, RansDecoder, RansEncoder, L, M,
};

fn check_streaming(data: &[u8]) {
    let (freq, start) = build_freq_table(data);
    let mut enc = RansEncoder::new();
    for &b in data.iter().rev() {
        enc.put(freq[b as usize] as u32, start[b as usize] as u32);
    }
    let body = enc.finish();
    let table = build_decode_table(&freq, &start);
    let mut dec = RansDecoder::new(&body);
    let mut out = Vec::with_capacity(data.len());
    for _ in 0..data.len() {
        let e = table[dec.slot() as usize];
        out.push(e.sym);
        dec.advance(e.freq as u32, e.start as u32);
    }
    assert_eq!(out, data);
}

#[test]
fn fast_div_correct() {
    for freq in 2u32..=M {
        let dm = div_magic(freq);
        let mut x = L;
        for _ in 0..1024 {
            assert_eq!(fast_div(x, dm), x / freq, "freq={freq} x={x}");
            x = x.wrapping_mul(1103515245).wrapping_add(12345);
            x = x & 0x7FFFFFFF;
            if x < L {
                x += L;
            }
        }
        assert_eq!(fast_div(0, dm), 0u32);
        assert_eq!(fast_div(freq, dm), 1u32);
        assert_eq!(fast_div(freq.wrapping_sub(1), dm), 0u32);
    }
}

#[test]
fn roundtrip_streaming() {
    check_streaming(b"");
    check_streaming(b"a");
    check_streaming(b"ab");
    check_streaming(b"hello, world!");
    check_streaming(&(0u8..=255).collect::<Vec<_>>());
    let mut state: u64 = 1;
    let mut data = Vec::with_capacity(64 * 1024);
    for _ in 0..(64 * 1024) {
        state ^= state << 13;
        state ^= state >> 7;
        state ^= state << 17;
        data.push((state & 0xff) as u8);
    }
    check_streaming(&data);
    let mut skewed: u64 = 1;
    let mut skewed_data = Vec::with_capacity(128 * 1024);
    for _ in 0..(128 * 1024) {
        skewed ^= skewed << 13;
        skewed ^= skewed >> 7;
        skewed ^= skewed << 17;
        if (skewed & 7) == 0 {
            skewed_data.push((skewed & 0xff) as u8);
        } else {
            skewed_data.push(b'a');
        }
    }
    check_streaming(&skewed_data);
    check_streaming(&vec![b'x'; 100_000]);
}

#[test]
fn fast_div_large_values() {
    let dm = div_magic(3);
    assert_eq!(fast_div(u32::MAX, dm), u32::MAX / 3);
    let dm = div_magic(4096);
    assert_eq!(fast_div(123_456_789, dm), 123_456_789 / 4096);
}

#[test]
fn freq_table_sums_to_total() {
    let (freq, start) = build_freq_table(b"aab");
    assert_eq!(freq.iter().map(|&f| f as u32).sum::<u32>(), 4096);
    // 2 * 4096 / 3 = 2730 and 4096 / 3 = 1365; the shortfall goes to 'a'.
    assert_eq!(freq[b'a' as usize], 2731);
    assert_eq!(freq[b'b' as usize], 1365);
    assert_eq!(start[b'b' as usize], 2731);
    assert_eq!(freq[0], 0);
}

#[test]
fn freq_table_of_empty_input_is_zero() {
    let (freq, start) = build_freq_table(b"");
    assert!(freq.iter().all(|&f| f == 0));
    assert!(start.iter().all(|&s| s == 0));
}

#[test]
fn encoder_stream_starts_with_state() {
    let enc = RansEncoder::new();
    assert_eq!(enc.finish(), vec![0, 0x80, 0, 0]);
}
