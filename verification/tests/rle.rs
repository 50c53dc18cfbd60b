use zvcr::io::serialize::experimental::rle::{decode, encode, ESCAPE, THRESHOLD};

fn roundtrip(input: &[u8]) {
    let mut encoded = Vec::new();
    encode(input, &mut encoded);
    let mut decoded = vec![0u8; input.len()];
    decode(&encoded, &mut decoded).unwrap();
    assert_eq!(decoded, input, "roundtrip mismatch for input len {}", input.len());
}

#[test]
fn empty_input_roundtrips() {
    roundtrip(&[]);
}

#[test]
fn all_zeros_roundtrips() {
    roundtrip(&vec![0x00; 512]);
}

#[test]
fn all_ones_roundtrips() {
    roundtrip(&vec![0xFF; 512]);
}

#[test]
fn escape_literals_roundtrip() {
    roundtrip(&[ESCAPE, ESCAPE, ESCAPE]);
}

#[test]
fn mixed_runs_and_literals_roundtrip() {
    let mut buf = Vec::new();
    buf.extend_from_slice(&[0x00; 100]);
    buf.extend_from_slice(&[0x42, 0x43, 0x44]);
    buf.extend_from_slice(&[0xFF; 200]);
    buf.push(ESCAPE);
    buf.extend_from_slice(&[0x00; 5]);
    buf.extend_from_slice(&[0xFF; 3]);
    roundtrip(&buf);
}

#[test]
fn collision_run_length_roundtrips() {
    let target_n = (ESCAPE & 0x7F) as usize;
    let collision_len = THRESHOLD + target_n;
    roundtrip(&vec![0x00u8; collision_len]);
    roundtrip(&vec![0x00u8; collision_len + 1]);
    roundtrip(&vec![0x00u8; collision_len + 130]);
}

#[test]
fn long_run_splits_correctly() {
    roundtrip(&vec![0x00u8; 1000]);
    roundtrip(&vec![0xFFu8; 1000]);
}

#[test]
fn random_buffers_roundtrip() {
    let mut state: u64 = 0x9E3779B97F4A7C15;
    let mut next = || {
        state ^= state << 13;
        state ^= state >> 7;
        state ^= state << 17;
        state
    };

    for _ in 0..200 {
        let len = (next() % 600) as usize;
        let mut buf = Vec::with_capacity(len);
        let mut j = 0;
        while j < len {
            let choice = next() % 10;
            let run_val = if next() & 1 == 0 { 0x00u8 } else { 0xFF };
            let run_len = (next() % 50 + 1) as usize;
            let take = run_len.min(len - j);
            if choice < 7 {
                buf.extend(std::iter::repeat_n(run_val, take));
            } else {
                for _ in 0..take {
                    buf.push(next() as u8);
                }
            }
            j += take;
        }
        roundtrip(&buf);
    }
}

#[test]
fn short_run_is_written_as_literals() {
    let mut encoded = Vec::new();
    encode(&[7, 7, 1], &mut encoded);
    assert_eq!(encoded, vec![7, 7, 1]);
}

#[test]
fn decode_reports_truncated_stream() {
    let mut decoded = vec![0u8; 4];
    assert!(decode(&[1, 2], &mut decoded).is_err());
}

#[test]
fn decode_reports_run_past_end() {
    let mut encoded = Vec::new();
    encode(&[0u8; 10], &mut encoded);
    let mut decoded = vec![0u8; 4];
    assert!(decode(&encoded, &mut decoded).is_err());
}

#[test]
fn run_past_the_output_is_a_generic_error() {
    let src = [0x59u8, 0x00];
    let mut dst = [0u8; 2];
    assert!(matches!(decode(&src, &mut dst), Err(zvcr::io::serialize::error::ReadError::Generic(_))));
}
