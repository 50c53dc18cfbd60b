use zvcr::io::serialize::experimental::coder::palette::{decode_palette_table, encode_palette_table};

#[test]
fn palette_roundtrip_simple() {
    let entries = vec![
        vec![10, 20, 30],
        vec![10, 20, 40],
        vec![10, 50],
        vec![60, 70, 80, 90],
    ];
    let encoded = encode_palette_table(&entries);
    let decoded = decode_palette_table(&encoded).unwrap();
    assert_eq!(decoded, entries);
}

#[test]
fn palette_roundtrip_empty() {
    let entries: Vec<Vec<u16>> = vec![];
    let encoded = encode_palette_table(&entries);
    let decoded = decode_palette_table(&encoded).unwrap();
    assert_eq!(decoded, entries);
}

#[test]
fn palette_roundtrip_large_alphabet() {
    let mut entries = Vec::new();
    for i in 0..100 {
        entries.push((0..5000).map(|j| (i * 100 + j) as u16).collect::<Vec<u16>>());
    }
    let encoded = encode_palette_table(&entries);
    let decoded = decode_palette_table(&encoded).unwrap();
    assert_eq!(decoded, entries);
}

#[test]
fn palette_empty_table_is_its_count() {
    let entries: Vec<Vec<u16>> = vec![];
    assert_eq!(encode_palette_table(&entries), vec![0, 0, 0, 0]);
}

#[test]
fn palette_small_table_uses_rans_mode_with_ranked_dictionary() {
    let entries = vec![vec![7u16, 9, 9], vec![9u16]];
    let encoded = encode_palette_table(&entries);
    // two entries, mode 2
    assert_eq!(&encoded[0..5], &[2, 0, 0, 0, 2]);
    // dictionary: 9 occurs three times, 7 once
    assert_eq!(&encoded[5..11], &[2, 0, 9, 0, 7, 0]);
    // lengths 1 and 3, ascending
    assert_eq!(&encoded[11..17], &[2, 0, 1, 0, 3, 0]);
    // one entry of each length: the frequencies split the range
    assert_eq!(&encoded[17..21], &[0, 8, 0, 8]);
    assert_eq!(decode_palette_table(&encoded).unwrap(), entries);
}

#[test]
fn palette_raw_layout_is_lengths_then_atoms() {
    let mut entries = Vec::new();
    for i in 0..5u16 {
        entries.push((0..1000u16).map(|j| i * 1000 + j).collect::<Vec<u16>>());
    }
    let encoded = encode_palette_table(&entries);
    assert_eq!(&encoded[0..5], &[5, 0, 0, 0, 0]);
    assert_eq!(&encoded[5..9], &[0xe8, 0x03, 0, 0]);
    assert_eq!(encoded.len(), 5 + 5 * (2 + 2 * 1000));
    assert_eq!(decode_palette_table(&encoded).unwrap(), entries);
}

#[test]
fn palette_decode_refuses_short_data() {
    assert!(decode_palette_table(&[1, 0, 0]).is_err());
    assert!(decode_palette_table(&[1, 0, 0, 0]).is_err());
}

#[test]
fn palette_decode_zero_entries() {
    assert_eq!(decode_palette_table(&[0, 0, 0, 0, 99]).unwrap(), Vec::<Vec<u16>>::new());
}

#[test]
fn palette_decode_refuses_unknown_mode() {
    assert!(decode_palette_table(&[1, 0, 0, 0, 1]).is_err());
}

#[test]
fn palette_decode_raw_mode() {
    let data = [2, 0, 0, 0, 0, 1, 0, 5, 0, 2, 0, 6, 0, 7, 0];
    assert_eq!(decode_palette_table(&data).unwrap(), vec![vec![5u16], vec![6u16, 7]]);
    assert!(decode_palette_table(&data[..14]).is_err());
}

#[test]
fn palette_decode_refuses_oversized_frequencies() {
    // one entry, mode 2, empty dictionary, one length (1) with frequency 5000
    let data = [1, 0, 0, 0, 2, 0, 0, 1, 0, 1, 0, 0x88, 0x13, 0, 0, 0, 0, 0, 0, 0, 0];
    assert!(decode_palette_table(&data).is_err());
}
