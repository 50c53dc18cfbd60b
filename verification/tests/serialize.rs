use zvcr::io::serialize::deserialize::ReadHandle;
use zvcr::io::serialize::serialize::{same_palette, PaletteTable, WriteHandle};
use zvcr::region::delta::PackedDeltaData;
use zvcr::region::packed_data::{Data, PackedData, PackedSnapshot, PalettedData};
use zvcr::region::palette::Palette;
use zvcr::region::segment_info::{SegmentInfo, SegmentState, SegmentStateType};

fn paletted(longs: Vec<u64>, atoms: Vec<u16>, bits: usize, ts: i64) -> PackedSnapshot<64> {
    PackedSnapshot {
        data: PackedData {
            data: Data::Paletted(PalettedData { packed_long_array: longs, palette: Palette { palette: atoms, bits_per_entry: bits } }),
        },
        timestamp: ts,
    }
}

#[test]
fn palette_table_indexes_by_first_insertion() {
    let mut t = PaletteTable::new();
    let a = Palette { palette: vec![1, 2], bits_per_entry: 4 };
    let b = Palette { palette: vec![1, 3], bits_per_entry: 4 };
    assert_eq!(t.index_for(&a), 0);
    assert_eq!(t.index_for(&b), 1);
    assert_eq!(t.index_for(&Palette { palette: vec![1, 2], bits_per_entry: 4 }), 0);
    assert_eq!(t.len(), 2);
    assert!(same_palette(&a, &t.palettes[0]));
    assert!(!same_palette(&a, &b));
}

#[test]
fn written_snapshots_read_back() {
    let single = PackedSnapshot::<64> { data: PackedData { data: Data::Single(9) }, timestamp: -3 };
    let p = paletted(vec![5, 6, 7], vec![10, 20, 30], 4, 1234);
    let direct = paletted(vec![8], vec![], 16, 77);
    let mut w = WriteHandle::new(769, 3, 1);
    w.serialize_packed_snapshot(&single, true);
    w.serialize_packed_snapshot(&p, true);
    w.serialize_packed_snapshot(&direct, true);
    let mut table_writer = WriteHandle::new(769, 3, 1);
    let mut t = PaletteTable::new();
    t.index_for(&Palette { palette: vec![10, 20, 30], bits_per_entry: 4 });
    table_writer.serialize_palette_table(&t);
    assert_eq!(table_writer.data, vec![1, 0, 0, 0, 3, 0, 10, 0, 20, 0, 30, 0]);

    let table = vec![Palette { palette: vec![10, 20, 30], bits_per_entry: 4 }];
    let mut r = ReadHandle::new(w.data.clone(), 0);
    let mut s = PackedSnapshot::<64> { data: PackedData { data: Data::Single(0) }, timestamp: 0 };
    r.deserialize_packed_snapshot(&mut s, &table).unwrap();
    assert_eq!(s, single);
    r.deserialize_packed_snapshot(&mut s, &table).unwrap();
    assert_eq!(s, p);
    r.deserialize_packed_snapshot(&mut s, &table).unwrap();
    assert_eq!(s, direct);
    assert_eq!(r.offset(), w.data.len());
}

#[test]
fn written_histories_read_back() {
    let mut d = PackedDeltaData::<64>::default();
    d.reverse_deltas.push(paletted(vec![1], vec![4, 5], 4, 10));
    d.reverse_deltas.push(PackedSnapshot { data: PackedData { data: Data::Single(2) }, timestamp: 5 });
    let mut w = WriteHandle::new(769, 3, 1);
    w.serialize_packed_delta_data(&d, false);
    let table = vec![Palette { palette: vec![4, 5], bits_per_entry: 4 }];
    let mut r = ReadHandle::new(w.data.clone(), 0);
    let mut back = PackedDeltaData::<64>::default();
    r.deserialize_packed_delta_data(&mut back, &table).unwrap();
    assert_eq!(back, d);
}

#[test]
fn written_segment_info_reads_back() {
    let info = SegmentInfo {
        reverse_deltas: vec![
            SegmentState { state_type: SegmentStateType::Old, timestamp: 99 },
            SegmentState { state_type: SegmentStateType::New, timestamp: -1 },
        ],
    };
    let mut w = WriteHandle::new(769, 3, 1);
    w.serialize_segment_info(&info);
    assert_eq!(w.data.len(), 8 + 2 * 9);
    assert_eq!(&w.data[8..10], &[2, 99]);
    let mut r = ReadHandle::new(w.data.clone(), 0);
    assert_eq!(r.deserialize_segment_info().unwrap(), info);
}

#[test]
fn palette_table_skips_small_palettes_but_counts_them() {
    let mut t = PaletteTable::new();
    t.index_for(&Palette { palette: vec![7], bits_per_entry: 4 });
    t.index_for(&Palette { palette: vec![1, 2], bits_per_entry: 4 });
    let mut w = WriteHandle::new(769, 3, 1);
    w.serialize_palette_table(&t);
    assert_eq!(w.data, vec![2, 0, 0, 0, 2, 0, 1, 0, 2, 0]);
}
