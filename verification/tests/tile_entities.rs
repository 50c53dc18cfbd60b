use zvcr::definitions::DeltaInsertionStatus;
use zvcr::raw::reconstruct_tile_entities;
use zvcr::region::tile_entities::{DeltaTileEntityData, TileEntity, TileEntityDelta, TileEntityPosition};

fn te(x: u8, y: u16, z: u8, tile_type: u32, nbt: &[u8]) -> TileEntity {
    TileEntity { tile_type, pos: TileEntityPosition { x, z, y }, nbt: nbt.to_vec() }
}

#[test]
fn position_packing_roundtrips() {
    let p = TileEntityPosition { x: 3, z: 200, y: 70 };
    let packed = p.packed();
    assert_eq!(packed, (70 << 16) | (200 << 8) | 3);
    assert_eq!(TileEntityPosition::unpack(packed), p);
    assert_eq!(TileEntityPosition::unpack(0xFFFF_FFFF).packed(), 0xFFFF_FFFF);
}

#[test]
fn first_snapshot_counts_positions() {
    let mut data = DeltaTileEntityData::default();
    let list = [te(1, 1, 1, 5, &[1]), te(2, 1, 1, 5, &[2]), te(1, 1, 1, 6, &[3])];
    assert_eq!(data.insert_snapshot(10, &list), Ok(2));
    let snap = data.snapshot_before(10).unwrap();
    assert_eq!(snap.len(), 2);
    let p = TileEntityPosition { x: 1, z: 1, y: 1 };
    assert_eq!(snap.get(&p).unwrap().tile_type, 6);
}

#[test]
fn older_snapshot_is_refused() {
    let mut data = DeltaTileEntityData::default();
    assert_eq!(data.insert_snapshot(10, &[te(1, 1, 1, 5, &[1])]), Ok(1));
    assert_eq!(
        data.insert_snapshot(10, &[te(2, 2, 2, 5, &[1])]),
        Err(DeltaInsertionStatus::SnapshotOlderThanLatest)
    );
    assert_eq!(data.reverse_deltas.len(), 1);
}

#[test]
fn unchanged_snapshot_is_refused() {
    let mut data = DeltaTileEntityData::default();
    let list = [te(1, 1, 1, 5, &[1, 2])];
    assert_eq!(data.insert_snapshot(10, &list), Ok(1));
    assert_eq!(data.insert_snapshot(20, &list), Err(DeltaInsertionStatus::NoChangesMade));
    assert_eq!(data.reverse_deltas.len(), 1);
}

#[test]
fn history_reads_back_each_point_in_time() {
    let mut data = DeltaTileEntityData::default();
    let a = te(1, 1, 1, 5, &[1]);
    let b = te(2, 1, 1, 7, &[2]);
    let a2 = te(1, 1, 1, 5, &[9]);
    assert_eq!(data.insert_snapshot(10, &[a.clone()]), Ok(1));
    // a changes, b appears: restore a, clear b's position.
    assert_eq!(data.insert_snapshot(20, &[a2.clone(), b.clone()]), Ok(2));
    // b goes away: the reverse delta puts it back.
    assert_eq!(data.insert_snapshot(30, &[a2.clone()]), Ok(1));

    let now = data.snapshot_before(30).unwrap();
    assert_eq!(now.len(), 1);
    let mid = data.snapshot_before(25).unwrap();
    assert_eq!(mid.len(), 2);
    assert_eq!(mid.get(&b.pos).unwrap().nbt, vec![2]);
    let first = data.snapshot_before(15).unwrap();
    assert_eq!(first.len(), 1);
    assert_eq!(first.get(&a.pos).unwrap().nbt, vec![1]);
    let before_all = data.snapshot_before(0).unwrap();
    assert_eq!(before_all.len(), 1);

    let history = reconstruct_tile_entities(&data);
    assert_eq!(history.len(), 3);
    assert_eq!(history[0].timestamp, 30);
    assert_eq!(history[1].data.len(), 2);
    assert_eq!(history[2].data.get(&a.pos).unwrap().nbt, vec![1]);
}

#[test]
fn empty_history_has_no_snapshot() {
    let data = DeltaTileEntityData::default();
    assert!(data.snapshot_before(0).is_none());
    assert!(data.latest_snapshot().is_none());
    assert!(reconstruct_tile_entities(&data).is_empty());
    let _ = TileEntityDelta::Erase;
}
