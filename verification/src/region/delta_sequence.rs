use vstd::prelude::*;

use crate::region::delta::{state_at, PackedDeltaData};
use crate::region::packed_data::PackedSnapshot;
use crate::region::tile_entities::{te_state_at, DeltaTileEntityData, TileEntityList, TileEntityListDelta};

verus! {

/// A history kept as its newest snapshot followed by reverse deltas, each
/// with a timestamp.
pub trait DeltaSequence {
    type Snapshot;
    type SnapshotFrom;

    /// The snapshot and deltas, newest first.
    spec fn history(&self) -> Seq<Self::Snapshot>;

    /// Whether every snapshot and delta can be read back.
    spec fn readable(&self) -> bool;

    fn reverse_deltas(&self) -> (r: &[Self::Snapshot])
        ensures
            r@ == self.history(),
    ;

    fn snapshot_timestamp(snapshot: &Self::Snapshot) -> i64;

    /// The state at `timestamp`; `None` for an empty history.
    fn snapshot_before(&self, timestamp: i64) -> (r: Option<Self::SnapshotFrom>)
        requires
            self.readable(),
        ensures
            self.history().len() == 0 <==> r is None,
    ;

    fn latest_snapshot(&self) -> (r: Option<&Self::Snapshot>)
        ensures
            r == (if self.history().len() > 0 { Some(&self.history()[0]) } else { None }),
    {
        let deltas = self.reverse_deltas();
        if deltas.len() > 0 {
            Some(&deltas[0])
        } else {
            None
        }
    }

    fn delta(&self, delta_index: usize) -> (r: Option<&Self::Snapshot>)
        ensures
            r == (if delta_index < self.history().len() { Some(&self.history()[delta_index as int]) } else { None }),
    {
        let deltas = self.reverse_deltas();
        if delta_index < deltas.len() {
            Some(&deltas[delta_index])
        } else {
            None
        }
    }
}

impl<const UNPACKED_SIZE: usize> DeltaSequence for PackedDeltaData<UNPACKED_SIZE> {
    type Snapshot = PackedSnapshot<UNPACKED_SIZE>;
    type SnapshotFrom = [u16; UNPACKED_SIZE];

    open spec fn history(&self) -> Seq<PackedSnapshot<UNPACKED_SIZE>> {
        self.reverse_deltas@
    }

    open spec fn readable(&self) -> bool {
        self.wf()
    }

    fn reverse_deltas(&self) -> (r: &[PackedSnapshot<UNPACKED_SIZE>]) {
        self.reverse_deltas.as_slice()
    }

    fn snapshot_timestamp(snapshot: &PackedSnapshot<UNPACKED_SIZE>) -> (r: i64)
        ensures
            r == snapshot.timestamp,
    {
        snapshot.timestamp
    }

    fn snapshot_before(&self, timestamp: i64) -> (r: Option<[u16; UNPACKED_SIZE]>)
        ensures
            r matches Some(a) ==> a@ == state_at(self.reverse_deltas@, timestamp),
    {
        PackedDeltaData::snapshot_before(self, timestamp)
    }
}

impl DeltaSequence for DeltaTileEntityData {
    type Snapshot = TileEntityListDelta;
    type SnapshotFrom = TileEntityList;

    open spec fn history(&self) -> Seq<TileEntityListDelta> {
        self.reverse_deltas@
    }

    open spec fn readable(&self) -> bool {
        self.wf()
    }

    fn reverse_deltas(&self) -> (r: &[TileEntityListDelta]) {
        self.reverse_deltas.as_slice()
    }

    fn snapshot_timestamp(snapshot: &TileEntityListDelta) -> (r: i64)
        ensures
            r == snapshot.timestamp,
    {
        snapshot.timestamp
    }

    fn snapshot_before(&self, timestamp: i64) -> (r: Option<TileEntityList>)
        ensures
            r matches Some(m) ==> m.wf() && m.map() == te_state_at(self.reverse_deltas@, timestamp),
    {
        DeltaTileEntityData::snapshot_before(self, timestamp)
    }
}

} // verus!
