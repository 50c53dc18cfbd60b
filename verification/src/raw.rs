use vstd::prelude::*;

use crate::definitions::{SECTION_SIZE_BIOMES, SECTION_SIZE_BLOCKS, STATE_UNCHANGED};
use crate::dimension::DimensionType;
use crate::region::segment_info::SegmentState;
use crate::version::Version;
use crate::region::delta::{state_after, state_at, stop_from, PackedDeltaData};
use crate::region::packed_data::PackedSnapshot;
use crate::region::tile_entities::{
    te_state_at, te_stop_from, TileEntityListDelta,
    apply_delta_map, placements_of, te_state_after, DeltaTileEntityData, TileEntityList,
};

verus! {

/// A value as it stood at a point in time.
#[derive(Debug, Clone, PartialEq, Eq)]
pub struct Snapshot<T> {
    pub timestamp: i64,
    pub data: T,
}

/// The section after the newest snapshot and the first `k` reverse deltas,
/// each delta written over the cells it covers where it holds a changed atom.
pub open spec fn replayed<const N: usize>(deltas: Seq<PackedSnapshot<N>>, k: nat) -> Seq<u16>
    decreases k,
{
    if k == 0 {
        deltas[0].data.unpacked()
    } else {
        let prev = replayed(deltas, (k - 1) as nat);
        let d = deltas[k as int].data;
        Seq::new(
            N as nat,
            |i: int| if d.delta_covers(i) && d.unpacked()[i] != STATE_UNCHANGED { d.unpacked()[i] } else { prev[i] },
        )
    }
}

proof fn lemma_replayed_is_state_after<const N: usize>(deltas: Seq<PackedSnapshot<N>>, k: nat)
    requires
        k < deltas.len(),
        forall|j: int, i: int| 1 <= j < deltas.len() && 0 <= i < N ==> #[trigger] deltas[j].data.delta_covers(i),
    ensures
        replayed(deltas, k) == state_after(deltas, k),
        state_after(deltas, k).len() == N,
    decreases k,
{
    if k > 0 {
        lemma_replayed_is_state_after(deltas, (k - 1) as nat);
        let d = deltas[k as int].data;
        assert forall|i: int| 0 <= i < N implies #[trigger] d.delta_covers(i) by {
            assert(deltas[k as int].data.delta_covers(i));
        }
        assert(replayed(deltas, k) =~= state_after(deltas, k));
    }
}

proof fn lemma_stop_from<const N: usize>(deltas: Seq<PackedSnapshot<N>>, k: int, j: int)
    requires
        1 <= j <= k < deltas.len(),
        forall|a: int, b: int| 0 <= a < b < deltas.len() ==> #[trigger] deltas[a].timestamp > #[trigger] deltas[b].timestamp,
    ensures
        stop_from(deltas, deltas[k].timestamp, j) == k,
    decreases k - j,
{
    if j < k && j < deltas.len() - 1 {
        lemma_stop_from(deltas, k, j + 1);
    }
}

/// Replaying a section's history agrees with reconstructing it at each of
/// its own timestamps: where the timestamps strictly decrease from the
/// newest snapshot on and every delta covers all cells, the state that
/// `reconstruct_history` gives at entry `k` is the one `snapshot_before`
/// gives at that entry's timestamp.
pub proof fn law_history_matches_snapshot_before<const N: usize>(deltas: Seq<PackedSnapshot<N>>, k: int)
    requires
        0 <= k < deltas.len(),
        forall|a: int, b: int| 0 <= a < b < deltas.len() ==> #[trigger] deltas[a].timestamp > #[trigger] deltas[b].timestamp,
        forall|j: int, i: int| 1 <= j < deltas.len() && 0 <= i < N ==> #[trigger] deltas[j].data.delta_covers(i),
    ensures
        replayed(deltas, k as nat) == state_at(deltas, deltas[k].timestamp),
{
    lemma_replayed_is_state_after(deltas, k as nat);
    if k > 0 {
        assert(deltas[0].timestamp > deltas[k].timestamp);
        lemma_stop_from(deltas, k, 1);
    }
}

proof fn lemma_te_stop_from(ds: Seq<TileEntityListDelta>, k: int, j: int)
    requires
        1 <= j <= k < ds.len(),
        forall|a: int, b: int| 0 <= a < b < ds.len() ==> #[trigger] ds[a].timestamp > #[trigger] ds[b].timestamp,
    ensures
        te_stop_from(ds, ds[k].timestamp, j) == k,
    decreases k - j,
{
    if j < k && j < ds.len() - 1 {
        lemma_te_stop_from(ds, k, j + 1);
    }
}

/// Replaying a block entity history agrees with reconstructing it at each of
/// its own timestamps: where the timestamps strictly decrease from the
/// newest list on, the placements that `reconstruct_tile_entities` gives at
/// entry `k` are the ones `snapshot_before` gives at that entry's timestamp.
pub proof fn law_tile_history_matches_snapshot_before(ds: Seq<TileEntityListDelta>, k: int)
    requires
        0 <= k < ds.len(),
        forall|a: int, b: int| 0 <= a < b < ds.len() ==> #[trigger] ds[a].timestamp > #[trigger] ds[b].timestamp,
    ensures
        te_state_after(ds, k as nat) == te_state_at(ds, ds[k].timestamp),
{
    if k > 0 {
        assert(ds[0].timestamp > ds[k].timestamp);
        lemma_te_stop_from(ds, k, 1);
    }
}

/// Every point in time of a section's history, newest first.
pub fn reconstruct_history<const N: usize>(packed: &PackedDeltaData<N>) -> (history: Vec<Snapshot<[u16; N]>>)
    requires
        packed.wf(),
    ensures
        history@.len() == packed.reverse_deltas@.len(),
        forall|k: int| 0 <= k < history@.len() ==> #[trigger] history@[k].timestamp == packed.reverse_deltas@[k].timestamp
            && history@[k].data@ == replayed(packed.reverse_deltas@, k as nat),
{
    let deltas = &packed.reverse_deltas;
    if deltas.len() == 0 {
        return Vec::new();
    }
    let ghost ds = deltas@;
    assert(ds[0].data.unpackable());
    let mut current = deltas[0].data.unpack();
    let mut history: Vec<Snapshot<[u16; N]>> = Vec::new();
    history.push(Snapshot { timestamp: deltas[0].timestamp, data: current });
    let mut k: usize = 1;
    while k < deltas.len()
        invariant
            1 <= k <= ds.len(),
            ds == deltas@,
            packed.wf(),
            ds == packed.reverse_deltas@,
            current@ == replayed(ds, (k - 1) as nat),
            history@.len() == k,
            forall|j: int| 0 <= j < k ==> #[trigger] history@[j].timestamp == ds[j].timestamp && history@[j].data@
                == replayed(ds, j as nat),
        decreases ds.len() - k,
    {
        assert(ds[k as int].data.unpackable());
        deltas[k].data.unpack_delta_into(&mut current);
        proof {
            assert(current@ =~= replayed(ds, k as nat));
        }
        history.push(Snapshot { timestamp: deltas[k].timestamp, data: current });
        k += 1;
    }
    history
}

/// Every point in time of a segment's block entities, newest first.
pub fn reconstruct_tile_entities(data: &DeltaTileEntityData) -> (history: Vec<Snapshot<TileEntityList>>)
    requires
        data.wf(),
    ensures
        history@.len() == data.reverse_deltas@.len(),
        forall|k: int| 0 <= k < history@.len() ==> #[trigger] history@[k].timestamp == data.reverse_deltas@[k].timestamp
            && history@[k].data.wf() && history@[k].data.map() == te_state_after(data.reverse_deltas@, k as nat),
{
    let deltas = &data.reverse_deltas;
    if deltas.len() == 0 {
        return Vec::new();
    }
    let ghost ds = deltas@;
    assert(ds[0].deltas.wf());
    let mut current = placements_of(&deltas[0].deltas);
    let mut history: Vec<Snapshot<TileEntityList>> = Vec::new();
    history.push(Snapshot { timestamp: deltas[0].timestamp, data: current.duplicate() });
    let mut k: usize = 1;
    while k < deltas.len()
        invariant
            1 <= k <= ds.len(),
            ds == deltas@,
            data.wf(),
            ds == data.reverse_deltas@,
            current.wf(),
            current.map() == te_state_after(ds, (k - 1) as nat),
            history@.len() == k,
            forall|j: int| 0 <= j < k ==> #[trigger] history@[j].timestamp == ds[j].timestamp && history@[j].data.wf()
                && history@[j].data.map() == te_state_after(ds, j as nat),
        decreases ds.len() - k,
    {
        assert(ds[k as int].deltas.wf());
        apply_delta_map(&mut current, &deltas[k].deltas);
        history.push(Snapshot { timestamp: deltas[k].timestamp, data: current.duplicate() });
        k += 1;
    }
    history
}

/// One segment as plain data: the histories of its block and biome
/// sections, its states and its block entities.
pub struct SegmentData {
    pub block_sections: Vec<PackedDeltaData<SECTION_SIZE_BLOCKS>>,
    pub biome_sections: Vec<PackedDeltaData<SECTION_SIZE_BIOMES>>,
    pub states: Vec<SegmentState>,
    pub tile_entities: DeltaTileEntityData,
}

/// A region as plain data: the header fields and a slot for each of the
/// `SEGMENTS_PER_REGION` segments.
pub struct RegionData {
    pub version: Version,
    pub protocol_version: u16,
    pub dimension: DimensionType,
    pub segments: Vec<Option<SegmentData>>,
}

} // verus!
