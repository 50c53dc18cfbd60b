use vstd::prelude::*;

use std::sync::Arc;

use crate::definitions::{REGION_SIDELENGTH_SEGMENTS, SECTION_SIZE_BIOMES, SECTION_SIZE_BLOCKS, SEGMENTS_PER_REGION};
use crate::dimension::DimensionType;
use crate::region::delta::{PackedDeltaData, changed_cells, reverse_delta};
use crate::region::packed_data::PackedSnapshot;
use crate::region::segment_info::SegmentInfo;
use crate::region::tile_entities::DeltaTileEntityData;

verus! {

/// Sections a segment can hold, in the tallest dimension.
pub const MAX_SECTION_COUNT: usize = 24;

/// Whether `a` holds the same snapshot as `b`.
pub open spec fn copy_of<const N: usize>(a: PackedSnapshot<N>, b: PackedSnapshot<N>) -> bool {
    &&& a.timestamp == b.timestamp
    &&& a.data.same_packing(&b.data)
    &&& a.data.unpacked() == b.data.unpacked()
    &&& a.data.unpackable() == b.data.unpackable()
}

/// The changed cells that adding `s` to the history `d` counts: every cell for
/// a first snapshot, none for a rejected one.
pub open spec fn insert_count<const N: usize>(d: Seq<PackedSnapshot<N>>, s: PackedSnapshot<N>) -> nat {
    if d.len() == 0 {
        N as nat
    } else if s.timestamp <= d[0].timestamp {
        0
    } else {
        changed_cells(d[0].data.unpacked(), s.data.unpacked(), N as nat)
    }
}

/// `fin` is the history `prior` after a copy of `s` was offered to it: taken as
/// the first snapshot, refused (history unchanged), or made the newest with the
/// displaced snapshot turned into a reverse delta.
pub open spec fn inserted<const N: usize>(prior: PackedDeltaData<N>, s: PackedSnapshot<N>, fin: PackedDeltaData<N>) -> bool {
    let d = prior.reverse_deltas@;
    let f = fin.reverse_deltas@;
    if d.len() == 0 {
        f.len() == 1 && copy_of(f[0], s)
    } else if insert_count(d, s) == 0 {
        fin == prior
    } else {
        &&& f.len() == d.len() + 1
        &&& copy_of(f[0], s)
        &&& f[1].timestamp == d[0].timestamp
        &&& f[1].data.unpacked() == reverse_delta(d[0].data.unpacked(), s.data.unpacked())
        &&& f.skip(2) == d.skip(1)
    }
}

/// The changes counted over the first `m` sections and their updates.
pub open spec fn total_changes<const N: usize>(
    secs: Seq<PackedDeltaData<N>>,
    ups: Seq<PackedSnapshot<N>>,
    m: nat,
) -> nat
    decreases m,
{
    if m == 0 {
        0
    } else {
        total_changes(secs, ups, (m - 1) as nat) + insert_count(secs[m - 1].reverse_deltas@, ups[m - 1])
    }
}

/// The oldest of the newest timestamps of the first `n` sections.
pub open spec fn earliest_latest<const N: usize>(secs: Seq<PackedDeltaData<N>>, n: nat) -> i64
    decreases n,
{
    if n == 0 {
        i64::MAX
    } else {
        let e = earliest_latest(secs, (n - 1) as nat);
        let t = secs[n - 1].reverse_deltas@[0].timestamp;
        if t < e {
            t
        } else {
            e
        }
    }
}

/// The timestamp a segment's newest contents carry is the earliest of its
/// sections' newest timestamps: where each of the first `n` sections has a
/// snapshot, it is no later than any of their newest timestamps and equal to
/// one of them.
pub proof fn law_earliest_latest<const N: usize>(secs: Seq<PackedDeltaData<N>>, n: nat)
    requires
        0 < n <= secs.len(),
        forall|i: int| 0 <= i < n ==> #[trigger] secs[i].reverse_deltas@.len() > 0,
    ensures
        forall|i: int| 0 <= i < n ==> earliest_latest(secs, n) <= #[trigger] secs[i].reverse_deltas@[0].timestamp,
        exists|i: int| 0 <= i < n && earliest_latest(secs, n) == #[trigger] secs[i].reverse_deltas@[0].timestamp,
    decreases n,
{
    if n > 1 {
        law_earliest_latest(secs, (n - 1) as nat);
        let j = choose|i: int| 0 <= i < n - 1 && earliest_latest(secs, (n - 1) as nat) == #[trigger] secs[i].reverse_deltas@[0].timestamp;
        let t = secs[n - 1].reverse_deltas@[0].timestamp;
        if t < earliest_latest(secs, (n - 1) as nat) {
            assert(earliest_latest(secs, n) == secs[n - 1].reverse_deltas@[0].timestamp);
        } else {
            assert(earliest_latest(secs, n) == secs[j].reverse_deltas@[0].timestamp);
        }
    } else {
        assert(earliest_latest(secs, 0) == i64::MAX);
        assert(earliest_latest(secs, n) == secs[0].reverse_deltas@[0].timestamp);
    }
}

pub proof fn lemma_changed_cells_bound(a: Seq<u16>, b: Seq<u16>, n: nat)
    ensures
        changed_cells(a, b, n) <= n,
    decreases n,
{
    if n > 0 {
        lemma_changed_cells_bound(a, b, (n - 1) as nat);
    }
}

proof fn lemma_total_bound<const N: usize>(secs: Seq<PackedDeltaData<N>>, ups: Seq<PackedSnapshot<N>>, m: nat)
    ensures
        total_changes(secs, ups, m) <= m * N,
    decreases m,
{
    if m > 0 {
        lemma_total_bound(secs, ups, (m - 1) as nat);
        let d = secs[m - 1].reverse_deltas@;
        if d.len() > 0 && ups[m - 1].timestamp > d[0].timestamp {
            lemma_changed_cells_bound(d[0].data.unpacked(), ups[m - 1].data.unpacked(), N as nat);
        }
        assert((m - 1) * N + N == m * N) by (nonlinear_arith);
    }
}

/// The section histories of one segment, one per vertical section.
#[derive(Debug, Clone)]
pub struct DeltaSections<const UNPACKED_SIZE: usize> {
    pub sections: Vec<PackedDeltaData<UNPACKED_SIZE>>,
    pub section_count: usize,
}

impl<const UNPACKED_SIZE: usize> DeltaSections<UNPACKED_SIZE> {
    /// There is a history for each of the possible sections, and each holds
    /// only snapshots that unpack.
    pub open spec fn wf(&self) -> bool {
        &&& self.sections@.len() == MAX_SECTION_COUNT
        &&& forall|i: int| 0 <= i < MAX_SECTION_COUNT ==> #[trigger] self.sections@[i].wf()
    }

    /// Whether each of the first `section_count` sections has a snapshot.
    pub open spec fn all_present(&self) -> bool {
        forall|i: int| 0 <= i < self.section_count ==> #[trigger] self.sections@[i].reverse_deltas@.len() > 0
    }

    /// Empty histories for every section.
    pub fn new(section_count: usize) -> (r: Self)
        ensures
            r.wf(),
            r.section_count == section_count,
            forall|i: int| 0 <= i < MAX_SECTION_COUNT ==> #[trigger] r.sections@[i].reverse_deltas@.len() == 0,
    {
        let mut sections: Vec<PackedDeltaData<UNPACKED_SIZE>> = Vec::new();
        let mut i: usize = 0;
        while i < MAX_SECTION_COUNT
            invariant
                i <= MAX_SECTION_COUNT,
                sections@.len() == i,
                forall|k: int| 0 <= k < i ==> #[trigger] sections@[k].reverse_deltas@.len() == 0,
            decreases MAX_SECTION_COUNT - i,
        {
            sections.push(PackedDeltaData::default());
            i += 1;
        }
        DeltaSections { sections, section_count }
    }

    /// The newest atoms of every section, with the oldest of their
    /// timestamps; `None` where a section has no snapshot yet.
    pub fn latest_snapshot(&self) -> (r: Option<(Vec<[u16; UNPACKED_SIZE]>, i64)>)
        requires
            self.wf(),
            self.section_count <= MAX_SECTION_COUNT || exists|i: int|
                0 <= i < MAX_SECTION_COUNT && #[trigger] self.sections@[i].reverse_deltas@.len() == 0,
        ensures
            r is Some <==> self.all_present(),
            r matches Some((snaps, earliest)) ==> {
                &&& snaps@.len() == self.section_count
                &&& forall|i: int| 0 <= i < self.section_count ==>
                    (#[trigger] snaps@[i])@ == self.sections@[i].reverse_deltas@[0].data.unpacked()
                &&& earliest == earliest_latest(self.sections@, self.section_count as nat)
            },
    {
        let mut snapshots: Vec<[u16; UNPACKED_SIZE]> = Vec::new();
        let mut earliest: i64 = i64::MAX;
        let mut i: usize = 0;
        while i < self.section_count
            invariant
                self.wf(),
                self.section_count <= MAX_SECTION_COUNT || exists|j: int|
                    0 <= j < MAX_SECTION_COUNT && #[trigger] self.sections@[j].reverse_deltas@.len() == 0,
                i <= self.section_count,
                i <= MAX_SECTION_COUNT,
                snapshots@.len() == i,
                forall|k: int| 0 <= k < i ==> #[trigger] self.sections@[k].reverse_deltas@.len() > 0,
                forall|k: int| 0 <= k < i ==>
                    (#[trigger] snapshots@[k])@ == self.sections@[k].reverse_deltas@[0].data.unpacked(),
                earliest == earliest_latest(self.sections@, i as nat),
            decreases self.section_count - i,
        {
            if i >= MAX_SECTION_COUNT {
                proof {
                    let j = choose|j: int| 0 <= j < MAX_SECTION_COUNT && #[trigger] self.sections@[j].reverse_deltas@.len() == 0;
                    assert(self.sections@[j].reverse_deltas@.len() > 0);
                }
            }
            let latest = match self.sections[i].latest_snapshot() {
                Some(s) => s,
                None => {
                    return None;
                },
            };
            if latest.timestamp < earliest {
                earliest = latest.timestamp;
            }
            proof {
                assert(self.sections@[i as int].wf());
                assert(self.sections@[i as int].reverse_deltas@[0].data.unpackable());
            }
            snapshots.push(latest.data.unpack());
            i += 1;
        }
        Some((snapshots, earliest))
    }

    /// Offers each update to the section of the same index, for as many
    /// sections as there are, and returns the changed cells counted over all
    /// of them (a refused update counts none).
    pub fn update_sections(&mut self, section_updates: &[PackedSnapshot<UNPACKED_SIZE>]) -> (r: usize)
        requires
            old(self).wf(),
            section_updates@.len() <= MAX_SECTION_COUNT || old(self).section_count <= MAX_SECTION_COUNT,
            forall|i: int| 0 <= i < section_updates@.len() && i < old(self).section_count ==>
                (#[trigger] section_updates@[i]).data.unpackable(),
            MAX_SECTION_COUNT * UNPACKED_SIZE <= usize::MAX,
        ensures
            final(self).wf(),
            final(self).section_count == old(self).section_count,
            ({
                let m = if section_updates@.len() < old(self).section_count {
                    section_updates@.len()
                } else {
                    old(self).section_count as nat
                };
                &&& forall|i: int| 0 <= i < m ==>
                    inserted(old(self).sections@[i], section_updates@[i], #[trigger] final(self).sections@[i])
                &&& forall|i: int| m <= i < MAX_SECTION_COUNT ==>
                    #[trigger] final(self).sections@[i] == old(self).sections@[i]
                &&& r == total_changes(old(self).sections@, section_updates@, m)
            }),
    {
        let ghost start = self.sections@;
        let mut changes: usize = 0;
        let mut i: usize = 0;
        while i < section_updates.len() && i < self.section_count
            invariant
                self.wf(),
                self.section_count == old(self).section_count,
                start == old(self).sections@,
                start.len() == MAX_SECTION_COUNT,
                section_updates@.len() <= MAX_SECTION_COUNT || self.section_count <= MAX_SECTION_COUNT,
                forall|k: int| 0 <= k < section_updates@.len() && k < self.section_count ==>
                    (#[trigger] section_updates@[k]).data.unpackable(),
                MAX_SECTION_COUNT * UNPACKED_SIZE <= usize::MAX,
                i <= section_updates@.len(),
                i <= self.section_count,
                i <= MAX_SECTION_COUNT,
                forall|k: int| 0 <= k < i ==> inserted(start[k], section_updates@[k], #[trigger] self.sections@[k]),
                forall|k: int| i <= k < MAX_SECTION_COUNT ==> #[trigger] self.sections@[k] == start[k],
                changes == total_changes(start, section_updates@, i as nat),
            decreases section_updates@.len() - i,
        {
            let update = section_updates[i].duplicate();
            let mut section = self.sections.remove(i);
            proof {
                assert(section == start[i as int]);
                assert(section.wf());
                lemma_total_bound(start, section_updates@, (i + 1) as nat);
                assert((i + 1) * UNPACKED_SIZE <= MAX_SECTION_COUNT * UNPACKED_SIZE) by (nonlinear_arith)
                    requires i + 1 <= MAX_SECTION_COUNT;
            }
            let outcome = section.insert_snapshot(update);
            let counted: usize = match outcome {
                Ok(n) => n,
                Err(_) => 0,
            };
            proof {
                let d = start[i as int].reverse_deltas@;
                let s = section_updates@[i as int];
                if d.len() > 0 && s.timestamp > d[0].timestamp {
                    assert(update.data.unpacked() == s.data.unpacked());
                }
                assert(counted == insert_count(d, s));
                assert(total_changes(start, section_updates@, (i + 1) as nat)
                    == total_changes(start, section_updates@, i as nat) + insert_count(d, s));
            }
            changes = changes + counted;
            self.sections.insert(i, section);
            proof {
                let d = start[i as int].reverse_deltas@;
                let s = section_updates@[i as int];
                let f = self.sections@[i as int].reverse_deltas@;
                if d.len() == 0 {
                    assert(f.len() == 1);
                } else if insert_count(d, s) > 0 {
                    assert(f[0] == update);
                }
                assert(inserted(start[i as int], s, self.sections@[i as int]));
                assert forall|k: int| 0 <= k < MAX_SECTION_COUNT implies #[trigger] self.sections@[k].wf() by {
                    if k != i {
                        assert(self.sections@[k] == start[k] || k < i);
                    }
                }
            }
            i += 1;
        }
        changes
    }
}

/// Everything recorded of one segment: its block and biome sections, its
/// state history and its tile entities.
pub struct Segment {
    pub section_count: usize,
    pub block_sections: DeltaSections<SECTION_SIZE_BLOCKS>,
    pub biome_sections: DeltaSections<SECTION_SIZE_BIOMES>,
    pub info: SegmentInfo,
    pub tile_entities: DeltaTileEntityData,
}

impl Segment {
    /// An empty segment with the sections of `dimension`.
    pub fn new(dimension: DimensionType) -> (r: Self)
        ensures
            r.section_count == dimension.spec_section_count(),
            r.empty(),
    {
        Self::with_section_count(dimension.section_count())
    }

    /// Nothing is recorded yet, and every history is well formed.
    pub open spec fn empty(&self) -> bool {
        &&& self.block_sections.wf()
        &&& self.biome_sections.wf()
        &&& self.block_sections.section_count == self.section_count
        &&& self.biome_sections.section_count == self.section_count
        &&& forall|i: int| 0 <= i < MAX_SECTION_COUNT ==> #[trigger] self.block_sections.sections@[i].reverse_deltas@.len() == 0
        &&& forall|i: int| 0 <= i < MAX_SECTION_COUNT ==> #[trigger] self.biome_sections.sections@[i].reverse_deltas@.len() == 0
        &&& self.info.reverse_deltas@.len() == 0
        &&& self.tile_entities.reverse_deltas@.len() == 0
        &&& self.tile_entities.wf()
    }

    /// An empty segment of `section_count` sections.
    pub fn with_section_count(section_count: usize) -> (r: Self)
        ensures
            r.section_count == section_count,
            r.empty(),
    {
        Segment {
            section_count,
            block_sections: DeltaSections::new(section_count),
            biome_sections: DeltaSections::new(section_count),
            info: SegmentInfo::default(),
            tile_entities: DeltaTileEntityData::default(),
        }
    }
}

/// The index of segment (`x`, `z`) in a region: row by row along `x`.
pub open spec fn spec_segment_index(x: int, z: int) -> int {
    x * REGION_SIDELENGTH_SEGMENTS + z
}

/// A region of segments, each present or not.
pub struct Region {
    pub segments: Vec<Option<Arc<Segment>>>,
    pub protocol_version: u16,
}

impl Region {
    /// There is a slot for every segment of the region.
    pub open spec fn wf(&self) -> bool {
        self.segments@.len() == SEGMENTS_PER_REGION
    }

    /// A region with no segment yet.
    pub fn new(protocol_version: u16) -> (r: Self)
        ensures
            r.wf(),
            r.protocol_version == protocol_version,
            forall|i: int| 0 <= i < SEGMENTS_PER_REGION ==> #[trigger] r.segments@[i] is None,
    {
        let mut segments: Vec<Option<Arc<Segment>>> = Vec::new();
        let mut i: usize = 0;
        while i < SEGMENTS_PER_REGION
            invariant
                i <= SEGMENTS_PER_REGION,
                segments@.len() == i,
                forall|k: int| 0 <= k < i ==> #[trigger] segments@[k] is None,
            decreases SEGMENTS_PER_REGION - i,
        {
            segments.push(None);
            i += 1;
        }
        Region { segments, protocol_version }
    }

    /// The slot of segment (`x`, `z`).
    pub fn get(&self, x: u8, z: u8) -> (r: &Option<Arc<Segment>>)
        requires
            self.wf(),
            x < REGION_SIDELENGTH_SEGMENTS,
            z < REGION_SIDELENGTH_SEGMENTS,
        ensures
            *r == self.segments@[spec_segment_index(x as int, z as int)],
    {
        &self.segments[Self::segment_index(x, z)]
    }

    /// Puts `segment` in the slot of segment (`x`, `z`).
    pub fn set(&mut self, x: u8, z: u8, segment: Option<Arc<Segment>>)
        requires
            old(self).wf(),
            x < REGION_SIDELENGTH_SEGMENTS,
            z < REGION_SIDELENGTH_SEGMENTS,
        ensures
            final(self).wf(),
            final(self).protocol_version == old(self).protocol_version,
            final(self).segments@ == old(self).segments@.update(spec_segment_index(x as int, z as int), segment),
    {
        let idx = Self::segment_index(x, z);
        self.segments.set(idx, segment);
    }

    /// The index of segment (`x`, `z`) among the region's slots.
    pub fn segment_index(x: u8, z: u8) -> (r: usize)
        requires
            x < REGION_SIDELENGTH_SEGMENTS,
            z < REGION_SIDELENGTH_SEGMENTS,
        ensures
            r == spec_segment_index(x as int, z as int),
            r < SEGMENTS_PER_REGION,
    {
        (x as usize) * REGION_SIDELENGTH_SEGMENTS + (z as usize)
    }
}

/// Each segment of a region has a slot of its own, and every slot belongs to a
/// segment.
pub proof fn law_segment_index_bijective(x1: int, z1: int, x2: int, z2: int)
    requires
        0 <= x1 < REGION_SIDELENGTH_SEGMENTS,
        0 <= z1 < REGION_SIDELENGTH_SEGMENTS,
        0 <= x2 < REGION_SIDELENGTH_SEGMENTS,
        0 <= z2 < REGION_SIDELENGTH_SEGMENTS,
    ensures
        0 <= spec_segment_index(x1, z1) < SEGMENTS_PER_REGION,
        spec_segment_index(x1, z1) == spec_segment_index(x2, z2) ==> x1 == x2 && z1 == z2,
        spec_segment_index(x1, z1) / (REGION_SIDELENGTH_SEGMENTS as int) == x1,
        spec_segment_index(x1, z1) % (REGION_SIDELENGTH_SEGMENTS as int) == z1,
{
}

} // verus!
