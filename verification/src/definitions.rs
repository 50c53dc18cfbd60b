use vstd::prelude::*;

verus! {

/// One block or biome state, as an index into the game's registry.
pub type SegmentAtom = u16;

pub const SEGMENT_SIDELENGTH_BLOCKS: usize = 16;
pub const SEGMENT_SIDELENGTH_BIOMES: usize = 4;
pub const SECTION_SIZE_BLOCKS: usize = 4096;
pub const SECTION_SIZE_BIOMES: usize = 64;
pub const REGION_SIDELENGTH_SEGMENTS: usize = 32;
pub const SEGMENTS_PER_REGION: usize = 1024;

/// The atom that a delta snapshot holds where a cell did not change.
pub const STATE_UNCHANGED: u16 = 65535;

/// Why a snapshot was not added to a history.
#[derive(Debug, Clone, Copy, PartialEq, Eq, Structural)]
pub enum DeltaInsertionStatus {
    SnapshotOlderThanLatest,
    NoChangesMade,
}

} // verus!
