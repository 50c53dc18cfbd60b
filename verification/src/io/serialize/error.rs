use vstd::prelude::*;

verus! {

pub const MAX_DELTA_LENGTH: u64 = 65536;
pub const MAX_SEGMENT_STATES_LENGTH: u64 = 65536;
pub const MAX_TILE_ENTITY_LIST_LENGTH: u64 = 98304;
pub const MAX_TILE_ENTITY_NBT_LENGTH: u64 = 65536;
pub const MAX_PACKED_LENGTH: u64 = 1024;
pub const MAX_PALETTE_TABLE_LENGTH: u32 = 262144;

/// Why a region file, or a stream inside one, could not be read.
#[derive(Debug)]
pub enum ReadError {
    FileNotFound(String),
    Generic(String),
    Zstd(String),
    OutOfBounds { offset: usize },
    InvalidVersion(u8),
    InvalidDimensionType(u8),
    InvalidPaletteIndex { index: u32, max: usize },
    HeaderMismatch,
    LengthExceeded(String),
}

} // verus!
