pub mod coder;
pub mod coders;
pub mod layout;
pub mod models;
pub mod rans;
pub mod reader;
pub mod rle;
pub mod roundtrip;
pub mod writer;

use vstd::prelude::*;

use crate::io::compression::{zstd_compressed, zstd_decoded, zstd_decodes};
use crate::io::serialize::error::ReadError;
use crate::raw::RegionData;
use self::reader::{deserialize_region_data, region_data_read};
use self::writer::{region_data_body_bytes, region_data_header, segments_writable, serialize_region_data};

verus! {

/// Reads region files in the experimental layout.
pub struct ExperimentalReader;

impl ExperimentalReader {
    pub fn new() -> (r: Self) {
        ExperimentalReader
    }

    /// Reads a region file in this layout.
    pub fn from_bytes(&self, bytes: &[u8]) -> (r: Result<RegionData, ReadError>)
        ensures
            region_data_read(bytes@, r),
    {
        deserialize_region_data(bytes)
    }
}

impl Default for ExperimentalReader {
    fn default() -> (r: Self) {
        ExperimentalReader
    }
}

/// Writes region files in the experimental layout, compressing at `level`.
pub struct ExperimentalWriter {
    level: i32,
}

impl ExperimentalWriter {
    /// The compression level.
    pub closed spec fn level(&self) -> i32 {
        self.level
    }

    pub fn new(level: i32) -> (r: Self)
        ensures
            r.level() == level,
    {
        ExperimentalWriter { level }
    }

    /// Writes `data` in this layout, compressing the body at the writer's
    /// level.
    pub fn to_bytes(&self, data: &RegionData) -> (r: Result<Vec<u8>, String>)
        requires
            segments_writable(data.segments@),
        ensures
            r is Ok,
            ({
                let body = region_data_body_bytes(data.segments@);
                &&& r matches Ok(v) && v@ == region_data_header(data.version, data.dimension, data.protocol_version)
                    + zstd_compressed(body, self.level())
                &&& zstd_decoded(zstd_compressed(body, self.level())) == body
                &&& zstd_decodes(zstd_compressed(body, self.level()))
            }),
    {
        serialize_region_data(data, self.level)
    }
}

} // verus!
