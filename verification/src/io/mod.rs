pub mod buffer;
pub mod file_location;
pub mod serialize;
pub mod compression;
