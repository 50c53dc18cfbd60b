pub mod context;
pub mod deserialize;
pub mod error;
pub mod experimental;
pub mod primitives;
pub mod raw_reader;
pub mod raw_writer;
pub mod reference;
pub mod serialize;
pub mod roundtrip;
