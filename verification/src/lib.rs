use vstd::prelude::*;

pub mod definitions;
pub mod dimension;
pub mod io;
pub mod raw;
pub mod region;
pub mod version;

verus! {
}
