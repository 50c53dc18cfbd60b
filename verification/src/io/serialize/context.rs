use vstd::prelude::*;

use crate::dimension::DimensionType;

verus! {

/// What a reader or writer knows of the file it works on beyond the bytes in
/// front of it: how many sections a segment has, and the game's protocol.
#[derive(Debug, Clone, Copy, PartialEq, Eq, Structural)]
pub struct Context {
    pub section_count: usize,
    pub protocol_version: u16,
}

impl Context {
    pub fn default() -> (r: Context)
        ensures
            r.section_count == 0,
            r.protocol_version == 0,
    {
        Context { section_count: 0, protocol_version: 0 }
    }

    /// Takes the section count of `dimension`.
    pub fn initialize_section_count(&mut self, dimension: DimensionType)
        ensures
            final(self).section_count == dimension.spec_section_count(),
            final(self).protocol_version == old(self).protocol_version,
    {
        self.section_count = dimension.section_count();
    }
}

} // verus!
