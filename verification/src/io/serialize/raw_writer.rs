use vstd::prelude::*;

verus! {

/// Writes region files through the reference encoder, compressing at `level`
/// with `threads` worker threads.
pub struct ReferenceWriter {
    level: i32,
    threads: u32,
}

impl ReferenceWriter {
    /// The compression level.
    pub closed spec fn level(&self) -> i32 {
        self.level
    }

    /// How many threads compress.
    pub closed spec fn threads(&self) -> u32 {
        self.threads
    }

    pub fn new(level: i32, threads: u32) -> (r: Self)
        ensures
            r.level() == level,
            r.threads() == threads,
    {
        ReferenceWriter { level, threads }
    }
}

} // verus!
