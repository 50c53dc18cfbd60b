use vstd::prelude::*;

verus! {

/// Reads region files in the reference layout, keeping at most `max_deltas`
/// deltas of each history.
pub struct ReferenceReader {
    max_deltas: usize,
}

impl ReferenceReader {
    pub closed spec fn max_deltas(&self) -> usize {
        self.max_deltas
    }

    pub fn new(max_deltas: usize) -> (r: Self)
        ensures
            r.max_deltas() == max_deltas,
    {
        ReferenceReader { max_deltas }
    }
}

/// Writes region files in the reference layout, compressing at `level`.
pub struct ReferenceWriter {
    level: i32,
}

impl ReferenceWriter {
    /// The compression level.
    pub closed spec fn level(&self) -> i32 {
        self.level
    }

    pub fn new(level: i32) -> (r: Self)
        ensures
            r.level() == level,
    {
        ReferenceWriter { level }
    }
}

} // verus!
