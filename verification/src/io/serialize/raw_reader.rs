use vstd::prelude::*;

verus! {

/// Reads region files through the reference decoder, keeping at most
/// `max_deltas` deltas of each history.
pub struct ReferenceReader {
    max_deltas: usize,
}

impl ReferenceReader {
    pub closed spec fn max_deltas(&self) -> usize {
        self.max_deltas
    }

    pub fn new(max_deltas: usize) -> (r: Self)
        ensures
            r.max_deltas() == max_deltas,
    {
        ReferenceReader { max_deltas }
    }
}

} // verus!
