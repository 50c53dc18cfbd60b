use vstd::prelude::*;
use vstd::slice::slice_subrange;
use std::sync::Arc;

verus! {

/// A shared, read-only byte buffer and a window into it; windows of one
/// buffer share its storage.
pub struct PooledBytes {
    entry: Arc<Vec<u8>>,
    start: usize,
    len: usize,
}

impl View for PooledBytes {
    type V = Seq<u8>;

    /// The bytes in the window.
    closed spec fn view(&self) -> Seq<u8> {
        self.entry@.subrange(self.start as int, self.start + self.len)
    }
}

impl PooledBytes {
    #[verifier::type_invariant]
    spec fn window_in_buffer(&self) -> bool {
        self.start + self.len <= self.entry@.len() <= usize::MAX
    }

    /// A window over all of `vec`.
    pub fn from_vec(vec: Vec<u8>) -> (r: Self)
        ensures
            r@ == vec@,
    {
        let len = vec.len();
        let r = PooledBytes { entry: Arc::new(vec), start: 0, len };
        proof {
            assert(r@ =~= vec@);
        }
        r
    }

    /// The window of `len` bytes from `start` on, sharing the storage.
    pub fn slice(&self, start: usize, len: usize) -> (r: Self)
        requires
            start + len <= self@.len(),
        ensures
            r@ == self@.subrange(start as int, start + len),
    {
        proof {
            use_type_invariant(self);
        }
        let r = PooledBytes { entry: Arc::clone(&self.entry), start: self.start + start, len };
        proof {
            assert(r@ =~= self@.subrange(start as int, start + len));
        }
        r
    }

    /// Another window over the same bytes, sharing the storage.
    pub fn duplicate(&self) -> (r: Self)
        ensures
            r@ == self@,
    {
        proof {
            use_type_invariant(self);
        }
        PooledBytes { entry: Arc::clone(&self.entry), start: self.start, len: self.len }
    }

    pub fn len(&self) -> (r: usize)
        ensures
            r == self@.len(),
    {
        proof {
            use_type_invariant(self);
        }
        self.len
    }

    pub fn is_empty(&self) -> (r: bool)
        ensures
            r == (self@.len() == 0),
    {
        proof {
            use_type_invariant(self);
        }
        self.len == 0
    }

    /// The bytes in the window.
    pub fn as_slice(&self) -> (r: &[u8])
        ensures
            r@ == self@,
    {
        proof {
            use_type_invariant(self);
        }
        slice_subrange(self.entry.as_slice(), self.start, self.start + self.len)
    }
}

/// An empty buffer with room for `min_cap` bytes.
pub fn take_pooled_buffer(min_cap: usize) -> (r: Vec<u8>)
    ensures
        r@.len() == 0,
{
    Vec::with_capacity(min_cap)
}

} // verus!
