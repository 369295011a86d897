use vstd::prelude::*;

verus! {

/// A byte buffer holding a serialized model, to be placed in static storage.
pub struct BackingStorage<const N: usize>(pub [u8; N]);

impl<const N: usize> BackingStorage<N> {
    pub fn new(buf: [u8; N]) -> (s: Self)
        ensures
            s.0@ == buf@,
    {
        BackingStorage(buf)
    }

    /// The stored bytes.
    pub fn to_slice(&self) -> (b: &[u8])
        ensures
            b@ == self.0@,
    {
        self.0.as_slice()
    }
}

} // verus!
