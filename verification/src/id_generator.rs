use vstd::prelude::*;

verus! {

/// Issues unique, strictly increasing 64-bit identifiers.
/// The store owns one and threads it through every insertion.
pub struct IdGenerator {
    pub counter: u64,
}

impl IdGenerator {
    /// A generator whose next issued id is `start`.
    pub fn new(start: u64) -> (r: IdGenerator)
        ensures
            r.counter == start,
    {
        IdGenerator { counter: start }
    }

    /// Returns the current counter value and advances it by one, so
    /// consecutive calls yield strictly increasing ids.
    pub fn next_id(&mut self) -> (r: u64)
        requires
            old(self).counter < u64::MAX,
        ensures
            r == old(self).counter,
            final(self).counter == old(self).counter + 1,
    {
        let id = self.counter;
        self.counter = self.counter + 1;
        id
    }
}

} // verus!
