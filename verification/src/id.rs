use vstd::prelude::*;

verus! {

/// Issues strictly increasing identifiers, starting at 1. An identifier is
/// never handed out twice, no matter how many entities are later removed.
pub struct IdGenerator {
    counter: u64,
}

impl IdGenerator {
    /// The identifier the next call to `generate_id` will return.
    pub closed spec fn next_id(&self) -> u64 {
        self.counter
    }

    /// Issue the next identifier. Requires exclusive access to `self`.
    ///
    /// Running out of identifiers is a programming-limits violation, not a
    /// recoverable error, so the counter must not yet have reached its
    /// maximum.
    pub fn generate_id(&mut self) -> (id: u64)
        requires
            old(self).next_id() < u64::MAX,
        ensures
            id == old(self).next_id(),
            final(self).next_id() == id + 1,
    {
        let id = self.counter;
        self.counter = self.counter + 1;
        id
    }

    /// Issue the next identifier. Requires exclusive access to `self`.
    pub fn generate_id_sync(&mut self) -> (id: u64)
        requires
            old(self).next_id() < u64::MAX,
        ensures
            id == old(self).next_id(),
            final(self).next_id() == id + 1,
    {
        self.generate_id()
    }
}

impl Default for IdGenerator {
    /// A fresh generator; the first identifier it issues is 1.
    fn default() -> (r: IdGenerator)
        ensures
            r.next_id() == 1,
    {
        IdGenerator { counter: 1 }
    }
}

} // verus!
