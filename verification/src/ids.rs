//! Identifiers handed out in counting order.
use vstd::prelude::*;

verus! {

/// A source of identifiers: the next one it will hand out.
pub struct IdGen(pub u32);

impl IdGen {
    /// Hands out the next identifier.
    pub fn next(&mut self) -> (id: u32)
        requires
            old(self).0 < u32::MAX,
        ensures
            id == old(self).0,
            final(self).0 == old(self).0 + 1,
    {
        let out: u32 = self.0;
        self.0 = self.0 + 1;
        out
    }
}

} // verus!
