use vstd::prelude::*;

verus! {

/// A ship's reactor. `upgrade_level` is the total amount of power the reactor produces and
/// `available` is the part of it that no system currently draws.
#[derive(Clone, Debug)]
pub struct Reactor {
    pub upgrade_level: usize,
    pub available: usize,
}

impl Reactor {
    /// A reactor with no power at all.
    pub fn new() -> (r: Self)
        ensures
            r.upgrade_level == 0,
            r.available == 0,
    {
        Self { upgrade_level: 0, available: 0 }
    }

    /// Adds one unit of power production; the new unit is immediately available.
    pub fn upgrade(&mut self)
        requires
            old(self).upgrade_level < usize::MAX,
            old(self).available < usize::MAX,
        ensures
            final(self).upgrade_level == old(self).upgrade_level + 1,
            final(self).available == old(self).available + 1,
    {
        self.upgrade_level = self.upgrade_level + 1;
        self.available = self.available + 1;
    }
}

} // verus!
