use vstd::prelude::*;

verus! {

/// A handle on a creature of the world that does not keep it alive:
/// it names the slot the creature was given when it was set on the plate.
#[derive(Clone, Copy, Debug, PartialEq, Eq, Structural)]
pub struct Weak {
    pub slot: usize,
}

/// The slot of a handle that never named a creature.
pub const DANGLING: usize = usize::MAX;

impl Weak {
    /// A handle that names no creature.
    pub fn new() -> (r: Self)
        ensures
            r.slot == DANGLING,
    {
        Weak { slot: DANGLING }
    }

    pub fn from_slot(slot: usize) -> (r: Self)
        ensures
            r.slot == slot,
    {
        Weak { slot }
    }
}

} // verus!
