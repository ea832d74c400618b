use vstd::prelude::*;

use crate::mob::pool::SpeciesPool;

verus! {

/// What the world holds once: the pool of species.
pub struct Singletons {
    pub species_pool: SpeciesPool,
}

impl Singletons {
    /// An empty pool of species.
    pub fn new() -> (r: Singletons)
        ensures
            r.species_pool.wf(),
            r.species_pool@.len() == 0,
    {
        Singletons { species_pool: SpeciesPool::new() }
    }
}

} // verus!
