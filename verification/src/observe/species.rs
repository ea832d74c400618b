use vstd::prelude::*;

use crate::cosmos::{Cosmos, _MobBlock};
use crate::mob::bio::Bio;
use crate::mob::gene::Gene;
use crate::mob::pool::{same_gene, SpeciesPool};
use crate::mob::species::{concat, Species};

verus! {

/// What is shown of one species.
pub struct SpeciesView {
    pub name: String,
    /// How many creatures of the species are on the plate.
    pub population: usize,
}

/// What is shown of all species, in the order they appeared.
pub struct SpeciesStats {
    pub species: Vec<(Gene, SpeciesView)>,
}

/// How many of the creatures `mobs` have a species of the gene `g`.
pub open spec fn population(mobs: Seq<Option<_MobBlock<Bio>>>, g: Seq<Seq<char>>) -> nat
    decreases mobs.len(),
{
    if mobs.len() == 0 {
        0
    } else {
        population(mobs.drop_last(), g) + (match mobs.last() {
            Some(b) => if b.mob.species.gene.view() == g { 1nat } else { 0nat },
            None => 0nat,
        })
    }
}

/// Counts the creatures of the world whose species has the gene `g`.
pub(crate) fn count_population(cosmos: &Cosmos<Bio>, g: &Gene) -> (r: usize)
    ensures
        r == population(cosmos.mobs@, g.view()),
{
    let mut n: usize = 0;
    let mut i: usize = 0;
    while i < cosmos.mobs.len()
        invariant
            i <= cosmos.mobs@.len(),
            n == population(cosmos.mobs@.subrange(0, i as int), g.view()),
            n <= i,
        decreases cosmos.mobs@.len() - i,
    {
        proof {
            assert(cosmos.mobs@.subrange(0, i + 1).drop_last() =~= cosmos.mobs@.subrange(0, i as int));
        }
        match &cosmos.mobs[i] {
            Some(b) => {
                if same_gene(&b.mob.species.gene, g) {
                    n = n + 1;
                }
            },
            None => {},
        }
        i = i + 1;
    }
    proof {
        assert(cosmos.mobs@.subrange(0, i as int) =~= cosmos.mobs@);
    }
    n
}

impl SpeciesStats {
    /// For each species of the pool, in order: its gene, its name, and how many creatures of
    /// it are on the plate.
    pub fn new(cosmos: &Cosmos<Bio>, pool: &mut SpeciesPool) -> (r: SpeciesStats)
        requires
            old(pool).wf(),
        ensures
            final(pool).wf(),
            final(pool)@ == old(pool)@,
            r.species@.len() == old(pool)@.len(),
            forall|i: int| 0 <= i < r.species@.len() ==> {
                let (g, v) = #[trigger] r.species@[i];
                &&& g.view() == old(pool)@[i].0
                &&& v.name@ == concat(g.view())
                &&& v.population == population(cosmos.mobs@, g.view())
            },
    {
        let snap = pool.snapshot();
        let mut out: Vec<(Gene, SpeciesView)> = Vec::new();
        let mut i: usize = 0;
        while i < snap.len()
            invariant
                i <= snap@.len(),
                crate::mob::pool::pool_view(snap@) == pool@,
                out@.len() == i,
                forall|j: int| 0 <= j < i ==> {
                    let (g, v) = #[trigger] out@[j];
                    &&& g.view() == pool@[j].0
                    &&& v.name@ == concat(g.view())
                    &&& v.population == population(cosmos.mobs@, g.view())
                },
            decreases snap@.len() - i,
        {
            let g = snap[i].0.clone();
            let name = Species::name(&g);
            let population = count_population(cosmos, &g);
            proof {
                assert(crate::mob::pool::pool_view(snap@)[i as int].0 == snap@[i as int].0.view());
            }
            out.push((g, SpeciesView { name, population }));
            i = i + 1;
        }
        SpeciesStats { species: out }
    }
}

} // verus!
