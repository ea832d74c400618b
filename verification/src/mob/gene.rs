use vstd::prelude::*;

use crate::random::gen_range_usize;
use crate::weighted::{landing, total, weighted_index};
use rand::rngs::StdRng;

verus! {

/// A creature's gene: the names of its acids, in order.
pub struct Gene {
    pub acids: Vec<String>,
}

/// An acid and how likely a mutation inserts it.
pub struct AcidWeight {
    pub name: String,
    pub mutate_rate: usize,
}

pub open spec fn view_acids(acids: Seq<String>) -> Seq<Seq<char>> {
    acids.map_values(|s: String| s@)
}

pub open spec fn rates(table: Seq<AcidWeight>) -> Seq<usize> {
    table.map_values(|a: AcidWeight| a.mutate_rate)
}

impl Gene {
    pub open spec fn view(&self) -> Seq<Seq<char>> {
        view_acids(self.acids@)
    }

    pub fn len(&self) -> (r: usize)
        ensures
            r == self.view().len(),
    {
        self.acids.len()
    }

    pub fn clone(&self) -> (r: Gene)
        ensures
            r.view() == self.view(),
    {
        let mut acids: Vec<String> = Vec::new();
        let mut i: usize = 0;
        while i < self.acids.len()
            invariant
                i <= self.acids.len(),
                acids@.len() == i,
                forall|j: int| 0 <= j < i ==> #[trigger] acids@[j]@ == self.acids@[j]@,
            decreases self.acids.len() - i,
        {
            acids.push(self.acids[i].clone());
            i = i + 1;
        }
        let r = Gene { acids };
        proof {
            assert(r.view() =~= self.view());
        }
        r
    }

    /// The gene with the acid that `roll` lands on inserted before position `at`.
    pub fn insert_acid(self, at: usize, roll: usize, table: &Vec<AcidWeight>) -> (r: Gene)
        requires
            at <= self.view().len(),
            roll < total(rates(table@)),
        ensures
            r.view() == self.view().insert(at as int, table@[landing(rates(table@), roll as int)].name@),
    {
        let mut weights: Vec<usize> = Vec::new();
        let mut i: usize = 0;
        while i < table.len()
            invariant
                i <= table.len(),
                weights@ =~= rates(table@).subrange(0, i as int),
            decreases table.len() - i,
        {
            weights.push(table[i].mutate_rate);
            i = i + 1;
        }
        proof {
            assert(weights@ =~= rates(table@));
        }
        let k = weighted_index(&weights, roll);
        let name = table[k].name.clone();
        let mut acids = self.acids;
        acids.insert(at, name);
        let r = Gene { acids };
        proof {
            assert(r.view() =~= self.view().insert(at as int, table@[landing(rates(table@), roll as int)].name@));
        }
        r
    }

    /// The gene without the acid at position `at`.
    pub fn remove_acid(self, at: usize) -> (r: Gene)
        requires
            at < self.view().len(),
        ensures
            r.view() == self.view().remove(at as int),
    {
        let mut acids = self.acids;
        acids.remove(at);
        let r = Gene { acids };
        proof {
            assert(r.view() =~= self.view().remove(at as int));
        }
        r
    }
}

/// The acid rates can be summed, and some acid can be inserted.
pub open spec fn insertable(table: Seq<AcidWeight>) -> bool {
    0 < total(rates(table)) <= usize::MAX
}

/// Whether some acid of `table` can be inserted.
pub fn is_insertable(table: &Vec<AcidWeight>) -> (r: bool)
    ensures
        r == insertable(table@),
{
    let mut sum: usize = 0;
    let mut i: usize = 0;
    while i < table.len()
        invariant
            i <= table.len(),
            sum == total(rates(table@).subrange(0, i as int)),
        decreases table.len() - i,
    {
        proof {
            crate::weighted::lemma_total_push(rates(table@), i as int);
        }
        match sum.checked_add(table[i].mutate_rate) {
            Some(t) => sum = t,
            None => {
                proof {
                    crate::weighted::lemma_total_prefix_le(rates(table@), i as int + 1);
                }
                return false;
            },
        }
        i = i + 1;
    }
    proof {
        assert(rates(table@).subrange(0, table.len() as int) =~= rates(table@));
    }
    sum > 0
}

/// Inserts an acid, chosen at random by the mutate rates, at a random position.
pub fn insert_mutate(gene: Gene, rng: &mut StdRng, table: &Vec<AcidWeight>) -> (r: Gene)
    requires
        insertable(table@),
        gene.view().len() < usize::MAX,
    ensures
        exists|at: int, roll: int|
            0 <= at <= gene.view().len() && 0 <= roll < total(rates(table@)) && r.view() == #[trigger] gene.view().insert(
                at,
                table@[landing(rates(table@), roll)].name@,
            ),
{
    let at = gen_range_usize(rng, 0, gene.len() + 1);
    let mut sum: usize = 0;
    let mut i: usize = 0;
    while i < table.len()
        invariant
            i <= table.len(),
            total(rates(table@)) <= usize::MAX,
            sum == total(rates(table@).subrange(0, i as int)),
        decreases table.len() - i,
    {
        proof {
            crate::weighted::lemma_total_push(rates(table@), i as int);
            crate::weighted::lemma_total_prefix_le(rates(table@), i as int + 1);
        }
        sum = sum + table[i].mutate_rate;
        i = i + 1;
    }
    proof {
        assert(rates(table@).subrange(0, table.len() as int) =~= rates(table@));
    }
    let roll = gen_range_usize(rng, 0, sum);
    gene.insert_acid(at, roll, table)
}

/// Removes the acid at a random position; an empty gene stays empty.
pub fn delete_mutate(gene: Gene, rng: &mut StdRng) -> (r: Gene)
    ensures
        gene.view().len() == 0 ==> r.view() == gene.view(),
        gene.view().len() > 0 ==> exists|at: int| 0 <= at < gene.view().len() && r.view() == #[trigger] gene.view().remove(at),
{
    if gene.len() > 0 {
        let at = gen_range_usize(rng, 0, gene.len());
        gene.remove_acid(at)
    } else {
        gene
    }
}

} // verus!
