use vstd::prelude::*;

use std::sync::Arc;

use rand::rngs::StdRng;

use crate::mob::bio::share;
use crate::mob::gene::{delete_mutate, insert_mutate, insertable, rates, AcidWeight, Gene};
use crate::mob::species::Species;
use crate::weighted::{landing, total};

verus! {

/// The species of the world, one for each gene that has appeared.
pub struct SpeciesPool {
    pub species_list: Vec<(Gene, Arc<Species>)>,
    /// The list as last handed out, until a species is added.
    pub snapshot: Option<Arc<Vec<(Gene, Arc<Species>)>>>,
}

/// The genes of a list of species, with the species.
pub open spec fn pool_view(l: Seq<(Gene, Arc<Species>)>) -> Seq<(Seq<Seq<char>>, Arc<Species>)> {
    l.map_values(|e: (Gene, Arc<Species>)| (e.0.view(), e.1))
}

/// The list holds `gene` with `species`.
pub open spec fn pool_has(l: Seq<(Seq<Seq<char>>, Arc<Species>)>, gene: Seq<Seq<char>>, species: Arc<Species>) -> bool {
    exists|i: int| 0 <= i < l.len() && #[trigger] l[i] == (gene, species)
}

/// Where the list holds `gene`, if it does.
pub open spec fn pool_find(l: Seq<(Seq<Seq<char>>, Arc<Species>)>, gene: Seq<Seq<char>>) -> Option<int> {
    if exists|i: int| 0 <= i < l.len() && (#[trigger] l[i]).0 == gene {
        Some(choose|i: int| 0 <= i < l.len() && (#[trigger] l[i]).0 == gene)
    } else {
        None
    }
}

/// How a newborn's species differs from its parent's.
#[derive(Clone, Copy, Debug, PartialEq, Eq, Structural)]
pub enum Mutation {
    /// An acid is inserted into the gene.
    Insert,
    /// An acid is removed from the gene.
    Remove,
    /// The newborn is of its parent's species.
    Keep,
}

/// `p1` and `r` are what asking the pool `p0` for the species of `g` gives: the species kept
/// for `g`, or else a new one built by `make` and added at the end.
pub open spec fn asked<F: Fn(&Gene) -> Species>(p0: Seq<(Seq<Seq<char>>, Arc<Species>)>, p1: Seq<(Seq<Seq<char>>, Arc<Species>)>, g: Gene, r: Arc<Species>, make: F) -> bool {
    match pool_find(p0, g.view()) {
        Some(i) => r == p0[i].1 && p1 == p0,
        None => p1 == p0.push((g.view(), r)) && call_ensures(make, (&g,), *r),
    }
}

/// `g` is `g0` with one acid of `table`, picked by the mutate rates, inserted somewhere.
pub open spec fn inserted_gene(g0: Seq<Seq<char>>, table: Seq<AcidWeight>, g: Seq<Seq<char>>) -> bool {
    exists|at: int, roll: int|
        0 <= at <= g0.len() && 0 <= roll < total(rates(table)) && g == #[trigger] g0.insert(at, table[landing(rates(table), roll)].name@)
}

/// `g` is `g0` with one acid removed, or `g0` itself when it has none.
pub open spec fn removed_gene(g0: Seq<Seq<char>>, g: Seq<Seq<char>>) -> bool {
    &&& g0.len() == 0 ==> g == g0
    &&& g0.len() > 0 ==> exists|at: int| 0 <= at < g0.len() && g == #[trigger] g0.remove(at)
}

/// `make` builds a species of the gene it is given.
pub open spec fn builds_its_gene<F: Fn(&Gene) -> Species>(make: F) -> bool {
    forall|g: Gene, sp: Species| call_ensures(make, (&g,), sp) ==> sp.gene.view() == g.view()
}

/// Two genes with the same acids.
pub fn same_gene(a: &Gene, b: &Gene) -> (r: bool)
    ensures
        r == (a.view() == b.view()),
{
    if a.acids.len() != b.acids.len() {
        return false;
    }
    let mut i: usize = 0;
    while i < a.acids.len()
        invariant
            a.acids.len() == b.acids.len(),
            i <= a.acids.len(),
            forall|j: int| 0 <= j < i ==> a.view()[j] == b.view()[j],
        decreases a.acids.len() - i,
    {
        if a.acids[i] != b.acids[i] {
            proof {
                assert(a.view()[i as int] != b.view()[i as int]);
            }
            return false;
        }
        i = i + 1;
    }
    proof {
        assert(a.view() =~= b.view());
    }
    true
}

/// `p1` and `r` are what asking `p0` for the species of the gene `g` gives: a pool that keeps
/// each gene once with a species of that gene, and `r` of gene `g` in it. A gene already in
/// `p0` gives back its species and leaves the pool, snapshot included, as it was; a new gene
/// is added at the end with `r`, and the kept snapshot is dropped.
pub open spec fn gave_species(p0: SpeciesPool, p1: SpeciesPool, g: Seq<Seq<char>>, r: Arc<Species>) -> bool {
    &&& p1.wf()
    &&& r.gene.view() == g
    &&& match pool_find(p0@, g) {
        Some(i) => r == p0@[i].1 && p1 == p0,
        None => p1@ == p0@.push((g, r)) && p1.snapshot is None,
    }
    &&& pool_has(p1@, g, r)
}

/// `p1` and `r` are what taking a snapshot of `p0` gives: the list of `p0`'s genes and
/// species, which is the kept one when `p0` has one, and which `p1` keeps; nothing else
/// changes.
pub open spec fn gave_snapshot(p0: SpeciesPool, p1: SpeciesPool, r: Arc<Vec<(Gene, Arc<Species>)>>) -> bool {
    &&& p1.wf()
    &&& p1.species_list == p0.species_list
    &&& pool_view(r@) == p0@
    &&& p0.snapshot matches Some(s) ==> r == s
    &&& p1.snapshot == Some(r)
}

/// Asking twice for the species of one gene gives the same species, and the second time
/// leaves the pool and its snapshot as they were.
pub proof fn lemma_new_species_twice(
    p0: SpeciesPool,
    p1: SpeciesPool,
    p2: SpeciesPool,
    g: Seq<Seq<char>>,
    r1: Arc<Species>,
    r2: Arc<Species>,
)
    requires
        p0.wf(),
        gave_species(p0, p1, g, r1),
        gave_species(p1, p2, g, r2),
    ensures
        r2 == r1,
        p2 == p1,
{
    let k = choose|k: int| 0 <= k < p1@.len() && #[trigger] p1@[k] == (g, r1);
    assert(p1@[k].0 == g);
    let i = pool_find(p1@, g)->0;
    if i != k {
        if i < k {
            assert((p1@[i]).0 != (p1@[k]).0);
        } else {
            assert((p1@[k]).0 != (p1@[i]).0);
        }
    }
}

/// Two snapshots with nothing in between are the same list, and the second leaves the pool
/// as the first left it.
pub proof fn lemma_snapshot_twice(
    p0: SpeciesPool,
    p1: SpeciesPool,
    p2: SpeciesPool,
    r1: Arc<Vec<(Gene, Arc<Species>)>>,
    r2: Arc<Vec<(Gene, Arc<Species>)>>,
)
    requires
        p0.wf(),
        gave_snapshot(p0, p1, r1),
        gave_snapshot(p1, p2, r2),
    ensures
        r2 == r1,
        p2 == p1,
{
}

/// A snapshot outlives asking for a species whose gene the pool already holds: the next
/// snapshot is the same list.
pub proof fn lemma_snapshot_kept_by_known_gene(
    p0: SpeciesPool,
    p1: SpeciesPool,
    p2: SpeciesPool,
    p3: SpeciesPool,
    r1: Arc<Vec<(Gene, Arc<Species>)>>,
    g: Seq<Seq<char>>,
    a: Arc<Species>,
    r2: Arc<Vec<(Gene, Arc<Species>)>>,
)
    requires
        p0.wf(),
        gave_snapshot(p0, p1, r1),
        pool_find(p1@, g) is Some,
        gave_species(p1, p2, g, a),
        gave_snapshot(p2, p3, r2),
    ensures
        r2 == r1,
{
}

/// A snapshot taken after a species was handed out for a gene lists that gene with that
/// species, and lists no gene twice.
pub proof fn lemma_snapshot_lists_species(
    p0: SpeciesPool,
    p1: SpeciesPool,
    p2: SpeciesPool,
    g: Seq<Seq<char>>,
    a: Arc<Species>,
    r: Arc<Vec<(Gene, Arc<Species>)>>,
)
    requires
        p0.wf(),
        gave_species(p0, p1, g, a),
        gave_snapshot(p1, p2, r),
    ensures
        pool_has(pool_view(r@), g, a),
        forall|i: int, j: int| 0 <= i < j < pool_view(r@).len() ==> (#[trigger] pool_view(r@)[i]).0 != (#[trigger] pool_view(r@)[j]).0,
{
}

impl SpeciesPool {
    /// The genes and species, in the order they were added.
    pub open spec fn view(&self) -> Seq<(Seq<Seq<char>>, Arc<Species>)> {
        pool_view(self.species_list@)
    }

    /// No gene appears twice, each species is of the gene it is kept for, and a kept
    /// snapshot lists exactly the species.
    pub open spec fn wf(&self) -> bool {
        &&& forall|i: int, j: int| 0 <= i < j < self@.len() ==> (#[trigger] self@[i]).0 != (#[trigger] self@[j]).0
        &&& forall|i: int| 0 <= i < self@.len() ==> (#[trigger] self@[i]).1.gene.view() == self@[i].0
        &&& self.snapshot matches Some(s) ==> pool_view(s@) == self@
    }

    /// An empty pool.
    pub fn new() -> (r: SpeciesPool)
        ensures
            r.wf(),
            r@ == Seq::<(Seq<Seq<char>>, Arc<Species>)>::empty(),
    {
        let r = SpeciesPool { species_list: Vec::new(), snapshot: None };
        proof {
            assert(r@ =~= Seq::<(Seq<Seq<char>>, Arc<Species>)>::empty());
        }
        r
    }

    /// The species of `gene`: the one already in the pool, which leaves the pool and its
    /// snapshot as they were, or else the one `make` builds, which is added.
    pub fn new_species<F: Fn(&Gene) -> Species>(&mut self, gene: Gene, make: F) -> (r: Arc<Species>)
        requires
            old(self).wf(),
            call_requires(make, (&gene,)),
            builds_its_gene(make),
        ensures
            gave_species(*old(self), *final(self), gene.view(), r),
            pool_find(old(self)@, gene.view()) is None ==> call_ensures(make, (&gene,), *r),
    {
        let mut i: usize = 0;
        while i < self.species_list.len()
            invariant
                i <= self.species_list@.len(),
                self.wf(),
                *self == *old(self),
                forall|j: int| 0 <= j < i ==> (#[trigger] self@[j]).0 != gene.view(),
            decreases self.species_list@.len() - i,
        {
            if same_gene(&self.species_list[i].0, &gene) {
                let found = share(&self.species_list[i].1);
                proof {
                    assert(self@[i as int].0 == gene.view());
                    let k = pool_find(self@, gene.view())->0;
                    assert(self@[k].0 == gene.view());
                    if k != i {
                        if k < i {
                            assert(self@[k].0 != gene.view());
                        } else {
                            assert((self@[i as int]).0 != (self@[k]).0);
                        }
                    }
                    assert(self@[i as int] == (gene.view(), found));
                }
                return found;
            }
            i = i + 1;
        }
        let species = Arc::new(make(&gene));
        let ghost g = gene.view();
        let kept = share(&species);
        self.species_list.push((gene, kept));
        self.snapshot = None;
        proof {
            assert(pool_find(old(self)@, g) is None);
            assert(self@ =~= old(self)@.push((g, species)));
            assert(self@[self@.len() - 1] == (g, species));
        }
        species
    }

    /// The genes and species of the pool, in the order they were added; the list is kept
    /// and handed out again until a species is added, so two snapshots with no new species
    /// in between are the same.
    pub fn snapshot(&mut self) -> (r: Arc<Vec<(Gene, Arc<Species>)>>)
        requires
            old(self).wf(),
        ensures
            gave_snapshot(*old(self), *final(self), r),
    {
        match &self.snapshot {
            Some(s) => {
                return share(s);
            },
            None => {},
        }
        let mut x: Vec<(Gene, Arc<Species>)> = Vec::new();
        let mut i: usize = 0;
        while i < self.species_list.len()
            invariant
                i <= self.species_list@.len(),
                *self == *old(self),
                pool_view(x@) == self@.subrange(0, i as int),
            decreases self.species_list@.len() - i,
        {
            let g = self.species_list[i].0.clone();
            let sp = share(&self.species_list[i].1);
            let ghost before = x@;
            x.push((g, sp));
            proof {
                assert(pool_view(x@) =~= pool_view(before).push((self@[i as int].0, self@[i as int].1)));
                assert(self@.subrange(0, i + 1) =~= self@.subrange(0, i as int).push(self@[i as int]));
            }
            i = i + 1;
        }
        proof {
            assert(self@.subrange(0, i as int) =~= self@);
        }
        let shared = Arc::new(x);
        self.snapshot = Some(share(&shared));
        shared
    }

    /// The species of a newborn whose parent is of `species`: with `Insert`, the species of
    /// the parent's gene with an acid inserted; with `Remove`, of the gene with an acid
    /// removed; with `Keep`, the parent's own species.
    pub fn clone_species<F: Fn(&Gene) -> Species>(
        &mut self,
        species: &Arc<Species>,
        mutation: Mutation,
        rng: &mut StdRng,
        acids: &Vec<AcidWeight>,
        make: F,
    ) -> (r: Arc<Species>)
        requires
            old(self).wf(),
            forall|g: Gene| call_requires(make, (&g,)),
            builds_its_gene(make),
            mutation == Mutation::Insert ==> insertable(acids@) && species.gene.view().len() < usize::MAX,
        ensures
            final(self).wf(),
            mutation == Mutation::Keep ==> r == *species && *final(self) == *old(self),
            mutation == Mutation::Insert ==> inserted_gene(species.gene.view(), acids@, r.gene.view()) && exists|g: Gene|
                g.view() == r.gene.view() && #[trigger] asked(old(self)@, final(self)@, g, r, make),
            mutation == Mutation::Remove ==> removed_gene(species.gene.view(), r.gene.view()) && exists|g: Gene|
                g.view() == r.gene.view() && #[trigger] asked(old(self)@, final(self)@, g, r, make),
    {
        let gene = match mutation {
            Mutation::Keep => {
                return share(species);
            },
            Mutation::Insert => insert_mutate(species.gene.clone(), rng, acids),
            Mutation::Remove => delete_mutate(species.gene.clone(), rng),
        };
        let ghost g = gene;
        let ghost p0 = self@;
        let r = self.new_species(gene, make);
        proof {
            assert(asked(p0, self@, g, r, make));
        }
        r
    }
}

} // verus!
