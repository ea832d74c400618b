use vstd::prelude::*;

use std::sync::Arc;

use rand::rngs::StdRng;

use crate::conf::Creature;
use crate::cosmos::{Cosmos, MobBox, _MobBlock};
use crate::grids::{offset, span, spec_normalize_area, spec_offset, spec_span, Coord, Crd, CrdI};
use crate::mob::bio::Bio;
use crate::mob::bio_order::{size_fits, spec_newborn};
use crate::mob::gene::{insert_mutate, insertable, is_insertable, rates, AcidWeight, Gene};
use crate::mob::letters::{Msg, Post};
use crate::mob::pool::{builds_its_gene, pool_has, SpeciesPool};
use crate::mob::species::Species;
use crate::observe::logger::Logger;
use crate::observe::stats::{ledger_add, Stats};
use crate::plate::{covers, in_plate, Plate};
use crate::random::{gen_range_usize, gen_ratio, sample_uniform_isize};
use crate::gnd::plant::Plant;
use crate::gnd::prop::{gen_possibility, CLASS_COUNT};
use crate::gnd::{Ground, Item};
use crate::refs::Weak;
use crate::types::Tick;
use crate::weighted::{landing, total, weighted_index};

verus! {

/// `g` is `prev` with one acid drawn from `table` inserted somewhere.
pub open spec fn insertion_of(prev: Seq<Seq<char>>, table: Seq<AcidWeight>, g: Seq<Seq<char>>) -> bool {
    exists|at: int, roll: int|
        0 <= at <= prev.len() && 0 <= roll < total(rates(table)) && g == #[trigger] prev.insert(
            at,
            table[landing(rates(table), roll)].name@,
        )
}

/// `steps` goes from `g0` to `g` by `n` insert mutations drawing acids from `table`.
pub open spec fn insertion_chain(steps: Seq<Seq<Seq<char>>>, g0: Seq<Seq<char>>, n: nat, table: Seq<AcidWeight>, g: Seq<Seq<char>>) -> bool {
    &&& steps.len() == n + 1
    &&& steps[0] == g0
    &&& steps[n as int] == g
    &&& forall|i: int| 0 <= i < n ==> insertion_of(#[trigger] steps[i], table, steps[i + 1])
}

/// `g` is `g0` after `n` insert mutations drawing acids from `table`.
pub open spec fn grown(g0: Seq<Seq<char>>, n: nat, table: Seq<AcidWeight>, g: Seq<Seq<char>>) -> bool {
    exists|steps: Seq<Seq<Seq<char>>>| #[trigger] insertion_chain(steps, g0, n, table, g)
}

/// The weights of the creature templates.
pub open spec fn weights(cs: Seq<Creature>) -> Seq<usize> {
    cs.map_values(|c: Creature| c.weight)
}

/// `g` is a gene a template drawn by weight can grow into.
pub open spec fn spawnable(cs: Seq<Creature>, table: Seq<AcidWeight>, g: Seq<Seq<char>>) -> bool {
    exists|roll: int|
        0 <= roll < total(weights(cs)) && #[trigger] grown(
            cs[landing(weights(cs), roll)].gene.view(),
            cs[landing(weights(cs), roll)].insertions as nat,
            table,
            g,
        )
}

/// Templates to draw from: their weights sum to something positive that fits a `usize`;
/// where one asks for insertions there are acids to insert, and no gene grows too long.
pub open spec fn templates_ok(cs: Seq<Creature>, table: Seq<AcidWeight>) -> bool {
    &&& 0 < total(weights(cs)) <= usize::MAX
    &&& forall|k: int| 0 <= k < cs.len() ==> {
        &&& (#[trigger] cs[k]).insertions > 0 ==> insertable(table)
        &&& cs[k].gene.view().len() + cs[k].insertions < usize::MAX
    }
}

/// Whether the templates can be drawn from, as `templates_ok` asks.
pub fn templates_usable(creatures: &Vec<Creature>, acids: &Vec<AcidWeight>) -> (r: bool)
    ensures
        r == templates_ok(creatures@, acids@),
{
    let can_insert = is_insertable(acids);
    let mut sum: usize = 0;
    let mut i: usize = 0;
    while i < creatures.len()
        invariant
            i <= creatures@.len(),
            can_insert == insertable(acids@),
            sum == total(weights(creatures@).subrange(0, i as int)),
            forall|k: int| 0 <= k < i ==> {
                &&& (#[trigger] creatures@[k]).insertions > 0 ==> insertable(acids@)
                &&& creatures@[k].gene.view().len() + creatures@[k].insertions < usize::MAX
            },
        decreases creatures@.len() - i,
    {
        proof {
            crate::weighted::lemma_total_push(weights(creatures@), i as int);
        }
        let c = &creatures[i];
        if c.insertions > 0 && !can_insert {
            return false;
        }
        if c.insertions >= usize::MAX - c.gene.len() {
            return false;
        }
        match sum.checked_add(c.weight) {
            Some(t) => sum = t,
            None => {
                proof {
                    crate::weighted::lemma_total_prefix_le(weights(creatures@), i as int + 1);
                }
                return false;
            },
        }
        i = i + 1;
    }
    proof {
        assert(weights(creatures@).subrange(0, creatures@.len() as int) =~= weights(creatures@));
    }
    sum > 0
}

/// Draws a template by weight and grows its gene by the template's insertions.
pub fn pick_gene(creatures: &Vec<Creature>, acids: &Vec<AcidWeight>, rng: &mut StdRng) -> (r: Gene)
    requires
        templates_ok(creatures@, acids@),
    ensures
        spawnable(creatures@, acids@, r.view()),
{
    let mut ws: Vec<usize> = Vec::new();
    let mut sum: usize = 0;
    let mut i: usize = 0;
    while i < creatures.len()
        invariant
            i <= creatures.len(),
            total(weights(creatures@)) <= usize::MAX,
            ws@ == weights(creatures@).subrange(0, i as int),
            sum == total(ws@),
        decreases creatures.len() - i,
    {
        proof {
            crate::weighted::lemma_total_push(weights(creatures@), i as int);
            crate::weighted::lemma_total_prefix_le(weights(creatures@), i as int + 1);
            assert(weights(creatures@).subrange(0, i + 1) =~= ws@.push(creatures@[i as int].weight));
        }
        sum = sum + creatures[i].weight;
        ws.push(creatures[i].weight);
        i = i + 1;
    }
    proof {
        assert(ws@ =~= weights(creatures@));
    }
    let roll = gen_range_usize(rng, 0, sum);
    let k = weighted_index(&ws, roll);
    let c = &creatures[k];
    let ghost g0 = c.gene.view();
    let mut gene = c.gene.clone();
    let ghost mut steps: Seq<Seq<Seq<char>>> = seq![g0];
    let mut n: usize = 0;
    while n < c.insertions
        invariant
            templates_ok(creatures@, acids@),
            k < creatures@.len(),
            c == creatures@[k as int],
            g0 == c.gene.view(),
            n <= c.insertions,
            gene.view().len() == g0.len() + n,
            insertion_chain(steps, g0, n as nat, acids@, gene.view()),
        decreases c.insertions - n,
    {
        let ghost prev = gene.view();
        gene = insert_mutate(gene, rng, acids);
        proof {
            assert(insertion_of(prev, acids@, gene.view()));
            let old_steps = steps;
            steps = steps.push(gene.view());
            assert forall|i: int| 0 <= i < n + 1 implies insertion_of(#[trigger] steps[i], acids@, steps[i + 1]) by {
                if i < n {
                    assert(steps[i] == old_steps[i]);
                    assert(steps[i + 1] == old_steps[i + 1]);
                }
            }
        }
        n = n + 1;
    }
    proof {
        assert(insertion_chain(steps, g0, n as nat, acids@, gene.view()));
    }
    proof {
        assert(grown(creatures@[landing(weights(creatures@), roll as int)].gene.view(), creatures@[landing(weights(creatures@), roll as int)].insertions as nat, acids@, gene.view()));
    }
    gene
}

/// Where a creature of `size` is set when drawn at `(x, y)`: its area from `(x, y)` on,
/// brought into the plate.
pub open spec fn spawn_area(plate: Crd, size: Crd, x: int, y: int) -> CrdI {
    spec_normalize_area(plate, spec_offset(spec_span(Coord(0, 0), size), Coord(x as isize, y as isize)))
}

/// `c` is `c0` with `bio` set at `a` in the next slot.
pub open spec fn spawned_at(c0: Cosmos<Bio>, c: Cosmos<Bio>, bio: Bio, a: CrdI) -> bool {
    &&& c.mobs@ == c0.mobs@.push(Some(_MobBlock { at: a, on_plate: true, log: Logger {}, mob: bio }))
    &&& c.plate.filled_from(c0.plate, a, Some(c0.mobs@.len() as usize))
    &&& c.properties == c0.properties
}

/// No creature stands anywhere on the plate.
pub open spec fn empty_plate(p: Plate) -> bool {
    forall|x: int, y: int| #[trigger] in_plate(p.size, x, y) ==> p.mob_at(x, y) is None
}

/// No creature stands on any cell of the area `a` of the plate.
pub open spec fn area_free(p: Plate, a: CrdI) -> bool {
    forall|x: int, y: int| #[trigger] in_plate(p.size, x, y) && covers(p.size, a, x, y) ==> p.mob_at(x, y) is None
}

/// A creature of `size` drawn at `t` would find its area free in `c`.
pub open spec fn try_free(c: Cosmos<Bio>, size: Crd, t: (isize, isize)) -> bool {
    area_free(c.plate, spawn_area(c.plate.size, size, t.0 as int, t.1 as int))
}

/// `i` is the first of `tries` at which a creature of `size` finds its area free in `c`.
pub open spec fn first_free(c: Cosmos<Bio>, size: Crd, tries: Seq<(isize, isize)>, i: int) -> bool {
    &&& 0 <= i < tries.len()
    &&& try_free(c, size, tries[i])
    &&& forall|j: int| 0 <= j < i ==> !try_free(c, size, #[trigger] tries[j])
}

/// Every position of `tries` lies on a plate of `plate` cells.
pub open spec fn tries_on_plate(plate: Crd, tries: Seq<(isize, isize)>) -> bool {
    forall|i: int| 0 <= i < tries.len() ==> 0 <= (#[trigger] tries[i]).0 < plate.0 && 0 <= tries[i].1 < plate.1
}

/// `c1` and `r` are what setting `bio` at the first of `tries` where its area is free in `c0`
/// gives: it is set exactly when one of them is free, in the next slot and at the area of the
/// first free one; when none is, the world is left alone.
pub open spec fn placed_first_free(c0: Cosmos<Bio>, c1: Cosmos<Bio>, bio: Bio, tries: Seq<(isize, isize)>, r: Option<Weak>) -> bool {
    &&& c1.wf()
    &&& r is Some <==> exists|i: int| 0 <= i < tries.len() && #[trigger] try_free(c0, bio.species.size, tries[i])
    &&& r matches Some(w) ==> w.slot == c0.mobs@.len() && exists|i: int|
        #[trigger] first_free(c0, bio.species.size, tries, i) && spawned_at(
            c0,
            c1,
            bio,
            spawn_area(c0.plate.size, bio.species.size, tries[i].0 as int, tries[i].1 as int),
        )
    &&& r is None ==> c1 == c0
}

/// Sets `bio` at the first of `tries` where its area is free. It is set exactly when one of
/// them is free, in the next slot and at the area of the first free one; when none is, the
/// world is left alone.
pub fn place_first_free(cosmos: &mut Cosmos<Bio>, bio: Bio, tries: &Vec<(isize, isize)>) -> (r: Option<Weak>)
    requires
        old(cosmos).wf(),
        size_fits(old(cosmos).plate.size, bio.species.size),
        tries_on_plate(old(cosmos).plate.size, tries@),
    ensures
        placed_first_free(*old(cosmos), *final(cosmos), bio, tries@, r),
{
    let plate = cosmos.plate.size;
    let size = bio.species.size;
    let base = span(Coord(0, 0), size);
    let mut b = MobBox { block: _MobBlock { at: base, on_plate: false, log: Logger {}, mob: bio } };
    let mut n: usize = 0;
    while n < tries.len()
        invariant
            *cosmos == *old(cosmos),
            old(cosmos).wf(),
            plate == old(cosmos).plate.size,
            size == bio.species.size,
            size_fits(plate, size),
            tries_on_plate(plate, tries@),
            base == spec_span(Coord(0, 0), size),
            b.block.mob == bio,
            b.block.log == (Logger {}),
            !b.block.on_plate,
            n <= tries@.len(),
            forall|j: int| 0 <= j < n ==> !try_free(*old(cosmos), size, #[trigger] tries@[j]),
        decreases tries@.len() - n,
    {
        let (x, y) = tries[n];
        proof {
            assert(0 <= (tries@[n as int]).0 < plate.0);
        }
        let at = offset(base, Coord(x, y));
        b.block.at = at;
        match cosmos.set(b) {
            Ok(w) => {
                proof {
                    assert(first_free(*old(cosmos), size, tries@, n as int));
                    assert(spawned_at(*old(cosmos), *cosmos, bio, spawn_area(plate, size, x as int, y as int)));
                }
                return Some(w);
            },
            Err(m) => {
                b = m;
            },
        }
        n = n + 1;
    }
    None
}

/// Tries up to `retry` times to set `bio` at a place drawn at random: the `retry` places are
/// drawn on the plate, and the creature is set at the first of them where its area is free
/// (see `place_first_free`). A creature that does not fit on the plate is never set, and one
/// that fits is set at the first try on a plate where no creature stands. On success the
/// creature has the next slot; otherwise the world is left alone.
pub fn place_bio(cosmos: &mut Cosmos<Bio>, bio: Bio, retry: usize, rng: &mut StdRng) -> (r: Option<Weak>)
    requires
        old(cosmos).wf(),
    ensures
        final(cosmos).wf(),
        r is None ==> *final(cosmos) == *old(cosmos),
        r matches Some(w) ==> w.slot == old(cosmos).mobs@.len() && exists|x: int, y: int|
            0 <= x < old(cosmos).plate.size.0 && 0 <= y < old(cosmos).plate.size.1 && spawned_at(
                *old(cosmos),
                *final(cosmos),
                bio,
                #[trigger] spawn_area(old(cosmos).plate.size, bio.species.size, x, y),
            ),
        retry == 0 ==> r is None,
        !size_fits(old(cosmos).plate.size, bio.species.size) ==> r is None,
        retry > 0 && size_fits(old(cosmos).plate.size, bio.species.size) && empty_plate(old(cosmos).plate) ==> r is Some,
        size_fits(old(cosmos).plate.size, bio.species.size) ==> exists|tries: Seq<(isize, isize)>|
            tries.len() == retry && tries_on_plate(old(cosmos).plate.size, tries)
                && #[trigger] placed_first_free(*old(cosmos), *final(cosmos), bio, tries, r),
{
    let plate = cosmos.plate.size;
    let size = bio.species.size;
    if !(0 <= size.0 && size.0 < plate.0 && 0 <= size.1 && size.1 < plate.1) {
        return None;
    }
    let mut tries: Vec<(isize, isize)> = Vec::new();
    let mut n: usize = 0;
    while n < retry
        invariant
            plate == old(cosmos).plate.size,
            0 < plate.0 && 0 < plate.1,
            n <= retry,
            tries@.len() == n,
            tries_on_plate(plate, tries@),
        decreases retry - n,
    {
        let x = sample_uniform_isize(rng, 0, plate.0);
        let y = sample_uniform_isize(rng, 0, plate.1);
        tries.push((x, y));
        n = n + 1;
    }
    let ghost c0 = *cosmos;
    proof {
        if retry > 0 && empty_plate(c0.plate) {
            assert(try_free(c0, size, tries@[0]));
        }
    }
    let r = place_first_free(cosmos, bio, &tries);
    proof {
        assert(placed_first_free(c0, *cosmos, bio, tries@, r));
        if let Some(w) = r {
            let i = choose|i: int| #[trigger] first_free(c0, size, tries@, i) && spawned_at(
                c0,
                *cosmos,
                bio,
                spawn_area(plate, size, tries@[i].0 as int, tries@[i].1 as int),
            );
            assert(0 <= (tries@[i]).0 < plate.0);
        }
    }
    r
}

/// What `gen_bio` leaves in slot `s` of `c`: a newborn, with its starting energy, of the
/// pool's species for a gene the templates can grow into.
pub open spec fn spawned_bio(
    c: Cosmos<Bio>,
    s: usize,
    cs: Seq<Creature>,
    table: Seq<AcidWeight>,
    pool: Seq<(Seq<Seq<char>>, Arc<Species>)>,
) -> bool {
    &&& c.alive(s)
    &&& c.block(s).mob == spec_newborn(c.block(s).mob.species, c.block(s).mob.species.spawn_init_energy)
    &&& exists|g: Seq<Seq<char>>| spawnable(cs, table, g) && #[trigger] pool_has(pool, g, c.block(s).mob.species)
}

/// `p` starts with `p0`.
pub open spec fn pool_grown(p0: Seq<(Seq<Seq<char>>, Arc<Species>)>, p: Seq<(Seq<Seq<char>>, Arc<Species>)>) -> bool {
    p0.len() <= p.len() && p.subrange(0, p0.len() as int) == p0
}

/// Every cell of `p` either holds what it held in `p0`, or a creature of a slot from `from` on;
/// no ground changes.
pub open spec fn only_new_cells(p0: Plate, p: Plate, from: int) -> bool {
    &&& p.size == p0.size
    &&& p.blocks@.len() == p0.blocks@.len()
    &&& forall|k: int| 0 <= k < p.blocks@.len() ==> #[trigger] p.blocks@[k].ground == p0.blocks@[k].ground
    &&& forall|x: int, y: int| #[trigger] in_plate(p.size, x, y) ==>
        p.mob_at(x, y) == p0.mob_at(x, y) || (p.mob_at(x, y) matches Some(t) && t >= from)
}

/// The ledger `l` after a creature of each species of `made`, in order, was made with its
/// species' starting energy.
pub open spec fn ledger_born(l: Seq<(Seq<Seq<char>>, i64)>, made: Seq<Arc<Species>>) -> Seq<(Seq<Seq<char>>, i64)>
    decreases made.len(),
{
    if made.len() == 0 {
        l
    } else {
        ledger_add(ledger_born(l, made.drop_last()), made.last().gene.view(), made.last().spawn_init_energy as int)
    }
}

/// `made` are the species of the creatures made, each in the pool `p`, of a gene a template
/// grows into, and `l1` is `l0` with their starting energies recorded.
pub open spec fn made_creatures(l0: Seq<(Seq<Seq<char>>, i64)>, l1: Seq<(Seq<Seq<char>>, i64)>, made: Seq<Arc<Species>>, p: Seq<(Seq<Seq<char>>, Arc<Species>)>, cs: Seq<Creature>, table: Seq<AcidWeight>) -> bool {
    &&& l1 == ledger_born(l0, made)
    &&& forall|i: int| 0 <= i < made.len() ==> #[trigger] made_of(p, cs, table, made[i])
}

/// `sp` is in the pool `p`, of a gene a template grows into.
pub open spec fn made_of(p: Seq<(Seq<Seq<char>>, Arc<Species>)>, cs: Seq<Creature>, table: Seq<AcidWeight>, sp: Arc<Species>) -> bool {
    spawnable(cs, table, sp.gene.view()) && pool_has(p, sp.gene.view(), sp)
}

/// Every species the pool `p` holds, and every species `make` builds, fits a plate of `size`.
pub open spec fn species_fit<F: Fn(&Gene) -> Species>(p: Seq<(Seq<Seq<char>>, Arc<Species>)>, size: Crd, make: F) -> bool {
    &&& forall|i: int| 0 <= i < p.len() ==> size_fits(size, (#[trigger] p[i]).1.size)
    &&& forall|g: Gene, sp: Species| call_ensures(make, (&g,), sp) ==> size_fits(size, sp.size)
}

/// Makes `count` creatures: for each, a template is drawn and its gene grown (see
/// `pick_gene`), the pool gives the species of that gene (`make` builds a new one), and a
/// newborn of it, with the species' starting energy, is set at a random place (see
/// `place_bio`). Each creature set is asked to wake up once its species' incubation is over.
/// On a plate where no creature stands, with at least one try, the first creature is always
/// set when every species it can be of fits the plate.
pub fn gen_bio<F: Fn(&Gene) -> Species>(
    cosmos: &mut Cosmos<Bio>,
    pool: &mut SpeciesPool,
    stats: &mut Stats,
    count: u32,
    creatures: &Vec<Creature>,
    acids: &Vec<AcidWeight>,
    retry: usize,
    rng: &mut StdRng,
    make: F,
) -> (r: Vec<Post>)
    requires
        old(cosmos).wf(),
        old(pool).wf(),
        old(stats).bio_energy_store.wf(),
        templates_ok(creatures@, acids@),
        forall|g: Gene| call_requires(make, (&g,)),
        builds_its_gene(make),
    ensures
        final(cosmos).wf(),
        final(pool).wf(),
        pool_grown(old(pool)@, final(pool)@),
        final(cosmos).properties == old(cosmos).properties,
        old(cosmos).mobs@.len() <= final(cosmos).mobs@.len(),
        forall|i: int| 0 <= i < old(cosmos).mobs@.len() ==> final(cosmos).mobs@[i] == old(cosmos).mobs@[i],
        only_new_cells(old(cosmos).plate, final(cosmos).plate, old(cosmos).mobs@.len() as int),
        r@.len() == final(cosmos).mobs@.len() - old(cosmos).mobs@.len(),
        r@.len() <= count,
        final(stats).bio_energy_store.wf(),
        exists|made: Seq<Arc<Species>>| made.len() == count && #[trigger] made_creatures(
            old(stats).bio_energy_store@,
            final(stats).bio_energy_store@,
            made,
            final(pool)@,
            creatures@,
            acids@,
        ),
        count > 0 && retry > 0 && empty_plate(old(cosmos).plate) && species_fit(old(pool)@, old(cosmos).plate.size, make)
            ==> r@.len() >= 1,
        forall|k: int| 0 <= k < r@.len() ==> {
            let s = (old(cosmos).mobs@.len() + k) as usize;
            &&& spawned_bio(*final(cosmos), s, creatures@, acids@, final(pool)@)
            &&& #[trigger] r@[k] == Post::Tell {
                to: Weak { slot: s },
                msg: Msg::Wake,
                delay: final(cosmos).block(s).mob.species.incubation_delay,
            }
        },
{
    let ghost c0 = *cosmos;
    let ghost mut made: Seq<Arc<Species>> = Seq::empty();
    let mut posts: Vec<Post> = Vec::new();
    let mut n: u32 = 0;
    proof {
        assert(pool@.subrange(0, pool@.len() as int) =~= pool@);
    }
    while n < count
        invariant
            cosmos.wf(),
            c0 == *old(cosmos),
            pool.wf(),
            pool_grown(old(pool)@, pool@),
            templates_ok(creatures@, acids@),
            forall|g: Gene| call_requires(make, (&g,)),
            builds_its_gene(make),
            n <= count,
            cosmos.properties == c0.properties,
            c0.mobs@.len() <= cosmos.mobs@.len(),
            forall|i: int| 0 <= i < c0.mobs@.len() ==> cosmos.mobs@[i] == c0.mobs@[i],
            only_new_cells(c0.plate, cosmos.plate, c0.mobs@.len() as int),
            posts@.len() == cosmos.mobs@.len() - c0.mobs@.len(),
            posts@.len() <= n,
            n == 0 ==> cosmos.plate == c0.plate && pool@ == old(pool)@,
            stats.bio_energy_store.wf(),
            made.len() == n,
            made_creatures(old(stats).bio_energy_store@, stats.bio_energy_store@, made, pool@, creatures@, acids@),
            n > 0 && retry > 0 && empty_plate(c0.plate) && species_fit(old(pool)@, c0.plate.size, make) ==> posts@.len() >= 1,
            forall|k: int| 0 <= k < posts@.len() ==> {
                let s = (c0.mobs@.len() + k) as usize;
                &&& spawned_bio(*cosmos, s, creatures@, acids@, pool@)
                &&& #[trigger] posts@[k] == Post::Tell {
                    to: Weak { slot: s },
                    msg: Msg::Wake,
                    delay: cosmos.block(s).mob.species.incubation_delay,
                }
            },
        decreases count - n,
    {
        let gene = pick_gene(creatures, acids, rng);
        let ghost g = gene.view();
        let ghost p1 = pool@;
        let species = pool.new_species(gene, &make);
        proof {
            assert(pool@.subrange(0, p1.len() as int) =~= p1);
            lemma_pool_grown_trans(old(pool)@, p1, pool@);
            assert forall|k: int| 0 <= k < posts@.len() implies {
                let s = (c0.mobs@.len() + k) as usize;
                &&& spawned_bio(*cosmos, s, creatures@, acids@, pool@)
                &&& #[trigger] posts@[k] == Post::Tell {
                    to: Weak { slot: s },
                    msg: Msg::Wake,
                    delay: cosmos.block(s).mob.species.incubation_delay,
                }
            } by {
                let s = (c0.mobs@.len() + k) as usize;
                assert(spawned_bio(*cosmos, s, creatures@, acids@, p1));
                let g2 = choose|g2: Seq<Seq<char>>| spawnable(creatures@, acids@, g2) && #[trigger] pool_has(p1, g2, cosmos.block(s).mob.species);
                lemma_pool_has_grown(p1, pool@, g2, cosmos.block(s).mob.species);
            }
        }
        let energy = species.spawn_init_energy;
        let delay = species.incubation_delay;
        stats.bio_energy_store.add(&species.gene, energy as i64);
        proof {
            assert forall|i: int| 0 <= i < made.len() implies #[trigger] made_of(pool@, creatures@, acids@, made[i]) by {
                assert(made_of(p1, creatures@, acids@, made[i]));
                lemma_pool_has_grown(p1, pool@, made[i].gene.view(), made[i]);
            }
            assert(species.gene.view() == g);
            assert(made_of(pool@, creatures@, acids@, species));
            let made2 = made.push(species);
            assert(made2.drop_last() =~= made);
            assert forall|i: int| 0 <= i < made2.len() implies #[trigger] made_of(pool@, creatures@, acids@, made2[i]) by {
                if i < made.len() {
                    assert(made2[i] == made[i]);
                } else {
                    assert(made2[i] == species);
                }
            }
            made = made2;
        }
        let bio = Bio::new(species, energy);
        let ghost c1 = *cosmos;
        match place_bio(cosmos, bio, retry, rng) {
            Some(w) => {
                posts.push(Post::Tell { to: w, msg: Msg::Wake, delay });
                proof {
                    let (x, y) = choose|x: int, y: int|
                        0 <= x < c1.plate.size.0 && 0 <= y < c1.plate.size.1 && spawned_at(
                            c1,
                            *cosmos,
                            bio,
                            #[trigger] spawn_area(c1.plate.size, bio.species.size, x, y),
                        );
                    let a = spawn_area(c1.plate.size, bio.species.size, x, y);
                    assert(cosmos.block(w.slot).mob == bio);
                    assert(pool_has(pool@, g, bio.species));
                    assert forall|k: int| 0 <= k < posts@.len() implies {
                        let s = (c0.mobs@.len() + k) as usize;
                        &&& spawned_bio(*cosmos, s, creatures@, acids@, pool@)
                        &&& #[trigger] posts@[k] == Post::Tell {
                            to: Weak { slot: s },
                            msg: Msg::Wake,
                            delay: cosmos.block(s).mob.species.incubation_delay,
                        }
                    } by {
                        let s = (c0.mobs@.len() + k) as usize;
                        if k < posts@.len() - 1 {
                            assert(cosmos.mobs@[s as int] == c1.mobs@[s as int]);
                            assert(spawned_bio(c1, s, creatures@, acids@, pool@));
                        } else {
                            assert(s == w.slot);
                        }
                    }
                    assert forall|x2: int, y2: int| #[trigger] in_plate(cosmos.plate.size, x2, y2) implies
                        cosmos.plate.mob_at(x2, y2) == c0.plate.mob_at(x2, y2) || (cosmos.plate.mob_at(x2, y2) matches Some(t) && t
                            >= c0.mobs@.len()) by {
                        assert(in_plate(c1.plate.size, x2, y2));
                    }
                }
            },
            None => {},
        }
        n = n + 1;
    }
    proof {
        assert(made_creatures(old(stats).bio_energy_store@, stats.bio_energy_store@, made, pool@, creatures@, acids@));
    }
    posts
}

/// Growing is transitive.
proof fn lemma_pool_grown_trans(a: Seq<(Seq<Seq<char>>, Arc<Species>)>, b: Seq<(Seq<Seq<char>>, Arc<Species>)>, c: Seq<(Seq<Seq<char>>, Arc<Species>)>)
    requires
        pool_grown(a, b),
        pool_grown(b, c),
    ensures
        pool_grown(a, c),
{
    assert(c.subrange(0, a.len() as int) =~= b.subrange(0, a.len() as int));
}

/// What a list holds, the longer list holds too.
proof fn lemma_pool_has_grown(a: Seq<(Seq<Seq<char>>, Arc<Species>)>, b: Seq<(Seq<Seq<char>>, Arc<Species>)>, g: Seq<Seq<char>>, sp: Arc<Species>)
    requires
        pool_grown(a, b),
        pool_has(a, g, sp),
    ensures
        pool_has(b, g, sp),
{
    let i = choose|i: int| 0 <= i < a.len() && #[trigger] a[i] == (g, sp);
    assert(b.subrange(0, a.len() as int)[i] == b[i]);
    assert(b[i] == (g, sp));
}

/// The ground of `g1` is `g0`'s, or a plant of a known class born at `now` sprouted in it.
pub open spec fn sown(g0: crate::gnd::Ground, g1: crate::gnd::Ground, now: Tick) -> bool {
    &&& g1.env == g0.env
    &&& g1.item == g0.item || (g1.item matches Item::Plant(p) && p.kind < CLASS_COUNT && p.birthday == now)
}

/// `k` is the first plant class whose draw in `draws` came up.
pub open spec fn first_drawn(draws: Seq<bool>, k: int) -> bool {
    &&& 0 <= k < CLASS_COUNT && k < draws.len()
    &&& draws[k]
    &&& forall|j: int| 0 <= j < k ==> !#[trigger] draws[j]
}

/// Sows one cell from the draws of the plant classes, taken in order: the first class whose
/// draw came up sprouts there as a plant born `now`; when none did, the cell keeps its ground.
pub fn sow_cell(ground: &mut Ground, now: Tick, draws: &Vec<bool>)
    ensures
        final(ground).env == old(ground).env,
        forall|k: int| #[trigger] first_drawn(draws@, k) ==> final(ground).item == Item::Plant(Plant { kind: k as u8, birthday: now }),
        (forall|k: int| 0 <= k < CLASS_COUNT && k < draws@.len() ==> !#[trigger] draws@[k]) ==> final(ground).item == old(ground).item,
        sown(*old(ground), *final(ground), now),
{
    let n = draws.len();
    let mut k: usize = 0;
    while k < n && k < CLASS_COUNT as usize
        invariant
            *ground == *old(ground),
            n == draws@.len(),
            k <= n,
            k <= CLASS_COUNT,
            forall|j: int| 0 <= j < k ==> !#[trigger] draws@[j],
        decreases n - k,
    {
        if draws[k] {
            ground.item = Item::Plant(Plant { kind: k as u8, birthday: now });
            proof {
                assert(first_drawn(draws@, k as int));
                assert forall|j: int| #[trigger] first_drawn(draws@, j) implies j == k by {
                    if j < k {
                        assert(!draws@[j]);
                    } else if j > k {
                        assert(!draws@[k as int]);
                    }
                }
            }
            return;
        }
        k = k + 1;
    }
}

/// Sows the plate: on each cell, each plant class in turn gets its chance to sprout there as
/// a plant born now, and the first that does takes the cell; a cell where none does keeps its
/// ground. Nothing but grounds changes.
pub fn gen_structures<M>(cosmos: &mut Cosmos<M>, rng: &mut StdRng)
    requires
        old(cosmos).wf(),
    ensures
        final(cosmos).wf(),
        final(cosmos).mobs == old(cosmos).mobs,
        final(cosmos).properties == old(cosmos).properties,
        final(cosmos).plate.size == old(cosmos).plate.size,
        final(cosmos).plate.blocks@.len() == old(cosmos).plate.blocks@.len(),
        forall|k: int| 0 <= k < old(cosmos).plate.blocks@.len() ==> {
            &&& (#[trigger] final(cosmos).plate.blocks@[k]).mob == old(cosmos).plate.blocks@[k].mob
            &&& sown(old(cosmos).plate.blocks@[k].ground, final(cosmos).plate.blocks@[k].ground, old(cosmos).properties.tick)
        },
{
    let now = cosmos.properties.tick;
    let ghost c0 = *cosmos;
    let n = cosmos.plate.blocks.len();
    let mut i: usize = 0;
    while i < n
        invariant
            c0 == *old(cosmos),
            n == c0.plate.blocks@.len(),
            now == c0.properties.tick,
            i <= n,
            cosmos.mobs == c0.mobs,
            cosmos.properties == c0.properties,
            cosmos.ripper == c0.ripper,
            cosmos.plate.size == c0.plate.size,
            cosmos.plate.blocks@.len() == n,
            forall|k: int| 0 <= k < n ==> {
                &&& (#[trigger] cosmos.plate.blocks@[k]).mob == c0.plate.blocks@[k].mob
                &&& sown(c0.plate.blocks@[k].ground, cosmos.plate.blocks@[k].ground, now)
                &&& k >= i ==> cosmos.plate.blocks@[k].ground == c0.plate.blocks@[k].ground
            },
        decreases n - i,
    {
        let mut draws: Vec<bool> = Vec::new();
        let mut kind: u8 = 0;
        let mut sprouted = false;
        while kind < CLASS_COUNT && !sprouted
            invariant
                kind <= CLASS_COUNT,
                i < n,
                cosmos.plate.blocks@.len() == n,
            decreases CLASS_COUNT - kind,
        {
            let (num, den) = gen_possibility(kind, &cosmos.plate.blocks[i].ground.env);
            sprouted = gen_ratio(rng, num, den);
            draws.push(sprouted);
            kind = kind + 1;
        }
        sow_cell(&mut cosmos.plate.blocks[i].ground, now, &draws);
        i = i + 1;
    }
    proof {
        crate::cosmos::lemma_wf_grounds_changed(c0);
        assert(cosmos.wf());
    }
}

} // verus!
