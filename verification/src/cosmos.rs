use vstd::prelude::*;

use crate::conf::GameConf;
use crate::grids::{area_fits, normalize_area, spec_normalize_area, Coord, Crd, CrdI, MAX_SIDE};
use crate::ripper::CosmosRipper;
use crate::observe::logger::Logger;
use crate::plate::{covers, in_plate, normal_area, Plate};
use crate::refs::Weak;
use crate::types::Tick;

verus! {

/// A creature together with where it stands.
pub struct _MobBlock<M> {
    /// The area the creature covers.
    pub at: CrdI,
    /// Whether the creature stands on the plate.
    pub on_plate: bool,
    pub log: Logger,
    pub mob: M,
}

/// A creature that is not on the plate, owned by whoever holds the box.
pub struct MobBox<M> {
    pub block: _MobBlock<M>,
}

/// A creature on the plate that may be changed: the slot it was given.
#[derive(Clone, Copy)]
pub struct MobRefMut {
    pub slot: usize,
}

/// A creature on the plate, seen for reading.
pub struct MobRef<'g, M> {
    pub slot: usize,
    pub block: &'g _MobBlock<M>,
}

/// Game time and the plate's creatures: the state of the world.
pub struct Properties {
    pub tick: Tick,
}

/// The world: the plate and the creatures on it.
pub struct Cosmos<M> {
    pub plate: Plate,
    /// Creatures by slot; a slot whose creature left the plate stays empty.
    pub mobs: Vec<Option<_MobBlock<M>>>,
    pub properties: Properties,
    /// How the plate is cut into chunks whose creatures act side by side.
    pub ripper: CosmosRipper,
}

impl<M> _MobBlock<M> {
    pub fn new(at: CrdI, mob: M) -> (r: Self)
        ensures
            r.at == at,
            !r.on_plate,
            r.mob == mob,
    {
        _MobBlock { at, on_plate: false, log: Logger::default(), mob }
    }

    pub fn on_plate(&self) -> (r: bool)
        ensures
            r == self.on_plate,
    {
        self.on_plate
    }
}

impl<M> MobBox<M> {
    /// Boxes a creature that is not on the plate.
    pub fn new(block: _MobBlock<M>) -> (r: Option<Self>)
        ensures
            block.on_plate ==> r is None,
            !block.on_plate ==> (r matches Some(b) && b.block == block),
    {
        if block.on_plate {
            None
        } else {
            Some(MobBox { block })
        }
    }

    pub fn into_inner(self) -> (r: _MobBlock<M>)
        ensures
            r == self.block,
    {
        self.block
    }
}

impl<'g, M> MobRef<'g, M> {
    pub fn at(&self) -> (r: CrdI)
        ensures
            r == self.block.at,
    {
        self.block.at
    }

    /// A handle on this creature.
    pub fn downgrade(&self) -> (r: Weak)
        ensures
            r.slot == self.slot,
    {
        Weak { slot: self.slot }
    }

    pub fn get_inner(&self) -> (r: &'g _MobBlock<M>)
        ensures
            r == self.block,
    {
        self.block
    }
}

impl MobRefMut {
    /// A handle on this creature.
    pub fn downgrade(&self) -> (r: Weak)
        ensures
            r.slot == self.slot,
    {
        Weak { slot: self.slot }
    }
}

/// The cells of two distinct creatures on a plate never overlap.
pub open spec fn placed<M>(plate: Plate, s: usize, b: _MobBlock<M>) -> bool {
    &&& b.on_plate
    &&& normal_area(plate.size, b.at)
    &&& forall|x: int, y: int| #[trigger] in_plate(plate.size, x, y) && covers(plate.size, b.at, x, y)
        ==> plate.mob_at(x, y) == Some(s)
}

/// The plate size a configuration asks for.
pub open spec fn conf_plate_size(conf: &GameConf) -> Crd {
    Coord((conf.chunk_size.0 * conf.chunk_count.0) as isize, (conf.chunk_size.1 * conf.chunk_count.1) as isize)
}

/// A configuration the world can be made from: positive chunk sizes and counts, padding that
/// is not negative, a plate whose cells can be counted, and a whole number of padded chunks
/// across it. Its sides, and the padding in cells, are at most `MAX_SIDE`, the longest side
/// whose coordinates can be moved around without overflowing a 32-bit `isize`.
pub open spec fn conf_ok(conf: &GameConf) -> bool {
    &&& conf.chunk_size.0 > 0 && conf.chunk_size.1 > 0
    &&& conf.chunk_count.0 > 0 && conf.chunk_count.1 > 0
    &&& conf.padding.0 >= 0 && conf.padding.1 >= 0
    &&& conf.chunk_size.0 * conf.chunk_count.0 <= MAX_SIDE
    &&& conf.chunk_size.1 * conf.chunk_count.1 <= MAX_SIDE
    &&& conf.padding.0 * conf.chunk_size.0 <= MAX_SIDE
    &&& conf.padding.1 * conf.chunk_size.1 <= MAX_SIDE
    &&& (conf.chunk_size.0 * conf.chunk_count.0) * (conf.chunk_size.1 * conf.chunk_count.1) <= usize::MAX
    &&& (conf.chunk_size.0 * conf.chunk_count.0) % (conf.chunk_size.0 + 2 * (conf.padding.0 * conf.chunk_size.0)) == 0
    &&& (conf.chunk_size.1 * conf.chunk_count.1) % (conf.chunk_size.1 + 2 * (conf.padding.1 * conf.chunk_size.1)) == 0
}

/// `a * b` for numbers that are not negative, computed without overflow.
fn wide_mul(a: isize, b: isize) -> (r: i128)
    requires
        a >= 0,
        b >= 0,
    ensures
        r == a * b,
{
    proof {
        assert(a * b <= isize::MAX * isize::MAX) by (nonlinear_arith)
            requires 0 <= a <= isize::MAX, 0 <= b <= isize::MAX;
        assert(isize::MAX * isize::MAX < i128::MAX) by (nonlinear_arith)
            requires isize::MAX <= 0x7fff_ffff_ffff_ffff;
        assert(0 <= a * b) by (nonlinear_arith)
            requires 0 <= a, 0 <= b;
    }
    (a as i128) * (b as i128)
}

/// Whether a configuration can shape a world, as `conf_ok` asks.
pub fn conf_usable(conf: &GameConf) -> (r: bool)
    ensures
        r == conf_ok(conf),
{
    let (cs, cc, pd) = (conf.chunk_size, conf.chunk_count, conf.padding);
    if !(cs.0 > 0 && cs.1 > 0 && cc.0 > 0 && cc.1 > 0 && pd.0 >= 0 && pd.1 >= 0) {
        return false;
    }
    let w = wide_mul(cs.0, cc.0);
    let h = wide_mul(cs.1, cc.1);
    let q0 = wide_mul(pd.0, cs.0);
    let q1 = wide_mul(pd.1, cs.1);
    let max = MAX_SIDE as i128;
    if !(w <= max && h <= max && q0 <= max && q1 <= max) {
        return false;
    }
    proof {
        assert(w * h <= max * max) by (nonlinear_arith)
            requires 0 <= w <= max, 0 <= h <= max;
        assert(0 <= w * h) by (nonlinear_arith)
            requires 0 <= w, 0 <= h;
    }
    let area = w * h;
    area <= usize::MAX as i128 && w % (cs.0 as i128 + 2 * q0) == 0 && h % (cs.1 as i128 + 2 * q1) == 0
}

/// On one axis, the sizes a configuration gives are not negative, and twice the padding is
/// a whole number of chunks.
proof fn lemma_conf_sizes(count: int, chunk: int, pad: int)
    requires
        count > 0,
        chunk > 0,
        pad >= 0,
    ensures
        chunk * count >= chunk,
        pad * chunk >= 0,
        ((pad * chunk) * 2) % chunk == 0,
{
    assert(chunk * count >= chunk && pad * chunk >= 0) by (nonlinear_arith)
        requires
            count > 0,
            chunk > 0,
            pad >= 0,
    ;
    assert((pad * chunk) * 2 == (pad * 2) * chunk) by (nonlinear_arith);
    vstd::arithmetic::div_mod::lemma_mod_multiples_basic(pad * 2, chunk);
}

impl<M> Cosmos<M> {
    /// Every occupied cell names a creature that covers it, and every creature
    /// stands on exactly the cells of its area.
    pub open spec fn wf(&self) -> bool {
        &&& self.plate.wf()
        &&& forall|x: int, y: int| #[trigger] in_plate(self.plate.size, x, y) && self.plate.mob_at(x, y) is Some ==> {
            let s = self.plate.mob_at(x, y)->0;
            &&& s < self.mobs@.len()
            &&& self.mobs@[s as int] is Some
            &&& covers(self.plate.size, self.mobs@[s as int]->0.at, x, y)
        }
        &&& forall|s: int| 0 <= s < self.mobs@.len() && #[trigger] self.mobs@[s] is Some ==> placed(
            self.plate,
            s as usize,
            self.mobs@[s]->0,
        )
    }

    /// The creature in slot `s` is on the plate.
    pub open spec fn alive(&self, s: usize) -> bool {
        s < self.mobs@.len() && self.mobs@[s as int] is Some
    }

    pub open spec fn block(&self, s: usize) -> _MobBlock<M> {
        self.mobs@[s as int]->0
    }

    /// An empty world as `conf` shapes it: the plate is `chunk_count` chunks of `chunk_size`,
    /// and the creatures of a chunk may reach `padding` chunks around it.
    pub fn new(conf: &GameConf) -> (r: Self)
        requires
            conf_ok(conf),
        ensures
            r.wf(),
            r.plate.size == conf_plate_size(conf),
            r.mobs@.len() == 0,
            r.properties.tick == 0,
            forall|k: int| 0 <= k < r.plate.blocks@.len() ==> ((#[trigger] r.plate.blocks@[k]).ground.item matches crate::gnd::Item::Air)
                && r.plate.blocks@[k].ground.env.wet == 0 && r.plate.blocks@[k].ground.env.altitude == 0,
            r.ripper.wf(),
            r.ripper.chunk_size == conf.chunk_size,
            r.ripper.padding == Coord((conf.padding.0 * conf.chunk_size.0) as isize, (conf.padding.1 * conf.chunk_size.1) as isize),
            crate::ripper::ripper_plate(r.ripper) == r.plate.size,
    {
        proof {
            lemma_conf_sizes(conf.chunk_count.0 as int, conf.chunk_size.0 as int, conf.padding.0 as int);
            lemma_conf_sizes(conf.chunk_count.1 as int, conf.chunk_size.1 as int, conf.padding.1 as int);
        }
        let size = Coord(conf.chunk_size.0 * conf.chunk_count.0, conf.chunk_size.1 * conf.chunk_count.1);
        let padding = Coord(conf.padding.0 * conf.chunk_size.0, conf.padding.1 * conf.chunk_size.1);
        let ripper = CosmosRipper::new(size, conf.chunk_size, padding);
        Cosmos { plate: Plate::new(size), mobs: Vec::new(), properties: Properties { tick: 0 }, ripper }
    }

    /// The creature a handle names, if it is still on the plate.
    pub fn wrap_weak(&self, weak: &Weak) -> (r: Option<MobRef<'_, M>>)
        ensures
            self.alive(weak.slot) ==> (r matches Some(m) && m.slot == weak.slot && *m.block == self.block(weak.slot)),
            !self.alive(weak.slot) ==> r is None,
    {
        if weak.slot < self.mobs.len() {
            match &self.mobs[weak.slot] {
                Some(b) => Some(MobRef { slot: weak.slot, block: b }),
                None => None,
            }
        } else {
            None
        }
    }

    /// Changes rights on a handle's creature, if it is still on the plate.
    pub fn wrap_weak_mut(&self, weak: &Weak) -> (r: Option<MobRefMut>)
        ensures
            self.alive(weak.slot) ==> r == Some(MobRefMut { slot: weak.slot }),
            !self.alive(weak.slot) ==> r is None,
    {
        if weak.slot < self.mobs.len() && self.mobs[weak.slot].is_some() {
            Some(MobRefMut { slot: weak.slot })
        } else {
            None
        }
    }

    /// The slot of the creature on the cell `p` of the plate.
    pub fn mob_on(&self, p: Crd) -> (r: Option<usize>)
        requires
            self.plate.wf(),
            in_plate(self.plate.size, p.0 as int, p.1 as int),
        ensures
            r == self.plate.mob_at(p.0 as int, p.1 as int),
    {
        let i = crate::plate::index_of(self.plate.size, p.0, p.1);
        self.plate.blocks[i].mob
    }

    /// The creature in slot `s`, to be changed in place; where it stands is left alone.
    pub fn mob_mut(&mut self, s: usize) -> (r: &mut M)
        requires
            old(self).wf(),
            old(self).alive(s),
        ensures
            *r == old(self).block(s).mob,
            final(self).mobs@ == old(self).mobs@.update(s as int, Some(_MobBlock { mob: *final(r), ..old(self).block(s) })),
            final(self).plate == old(self).plate,
            final(self).properties == old(self).properties,
    {
        let b = self.mobs[s].as_mut().unwrap();
        &mut b.mob
    }

    /// Sets a creature on the plate. It fails, handing the creature back, when a cell
    /// of its area already holds another creature; otherwise the creature's area is
    /// brought into the plate and the creature gets the next slot.
    pub fn set(&mut self, mob: MobBox<M>) -> (r: Result<Weak, MobBox<M>>)
        requires
            old(self).wf(),
            area_fits(old(self).plate.size, mob.block.at),
        ensures
            final(self).wf(),
            set_room(*old(self), mob) ==> (r matches Ok(w) && set_placed(*old(self), *final(self), mob, w)),
            !set_room(*old(self), mob) ==> (r matches Err(m) && m == mob && *final(self) == *old(self)),
            final(self).properties == old(self).properties,
    {
        let a = normalize_area(self.plate.size, mob.block.at);
        if !self.plate.area_holds_only(a, None) {
            return Err(mob);
        }
        let s = self.mobs.len();
        let ghost old_plate = self.plate;
        self.plate.fill_area(a, Some(s));
        let MobBox { block } = mob;
        let _MobBlock { at: _, on_plate: _, log, mob: m } = block;
        self.mobs.push(Some(_MobBlock { at: a, on_plate: true, log, mob: m }));
        proof {
            let size = self.plate.size;
            assert forall|x: int, y: int| #[trigger] in_plate(size, x, y) && self.plate.mob_at(x, y) is Some implies ({
                let t = self.plate.mob_at(x, y)->0;
                &&& t < self.mobs@.len()
                &&& self.mobs@[t as int] is Some
                &&& covers(size, self.mobs@[t as int]->0.at, x, y)
            }) by {
                if !covers(size, a, x, y) {
                    assert(old_plate.mob_at(x, y) == self.plate.mob_at(x, y));
                    assert(in_plate(old_plate.size, x, y));
                }
            }
            assert forall|t: int| 0 <= t < self.mobs@.len() && #[trigger] self.mobs@[t] is Some implies placed(
                self.plate,
                t as usize,
                self.mobs@[t]->0,
            ) by {
                if t < s {
                    let bt = self.mobs@[t]->0;
                    assert(old(self).mobs@[t] is Some);
                    assert forall|x: int, y: int| #[trigger] in_plate(size, x, y) && covers(size, bt.at, x, y)
                        implies self.plate.mob_at(x, y) == Some(t as usize) by {
                        assert(in_plate(old_plate.size, x, y));
                        assert(old_plate.mob_at(x, y) == Some(t as usize));
                    }
                }
            }
        }
        Ok(Weak { slot: s })
    }

    /// Takes a creature off the plate: its cells are emptied, its slot stays empty,
    /// and the creature is handed back, marked as off the plate.
    pub fn take(&mut self, mob: MobRefMut) -> (r: MobBox<M>)
        requires
            old(self).wf(),
            old(self).alive(mob.slot),
        ensures
            final(self).wf(),
            took(*old(self), *final(self), mob.slot, r),
            final(self).properties == old(self).properties,
    {
        let s = mob.slot;
        let ghost old_plate = self.plate;
        let taken = self.mobs[s].take();
        let block = match taken {
            Some(b) => b,
            None => {
                proof {
                    assert(false);
                }
                return MobBox { block: taken.unwrap() };
            },
        };
        proof {
            assert(placed(old_plate, s, block));
        }
        self.plate.fill_area(block.at, None);
        proof {
            let size = self.plate.size;
            assert(self.mobs@ == old(self).mobs@.update(s as int, None));
            assert forall|x: int, y: int| #[trigger] in_plate(size, x, y) && self.plate.mob_at(x, y) is Some implies ({
                let t = self.plate.mob_at(x, y)->0;
                &&& t < self.mobs@.len()
                &&& self.mobs@[t as int] is Some
                &&& covers(size, self.mobs@[t as int]->0.at, x, y)
            }) by {
                assert(in_plate(old_plate.size, x, y));
                assert(old_plate.mob_at(x, y) == self.plate.mob_at(x, y));
                let t = self.plate.mob_at(x, y)->0;
                if t == s {
                    assert(covers(size, block.at, x, y));
                }
            }
            assert forall|t: int| 0 <= t < self.mobs@.len() && #[trigger] self.mobs@[t] is Some implies placed(
                self.plate,
                t as usize,
                self.mobs@[t]->0,
            ) by {
                let bt = self.mobs@[t]->0;
                assert(old(self).mobs@[t] is Some);
                assert forall|x: int, y: int| #[trigger] in_plate(size, x, y) && covers(size, bt.at, x, y)
                    implies self.plate.mob_at(x, y) == Some(t as usize) by {
                    assert(in_plate(old_plate.size, x, y));
                    assert(old_plate.mob_at(x, y) == Some(t as usize));
                    assert(t != s);
                    assert(t < self.mobs.len());
                    assert((t as usize) as int == t);
                    if covers(size, block.at, x, y) {
                        assert(old_plate.mob_at(x, y) == Some(s));
                    }
                }
            }
        }
        let mut b = block;
        b.on_plate = false;
        MobBox { block: b }
    }

    /// Moves a creature to `new_at`. It fails, leaving the world as it was, when a cell
    /// of the new area holds another creature; otherwise the creature leaves its old
    /// cells and covers the new area, brought into the plate.
    pub fn reset(&mut self, mob: &MobRefMut, new_at: CrdI) -> (r: Result<(), ()>)
        requires
            old(self).wf(),
            old(self).alive(mob.slot),
            area_fits(old(self).plate.size, new_at),
        ensures
            final(self).wf(),
            ({
                let s = mob.slot;
                let a = spec_normalize_area(old(self).plate.size, new_at);
                let free = forall|x: int, y: int| #[trigger] in_plate(old(self).plate.size, x, y) && covers(old(self).plate.size, a, x, y)
                    ==> old(self).plate.mob_at(x, y) is None || old(self).plate.mob_at(x, y) == Some(s);
                &&& free ==> r is Ok
                    && final(self).mobs@ == old(self).mobs@.update(s as int, Some(_MobBlock { at: a, ..old(self).block(s) }))
                    && final(self).plate.size == old(self).plate.size
                    && (forall|x: int, y: int| #[trigger] in_plate(old(self).plate.size, x, y) ==>
                        final(self).plate.mob_at(x, y) == (if covers(old(self).plate.size, a, x, y) { Some(s) }
                            else if covers(old(self).plate.size, old(self).block(s).at, x, y) { None }
                            else { old(self).plate.mob_at(x, y) }))
                    && (forall|k: int| 0 <= k < old(self).plate.blocks@.len() ==> #[trigger] final(self).plate.blocks@[k].ground == old(self).plate.blocks@[k].ground)
                &&& !free ==> r is Err && *final(self) == *old(self)
            }),
            final(self).properties == old(self).properties,
    {
        let s = mob.slot;
        let a = normalize_area(self.plate.size, new_at);
        if !self.plate.area_holds_only(a, Some(s)) {
            return Err(());
        }
        let taken = self.mobs[s].take();
        let mut block = match taken {
            Some(b) => b,
            None => {
                proof {
                    assert(false);
                }
                return Err(());
            },
        };
        let ghost p0 = self.plate;
        let old_at = block.at;
        self.plate.fill_area(old_at, None);
        let ghost p1 = self.plate;
        self.plate.fill_area(a, Some(s));
        block.at = a;
        self.mobs[s] = Some(block);
        proof {
            let size = self.plate.size;
            assert(placed(p0, s, old(self).block(s)));
            assert forall|x: int, y: int| #[trigger] in_plate(size, x, y) implies
                self.plate.mob_at(x, y) == (if covers(size, a, x, y) { Some(s) }
                    else if covers(size, old_at, x, y) { None } else { p0.mob_at(x, y) }) by {
                assert(in_plate(p1.size, x, y));
            }
            assert forall|k: int| 0 <= k < p0.blocks@.len() implies #[trigger] self.plate.blocks@[k].ground == p0.blocks@[k].ground by {
                assert(p1.blocks@[k].ground == p0.blocks@[k].ground);
            }
            assert forall|x: int, y: int| #[trigger] in_plate(size, x, y) && self.plate.mob_at(x, y) is Some implies ({
                let t = self.plate.mob_at(x, y)->0;
                &&& t < self.mobs@.len()
                &&& self.mobs@[t as int] is Some
                &&& covers(size, self.mobs@[t as int]->0.at, x, y)
            }) by {
                assert(in_plate(p0.size, x, y));
                if !covers(size, a, x, y) && !covers(size, old_at, x, y) {
                    let t = p0.mob_at(x, y)->0;
                    if t == s {
                        assert(covers(size, old_at, x, y));
                    }
                }
            }
            assert forall|t: int| 0 <= t < self.mobs@.len() && #[trigger] self.mobs@[t] is Some implies placed(
                self.plate,
                t as usize,
                self.mobs@[t]->0,
            ) by {
                if t != s {
                    let bt = self.mobs@[t]->0;
                    assert(old(self).mobs@[t] is Some);
                    assert forall|x: int, y: int| #[trigger] in_plate(size, x, y) && covers(size, bt.at, x, y)
                        implies self.plate.mob_at(x, y) == Some(t as usize) by {
                        assert(in_plate(p0.size, x, y));
                        assert(p0.mob_at(x, y) == Some(t as usize));
                        assert(t < self.mobs.len());
                    assert((t as usize) as int == t);
                        if covers(size, old_at, x, y) {
                            assert(p0.mob_at(x, y) == Some(s));
                        }
                        if covers(size, a, x, y) {
                            assert(p0.mob_at(x, y) is None || p0.mob_at(x, y) == Some(s));
                        }
                    }
                }
            }
        }
        Ok(())
    }

    /// One tick of game time passes; nothing else changes.
    pub fn add_tick(&mut self)
        requires
            old(self).properties.tick < u64::MAX,
        ensures
            final(self).properties.tick == old(self).properties.tick + 1,
            final(self).plate == old(self).plate,
            final(self).mobs == old(self).mobs,
            final(self).ripper == old(self).ripper,
    {
        self.properties.tick = self.properties.tick + 1;
    }
}

/// Changing what a creature is, but not where it stands, keeps the world well formed.
pub proof fn lemma_wf_mob_changed<M>(c: Cosmos<M>, d: Cosmos<M>, s: usize, m: M)
    requires
        c.wf(),
        c.alive(s),
        d.plate == c.plate,
        d.mobs@ == c.mobs@.update(s as int, Some(_MobBlock { mob: m, ..c.block(s) })),
    ensures
        d.wf(),
        d.alive(s),
        forall|t: usize| d.alive(t) == c.alive(t),
{
    let size = d.plate.size;
    assert forall|x: int, y: int| #[trigger] in_plate(size, x, y) && d.plate.mob_at(x, y) is Some implies ({
        let t = d.plate.mob_at(x, y)->0;
        &&& t < d.mobs@.len()
        &&& d.mobs@[t as int] is Some
        &&& covers(size, d.mobs@[t as int]->0.at, x, y)
    }) by {
    }
    assert forall|t: int| 0 <= t < d.mobs@.len() && #[trigger] d.mobs@[t] is Some implies placed(
        d.plate,
        t as usize,
        d.mobs@[t]->0,
    ) by {
        assert(c.mobs@[t] is Some);
    }
}

/// Changing grounds, but no creature and no cell's creature, keeps the world well formed.
pub proof fn lemma_wf_grounds_changed<M>(c: Cosmos<M>)
    requires
        c.wf(),
    ensures
        forall|d: Cosmos<M>|
            d.plate.size == c.plate.size && d.mobs == c.mobs && d.plate.blocks@.len() == c.plate.blocks@.len()
                && (forall|k: int| 0 <= k < c.plate.blocks@.len() ==> #[trigger] d.plate.blocks@[k].mob == c.plate.blocks@[k].mob)
                ==> #[trigger] d.wf(),
{
    assert forall|d: Cosmos<M>|
        d.plate.size == c.plate.size && d.mobs == c.mobs && d.plate.blocks@.len() == c.plate.blocks@.len()
            && (forall|k: int| 0 <= k < c.plate.blocks@.len() ==> #[trigger] d.plate.blocks@[k].mob == c.plate.blocks@[k].mob)
        implies #[trigger] d.wf() by {
        let size = c.plate.size;
        crate::plate::lemma_cell_index(size);
        assert forall|x: int, y: int| #[trigger] in_plate(size, x, y) implies d.plate.mob_at(x, y) == c.plate.mob_at(x, y) by {
            assert(0 <= crate::plate::cell_index(size, x, y) < c.plate.blocks@.len());
        }
        assert forall|t: int| 0 <= t < d.mobs@.len() && #[trigger] d.mobs@[t] is Some implies placed(d.plate, t as usize, d.mobs@[t]->0) by {
            assert(placed(c.plate, t as usize, c.mobs@[t]->0));
        }
    }
}

/// No creature stands on any cell of the area that `mob` would take on the plate of `c`.
pub open spec fn set_room<M>(c: Cosmos<M>, mob: MobBox<M>) -> bool {
    let a = spec_normalize_area(c.plate.size, mob.block.at);
    forall|x: int, y: int| #[trigger] in_plate(c.plate.size, x, y) && covers(c.plate.size, a, x, y) ==> c.plate.mob_at(x, y) is None
}

/// `c1` is `c0` with `mob` set on the plate, at its area brought into the plate, in the next
/// slot, which `w` names.
pub open spec fn set_placed<M>(c0: Cosmos<M>, c1: Cosmos<M>, mob: MobBox<M>, w: Weak) -> bool {
    let a = spec_normalize_area(c0.plate.size, mob.block.at);
    &&& w.slot == c0.mobs@.len()
    &&& c1.mobs@ == c0.mobs@.push(Some(_MobBlock { at: a, on_plate: true, log: mob.block.log, mob: mob.block.mob }))
    &&& c1.plate.filled_from(c0.plate, a, Some(w.slot))
}

/// `c1` is `c0` with the creature of slot `s` taken off: its cells emptied, its slot left
/// empty, and `back` is the creature, marked as off the plate.
pub open spec fn took<M>(c0: Cosmos<M>, c1: Cosmos<M>, s: usize, back: MobBox<M>) -> bool {
    &&& c1.mobs@ == c0.mobs@.update(s as int, None)
    &&& c1.plate.filled_from(c0.plate, c0.block(s).at, None)
    &&& back.block == (_MobBlock { on_plate: false, ..c0.block(s) })
}

/// Setting a creature on the plate and taking it straight back off hands it back as it was
/// given, only off the plate and with its area brought into the plate, leaves its slot empty,
/// and leaves every cell of the plate, its creature and its ground, as it was.
pub proof fn lemma_set_take_round_trip<M>(c0: Cosmos<M>, c1: Cosmos<M>, c2: Cosmos<M>, mob: MobBox<M>, w: Weak, back: MobBox<M>)
    requires
        c0.wf(),
        set_room(c0, mob),
        set_placed(c0, c1, mob, w),
        took(c1, c2, w.slot, back),
    ensures
        back.block.mob == mob.block.mob,
        back.block.log == mob.block.log,
        !back.block.on_plate,
        back.block.at == spec_normalize_area(c0.plate.size, mob.block.at),
        c2.mobs@ == c0.mobs@.push(None),
        c2.plate.size == c0.plate.size,
        forall|x: int, y: int| #[trigger] in_plate(c0.plate.size, x, y) ==> c2.plate.mob_at(x, y) == c0.plate.mob_at(x, y),
        forall|k: int| 0 <= k < c0.plate.blocks@.len() ==> #[trigger] c2.plate.blocks@[k].ground == c0.plate.blocks@[k].ground,
{
    let a = spec_normalize_area(c0.plate.size, mob.block.at);
    assert(c1.mobs@[w.slot as int] == Some(_MobBlock { at: a, on_plate: true, log: mob.block.log, mob: mob.block.mob }));
    assert(c1.block(w.slot).at == a);
    assert(c2.mobs@ =~= c0.mobs@.push(None));
    assert forall|x: int, y: int| #[trigger] in_plate(c0.plate.size, x, y) implies c2.plate.mob_at(x, y) == c0.plate.mob_at(x, y) by {
        assert(in_plate(c1.plate.size, x, y));
        assert(in_plate(c2.plate.size, x, y));
    }
    assert forall|k: int| 0 <= k < c0.plate.blocks@.len() implies #[trigger] c2.plate.blocks@[k].ground == c0.plate.blocks@[k].ground by {
        assert(c1.plate.blocks@[k].ground == c0.plate.blocks@[k].ground);
    }
}

/// No cell is covered by two creatures of a well-formed world.
pub proof fn lemma_no_overlap<M>(c: Cosmos<M>, s1: usize, s2: usize, x: int, y: int)
    requires
        c.wf(),
        c.alive(s1),
        c.alive(s2),
        s1 != s2,
        in_plate(c.plate.size, x, y),
        covers(c.plate.size, c.block(s1).at, x, y),
    ensures
        !covers(c.plate.size, c.block(s2).at, x, y),
{
    assert(placed(c.plate, s1, c.mobs@[s1 as int]->0));
    assert(placed(c.plate, s2, c.mobs@[s2 as int]->0));
}

} // verus!

verus! {

/// Read access to the creatures of a world.
pub struct ReadGuard<'c, M> {
    pub cosmos: &'c Cosmos<M>,
}

/// Access to the creatures of a world while they are changed one after the other.
pub struct WriteGuard<'c, M> {
    pub cosmos: &'c Cosmos<M>,
}

impl<'c, M> ReadGuard<'c, M> {
    pub fn new(cosmos: &'c Cosmos<M>) -> (r: Self)
        ensures
            r.cosmos == cosmos,
    {
        ReadGuard { cosmos }
    }

    /// The creature in slot `slot`, which must be on the plate.
    pub fn wrap(&self, slot: usize) -> (r: MobRef<'c, M>)
        requires
            self.cosmos.alive(slot),
        ensures
            r.slot == slot,
            *r.block == self.cosmos.block(slot),
    {
        MobRef { slot, block: self.cosmos.mobs[slot].as_ref().unwrap() }
    }

    /// The creature a handle names, if it is still on the plate.
    pub fn wrap_weak(&self, weak: &Weak) -> (r: Option<MobRef<'c, M>>)
        ensures
            self.cosmos.alive(weak.slot) ==> (r matches Some(m) && m.slot == weak.slot && *m.block == self.cosmos.block(
                weak.slot,
            )),
            !self.cosmos.alive(weak.slot) ==> r is None,
    {
        self.cosmos.wrap_weak(weak)
    }
}

impl<'c, M> WriteGuard<'c, M> {
    pub fn new(cosmos: &'c Cosmos<M>) -> (r: Self)
        ensures
            r.cosmos == cosmos,
    {
        WriteGuard { cosmos }
    }

    /// Read access to the same world.
    pub fn read(&self) -> (r: ReadGuard<'c, M>)
        ensures
            r.cosmos == self.cosmos,
    {
        ReadGuard { cosmos: self.cosmos }
    }

    /// The creature in slot `slot`, which must be on the plate.
    pub fn wrap(&self, slot: usize) -> (r: MobRef<'c, M>)
        requires
            self.cosmos.alive(slot),
        ensures
            r.slot == slot,
            *r.block == self.cosmos.block(slot),
    {
        MobRef { slot, block: self.cosmos.mobs[slot].as_ref().unwrap() }
    }

    /// The creature a handle names, if it is still on the plate.
    pub fn wrap_weak(&self, weak: &Weak) -> (r: Option<MobRef<'c, M>>)
        ensures
            self.cosmos.alive(weak.slot) ==> (r matches Some(m) && m.slot == weak.slot && *m.block == self.cosmos.block(
                weak.slot,
            )),
            !self.cosmos.alive(weak.slot) ==> r is None,
    {
        self.cosmos.wrap_weak(weak)
    }
}

impl MobRefMut {
    /// Where the creature stands.
    pub fn at<M>(&self, cosmos: &Cosmos<M>) -> (r: CrdI)
        requires
            cosmos.alive(self.slot),
        ensures
            r == cosmos.block(self.slot).at,
    {
        cosmos.mobs[self.slot].as_ref().unwrap().at
    }

    /// The same creature, seen for reading.
    pub fn get_const<'c, M>(&self, cosmos: &'c Cosmos<M>) -> (r: MobRef<'c, M>)
        requires
            cosmos.alive(self.slot),
        ensures
            r.slot == self.slot,
            *r.block == cosmos.block(self.slot),
    {
        MobRef { slot: self.slot, block: cosmos.mobs[self.slot].as_ref().unwrap() }
    }

    /// The creature and where it stands.
    pub fn get_inner<'c, M>(&self, cosmos: &'c Cosmos<M>) -> (r: &'c _MobBlock<M>)
        requires
            cosmos.alive(self.slot),
        ensures
            *r == cosmos.block(self.slot),
    {
        cosmos.mobs[self.slot].as_ref().unwrap()
    }

    /// The creature and where it stands, giving up this handle.
    pub fn into_inner<'c, M>(self, cosmos: &'c Cosmos<M>) -> (r: &'c _MobBlock<M>)
        requires
            cosmos.alive(self.slot),
        ensures
            *r == cosmos.block(self.slot),
    {
        cosmos.mobs[self.slot].as_ref().unwrap()
    }
}

impl Weak {
    /// The creature this handle names, if it is still on the plate.
    pub fn upgrade<'c, M>(self, cosmos: &'c Cosmos<M>) -> (r: Option<MobRef<'c, M>>)
        ensures
            cosmos.alive(self.slot) ==> (r matches Some(m) && m.slot == self.slot && *m.block == cosmos.block(self.slot)),
            !cosmos.alive(self.slot) ==> r is None,
    {
        cosmos.wrap_weak(&self)
    }

    /// How many owners keep the named creature alive: the plate alone while the creature
    /// stands on it, none once it has left.
    pub fn strong_count<M>(&self, cosmos: &Cosmos<M>) -> (r: usize)
        ensures
            r == (if cosmos.alive(self.slot) { 1usize } else { 0usize }),
    {
        if self.slot < cosmos.mobs.len() && cosmos.mobs[self.slot].is_some() {
            1
        } else {
            0
        }
    }
}

} // verus!
