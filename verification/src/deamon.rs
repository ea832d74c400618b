use vstd::prelude::*;

use crate::cosmos::{set_placed, set_room, took, Cosmos, MobBox, MobRefMut, _MobBlock};
use crate::gnd::{spec_mowed, spec_take, Ground};
use crate::plate::{cell_index, spec_step, step, walked, Plate};
use crate::types::{EnergyT, Tick};
use crate::grids::{area_fits, normalize_area, normalize_pos, spec_normalize_area, spec_normalize_pos, valid_size, Coord, Crd, CrdI};
use crate::plate::{covers, in_plate, index_of, normal_area, off};
use crate::refs::Weak;

verus! {

/// The part of the plate a worker may change while it carries out orders.
#[derive(Clone, Copy)]
pub struct Deamon {
    /// The area the worker may touch; it starts on the plate and is shorter than the plate.
    pub bound: CrdI,
}

/// Two plates of one size whose cells hold the same grounds.
pub open spec fn same_grounds(p: Plate, q: Plate) -> bool {
    &&& p.size == q.size
    &&& p.blocks@.len() == q.blocks@.len()
    &&& forall|k: int| 0 <= k < p.blocks@.len() ==> #[trigger] p.blocks@[k].ground == q.blocks@[k].ground
}

/// The ground of the cell `(x, y)`.
pub open spec fn ground_at(p: Plate, x: int, y: int) -> Ground {
    p.blocks@[cell_index(p.size, x, y)].ground
}

/// Every ground of the plate is valid at `now`.
pub open spec fn grounds_valid(p: Plate, now: Tick) -> bool {
    forall|k: int| 0 <= k < p.blocks@.len() ==> #[trigger] p.blocks@[k].ground.valid_at(now)
}

/// Whether every ground of the plate is valid at `now`.
pub fn grounds_valid_at(p: &Plate, now: Tick) -> (r: bool)
    ensures
        r == grounds_valid(*p, now),
{
    let mut i: usize = 0;
    while i < p.blocks.len()
        invariant
            i <= p.blocks@.len(),
            forall|k: int| 0 <= k < i ==> #[trigger] p.blocks@[k].ground.valid_at(now),
        decreases p.blocks@.len() - i,
    {
        if !p.blocks[i].ground.is_valid_at(now) {
            return false;
        }
        i = i + 1;
    }
    true
}

/// The energy mowing takes from the cell `dx` columns and `dy` rows into the area `a`.
pub open spec fn take_cell(p: Plate, a: CrdI, now: Tick, v: EnergyT, t: EnergyT, dx: int, dy: int) -> int {
    spec_take(
        ground_at(p, spec_step(a.0.from as int, dx, p.size.0 as int), spec_step(a.1.from as int, dy, p.size.1 as int)),
        now,
        v,
        t,
    ) as int
}

/// The energy taken from the first `dx` cells of row `dy` of the area.
pub open spec fn row_take(p: Plate, a: CrdI, now: Tick, v: EnergyT, t: EnergyT, dy: int, dx: int) -> int
    decreases dx,
{
    if dx <= 0 {
        0
    } else {
        row_take(p, a, now, v, t, dy, dx - 1) + take_cell(p, a, now, v, t, dx - 1, dy)
    }
}

/// The energy taken from the first `dy` rows of the area.
pub open spec fn area_take(p: Plate, a: CrdI, now: Tick, v: EnergyT, t: EnergyT, dy: int) -> int
    decreases dy,
{
    if dy <= 0 {
        0
    } else {
        area_take(p, a, now, v, t, dy - 1) + row_take(p, a, now, v, t, dy - 1, a.0.to - a.0.from + 1)
    }
}

pub open spec fn cap(v: int) -> EnergyT {
    if v > EnergyT::MAX { EnergyT::MAX } else { v as EnergyT }
}

proof fn lemma_row_take_nonneg(p: Plate, a: CrdI, now: Tick, v: EnergyT, t: EnergyT, dy: int, dx: int)
    ensures
        row_take(p, a, now, v, t, dy, dx) >= 0,
    decreases dx,
{
    if dx > 0 {
        lemma_row_take_nonneg(p, a, now, v, t, dy, dx - 1);
    }
}

proof fn lemma_area_take_nonneg(p: Plate, a: CrdI, now: Tick, v: EnergyT, t: EnergyT, dy: int)
    ensures
        area_take(p, a, now, v, t, dy) >= 0,
    decreases dy,
{
    if dy > 0 {
        lemma_area_take_nonneg(p, a, now, v, t, dy - 1);
        lemma_row_take_nonneg(p, a, now, v, t, dy - 1, a.0.to - a.0.from + 1);
    }
}

impl Deamon {
    pub open spec fn valid(&self, size: Crd) -> bool {
        normal_area(size, self.bound)
    }

    /// The area `p`, brought into the plate, lies inside the bound (going around the edges).
    pub open spec fn spec_contains(&self, size: Crd, p: CrdI) -> bool {
        let n = spec_normalize_area(size, p);
        &&& off(n.0.from as int, self.bound.0.from as int, size.0 as int) + (n.0.to - n.0.from) <= self.bound.0.to - self.bound.0.from
        &&& off(n.1.from as int, self.bound.1.from as int, size.1 as int) + (n.1.to - n.1.from) <= self.bound.1.to - self.bound.1.from
    }

    /// The position `p`, brought into the plate, lies inside the bound.
    pub open spec fn spec_contains_pos(&self, size: Crd, p: Crd) -> bool {
        let q = spec_normalize_pos(size, p);
        self.bound.0.from <= q.0 <= self.bound.0.to && self.bound.1.from <= q.1 <= self.bound.1.to
    }

    pub fn contains(&self, size: Crd, p: CrdI) -> (r: bool)
        requires
            self.valid(size),
            valid_size(size),
            area_fits(size, p),
        ensures
            r == self.spec_contains(size, p),
    {
        let n = normalize_area(size, p);
        let ox = if n.0.from >= self.bound.0.from {
            n.0.from - self.bound.0.from
        } else {
            n.0.from - self.bound.0.from + size.0
        };
        let oy = if n.1.from >= self.bound.1.from {
            n.1.from - self.bound.1.from
        } else {
            n.1.from - self.bound.1.from + size.1
        };
        ox + (n.0.to - n.0.from) <= self.bound.0.to - self.bound.0.from && oy + (n.1.to - n.1.from)
            <= self.bound.1.to - self.bound.1.from
    }

    pub fn contains_pos(&self, size: Crd, p: Crd) -> (r: bool)
        requires
            valid_size(size),
        ensures
            r == self.spec_contains_pos(size, p),
    {
        let q = normalize_pos(size, p);
        self.bound.0.from <= q.0 && q.0 <= self.bound.0.to && self.bound.1.from <= q.1 && q.1 <= self.bound.1.to
    }

    /// The ground at `p`, if `p` lies inside the bound.
    pub fn get_ground<'c, M>(&self, cosmos: &'c Cosmos<M>, p: Crd) -> (r: Result<&'c Ground, ()>)
        requires
            cosmos.wf(),
        ensures
            self.spec_contains_pos(cosmos.plate.size, p) ==> ({
                let q = spec_normalize_pos(cosmos.plate.size, p);
                r matches Ok(g) && *g == cosmos.plate.blocks@[crate::plate::cell_index(cosmos.plate.size, q.0 as int, q.1 as int)].ground
            }),
            !self.spec_contains_pos(cosmos.plate.size, p) ==> r is Err,
    {
        if !self.contains_pos(cosmos.plate.size, p) {
            Err(())
        } else {
            let q = normalize_pos(cosmos.plate.size, p);
            let i = index_of(cosmos.plate.size, q.0, q.1);
            Ok(&cosmos.plate.blocks[i].ground)
        }
    }

    /// The ground at `p`, to be changed in place, if `p` lies inside the bound; nothing
    /// else of the world changes.
    pub fn get_ground_mut<'c, M>(&self, cosmos: &'c mut Cosmos<M>, p: Crd) -> (r: Result<&'c mut Ground, ()>)
        requires
            old(cosmos).wf(),
        ensures
            final(cosmos).wf(),
            !self.spec_contains_pos(old(cosmos).plate.size, p) ==> r is Err && *final(cosmos) == *old(cosmos),
            self.spec_contains_pos(old(cosmos).plate.size, p) ==> ({
                let q = spec_normalize_pos(old(cosmos).plate.size, p);
                let i = crate::plate::cell_index(old(cosmos).plate.size, q.0 as int, q.1 as int);
                &&& 0 <= i < old(cosmos).plate.blocks@.len()
                &&& r is Ok
                &&& *(r->Ok_0) == old(cosmos).plate.blocks@[i].ground
                &&& final(cosmos).plate.blocks@ == old(cosmos).plate.blocks@.update(i, crate::plate::Block {
                    ground: *final(r->Ok_0),
                    ..old(cosmos).plate.blocks@[i]
                })
                &&& final(cosmos).plate.size == old(cosmos).plate.size
                &&& final(cosmos).mobs == old(cosmos).mobs
                &&& final(cosmos).properties == old(cosmos).properties
                &&& final(cosmos).ripper == old(cosmos).ripper
            }),
    {
        if !self.contains_pos(cosmos.plate.size, p) {
            Err(())
        } else {
            let q = normalize_pos(cosmos.plate.size, p);
            let i = index_of(cosmos.plate.size, q.0, q.1);
            proof {
                crate::cosmos::lemma_wf_grounds_changed(*cosmos);
            }
            Ok(&mut cosmos.plate.blocks[i].ground)
        }
    }

    /// Mows every ground of the area `p`, if it lies inside the bound: each plant gives up to
    /// `value` energy and keeps at least `threshold`. Returns the energy taken, capped at the
    /// largest energy.
    pub fn mow_area<M>(&self, cosmos: &mut Cosmos<M>, p: CrdI, now: Tick, value: EnergyT, threshold: EnergyT) -> (r: Result<EnergyT, ()>)
        requires
            old(cosmos).wf(),
            self.valid(old(cosmos).plate.size),
            area_fits(old(cosmos).plate.size, p),
            grounds_valid(old(cosmos).plate, now),
        ensures
            final(cosmos).wf(),
            grounds_valid(final(cosmos).plate, now),
            final(cosmos).mobs == old(cosmos).mobs,
            final(cosmos).properties == old(cosmos).properties,
            final(cosmos).plate.size == old(cosmos).plate.size,
            forall|x: int, y: int| #[trigger] in_plate(old(cosmos).plate.size, x, y) ==> final(cosmos).plate.mob_at(x, y) == old(cosmos).plate.mob_at(x, y),
            !self.spec_contains(old(cosmos).plate.size, p) ==> r is Err && *final(cosmos) == *old(cosmos),
            self.spec_contains(old(cosmos).plate.size, p) ==> ({
                let a = spec_normalize_area(old(cosmos).plate.size, p);
                &&& r == Ok::<EnergyT, ()>(cap(area_take(old(cosmos).plate, a, now, value, threshold, a.1.to - a.1.from + 1)))
                &&& forall|x: int, y: int| #[trigger] in_plate(old(cosmos).plate.size, x, y) ==>
                    ground_at(final(cosmos).plate, x, y) == (if covers(old(cosmos).plate.size, a, x, y) {
                        spec_mowed(ground_at(old(cosmos).plate, x, y), now, value, threshold)
                    } else {
                        ground_at(old(cosmos).plate, x, y)
                    })
            }),
    {
        if !self.contains(cosmos.plate.size, p) {
            return Err(());
        }
        let a = normalize_area(cosmos.plate.size, p);
        let w = cosmos.plate.size.0;
        let h = cosmos.plate.size.1;
        let lx = a.0.to - a.0.from;
        let ly = a.1.to - a.1.from;
        let ghost start = cosmos.plate;
        let ghost start_c = *cosmos;
        let mut total: EnergyT = 0;
        let mut dy: isize = 0;
        while dy <= ly
            invariant
                cosmos.plate.wf(),
                start.wf(),
                start_c.wf(),
                start_c.plate == start,
                cosmos.mobs == start_c.mobs,
                cosmos.properties == start_c.properties,
                cosmos.plate.size == start.size,
                normal_area(start.size, a),
                w == start.size.0, h == start.size.1,
                lx == a.0.to - a.0.from, ly == a.1.to - a.1.from,
                0 <= dy <= ly + 1,
                cosmos.plate.blocks@.len() == start.blocks@.len(),
                forall|k: int| 0 <= k < start.blocks@.len() ==> #[trigger] cosmos.plate.blocks@[k].mob == start.blocks@[k].mob,
                grounds_valid(cosmos.plate, now),
                forall|x: int, y: int| #[trigger] in_plate(start.size, x, y) ==>
                    ground_at(cosmos.plate, x, y) == (if walked(start.size, a, dy as int, 0, x, y) {
                        spec_mowed(ground_at(start, x, y), now, value, threshold)
                    } else {
                        ground_at(start, x, y)
                    }),
                total == cap(area_take(start, a, now, value, threshold, dy as int)),
            decreases ly + 1 - dy,
        {
            let y = step(a.1.from, dy, h);
            let mut dx: isize = 0;
            proof {
                lemma_area_take_nonneg(start, a, now, value, threshold, dy as int);
            }
            while dx <= lx
                invariant
                    cosmos.plate.wf(),
                    start.wf(),
                    cosmos.mobs == start_c.mobs,
                    cosmos.properties == start_c.properties,
                    cosmos.plate.size == start.size,
                    normal_area(start.size, a),
                    w == start.size.0, h == start.size.1,
                    lx == a.0.to - a.0.from, ly == a.1.to - a.1.from,
                    0 <= dy <= ly,
                    0 <= dx <= lx + 1,
                    0 <= y < h,
                    y == spec_step(a.1.from as int, dy as int, h as int),
                    off(y as int, a.1.from as int, h as int) == dy,
                    cosmos.plate.blocks@.len() == start.blocks@.len(),
                    forall|k: int| 0 <= k < start.blocks@.len() ==> #[trigger] cosmos.plate.blocks@[k].mob == start.blocks@[k].mob,
                    grounds_valid(cosmos.plate, now),
                    forall|x: int, yy: int| #[trigger] in_plate(start.size, x, yy) ==>
                        ground_at(cosmos.plate, x, yy) == (if walked(start.size, a, dy as int, dx as int, x, yy) {
                            spec_mowed(ground_at(start, x, yy), now, value, threshold)
                        } else {
                            ground_at(start, x, yy)
                        }),
                    area_take(start, a, now, value, threshold, dy as int) >= 0,
                    total == cap(area_take(start, a, now, value, threshold, dy as int) + row_take(start, a, now, value, threshold, dy as int, dx as int)),
                decreases lx + 1 - dx,
            {
                let x = step(a.0.from, dx, w);
                let i = index_of(cosmos.plate.size, x, y);
                proof {
                    crate::plate::lemma_cell_index(start.size);
                    assert(in_plate(start.size, x as int, y as int));
                    assert(!walked(start.size, a, dy as int, dx as int, x as int, y as int));
                    assert(cosmos.plate.blocks@[i as int].ground == ground_at(start, x as int, y as int));
                    assert(cosmos.plate.blocks@[i as int].ground.valid_at(now));
                    lemma_row_take_nonneg(start, a, now, value, threshold, dy as int, dx as int);
                }
                let ghost before = cosmos.plate;
                let taken = cosmos.plate.blocks[i].ground.raw_mow(&now, value, threshold);
                proof {
                    assert(taken == take_cell(start, a, now, value, threshold, dx as int, dy as int));
                }
                total = total.saturating_add(taken);
                proof {
                    crate::plate::lemma_cell_index(start.size);
                    assert forall|k: int| 0 <= k < start.blocks@.len() implies #[trigger] cosmos.plate.blocks@[k].ground.valid_at(now) by {
                        if k != i {
                            assert(before.blocks@[k].ground.valid_at(now));
                        }
                    }
                    assert forall|xx: int, yy: int| #[trigger] in_plate(start.size, xx, yy) implies
                        ground_at(cosmos.plate, xx, yy) == (if walked(start.size, a, dy as int, dx + 1, xx, yy) {
                            spec_mowed(ground_at(start, xx, yy), now, value, threshold)
                        } else {
                            ground_at(start, xx, yy)
                        }) by {
                        if xx == x && yy == y {
                        } else {
                            assert(cell_index(start.size, xx, yy) != cell_index(start.size, x as int, y as int));
                        }
                    }
                }
                dx = dx + 1;
            }
            proof {
                assert forall|xx: int, yy: int| #[trigger] in_plate(start.size, xx, yy) implies
                    ground_at(cosmos.plate, xx, yy) == (if walked(start.size, a, dy + 1, 0, xx, yy) {
                        spec_mowed(ground_at(start, xx, yy), now, value, threshold)
                    } else {
                        ground_at(start, xx, yy)
                    }) by {
                    assert(walked(start.size, a, dy + 1, 0, xx, yy) == walked(start.size, a, dy as int, dx as int, xx, yy));
                }
            }
            dy = dy + 1;
        }
        proof {
            assert forall|x: int, y: int| #[trigger] in_plate(start.size, x, y) implies
                ground_at(cosmos.plate, x, y) == (if covers(start.size, a, x, y) {
                    spec_mowed(ground_at(start, x, y), now, value, threshold)
                } else {
                    ground_at(start, x, y)
                }) by {
                assert(walked(start.size, a, dy as int, 0, x, y) == covers(start.size, a, x, y));
            }
            assert forall|x: int, y: int| #[trigger] in_plate(start.size, x, y) implies cosmos.plate.mob_at(x, y) == start.mob_at(x, y) by {
                crate::plate::lemma_cell_index(start.size);
            }
            assert(cosmos.wf());
        }
        Ok(total)
    }

    /// Sets a creature on the plate, if its area lies inside the bound; see `Cosmos::set`.
    pub fn set<M>(&self, cosmos: &mut Cosmos<M>, mob: MobBox<M>) -> (r: Result<Weak, MobBox<M>>)
        requires
            old(cosmos).wf(),
            self.valid(old(cosmos).plate.size),
            area_fits(old(cosmos).plate.size, mob.block.at),
        ensures
            final(cosmos).wf(),
            !self.spec_contains(old(cosmos).plate.size, mob.block.at) ==> (r matches Err(m) && m == mob
                && *final(cosmos) == *old(cosmos)),
            self.spec_contains(old(cosmos).plate.size, mob.block.at) && set_room(*old(cosmos), mob)
                ==> (r matches Ok(w) && set_placed(*old(cosmos), *final(cosmos), mob, w)),
            self.spec_contains(old(cosmos).plate.size, mob.block.at) && !set_room(*old(cosmos), mob)
                ==> (r matches Err(m) && m == mob && *final(cosmos) == *old(cosmos)),
            final(cosmos).properties == old(cosmos).properties,
    {
        if !self.contains(cosmos.plate.size, mob.block.at) {
            return Err(mob);
        }
        cosmos.set(mob)
    }

    /// Takes a creature off the plate; see `Cosmos::take`.
    pub fn take<M>(&self, cosmos: &mut Cosmos<M>, mob: MobRefMut) -> (r: MobBox<M>)
        requires
            old(cosmos).wf(),
            old(cosmos).alive(mob.slot),
        ensures
            final(cosmos).wf(),
            took(*old(cosmos), *final(cosmos), mob.slot, r),
            final(cosmos).properties == old(cosmos).properties,
    {
        cosmos.take(mob)
    }

    /// Moves a creature, if the new area lies inside the bound; see `Cosmos::reset`.
    pub fn reset<M>(&self, cosmos: &mut Cosmos<M>, mob: &MobRefMut, new_at: CrdI) -> (r: Result<(), ()>)
        requires
            old(cosmos).wf(),
            self.valid(old(cosmos).plate.size),
            old(cosmos).alive(mob.slot),
            area_fits(old(cosmos).plate.size, new_at),
        ensures
            final(cosmos).wf(),
            !self.spec_contains(old(cosmos).plate.size, new_at) ==> r is Err && *final(cosmos) == *old(cosmos),
            self.spec_contains(old(cosmos).plate.size, new_at) ==> ({
                let s = mob.slot;
                let a = spec_normalize_area(old(cosmos).plate.size, new_at);
                let free = forall|x: int, y: int| #[trigger] in_plate(old(cosmos).plate.size, x, y) && covers(old(cosmos).plate.size, a, x, y)
                    ==> old(cosmos).plate.mob_at(x, y) is None || old(cosmos).plate.mob_at(x, y) == Some(s);
                &&& free ==> r is Ok
                    && final(cosmos).mobs@ == old(cosmos).mobs@.update(s as int, Some(_MobBlock { at: a, ..old(cosmos).block(s) }))
                &&& !free ==> r is Err && *final(cosmos) == *old(cosmos)
            }),
            r is Err ==> *final(cosmos) == *old(cosmos),
            final(cosmos).properties == old(cosmos).properties,
            final(cosmos).plate.size == old(cosmos).plate.size,
            final(cosmos).mobs@.len() == old(cosmos).mobs@.len(),
            same_grounds(final(cosmos).plate, old(cosmos).plate),
    {
        if !self.contains(cosmos.plate.size, new_at) {
            return Err(());
        }
        cosmos.reset(mob, new_at)
    }
}

} // verus!

verus! {

/// The `i`-th cell of the area `a` (which starts on the plate), going row by row.
pub open spec fn area_cell(size: Crd, a: CrdI, i: int) -> Crd {
    let w = a.0.to - a.0.from + 1;
    Coord(spec_step(a.0.from as int, i % w, size.0 as int) as isize, spec_step(a.1.from as int, i / w, size.1 as int) as isize)
}

impl Deamon {
    /// The cells of the area `p` with their grounds, row by row, if the area lies inside the
    /// bound.
    pub fn get_ground_iter<'c, M>(&self, cosmos: &'c Cosmos<M>, p: CrdI) -> (r: Result<Vec<(Crd, &'c Ground)>, ()>)
        requires
            cosmos.wf(),
            self.valid(cosmos.plate.size),
            area_fits(cosmos.plate.size, p),
        ensures
            !self.spec_contains(cosmos.plate.size, p) ==> r is Err,
            self.spec_contains(cosmos.plate.size, p) ==> ({
                let a = spec_normalize_area(cosmos.plate.size, p);
                let n = (a.0.to - a.0.from + 1) * (a.1.to - a.1.from + 1);
                &&& r matches Ok(v) && v@.len() == n
                &&& forall|i: int| 0 <= i < n ==> {
                    let c = area_cell(cosmos.plate.size, a, i);
                    &&& (#[trigger] r->Ok_0@[i]).0 == c
                    &&& *r->Ok_0@[i].1 == ground_at(cosmos.plate, c.0 as int, c.1 as int)
                }
            }),
    {
        let size = cosmos.plate.size;
        if !self.contains(size, p) {
            return Err(());
        }
        let a = normalize_area(size, p);
        let w = a.0.to - a.0.from + 1;
        let h = a.1.to - a.1.from + 1;
        let mut out: Vec<(Crd, &'c Ground)> = Vec::new();
        let mut dy: isize = 0;
        while dy < h
            invariant
                cosmos.wf(),
                size == cosmos.plate.size,
                a == spec_normalize_area(size, p),
                area_fits(size, a),
                0 <= a.0.from < size.0,
                0 <= a.1.from < size.1,
                w == a.0.to - a.0.from + 1,
                h == a.1.to - a.1.from + 1,
                0 < w <= size.0,
                0 < h <= size.1,
                0 <= dy <= h,
                out@.len() == dy * w,
                forall|i: int| 0 <= i < out@.len() ==> {
                    let c = area_cell(size, a, i);
                    &&& (#[trigger] out@[i]).0 == c
                    &&& *out@[i].1 == ground_at(cosmos.plate, c.0 as int, c.1 as int)
                },
            decreases h - dy,
        {
            let y = step(a.1.from, dy, size.1);
            let mut dx: isize = 0;
            while dx < w
                invariant
                    cosmos.wf(),
                    size == cosmos.plate.size,
                    0 <= a.0.from < size.0,
                    0 <= a.1.from < size.1,
                    w == a.0.to - a.0.from + 1,
                    0 < w <= size.0,
                    0 <= dy < h,
                    y == spec_step(a.1.from as int, dy as int, size.1 as int),
                    0 <= y < size.1,
                    0 <= dx <= w,
                    out@.len() == dy * w + dx,
                    forall|i: int| 0 <= i < out@.len() ==> {
                        let c = area_cell(size, a, i);
                        &&& (#[trigger] out@[i]).0 == c
                        &&& *out@[i].1 == ground_at(cosmos.plate, c.0 as int, c.1 as int)
                    },
                decreases w - dx,
            {
                let x = step(a.0.from, dx, size.0);
                let i = index_of(size, x, y);
                let ghost k = dy * w + dx;
                proof {
                    vstd::arithmetic::div_mod::lemma_fundamental_div_mod_converse(k, w as int, dy as int, dx as int);
                    assert(area_cell(size, a, k) == Coord(x, y));
                }
                out.push((Coord(x, y), &cosmos.plate.blocks[i].ground));
                dx = dx + 1;
            }
            proof {
                assert((dy + 1) * w == dy * w + w) by (nonlinear_arith);
            }
            dy = dy + 1;
        }
        proof {
            assert(dy * w == w * h) by (nonlinear_arith)
                requires
                    dy == h,
            ;
        }
        Ok(out)
    }
}

} // verus!
