use vstd::prelude::*;

use std::sync::Arc;

use crate::cosmos::{Cosmos, MobBox, MobRefMut, _MobBlock};
use crate::deamon::{area_take, cap, ground_at, grounds_valid, same_grounds, Deamon};
use crate::gnd::spec_mowed;
use crate::grids::{displacement, spec_displacement};
use crate::mob::bio::share;
use crate::mob::letters::Msg;
use crate::mob::pathfind::{abs, silly_facing, spec_facing, spec_steps};
use crate::types::Tick;
use crate::grids::{
    area_fits, lemma_normalize_area_idem, measure_length, normalize_area, offset, small_area, spec_normalize_area,
    spec_offset, spec_span, span, valid_size, Coord, Crd, CrdI, Interval, MAX_SIDE,
};
use crate::mob::atk::ATK;
use crate::mob::species::Species;
use crate::observe::logger::Logger;
use crate::observe::stats::{ledger_add, Stats};
use crate::plate::{covers, in_plate, normal_area, Plate};
use crate::mob::bio::{Bio, BioAction, BioMutex, BioTarget};
use crate::mob::letters::{Order, Post};
use crate::refs::Weak;
use crate::types::{AgeT, EnergyT, HitPointT, ThreatT};

verus! {

pub open spec fn hp_after_attack(hp: HitPointT, atk: ATK) -> HitPointT {
    let ATK::Normal(x) = atk;
    if hp >= x { (hp - x) as HitPointT } else { 0 }
}

/// Hit points, whether the creature is to act, and its last attacker with that attacker's
/// threat, after a list of orders.
pub open spec fn spec_receive(hp: HitPointT, orders: Seq<Order>) -> (HitPointT, bool, Option<(Option<Weak>, ThreatT)>)
    decreases orders.len(),
{
    if orders.len() == 0 {
        (hp, false, None)
    } else {
        let (h, m, l) = spec_receive(hp, orders.drop_last());
        match orders.last() {
            Order::MobMainTick => (h, true, l),
            Order::Attack { atk, attacker, threat } => (
                hp_after_attack(h, atk),
                m,
                if attacker is Some { Some((attacker, threat)) } else { l },
            ),
        }
    }
}

/// The hit points the attacks among `orders` take, all together.
pub open spec fn damage(orders: Seq<Order>) -> int
    decreases orders.len(),
{
    if orders.len() == 0 {
        0
    } else {
        damage(orders.drop_last()) + match orders.last() {
            Order::Attack { atk: ATK::Normal(x), .. } => x as int,
            Order::MobMainTick => 0,
        }
    }
}

/// An attack whose attacker is known.
pub open spec fn named_attack(o: Order) -> bool {
    o matches Order::Attack { attacker: Some(_), .. }
}

/// The order `i` is an attack by the known attacker `a` with threat `t`, and no later order is
/// an attack whose attacker is known.
pub open spec fn last_named_at(orders: Seq<Order>, i: int, a: Option<Weak>, t: ThreatT) -> bool {
    &&& 0 <= i < orders.len()
    &&& orders[i] matches Order::Attack { attacker, threat, .. } && attacker == a && threat == t
    &&& a is Some
    &&& forall|j: int| i < j < orders.len() ==> !named_attack(#[trigger] orders[j])
}

/// `l` is the attacker a creature given `orders` remembers: none when no attack names its
/// attacker, and otherwise the attacker and threat of the last attack that does.
pub open spec fn remembers(orders: Seq<Order>, l: Option<(Option<Weak>, ThreatT)>) -> bool {
    match l {
        None => forall|i: int| 0 <= i < orders.len() ==> !named_attack(#[trigger] orders[i]),
        Some(p) => exists|i: int| #![trigger orders[i]] last_named_at(orders, i, p.0, p.1),
    }
}

proof fn lemma_remembers_at(orders: Seq<Order>, i: int, a: Option<Weak>, t: ThreatT)
    requires
        last_named_at(orders, i, a, t),
    ensures
        remembers(orders, Some((a, t))),
{
    assert(last_named_at(orders, i, a, t) && orders[i] == orders[i]);
}

/// Receiving orders: the attacks among them take their damage from the hit points, down to
/// zero and no further; the creature acts exactly when one of them is its main tick; and the
/// attacker it remembers is the one of the last attack whose attacker is known, with that
/// attack's threat, or none when no attack names its attacker.
pub proof fn lemma_receive(hp: HitPointT, orders: Seq<Order>)
    ensures
        spec_receive(hp, orders).0 == (if hp >= damage(orders) { hp - damage(orders) } else { 0 }),
        damage(orders) >= 0,
        spec_receive(hp, orders).1 <==> exists|i: int| 0 <= i < orders.len() && orders[i] == Order::MobMainTick,
        spec_receive(hp, orders).2 is None <==> forall|i: int| 0 <= i < orders.len() ==> !named_attack(#[trigger] orders[i]),
        remembers(orders, spec_receive(hp, orders).2),
    decreases orders.len(),
{
    if orders.len() > 0 {
        let pre = orders.drop_last();
        let n = orders.len() - 1;
        lemma_receive(hp, pre);
        assert forall|i: int| 0 <= i < n implies orders[i] == #[trigger] pre[i] by {}
        let (h, m, l) = spec_receive(hp, pre);
        assert(!named_attack(orders[n]) ==> spec_receive(hp, orders).2 == l);
        if exists|i: int| 0 <= i < pre.len() && pre[i] == Order::MobMainTick {
            let i = choose|i: int| 0 <= i < pre.len() && pre[i] == Order::MobMainTick;
            assert(orders[i] == Order::MobMainTick);
        }
        if exists|i: int| 0 <= i < orders.len() && orders[i] == Order::MobMainTick {
            let i = choose|i: int| 0 <= i < orders.len() && orders[i] == Order::MobMainTick;
            if i < n {
                assert(pre[i] == Order::MobMainTick);
            }
        }
        if !named_attack(orders[n]) {
            if forall|i: int| 0 <= i < pre.len() ==> !named_attack(#[trigger] pre[i]) {
                assert forall|i: int| 0 <= i < orders.len() implies !named_attack(#[trigger] orders[i]) by {
                    if i < n {
                        assert(orders[i] == pre[i]);
                    }
                }
            } else {
                let i = choose|i: int| 0 <= i < pre.len() && named_attack(#[trigger] pre[i]);
                assert(orders[i] == pre[i]);
            }
            match l {
                Some((a, t)) => {
                    let i = choose|i: int| #[trigger] last_named_at(pre, i, a, t);
                    assert(orders[i] == pre[i]);
                    assert forall|j: int| i < j < orders.len() implies !named_attack(#[trigger] orders[j]) by {
                        if j < n {
                            assert(orders[j] == pre[j]);
                        }
                    }
                    lemma_remembers_at(orders, i, a, t);
                },
                None => {},
            }
        } else {
            match orders[n] {
                Order::Attack { atk, attacker, threat } => {
                    lemma_remembers_at(orders, n, attacker, threat);
                },
                Order::MobMainTick => {},
            }
        }
    }
}

/// The breeding gate: a creature breeds on every tenth wake-up, when it has at least 200
/// energy and enough to pay for a child (its loss, its energy cost and the child's starting
/// energy), and keeps what is left after paying.
pub proof fn lemma_breed_gate(b: Bio)
    ensures
        b.spec_breed_gate() is Some <==> (b.age % 10 == 0 && b.energy >= 200
            && b.energy >= b.species.spawn_loss + b.species.energy_cost + b.species.spawn_init_energy),
        b.spec_breed_gate() matches Some(rem) ==> rem == b.energy - (b.species.spawn_loss + b.species.energy_cost
            + b.species.spawn_init_energy),
{
}

impl Bio {
    /// Takes the attacks among the orders. Returns whether the creature is to act,
    /// and its last attacker with that attacker's threat.
    pub fn receive_orders(&mut self, orders: &Vec<Order>) -> (r: (bool, Option<(Option<Weak>, ThreatT)>))
        ensures
            (final(self).hp, r.0, r.1) == spec_receive(old(self).hp, orders@),
            final(self).age == old(self).age,
            final(self).energy == old(self).energy,
            final(self).species == old(self).species,
            final(self).target == old(self).target,
    {
        let mut main_tick = false;
        let mut last_attacker: Option<(Option<Weak>, ThreatT)> = None;
        let mut i: usize = 0;
        while i < orders.len()
            invariant
                i <= orders.len(),
                (self.hp, main_tick, last_attacker) == spec_receive(old(self).hp, orders@.subrange(0, i as int)),
                self.age == old(self).age,
                self.energy == old(self).energy,
                self.species == old(self).species,
                self.target == old(self).target,
            decreases orders.len() - i,
        {
            proof {
                assert(orders@.subrange(0, i + 1).drop_last() =~= orders@.subrange(0, i as int));
            }
            match orders[i] {
                Order::MobMainTick => main_tick = true,
                Order::Attack { atk, attacker, threat } => {
                    self.being_attacked(atk);
                    if attacker.is_some() {
                        last_attacker = Some((attacker, threat));
                    }
                },
            }
            i = i + 1;
        }
        proof {
            assert(orders@.subrange(0, orders.len() as int) =~= orders@);
        }
        (main_tick, last_attacker)
    }
}

} // verus!

verus! {

pub open spec fn hp_sat_add(a: HitPointT, b: HitPointT) -> HitPointT {
    if a + b <= HitPointT::MAX { (a + b) as HitPointT } else { HitPointT::MAX }
}

pub open spec fn energy_sat_sub(a: EnergyT, b: EnergyT) -> EnergyT {
    if a >= b { (a - b) as EnergyT } else { 0 }
}

pub open spec fn energy_sat_add(a: EnergyT, b: EnergyT) -> EnergyT {
    if a + b <= EnergyT::MAX { (a + b) as EnergyT } else { EnergyT::MAX }
}

/// Hit points after a wake-up: a wounded creature regenerates.
pub open spec fn spec_regen_hp(b: Bio) -> HitPointT {
    if b.hp < b.species.max_hp { hp_sat_add(b.hp, b.species.regeneration) } else { b.hp }
}

/// Energy after regenerating, before the wake-up cost.
pub open spec fn spec_regen_energy(b: Bio) -> EnergyT {
    if b.hp < b.species.max_hp { energy_sat_sub(b.energy, b.species.regeneration_cost) } else { b.energy }
}

/// The creature survives its wake-up: it has hit points and can pay the wake-up cost.
pub open spec fn survives(b: Bio) -> bool {
    b.hp != 0 && spec_regen_energy(b) >= b.species.wake_energy_consume
}

/// At a wake-up a wounded creature (below its species' most hit points) heals by its
/// regeneration, saturating at the largest hit-point count, and pays the regeneration cost
/// out of its energy, down to zero at most; a creature at full health neither heals nor pays.
/// A creature that survives the wake-up then pays the wake-up cost and is a wake-up older.
pub proof fn lemma_wake_regenerates(b: Bio)
    ensures
        b.hp < b.species.max_hp ==> spec_regen_hp(b) == (if b.hp + b.species.regeneration <= HitPointT::MAX {
            b.hp + b.species.regeneration
        } else {
            HitPointT::MAX as int
        }),
        b.hp < b.species.max_hp && b.species.regeneration > 0 ==> spec_regen_hp(b) > b.hp,
        b.hp >= b.species.max_hp ==> spec_regen_hp(b) == b.hp,
        b.hp < b.species.max_hp ==> spec_regen_energy(b) == (if b.energy >= b.species.regeneration_cost {
            b.energy - b.species.regeneration_cost
        } else {
            0
        }),
        b.hp >= b.species.max_hp ==> spec_regen_energy(b) == b.energy,
        survives(b) <==> b.hp != 0 && spec_regen_energy(b) >= b.species.wake_energy_consume,
        survives(b) ==> {
            &&& spec_vital(b).hp == spec_regen_hp(b)
            &&& spec_vital(b).energy == spec_regen_energy(b) - b.species.wake_energy_consume
            &&& spec_vital(b).age == b.age.wrapping_add(1)
            &&& spec_vital(b).species == b.species
        },
{
}

impl Bio {
    /// Ages the creature by one wake-up, regenerates it and charges the wake-up cost.
    /// Returns false when it dies: it has no hit points left, or starves.
    pub fn vitals(&mut self) -> (r: bool)
        ensures
            final(self).age == old(self).age.wrapping_add(1),
            r == survives(*old(self)),
            r ==> final(self).hp == spec_regen_hp(*old(self)),
            r ==> final(self).energy == spec_regen_energy(*old(self)) - old(self).species.wake_energy_consume,
            final(self).species == old(self).species,
            final(self).target == old(self).target,
    {
        self.age = self.age.wrapping_add(1);
        if self.hp == 0 {
            return false;
        }
        if self.hp < self.species.max_hp {
            self.hp = self.hp.saturating_add(self.species.regeneration);
            self.energy = self.energy.saturating_sub(self.species.regeneration_cost);
        }
        match self.energy.checked_sub(self.species.wake_energy_consume) {
            Some(remain) => {
                self.energy = remain;
                true
            },
            None => false,
        }
    }

    /// The energy a creature keeps after breeding now, if it breeds: every tenth wake-up,
    /// with at least 200 energy and enough to pay for a child.
    pub open spec fn spec_breed_gate(&self) -> Option<EnergyT> {
        if self.age % 10 == 0 && 200 <= self.energy && self.energy >= self.species.spec_spawn_energy_cost() {
            Some((self.energy - self.species.spec_spawn_energy_cost()) as EnergyT)
        } else {
            None
        }
    }

    pub fn breed_gate(&self) -> (r: Option<EnergyT>)
        requires
            self.species.spec_spawn_energy_cost() <= EnergyT::MAX,
        ensures
            r == self.spec_breed_gate(),
    {
        if self.age % self.species.breed_period() == 0 && self.species.spawn_when() <= self.energy {
            self.energy.checked_sub(self.species.spawn_energy_cost())
        } else {
            None
        }
    }
}

} // verus!

verus! {

/// Every cell of the area is empty.
pub open spec fn area_free(p: Plate, a: CrdI) -> bool {
    forall|x: int, y: int| #[trigger] in_plate(p.size, x, y) && covers(p.size, a, x, y) ==> p.mob_at(x, y) is None
}

/// A child can be set at `a`: the area lies inside the bound and its cells are empty.
pub open spec fn spot_ok(p: Plate, d: Deamon, a: CrdI) -> bool {
    d.spec_contains(p.size, a) && area_free(p, spec_normalize_area(p.size, a))
}

/// The first spot, in order, where a child can be set.
pub open spec fn first_ok(p: Plate, d: Deamon, spots: Seq<CrdI>) -> Option<int>
    decreases spots.len(),
{
    if spots.len() == 0 {
        None
    } else if spot_ok(p, d, spots[0]) {
        Some(0)
    } else {
        match first_ok(p, d, spots.drop_first()) {
            Some(i) => Some(i + 1),
            None => None,
        }
    }
}

/// The areas where a parent standing on `at` tries, in order, to set a child of `size`:
/// left of it, above it, right of it, below it.
pub open spec fn spec_birth_spots(at: CrdI, size: Crd) -> Seq<CrdI> {
    let base = spec_span(Coord(0, 0), size);
    let f = Coord(at.0.from, at.1.from);
    seq![
        spec_offset(base, Coord((f.0 - (size.0 + 1)) as isize, f.1)),
        spec_offset(base, Coord(f.0, (f.1 - (size.1 + 1)) as isize)),
        spec_offset(base, Coord((f.0 + (at.0.to - at.0.from + 1)) as isize, f.1)),
        spec_offset(base, Coord(f.0, (f.1 + (at.1.to - at.1.from + 1)) as isize)),
    ]
}

/// A creature size that fits on a plate of `plate`.
pub open spec fn size_fits(plate: Crd, size: Crd) -> bool {
    0 <= size.0 < plate.0 && 0 <= size.1 < plate.1
}

/// Where a parent standing on `at` tries to set a child of `size`.
pub fn birth_spots(plate: Crd, at: CrdI, size: Crd) -> (r: [CrdI; 4])
    requires
        valid_size(plate),
        normal_area(plate, at),
        size_fits(plate, size),
    ensures
        r@ == spec_birth_spots(at, size),
        forall|i: int| 0 <= i < 4 ==> area_fits(plate, #[trigger] r@[i]) && small_area(r@[i]),
{
    let base = span(Coord(0, 0), size);
    let f = Coord(at.0.from, at.1.from);
    let r = [
        offset(base, Coord(f.0 - measure_length(base.0), f.1)),
        offset(base, Coord(f.0, f.1 - measure_length(base.1))),
        offset(base, Coord(f.0 + measure_length(at.0), f.1)),
        offset(base, Coord(f.0, f.1 + measure_length(at.1))),
    ];
    proof {
        assert(r@ =~= spec_birth_spots(at, size));
    }
    r
}

/// Sets `child` at the first of the spots where it can stand. Returns its handle, or
/// `None`, leaving the world alone, when it can stand at none of them.
pub fn place_child(cosmos: &mut Cosmos<Bio>, deamon: &Deamon, child: Bio, spots: &[CrdI; 4]) -> (r: Option<Weak>)
    requires
        old(cosmos).wf(),
        deamon.valid(old(cosmos).plate.size),
        forall|i: int| 0 <= i < 4 ==> area_fits(old(cosmos).plate.size, #[trigger] spots@[i]),
    ensures
        final(cosmos).wf(),
        final(cosmos).properties == old(cosmos).properties,
        match first_ok(old(cosmos).plate, *deamon, spots@) {
            Some(i) => {
                let a = spec_normalize_area(old(cosmos).plate.size, spots@[i]);
                &&& r == Some(Weak { slot: old(cosmos).mobs@.len() as usize })
                &&& final(cosmos).mobs@ == old(cosmos).mobs@.push(Some(_MobBlock { at: a, on_plate: true, log: Logger {}, mob: child }))
                &&& final(cosmos).plate.filled_from(old(cosmos).plate, a, Some(old(cosmos).mobs@.len() as usize))
            },
            None => r is None && *final(cosmos) == *old(cosmos),
        },
{
    let size = cosmos.plate.size;
    let mut b = MobBox { block: _MobBlock { at: spots[0], on_plate: false, log: Logger {}, mob: child } };
    let mut i: usize = 0;
    let ghost start = *cosmos;
    proof {
        assert(spots@.subrange(0, 4) =~= spots@);
    }
    while i < 4
        invariant
            0 <= i <= 4,
            *cosmos == start,
            start == *old(cosmos),
            size == start.plate.size,
            start.wf(),
            deamon.valid(size),
            forall|j: int| 0 <= j < 4 ==> area_fits(size, #[trigger] spots@[j]),
            b.block.mob == child,
            b.block.log == (Logger {}),
            !b.block.on_plate,
            forall|j: int| 0 <= j < i ==> !spot_ok(start.plate, *deamon, #[trigger] spots@[j]),
            first_ok(start.plate, *deamon, spots@) == (match first_ok(start.plate, *deamon, spots@.subrange(i as int, 4)) {
                Some(k) => Some(k + i),
                None => None::<int>,
            }),
        decreases 4 - i,
    {
        let a = normalize_area(size, spots[i]);
        proof {
            lemma_normalize_area_idem(size, spots@[i as int]);
            assert(spots@.subrange(i as int, 4).drop_first() =~= spots@.subrange(i + 1, 4));
            assert(spots@.subrange(i as int, 4)[0] == spots@[i as int]);
        }
        b.block.at = a;
        match deamon.set(cosmos, b) {
            Ok(w) => {
                return Some(w);
            },
            Err(m) => {
                b = m;
            },
        }
        i = i + 1;
    }
    proof {
        assert(spots@.subrange(4, 4) =~= Seq::<CrdI>::empty());
    }
    None
}

} // verus!

verus! {

/// The target is close enough, in Chebyshev distance on each axis, to act on it.
pub open spec fn in_range(size: Crd, at: CrdI, t: BioTarget, tp: CrdI) -> bool {
    let d = spec_displacement(size, at, tp);
    abs(d.0 as int) <= t.action_range.0 && abs(d.1 as int) <= t.action_range.1
}

/// The two areas a creature standing on `at` tries, in order, to move to, towards the target
/// `tp`, or away from it when the target's weight is negative.
pub open spec fn move_targets(size: Crd, at: CrdI, t: BioTarget, tp: CrdI) -> (CrdI, CrdI) {
    let st = spec_steps(spec_facing(spec_displacement(size, at, spec_normalize_area(size, tp))));
    (spec_offset(at, directed(st.0, t.action_weight)), spec_offset(at, directed(st.1, t.action_weight)))
}

/// A step, reversed when the weight is negative.
pub open spec fn directed(c: Crd, weight: i8) -> Crd {
    if weight < 0 { Coord((-c.0) as isize, (-c.1) as isize) } else { c }
}

/// Creature `s` can move to `a`: the area lies inside the bound and holds no other creature.
pub open spec fn reset_ok(p: Plate, d: Deamon, s: usize, a: CrdI) -> bool {
    &&& d.spec_contains(p.size, a)
    &&& forall|x: int, y: int| #[trigger] in_plate(p.size, x, y) && covers(p.size, spec_normalize_area(p.size, a), x, y)
        ==> p.mob_at(x, y) is None || p.mob_at(x, y) == Some(s)
}

/// The targets a creature keeps: every area in them lies on the plate.
pub open spec fn target_ok(size: Crd, t: BioTarget) -> bool {
    t.target matches Some(tp) ==> normal_area(size, tp)
}

/// What a creature did about its target.
pub struct Pursuit {
    /// Orders sent to other creatures.
    pub posts: Vec<Post>,
    /// The energy eaten, when it ate.
    pub eaten: Option<EnergyT>,
    /// Whether it moved, when it tried.
    pub moved: Option<bool>,
}

/// The energy eaten from the target `tp`: nothing if it lies outside the bound.
pub open spec fn spec_eaten(p: Plate, d: Deamon, tp: CrdI, now: Tick, sp: Species) -> EnergyT {
    if d.spec_contains(p.size, tp) {
        let a = spec_normalize_area(p.size, tp);
        cap(area_take(p, a, now, sp.eat_takes, sp.eat_threshold, a.1.to - a.1.from + 1))
    } else {
        0
    }
}

/// The attack order sent to an enemy by creature `s`.
pub open spec fn attack_post(enemy: Weak, s: usize, sp: Species) -> Post {
    Post::Order {
        to: enemy,
        order: Order::Attack { atk: sp.atk, attacker: Some(Weak { slot: s }), threat: sp.threat },
        delay: 0,
    }
}

/// The plate `q` is `p` after a creature of species `sp` ate the area `tp`: when the area
/// lies inside the bound, each of its grounds mowed and the rest as before; otherwise every
/// ground as before.
pub open spec fn ate(p: Plate, q: Plate, d: Deamon, tp: CrdI, now: Tick, sp: Species) -> bool {
    if d.spec_contains(p.size, tp) {
        let a = spec_normalize_area(p.size, tp);
        &&& q.size == p.size
        &&& forall|x: int, y: int| #[trigger] in_plate(p.size, x, y) ==> ground_at(q, x, y) == (if covers(p.size, a, x, y) {
            spec_mowed(ground_at(p, x, y), now, sp.eat_takes, sp.eat_threshold)
        } else {
            ground_at(p, x, y)
        })
    } else {
        same_grounds(q, p)
    }
}

/// Acting on a target in range: eating it, attacking it, or dropping it.
pub open spec fn spec_act(p: Plate, d: Deamon, s: usize, b: Bio, tp: CrdI, now: Tick) -> (Bio, Seq<Post>, Option<EnergyT>) {
    let t = b.target.target;
    let sp = *b.species;
    let idle = Bio { target: crate::mob::bio::BioMutex { target: crate::mob::bio::spec_idle_target() }, ..b };
    match t.action {
        BioAction::Eat => {
            let e = spec_eaten(p, d, tp, now, sp);
            if e == 0 {
                (idle, Seq::empty(), Some(e))
            } else {
                (Bio { energy: energy_sat_add(b.energy, e), ..b }, Seq::empty(), Some(e))
            }
        },
        BioAction::Nothing | BioAction::Stroll => (idle, Seq::empty(), None),
        BioAction::Flee | BioAction::Chase => match t.target_mob {
            Some(enemy) => (b, seq![attack_post(enemy, s, sp)], None),
            None => (idle, Seq::empty(), None),
        },
    }
}

/// Moving towards (or away from) a target: the creature pays the move cost, or drops the target
/// when it cannot move.
pub open spec fn spec_move(p: Plate, d: Deamon, s: usize, b: Bio, at: CrdI, tp: CrdI) -> (Bio, bool) {
    let idle = Bio { target: crate::mob::bio::BioMutex { target: crate::mob::bio::spec_idle_target() }, ..b };
    let (m0, m1) = move_targets(p.size, at, b.target.target, tp);
    if reset_ok(p, d, s, m0) || reset_ok(p, d, s, m1) {
        (Bio { energy: energy_sat_sub(b.energy, b.species.move_cost), ..b }, true)
    } else {
        (idle, false)
    }
}

/// Where a creature stands after trying to move.
pub open spec fn spec_move_at(p: Plate, d: Deamon, s: usize, b: Bio, at: CrdI, tp: CrdI) -> CrdI {
    let (m0, m1) = move_targets(p.size, at, b.target.target, tp);
    if reset_ok(p, d, s, m0) {
        spec_normalize_area(p.size, m0)
    } else if reset_ok(p, d, s, m1) {
        spec_normalize_area(p.size, m1)
    } else {
        at
    }
}

/// The creature moves this wake-up: its target is out of range and it is a move wake-up.
pub open spec fn moves_now(p: Plate, b: Bio, at: CrdI, tp: CrdI) -> bool {
    !in_range(p.size, at, b.target.target, tp) && b.age % b.species.move_period == 0
}

/// What a creature does about its target, as a change of the creature and the orders it sends.
pub open spec fn spec_pursuit(p: Plate, d: Deamon, s: usize, b: Bio, at: CrdI, now: Tick) -> (Bio, Seq<Post>, Option<EnergyT>, Option<bool>) {
    match b.target.target.target {
        None => (b, Seq::empty(), None, None),
        Some(tp) => if in_range(p.size, at, b.target.target, tp) {
            let (nb, posts, eaten) = spec_act(p, d, s, b, tp, now);
            (nb, posts, eaten, None)
        } else if b.age % b.species.move_period != 0 {
            (b, Seq::empty(), None, None)
        } else {
            let (nb, moved) = spec_move(p, d, s, b, at, tp);
            (nb, Seq::empty(), None, Some(moved))
        },
    }
}

/// Where a creature stands after pursuing its target.
pub open spec fn spec_pursuit_at(p: Plate, d: Deamon, s: usize, b: Bio, at: CrdI) -> CrdI {
    match b.target.target.target {
        Some(tp) => if moves_now(p, b, at, tp) { spec_move_at(p, d, s, b, at, tp) } else { at },
        None => at,
    }
}

/// Acting on a target in range. Eating adds what was eaten to the creature's energy,
/// saturating, and keeps the aim; when nothing could be eaten the aim is dropped instead.
/// Fleeing or chasing a creature attacks it: one attack order, at once, with the species'
/// attack and threat, naming this creature as the attacker; with no creature to aim at the aim
/// is dropped. An aimless or strolling creature drops its aim. Nothing else of the creature
/// changes.
pub proof fn lemma_act(p: Plate, d: Deamon, s: usize, b: Bio, tp: CrdI, now: Tick)
    ensures
        ({
            let (nb, posts, eaten) = spec_act(p, d, s, b, tp, now);
            let t = b.target.target;
            &&& nb.hp == b.hp && nb.age == b.age && nb.species == b.species
            &&& t.action == BioAction::Eat ==> {
                &&& eaten == Some(spec_eaten(p, d, tp, now, *b.species))
                &&& posts.len() == 0
                &&& spec_eaten(p, d, tp, now, *b.species) > 0 ==> nb.target == b.target && nb.energy == (if b.energy
                    + spec_eaten(p, d, tp, now, *b.species) <= EnergyT::MAX {
                    b.energy + spec_eaten(p, d, tp, now, *b.species)
                } else {
                    EnergyT::MAX as int
                })
                &&& spec_eaten(p, d, tp, now, *b.species) == 0 ==> nb.target.target.is_idle() && nb.energy == b.energy
            }
            &&& (t.action == BioAction::Flee || t.action == BioAction::Chase) && t.target_mob is Some ==> {
                &&& nb == b
                &&& eaten is None
                &&& posts == seq![Post::Order {
                    to: t.target_mob->0,
                    order: Order::Attack { atk: b.species.atk, attacker: Some(Weak { slot: s }), threat: b.species.threat },
                    delay: 0,
                }]
            }
            &&& (t.action == BioAction::Flee || t.action == BioAction::Chase) && t.target_mob is None ==> nb.target.target.is_idle()
                && nb.energy == b.energy && posts.len() == 0 && eaten is None
            &&& (t.action == BioAction::Nothing || t.action == BioAction::Stroll) ==> nb.target.target.is_idle()
                && nb.energy == b.energy && posts.len() == 0 && eaten is None
        }),
{
}

/// Moving towards a target, or away from it when the aim's weight is negative: the creature
/// tries the areas one step along each of the two facing steps, turned round for a negative
/// weight; when it moves it pays the move cost, down to zero at most, and keeps its aim, and
/// when it cannot move it drops its aim and pays nothing.
pub proof fn lemma_move(p: Plate, d: Deamon, s: usize, b: Bio, at: CrdI, tp: CrdI)
    ensures
        ({
            let (nb, moved) = spec_move(p, d, s, b, at, tp);
            let st = spec_steps(spec_facing(spec_displacement(p.size, at, spec_normalize_area(p.size, tp))));
            let (m0, m1) = move_targets(p.size, at, b.target.target, tp);
            &&& b.target.target.action_weight >= 0 ==> m0 == spec_offset(at, st.0) && m1 == spec_offset(at, st.1)
            &&& b.target.target.action_weight < 0 ==> m0 == spec_offset(at, Coord((-st.0.0) as isize, (-st.0.1) as isize))
                && m1 == spec_offset(at, Coord((-st.1.0) as isize, (-st.1.1) as isize))
            &&& moved <==> reset_ok(p, d, s, m0) || reset_ok(p, d, s, m1)
            &&& nb.hp == b.hp && nb.age == b.age && nb.species == b.species
            &&& moved ==> nb.target == b.target && nb.energy == (if b.energy >= b.species.move_cost {
                b.energy - b.species.move_cost
            } else {
                0
            })
            &&& !moved ==> nb.target.target.is_idle() && nb.energy == b.energy
        }),
{
}

/// An attacked creature turns on its last attacker, whatever it was doing: it flees it,
/// keeping its attack range to fight back and pulling with the highest weight when the
/// attacker's threat is at most its fight-back threshold, and with no range and the lowest
/// weight otherwise. A creature that was not attacked by a known attacker keeps its aim; the
/// rest of the creature never changes.
pub proof fn lemma_fight_back(b: Bio, last: Option<(Option<Weak>, ThreatT)>)
    ensures
        last is None ==> spec_fight_back(b, last) == b,
        ({
            let nb = spec_fight_back(b, last);
            &&& nb.hp == b.hp && nb.age == b.age && nb.energy == b.energy && nb.species == b.species
            &&& last matches Some(l) ==> {
                &&& nb.target.target.action == BioAction::Flee
                &&& nb.target.target.target is None
                &&& nb.target.target.target_mob == l.0
                &&& l.1 <= b.species.fight_back_threshold ==> nb.target.target.action_range == b.species.attack_range
                    && nb.target.target.action_weight == i8::MAX
                &&& l.1 > b.species.fight_back_threshold ==> nb.target.target.action_range == Coord(0isize, 0isize)
                    && nb.target.target.action_weight == i8::MIN
            }
        }),
{
}

/// What a creature does about its aim: nothing without a target; acting on it when it is in
/// range; otherwise waiting, except on a move wake-up, when it moves.
pub proof fn lemma_pursuit(p: Plate, d: Deamon, s: usize, b: Bio, at: CrdI, now: Tick)
    ensures
        ({
            let (nb, posts, eaten, moved) = spec_pursuit(p, d, s, b, at, now);
            &&& b.target.target.target is None ==> nb == b && posts.len() == 0 && eaten is None && moved is None
                && spec_pursuit_at(p, d, s, b, at) == at
            &&& b.target.target.target matches Some(tp) ==> {
                &&& in_range(p.size, at, b.target.target, tp) ==> (nb, posts, eaten) == spec_act(p, d, s, b, tp, now)
                    && moved is None && spec_pursuit_at(p, d, s, b, at) == at
                &&& !in_range(p.size, at, b.target.target, tp) && b.age % b.species.move_period != 0 ==> nb == b
                    && posts.len() == 0 && moved is None && spec_pursuit_at(p, d, s, b, at) == at
                &&& !in_range(p.size, at, b.target.target, tp) && b.age % b.species.move_period == 0 ==> (nb, moved->0)
                    == spec_move(p, d, s, b, at, tp) && posts.len() == 0 && moved is Some
            }
        }),
{
}

/// Acts on a target that is in range.
fn act_on_target(cosmos: &mut Cosmos<Bio>, deamon: &Deamon, s: usize, now: Tick, tp: CrdI) -> (r: Pursuit)
    requires
        old(cosmos).wf(),
        old(cosmos).alive(s),
        deamon.valid(old(cosmos).plate.size),
        grounds_valid(old(cosmos).plate, now),
        normal_area(old(cosmos).plate.size, tp),
    ensures
        final(cosmos).wf(),
        final(cosmos).properties == old(cosmos).properties,
        final(cosmos).plate.size == old(cosmos).plate.size,
        grounds_valid(final(cosmos).plate, now),
        ({
            let b = old(cosmos).block(s);
            let (nb, posts, eaten) = spec_act(old(cosmos).plate, *deamon, s, b.mob, tp, now);
            &&& final(cosmos).mobs@ == old(cosmos).mobs@.update(s as int, Some(_MobBlock { mob: nb, ..b }))
            &&& r.posts@ == posts
            &&& r.eaten == eaten
            &&& r.moved is None
            &&& eaten is None ==> final(cosmos).plate == old(cosmos).plate
            &&& eaten is Some ==> ate(old(cosmos).plate, final(cosmos).plate, *deamon, tp, now, *b.mob.species)
        }),
{
    let ghost c0 = *cosmos;
    let blk = cosmos.mobs[s].as_ref().unwrap();
    let t = blk.mob.target.target;
    let species = share(&blk.mob.species);
    let mut posts: Vec<Post> = Vec::new();
    match t.action {
        BioAction::Eat => {
            let takes = match deamon.mow_area(cosmos, tp, now, species.eat_takes, species.eat_threshold) {
                Ok(v) => v,
                Err(_) => 0,
            };
            let ghost c1 = *cosmos;
            let bio = cosmos.mob_mut(s);
            if takes == 0 {
                bio.target.target = BioTarget::new();
            } else {
                bio.energy = bio.energy.saturating_add(takes);
            }
            proof {
                crate::cosmos::lemma_wf_mob_changed(c1, *cosmos, s, cosmos.block(s).mob);
            }
            Pursuit { posts, eaten: Some(takes), moved: None }
        },
        BioAction::Nothing | BioAction::Stroll => {
            let bio = cosmos.mob_mut(s);
            bio.target.target = BioTarget::new();
            proof {
                crate::cosmos::lemma_wf_mob_changed(c0, *cosmos, s, cosmos.block(s).mob);
            }
            Pursuit { posts, eaten: None, moved: None }
        },
        BioAction::Flee | BioAction::Chase => {
            match t.target_mob {
                Some(enemy) => {
                    posts.push(Post::Order {
                        to: enemy,
                        order: Order::Attack { atk: species.atk, attacker: Some(Weak { slot: s }), threat: species.threat },
                        delay: 0,
                    });
                    proof {
                        assert(posts@ =~= seq![attack_post(enemy, s, *species)]);
                        assert(c0.mobs@.update(s as int, Some(_MobBlock { mob: c0.block(s).mob, ..c0.block(s) })) =~= c0.mobs@);
                    }
                },
                None => {
                    let bio = cosmos.mob_mut(s);
                    bio.target.target = BioTarget::new();
                    proof {
                        crate::cosmos::lemma_wf_mob_changed(c0, *cosmos, s, cosmos.block(s).mob);
                    }
                },
            }
            Pursuit { posts, eaten: None, moved: None }
        },
    }
}

/// Tries to move towards (or away from) a target that is out of range.
fn move_to_target(cosmos: &mut Cosmos<Bio>, deamon: &Deamon, s: usize, tp: CrdI) -> (r: Pursuit)
    requires
        old(cosmos).wf(),
        old(cosmos).alive(s),
        deamon.valid(old(cosmos).plate.size),
        normal_area(old(cosmos).plate.size, tp),
    ensures
        final(cosmos).wf(),
        final(cosmos).properties == old(cosmos).properties,
        same_grounds(final(cosmos).plate, old(cosmos).plate),
        ({
            let b = old(cosmos).block(s);
            let (nb, moved) = spec_move(old(cosmos).plate, *deamon, s, b.mob, b.at, tp);
            &&& final(cosmos).mobs@ == old(cosmos).mobs@.update(s as int, Some(_MobBlock {
                at: spec_move_at(old(cosmos).plate, *deamon, s, b.mob, b.at, tp),
                mob: nb,
                ..b
            }))
            &&& r.posts@ == Seq::<Post>::empty()
            &&& r.eaten is None
            &&& r.moved == Some(moved)
        }),
{
    let size = cosmos.plate.size;
    let blk = cosmos.mobs[s].as_ref().unwrap();
    let at = blk.at;
    let t = blk.mob.target.target;
    let move_cost = blk.mob.species.move_cost;
    let tn = normalize_area(size, tp);
    let facings = silly_facing(at, tn, size);
    let mref = MobRefMut { slot: s };
    proof {
        crate::mob::pathfind::lemma_facing_steps_unit(spec_displacement(size, at, tn));
    }
    let f0 = facings[0];
    let f1 = facings[1];
    let (d0, d1) = if t.action_weight < 0 { (Coord(-f0.0, -f0.1), Coord(-f1.0, -f1.1)) } else { (f0, f1) };
    proof {
        assert((f0, f1) == spec_steps(spec_facing(spec_displacement(size, at, tn))));
        assert(move_targets(size, at, t, tp) == (spec_offset(at, d0), spec_offset(at, d1)));
    }
    let m0 = offset(at, d0);
    let mut moved = deamon.reset(cosmos, &mref, m0).is_ok();
    if !moved {
        let m1 = offset(at, d1);
        moved = deamon.reset(cosmos, &mref, m1).is_ok();
    }
    let ghost c1 = *cosmos;
    let bio = cosmos.mob_mut(s);
    if moved {
        bio.energy = bio.energy.saturating_sub(move_cost);
    } else {
        bio.target.target = BioTarget::new();
    }
    proof {
        crate::cosmos::lemma_wf_mob_changed(c1, *cosmos, s, cosmos.block(s).mob);
    }
    Pursuit { posts: Vec::new(), eaten: None, moved: Some(moved) }
}

/// Acts on the creature's target: eats it, attacks it, or drops it when it is in range;
/// otherwise moves towards it (or away from it) on its move wake-ups.
pub fn pursue(cosmos: &mut Cosmos<Bio>, deamon: &Deamon, s: usize, now: Tick) -> (r: Pursuit)
    requires
        old(cosmos).wf(),
        old(cosmos).alive(s),
        deamon.valid(old(cosmos).plate.size),
        grounds_valid(old(cosmos).plate, now),
        target_ok(old(cosmos).plate.size, old(cosmos).block(s).mob.target.target),
        old(cosmos).block(s).mob.species.move_period > 0,
    ensures
        final(cosmos).wf(),
        final(cosmos).properties == old(cosmos).properties,
        final(cosmos).plate.size == old(cosmos).plate.size,
        grounds_valid(final(cosmos).plate, now),
        ({
            let b = old(cosmos).block(s);
            let (nb, posts, eaten, moved) = spec_pursuit(old(cosmos).plate, *deamon, s, b.mob, b.at, now);
            &&& final(cosmos).mobs@ == old(cosmos).mobs@.update(s as int, Some(_MobBlock {
                at: spec_pursuit_at(old(cosmos).plate, *deamon, s, b.mob, b.at),
                mob: nb,
                ..b
            }))
            &&& r.posts@ == posts
            &&& r.eaten == eaten
            &&& r.moved == moved
            &&& eaten is None ==> same_grounds(final(cosmos).plate, old(cosmos).plate)
            &&& eaten is Some ==> (b.mob.target.target.target matches Some(tp)
                && ate(old(cosmos).plate, final(cosmos).plate, *deamon, tp, now, *b.mob.species))
        }),
{
    let size = cosmos.plate.size;
    let ghost c0 = *cosmos;
    let blk = cosmos.mobs[s].as_ref().unwrap();
    let at = blk.at;
    let t = blk.mob.target.target;
    let age = blk.mob.age;
    let move_period = blk.mob.species.move_period;
    match t.target {
        None => {
            proof {
                assert(c0.mobs@.update(s as int, Some(_MobBlock { mob: c0.block(s).mob, ..c0.block(s) })) =~= c0.mobs@);
            }
            Pursuit { posts: Vec::new(), eaten: None, moved: None }
        },
        Some(tp) => {
            let d = displacement(size, at, tp);
            let dx = if d.0 < 0 { -d.0 } else { d.0 };
            let dy = if d.1 < 0 { -d.1 } else { d.1 };
            if dx <= t.action_range.0 && dy <= t.action_range.1 {
                act_on_target(cosmos, deamon, s, now, tp)
            } else if age % move_period != 0 {
                proof {
                    assert(c0.mobs@.update(s as int, Some(_MobBlock { mob: c0.block(s).mob, ..c0.block(s) })) =~= c0.mobs@);
                }
                Pursuit { posts: Vec::new(), eaten: None, moved: None }
            } else {
                let r = move_to_target(cosmos, deamon, s, tp);
                proof {
                    assert forall|k: int| 0 <= k < cosmos.plate.blocks@.len() implies #[trigger] cosmos.plate.blocks@[k].ground.valid_at(now) by {
                        assert(c0.plate.blocks@[k].ground.valid_at(now));
                    }
                }
                r
            }
        },
    }
}

} // verus!

verus! {

/// What a creature's turn did.
pub struct OrderReport {
    /// Orders and messages sent to other creatures.
    pub posts: Vec<Post>,
    /// The creature was told to act.
    pub acted: bool,
    /// The creature died: it lost its hit points or starved.
    pub died: bool,
    /// The child set on the plate, if one was born.
    pub child: Option<Weak>,
    /// The energy eaten, when it ate.
    pub eaten: Option<EnergyT>,
    /// Whether it moved, when it tried.
    pub moved: Option<bool>,
}

/// The creature breeds on this call of `Bio::order` with `orders`: it is its main tick, it
/// survives its wake-up, and then it is time to breed.
pub open spec fn breeds_now(b: Bio, orders: Seq<Order>) -> bool {
    let (hp1, main, _) = spec_receive(b.hp, orders);
    let b1 = Bio { hp: hp1, ..b };
    main && survives(b1) && spec_vital(b1).spec_breed_gate() is Some
}

impl Bio {
    /// Whether the creature breeds when it is given `orders`: only then is the species of
    /// its child wanted.
    pub fn will_breed(&self, orders: &Vec<Order>) -> (r: bool)
        ensures
            r == breeds_now(*self, orders@),
    {
        let mut b = Bio {
            species: share(&self.species),
            age: self.age,
            target: BioMutex { target: self.target.target },
            energy: self.energy,
            hp: self.hp,
        };
        proof {
            assert(b == *self);
        }
        let (main, _) = b.receive_orders(orders);
        if !main {
            return false;
        }
        let ghost b1 = b;
        let alive = b.vitals();
        if !alive {
            return false;
        }
        proof {
            assert(b == spec_vital(b1));
        }
        let sp = &b.species;
        let cost = (sp.spawn_loss as u64) + (sp.energy_cost as u64) + (sp.spawn_init_energy as u64);
        b.age % 10 == 0 && 200 <= b.energy && (b.energy as u64) >= cost
    }
}

/// The creature after its wake-up: one wake-up older, regenerated, the wake-up cost paid.
pub open spec fn spec_vital(b: Bio) -> Bio {
    Bio {
        age: b.age.wrapping_add(1),
        hp: spec_regen_hp(b),
        energy: (spec_regen_energy(b) - b.species.wake_energy_consume) as EnergyT,
        ..b
    }
}

/// The energy ledger `l` after a creature `b0` carried out `orders`, ending with
/// `end_energy` (`None` when it died): nothing changes off its main tick; on it, a child made
/// when the creature breeds brings the parent species' starting energy to the child's
/// species, and then the parent's species gains the change of the creature's energy, which
/// is minus all of it when the creature dies.
pub open spec fn energy_after(l: Seq<(Seq<Seq<char>>, i64)>, b0: Bio, orders: Seq<Order>, child_species: Species, end_energy: Option<EnergyT>) -> Seq<(Seq<Seq<char>>, i64)> {
    let (_, main, _) = spec_receive(b0.hp, orders);
    if !main {
        l
    } else {
        let l1 = if breeds_now(b0, orders) {
            ledger_add(l, child_species.gene.view(), b0.species.spawn_init_energy as int)
        } else {
            l
        };
        match end_energy {
            None => ledger_add(l1, b0.species.gene.view(), -(b0.energy as int)),
            Some(e) => ledger_add(l1, b0.species.gene.view(), e - b0.energy),
        }
    }
}

/// A newborn creature of `species` with `energy`.
pub open spec fn spec_newborn(species: Arc<Species>, energy: EnergyT) -> Bio {
    Bio {
        species,
        age: 0,
        target: crate::mob::bio::BioMutex { target: crate::mob::bio::spec_idle_target() },
        energy,
        hp: species.max_hp,
    }
}

/// Breeding: when it is time, the creature sets a child of `child_species` at the first
/// spot around it where the child fits, and pays for it. `cb` is the world afterwards.
pub open spec fn breed_step(c0: Cosmos<Bio>, d: Deamon, s: usize, b2: Bio, at: CrdI, child_species: Arc<Species>, cb: Cosmos<Bio>, child: Option<Weak>) -> bool {
    let unchanged = cb.mobs@ == c0.mobs@.update(s as int, Some(_MobBlock { mob: b2, ..c0.block(s) }))
        && cb.plate == c0.plate && cb.properties == c0.properties && child is None;
    match b2.spec_breed_gate() {
        None => unchanged,
        Some(remain) => if !size_fits(c0.plate.size, child_species.size) {
            unchanged
        } else {
            match first_ok(c0.plate, d, spec_birth_spots(at, child_species.size)) {
                None => unchanged,
                Some(i) => {
                    let a = spec_normalize_area(c0.plate.size, spec_birth_spots(at, child_species.size)[i]);
                    let n = c0.mobs@.len();
                    &&& child == Some(Weak { slot: n as usize })
                    &&& cb.mobs@ == c0.mobs@.update(s as int, Some(_MobBlock { mob: Bio { energy: remain, ..b2 }, ..c0.block(s) })).push(
                        Some(_MobBlock { at: a, on_plate: true, log: Logger {}, mob: spec_newborn(child_species, b2.species.spawn_init_energy) }),
                    )
                    &&& cb.plate.filled_from(c0.plate, a, Some(n as usize))
                    &&& cb.properties == c0.properties
                },
            }
        },
    }
}

/// The message that wakes a newborn child, if one was born.
pub open spec fn child_posts(child: Option<Weak>, b: Bio) -> Seq<Post> {
    match child {
        Some(w) => seq![Post::Tell { to: w, msg: Msg::Wake, delay: b.species.incubation_delay }],
        None => Seq::empty(),
    }
}

/// An attacked creature turns on its last attacker: it flees when the attacker's threat is
/// at most its fight-back threshold, and otherwise marks the attacker with the lowest weight.
pub open spec fn spec_fight_back(b: Bio, last: Option<(Option<Weak>, ThreatT)>) -> Bio {
    match last {
        None => b,
        Some((attacker, threat)) => Bio {
            target: crate::mob::bio::BioMutex {
                target: if threat <= b.species.fight_back_threshold {
                    BioTarget { action_weight: i8::MAX, action: BioAction::Flee, action_range: b.species.attack_range, target: None, target_mob: attacker }
                } else {
                    BioTarget { action_weight: i8::MIN, action: BioAction::Flee, action_range: Coord(0, 0), target: None, target_mob: attacker }
                },
            },
            ..b
        },
    }
}

/// The species a creature can have on a plate of `size`.
pub open spec fn species_ok(size: Crd, sp: Species) -> bool {
    &&& sp.spec_spawn_energy_cost() <= EnergyT::MAX
    &&& sp.move_period > 0
    &&& size_fits(size, sp.size)
}

/// Whether creatures of `sp` can act on a plate of `size`.
pub fn species_usable(size: Crd, sp: &Species) -> (r: bool)
    ensures
        r == species_ok(size, *sp),
{
    let cost = (sp.spawn_loss as u64) + (sp.energy_cost as u64) + (sp.spawn_init_energy as u64);
    cost <= EnergyT::MAX as u64 && sp.move_period > 0 && fits(size, sp.size)
}

/// Whether something of `size` fits on a plate of `plate`.
pub fn fits(plate: Crd, size: Crd) -> (r: bool)
    ensures
        r == size_fits(plate, size),
{
    0 <= size.0 && size.0 < plate.0 && 0 <= size.1 && size.1 < plate.1
}

/// Breeding looks only at where the breeding creature stands, not at what it was before.
proof fn lemma_breed_step_rebase(c0: Cosmos<Bio>, c2: Cosmos<Bio>, d: Deamon, s: usize, b2: Bio, at: CrdI, cs: Arc<Species>, cb: Cosmos<Bio>, child: Option<Weak>)
    requires
        c0.alive(s),
        c2.mobs@ == c0.mobs@.update(s as int, Some(_MobBlock { mob: b2, ..c0.block(s) })),
        c2.plate == c0.plate,
        c2.properties == c0.properties,
        at == c0.block(s).at,
        breed_step(c2, d, s, b2, at, cs, cb, child),
    ensures
        breed_step(c0, d, s, b2, at, cs, cb, child),
        c2.block(s) == (_MobBlock { mob: b2, ..c0.block(s) }),
{
    assert(c2.block(s) == (_MobBlock { mob: b2, ..c0.block(s) }));
    assert(c2.mobs@.update(s as int, Some(_MobBlock { mob: b2, ..c2.block(s) })) =~= c0.mobs@.update(s as int, Some(_MobBlock { mob: b2, ..c0.block(s) })));
    match b2.spec_breed_gate() {
        None => {},
        Some(remain) => {
            assert(c2.mobs@.update(s as int, Some(_MobBlock { mob: Bio { energy: remain, ..b2 }, ..c2.block(s) }))
                =~= c0.mobs@.update(s as int, Some(_MobBlock { mob: Bio { energy: remain, ..b2 }, ..c0.block(s) })));
        },
    }
}

/// Breeds, when it is time: sets a child of `child_species` at the first spot around the
/// parent where it fits, and charges the parent. Returns the child's handle.
pub fn breed(cosmos: &mut Cosmos<Bio>, deamon: &Deamon, s: usize, child_species: &Arc<Species>) -> (r: Option<Weak>)
    requires
        old(cosmos).wf(),
        old(cosmos).alive(s),
        deamon.valid(old(cosmos).plate.size),
        species_ok(old(cosmos).plate.size, *old(cosmos).block(s).mob.species),
    ensures
        final(cosmos).wf(),
        final(cosmos).alive(s),
        breed_step(*old(cosmos), *deamon, s, old(cosmos).block(s).mob, old(cosmos).block(s).at, *child_species, *final(cosmos), r),
{
    let size = cosmos.plate.size;
    let ghost c2 = *cosmos;
    let blk = cosmos.mobs[s].as_ref().unwrap();
    let at = blk.at;
    let init_energy = blk.mob.species.spawn_init_energy;
    let gate = blk.mob.breed_gate();
    let mut child: Option<Weak> = None;
    if let (Some(remain), true) = (gate, fits(size, child_species.size)) {
        let spots = birth_spots(size, at, child_species.size);
        let newborn = Bio::new(share(child_species), init_energy);
        child = place_child(cosmos, deamon, newborn, &spots);
        if let Some(w) = child {
            let ghost c3 = *cosmos;
            proof {
                assert(c3.alive(s));
            }
            cosmos.mob_mut(s).energy = remain;
            proof {
                crate::cosmos::lemma_wf_mob_changed(c3, *cosmos, s, cosmos.block(s).mob);
            }
        }
    }
    proof {
        let b2 = c2.block(s).mob;
        assert(c2.mobs@.update(s as int, Some(_MobBlock { mob: b2, ..c2.block(s) })) =~= c2.mobs@);
        match b2.spec_breed_gate() {
            None => {},
            Some(remain) => if size_fits(c2.plate.size, child_species.size) {
                match first_ok(c2.plate, *deamon, spec_birth_spots(at, child_species.size)) {
                    None => {},
                    Some(i) => {
                        let a = spec_normalize_area(c2.plate.size, spec_birth_spots(at, child_species.size)[i]);
                        let nb = Some(_MobBlock { at: a, on_plate: true, log: Logger {}, mob: spec_newborn(*child_species, b2.species.spawn_init_energy) });
                        assert(c2.mobs@.update(s as int, Some(_MobBlock { mob: Bio { energy: remain, ..b2 }, ..c2.block(s) })).push(nb)
                            =~= c2.mobs@.push(nb).update(s as int, Some(_MobBlock { mob: Bio { energy: remain, ..b2 }, ..c2.block(s) })));
                    },
                }
            },
        }
    }
    child
}

impl Bio {
    /// Carries out a creature's orders for one tick. Attacks take hit points. On its main
    /// tick the creature ages and regenerates, dies when it has no hit points or cannot pay
    /// its wake-up cost, breeds every tenth wake-up (the child, of `child_species`, is set at
    /// the first free spot left of, above, right of or below it; a child that does not fit
    /// the plate is not born), then acts on its target, and finally turns on its last
    /// attacker. `child_species` is looked at only when the creature breeds (`will_breed`).
    #[verifier::spinoff_prover]
    #[verifier::rlimit(40)]
    pub fn order(cosmos: &mut Cosmos<Bio>, deamon: &Deamon, mob: MobRefMut, orders: Vec<Order>, child_species: &Arc<Species>, stats: &mut Stats) -> (r: OrderReport)
        requires
            old(stats).bio_energy_store.wf(),
            old(cosmos).wf(),
            old(cosmos).alive(mob.slot),
            deamon.valid(old(cosmos).plate.size),
            grounds_valid(old(cosmos).plate, old(cosmos).properties.tick),
            target_ok(old(cosmos).plate.size, old(cosmos).block(mob.slot).mob.target.target),
            species_ok(old(cosmos).plate.size, *old(cosmos).block(mob.slot).mob.species),
        ensures
            final(cosmos).wf(),
            final(cosmos).properties == old(cosmos).properties,
            final(cosmos).plate.size == old(cosmos).plate.size,
            grounds_valid(final(cosmos).plate, old(cosmos).properties.tick),
            final(stats).bio_energy_store.wf(),
            final(stats).bio_energy_store@ == energy_after(
                old(stats).bio_energy_store@,
                old(cosmos).block(mob.slot).mob,
                orders@,
                **child_species,
                if r.died { None } else { Some(final(cosmos).block(mob.slot).mob.energy) },
            ),
            ({
                let s = mob.slot;
                let b0 = old(cosmos).block(s);
                let (hp1, main, last) = spec_receive(b0.mob.hp, orders@);
                let b1 = Bio { hp: hp1, ..b0.mob };
                let now = old(cosmos).properties.tick;
                &&& r.acted == main
                &&& !main ==> !r.died && r.posts@ == Seq::<Post>::empty() && r.child is None
                    && final(cosmos).mobs@ == old(cosmos).mobs@.update(s as int, Some(_MobBlock { mob: b1, ..b0 }))
                    && final(cosmos).plate == old(cosmos).plate
                &&& main && !survives(b1) ==> r.died && r.posts@ == Seq::<Post>::empty() && r.child is None
                    && final(cosmos).mobs@ == old(cosmos).mobs@.update(s as int, None)
                    && final(cosmos).plate.filled_from(old(cosmos).plate, b0.at, None)
                &&& main && survives(b1) ==> !r.died && exists|cb: Cosmos<Bio>| {
                    &&& #[trigger] breed_step(*old(cosmos), *deamon, s, spec_vital(b1), b0.at, *child_species, cb, r.child)
                    &&& ({
                        let b3 = cb.block(s).mob;
                        let (b4, posts2, eaten, moved) = spec_pursuit(cb.plate, *deamon, s, b3, b0.at, now);
                        &&& final(cosmos).mobs@ == cb.mobs@.update(s as int, Some(_MobBlock {
                            at: spec_pursuit_at(cb.plate, *deamon, s, b3, b0.at),
                            mob: spec_fight_back(b4, last),
                            ..cb.block(s)
                        }))
                        &&& r.posts@ == child_posts(r.child, b3) + posts2
                        &&& r.eaten == eaten
                        &&& r.moved == moved
                        &&& eaten is None ==> same_grounds(final(cosmos).plate, cb.plate)
                        &&& eaten is Some ==> (b3.target.target.target matches Some(tp)
                            && ate(cb.plate, final(cosmos).plate, *deamon, tp, now, *b3.species))
                    })
                }
            }),
    {
        let s = mob.slot;
        let size = cosmos.plate.size;
        let now = cosmos.properties.tick;
        let ghost c0 = *cosmos;
        let blk0 = cosmos.mobs[s].as_ref().unwrap();
        let e0 = blk0.mob.energy;
        let parent_gene = blk0.mob.species.gene.clone();
        let init_energy = blk0.mob.species.spawn_init_energy;
        let breeds = blk0.mob.will_breed(&orders);
        let (main_tick, last_attacker) = cosmos.mob_mut(s).receive_orders(&orders);
        proof {
            crate::cosmos::lemma_wf_mob_changed(c0, *cosmos, s, cosmos.block(s).mob);
        }
        if !main_tick {
            return OrderReport { posts: Vec::new(), acted: false, died: false, child: None, eaten: None, moved: None };
        }
        let ghost c1 = *cosmos;
        let alive = cosmos.mob_mut(s).vitals();
        proof {
            crate::cosmos::lemma_wf_mob_changed(c1, *cosmos, s, cosmos.block(s).mob);
        }
        if !alive {
            let ghost c3 = *cosmos;
            deamon.take(cosmos, mob);
            stats.bio_energy_store.add(&parent_gene, -(e0 as i64));
            proof {
                assert forall|k: int| 0 <= k < cosmos.plate.blocks@.len() implies #[trigger] cosmos.plate.blocks@[k].ground.valid_at(now) by {
                    assert(cosmos.plate.blocks@[k].ground == c3.plate.blocks@[k].ground);
                }
            }
            return OrderReport { posts: Vec::new(), acted: true, died: true, child: None, eaten: None, moved: None };
        }
        let ghost c2 = *cosmos;
        let incubation_delay = cosmos.mobs[s].as_ref().unwrap().mob.species.incubation_delay;
        let child = breed(cosmos, deamon, s, child_species);
        if breeds {
            stats.bio_energy_store.add(&child_species.gene, init_energy as i64);
        }
        let ghost cb = *cosmos;
        let mut posts: Vec<Post> = Vec::new();
        if let Some(w) = child {
            posts.push(Post::Tell { to: w, msg: Msg::Wake, delay: incubation_delay });
        }
        proof {
            assert(c2.mobs@ =~= c0.mobs@.update(s as int, Some(_MobBlock { mob: c2.block(s).mob, ..c0.block(s) })));
            lemma_breed_step_rebase(c0, c2, *deamon, s, c2.block(s).mob, c2.block(s).at, *child_species, cb, child);
            assert(posts@ =~= child_posts(child, cb.block(s).mob));
        }
        let mut pursuit = pursue(cosmos, deamon, s, now);
        posts.append(&mut pursuit.posts);
        if let Some((attacker, threat)) = last_attacker {
            let ghost c4 = *cosmos;
            let bio = cosmos.mob_mut(s);
            bio.target.target = if threat <= bio.species.fight_back_threshold {
                BioTarget { action_weight: i8::MAX, action: BioAction::Flee, action_range: bio.species.attack_range, target: None, target_mob: attacker }
            } else {
                BioTarget { action_weight: i8::MIN, action: BioAction::Flee, action_range: Coord(0, 0), target: None, target_mob: attacker }
            };
            proof {
                crate::cosmos::lemma_wf_mob_changed(c4, *cosmos, s, cosmos.block(s).mob);
            }
        }
        let e1 = cosmos.mobs[s].as_ref().unwrap().mob.energy;
        stats.bio_energy_store.add(&parent_gene, (e1 as i64) - (e0 as i64));
        OrderReport { posts, acted: true, died: false, child, eaten: pursuit.eaten, moved: pursuit.moved }
    }
}

} // verus!
