use vstd::prelude::*;

use crate::gnd::plant::Plant;
use crate::gnd::prop::{detail, spec_class_name, spec_detail, FirstPlant, CLASS_COUNT};
use crate::types::{EnergyT, EnvT, Tick};

pub mod crop;
pub mod plant;
pub mod prop;

verus! {

/// The environment of a ground cell.
#[derive(Clone, Copy, Default)]
pub struct Environment {
    pub wet: EnvT,
    pub altitude: EnvT,
}

/// What a ground cell holds.
pub enum Item {
    Air,
    Plant(Plant),
}

/// A ground cell.
pub struct Ground {
    pub item: Item,
    pub env: Environment,
}

/// The plant class of a plant of this kind.
pub open spec fn class_of(kind: u8) -> FirstPlant {
    FirstPlant { name: "", aging_factor: spec_detail(kind).0, max_energy: spec_detail(kind).1 }
}

impl Item {
    pub fn to_string(&self) -> (r: String)
        requires
            self matches Item::Plant(p) ==> p.kind < CLASS_COUNT,
        ensures
            self matches Item::Air ==> r@ == "air"@,
            self matches Item::Plant(p) ==> r@ == spec_class_name(p.kind),
    {
        match self {
            Item::Air => String::from_str("air"),
            Item::Plant(p) => p.to_string(),
        }
    }
}

/// Whether mowing a plant with `energy` leaves it alone.
pub open spec fn mow_skips(energy: EnergyT, value: EnergyT, threshold: EnergyT) -> bool {
    energy <= threshold && !(energy >= value && energy - value >= threshold)
}

/// The energy that mowing takes from the ground `g` at `now`.
pub open spec fn spec_take(g: Ground, now: Tick, value: EnergyT, threshold: EnergyT) -> EnergyT {
    match g.item {
        Item::Air => 0,
        Item::Plant(p) => {
            let c = class_of(p.kind);
            let e = c.spec_energy(p.birthday, now);
            if mow_skips(e, value, threshold) {
                0
            } else {
                (e - c.spec_mowed_age(e, value, threshold) * c.aging_factor) as EnergyT
            }
        },
    }
}

/// The ground `g` after mowing at `now`: its plant is set back in age.
pub open spec fn spec_mowed(g: Ground, now: Tick, value: EnergyT, threshold: EnergyT) -> Ground {
    match g.item {
        Item::Air => g,
        Item::Plant(p) => {
            let c = class_of(p.kind);
            let e = c.spec_energy(p.birthday, now);
            if mow_skips(e, value, threshold) {
                g
            } else {
                Ground {
                    item: Item::Plant(Plant { kind: p.kind, birthday: (now - c.spec_mowed_age(e, value, threshold)) as Tick }),
                    env: g.env,
                }
            }
        },
    }
}

impl Ground {
    /// The plant of a cell is of a known class and was born no later than `now`.
    pub open spec fn valid_at(&self, now: Tick) -> bool {
        self.item matches Item::Plant(p) ==> p.kind < CLASS_COUNT && p.birthday <= now
    }

    /// Whether the ground is valid at `now`.
    pub fn is_valid_at(&self, now: Tick) -> (r: bool)
        ensures
            r == self.valid_at(now),
    {
        match &self.item {
            Item::Air => true,
            Item::Plant(p) => p.kind < CLASS_COUNT && p.birthday <= now,
        }
    }

    /// The energy the cell holds at `now`.
    pub open spec fn spec_energy(&self, now: Tick) -> EnergyT {
        match self.item {
            Item::Air => 0,
            Item::Plant(p) => class_of(p.kind).spec_energy(p.birthday, now),
        }
    }

    /// An empty ground: air, on a dry flat cell.
    pub fn new() -> (r: Self)
        ensures
            r.item matches Item::Air,
            r.env.wet == 0 && r.env.altitude == 0,
    {
        Ground { item: Item::Air, env: Environment { wet: 0, altitude: 0 } }
    }

    pub fn energy(&self, now: Tick) -> (r: EnergyT)
        requires
            self.valid_at(now),
        ensures
            r == self.spec_energy(now),
    {
        match &self.item {
            Item::Air => 0,
            Item::Plant(p) => detail(p.kind).energy(&p.birthday, &now, &self.env),
        }
    }

    /// Takes up to `value` energy from the plant; returns the energy taken.
    pub fn mow(&mut self, now: Tick, value: EnergyT) -> (r: EnergyT)
        requires
            old(self).valid_at(now),
        ensures
            final(self).valid_at(now),
            r == old(self).spec_energy(now) - final(self).spec_energy(now),
            r <= value,
            old(self).item matches Item::Air ==> final(self).item matches Item::Air,
    {
        self.mow_threshold(now, value, 0)
    }

    /// Takes up to `value` energy from the plant, leaving it at least `threshold`;
    /// returns the energy taken.
    pub fn raw_mow(&mut self, now: &Tick, value: EnergyT, threshold: EnergyT) -> (r: EnergyT)
        requires
            old(self).valid_at(*now),
        ensures
            final(self).valid_at(*now),
            r == old(self).spec_energy(*now) - final(self).spec_energy(*now),
            r <= value,
            r > 0 ==> final(self).spec_energy(*now) >= threshold,
            old(self).item matches Item::Air ==> (final(self).item matches Item::Air) && r == 0,
            old(self).item matches Item::Plant(p) ==> (final(self).item matches Item::Plant(q) && q.kind == p.kind),
            final(self).env == old(self).env,
            *final(self) == spec_mowed(*old(self), *now, value, threshold),
            r == spec_take(*old(self), *now, value, threshold),
    {
        let env = self.env;
        match &mut self.item {
            Item::Air => 0,
            Item::Plant(p) => {
                let d = detail(p.kind);
                d.mow_threshold(value, threshold, &mut p.birthday, now, &env)
            },
        }
    }

    pub fn mow_threshold(&mut self, now: Tick, value: EnergyT, threshold: EnergyT) -> (r: EnergyT)
        requires
            old(self).valid_at(now),
        ensures
            final(self).valid_at(now),
            r == old(self).spec_energy(now) - final(self).spec_energy(now),
            r <= value,
            r > 0 ==> final(self).spec_energy(now) >= threshold,
            old(self).item matches Item::Air ==> (final(self).item matches Item::Air) && r == 0,
            old(self).item matches Item::Plant(p) ==> (final(self).item matches Item::Plant(q) && q.kind == p.kind),
            final(self).env == old(self).env,
            *final(self) == spec_mowed(*old(self), now, value, threshold),
            r == spec_take(*old(self), now, value, threshold),
    {
        self.raw_mow(&now, value, threshold)
    }

    pub fn to_string(&self) -> (r: String)
        requires
            self.item matches Item::Plant(p) ==> p.kind < CLASS_COUNT,
        ensures
            self.item matches Item::Air ==> r@ == "air"@,
            self.item matches Item::Plant(p) ==> r@ == spec_class_name(p.kind),
    {
        self.item.to_string()
    }
}

} // verus!
