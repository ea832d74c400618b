use vstd::prelude::*;

use crate::conf;
use crate::grids::{Coord, Crd};
use crate::text::{decimal, owned, push_decimal, zero_padded};
use crate::types::EnergyT;
use crate::random::sample_uniform_u32;
use rand::rngs::StdRng;

verus! {

/// The kinds of age-based plants.
#[derive(Clone, Copy, Debug, PartialEq, Eq, Structural)]
pub enum Kind {
    Empty,
    Corpse,
    Grass,
    Tree,
}

/// A plant whose energy is its age.
#[derive(Clone, Copy, Debug, PartialEq, Eq, Structural)]
pub struct Plant {
    pub kind: Kind,
    pub age: EnergyT,
}

/// Orders a ground cell can receive.
#[derive(Clone, Copy, Debug, PartialEq, Eq, Structural)]
pub enum Order {
    /// The plant grows, rots or bears fruit.
    PlantAging,
    /// A plant of this kind grows here if the cell is empty.
    PlantSowing(Kind),
    /// Energy is taken away from the plant.
    PlantMow(EnergyT),
}

pub open spec fn sat_sub(a: EnergyT, b: EnergyT) -> EnergyT {
    if a >= b { (a - b) as EnergyT } else { 0 }
}

pub open spec fn sat_add(a: EnergyT, b: EnergyT) -> EnergyT {
    if a + b <= EnergyT::MAX { (a + b) as EnergyT } else { EnergyT::MAX }
}

pub open spec fn min(a: EnergyT, b: EnergyT) -> EnergyT {
    if a <= b { a } else { b }
}

pub open spec fn spec_map(kind: Kind, rules: conf::PlantRules) -> Option<conf::Plant> {
    match kind {
        Kind::Empty | Kind::Corpse => None,
        Kind::Grass => Some(rules.grass),
        Kind::Tree => Some(rules.tree),
    }
}

/// The energy at which a plant of this kind bears fruit; never for plants without rules.
pub open spec fn fruit_when(kind: Kind, rules: conf::PlantRules) -> EnergyT {
    match spec_map(kind, rules) {
        Some(p) => p.fruit_when,
        None => EnergyT::MAX,
    }
}

pub open spec fn fruit_cost(kind: Kind, rules: conf::PlantRules) -> EnergyT {
    match spec_map(kind, rules) {
        Some(p) => p.fruit_cost,
        None => 0,
    }
}

pub open spec fn grow(kind: Kind, rules: conf::PlantRules) -> EnergyT {
    match spec_map(kind, rules) {
        Some(p) => p.grow,
        None => 0,
    }
}

/// A plant bears fruit when it is no corpse and its energy reached its fruit value.
pub open spec fn bears_fruit(p: Plant, rules: conf::PlantRules) -> bool {
    p.kind != Kind::Corpse && fruit_when(p.kind, rules) <= p.age
}

/// The plant after one aging step.
pub open spec fn spec_aged(p: Plant, rules: conf::PlantRules) -> Plant {
    if p.kind == Kind::Corpse {
        Plant { kind: p.kind, age: sat_sub(p.age, rules.corpse_rot) }
    } else if bears_fruit(p, rules) {
        Plant { kind: p.kind, age: sat_sub(p.age, fruit_cost(p.kind, rules)) }
    } else {
        Plant { kind: p.kind, age: sat_add(p.age, grow(p.kind, rules)) }
    }
}

/// The four cells next to `at`, in the order in which a fruiting plant sows them.
pub open spec fn neighbours(at: Crd) -> Seq<Crd> {
    seq![
        Coord((at.0 - 1) as isize, at.1),
        Coord(at.0, (at.1 - 1) as isize),
        Coord(at.0, (at.1 + 1) as isize),
        Coord((at.0 + 1) as isize, at.1),
    ]
}

/// The orders an aging plant at `at` sends.
pub open spec fn spec_aging_orders(p: Plant, at: Crd, rules: conf::PlantRules) -> Seq<(Crd, Order)> {
    if bears_fruit(p, rules) {
        neighbours(at).map_values(|n: Crd| (n, Order::PlantSowing(p.kind)))
    } else {
        Seq::empty()
    }
}

/// An aging plant sends orders only when it bears fruit, and then exactly four: one to each
/// of the four cells next to it (one step along one axis), each a different cell, and every
/// one sows the plant's own kind there. A corpse never sows.
pub proof fn lemma_fruit_sows_own_kind(p: Plant, at: Crd, rules: conf::PlantRules, r: Seq<(Crd, Order)>)
    requires
        inner_pos(at),
        r == spec_aging_orders(p, at, rules),
    ensures
        !bears_fruit(p, rules) ==> r.len() == 0,
        p.kind == Kind::Corpse ==> r.len() == 0,
        bears_fruit(p, rules) ==> r.len() == 4,
        forall|i: int| 0 <= i < r.len() ==> (#[trigger] r[i]).1 == Order::PlantSowing(p.kind),
        forall|i: int| 0 <= i < r.len() ==> {
            let d0 = (#[trigger] r[i]).0.0 - at.0;
            let d1 = r[i].0.1 - at.1;
            (d0 == 0 && (d1 == 1 || d1 == -1)) || (d1 == 0 && (d0 == 1 || d0 == -1))
        },
        forall|i: int, j: int| 0 <= i < j < r.len() ==> (#[trigger] r[i]).0 != (#[trigger] r[j]).0,
{
    if bears_fruit(p, rules) {
        assert(r[0].0 == Coord((at.0 - 1) as isize, at.1));
        assert(r[1].0 == Coord(at.0, (at.1 - 1) as isize));
        assert(r[2].0 == Coord(at.0, (at.1 + 1) as isize));
        assert(r[3].0 == Coord((at.0 + 1) as isize, at.1));
    }
}

/// `p1` is `p0` with `r` of its energy mowed, as much of `value` as it has.
pub open spec fn mowed(p0: Plant, p1: Plant, value: EnergyT, r: EnergyT) -> bool {
    &&& r == min(p0.age, value)
    &&& p1.age == p0.age - r
    &&& p1.kind == p0.kind
}

/// `p1` is `p0` with `r` of its energy above `threshold` mowed, at most `threshold`.
pub open spec fn mowed_above(p0: Plant, p1: Plant, threshold: EnergyT, r: EnergyT) -> bool {
    &&& r == min(sat_sub(p0.age, threshold), threshold)
    &&& p1.age == p0.age - r
    &&& p1.kind == p0.kind
}

/// `p1` is `p0` with a corpse of `value` energy added: its energy grows by `value`, saturating,
/// and the corpse takes the cell over when it brings more energy than the cell held.
pub open spec fn corpse_added(p0: Plant, p1: Plant, value: EnergyT) -> bool {
    &&& p1.kind == (if value > p0.age { Kind::Corpse } else { p0.kind })
    &&& p1.age == sat_add(p0.age, value)
}

/// One aging step: a corpse rots by the rot rate, a grass or tree that reached its fruit
/// value pays its fruit cost, any other grass or tree grows by its growth, all saturating at
/// the ends of the energy range; the kind never changes.
pub proof fn lemma_aging_effect(p: Plant, rules: conf::PlantRules, q: Plant)
    requires
        q == spec_aged(p, rules),
    ensures
        q.kind == p.kind,
        p.kind == Kind::Corpse ==> q.age == (if p.age >= rules.corpse_rot { p.age - rules.corpse_rot } else { 0 }),
        p.kind == Kind::Grass && rules.grass.fruit_when <= p.age ==> q.age == (if p.age >= rules.grass.fruit_cost {
            p.age - rules.grass.fruit_cost
        } else {
            0
        }),
        p.kind == Kind::Grass && rules.grass.fruit_when > p.age ==> q.age == (if p.age + rules.grass.grow <= EnergyT::MAX {
            p.age + rules.grass.grow
        } else {
            EnergyT::MAX as int
        }),
        p.kind == Kind::Tree && rules.tree.fruit_when <= p.age ==> q.age == (if p.age >= rules.tree.fruit_cost {
            p.age - rules.tree.fruit_cost
        } else {
            0
        }),
        p.kind == Kind::Tree && rules.tree.fruit_when > p.age ==> q.age == (if p.age + rules.tree.grow <= EnergyT::MAX {
            p.age + rules.tree.grow
        } else {
            EnergyT::MAX as int
        }),
        p.kind == Kind::Empty ==> q == p,
{
}

/// Mowing takes what is asked, or all the plant has when that is less, and leaves the rest;
/// the kind does not change.
pub proof fn lemma_mow(p0: Plant, p1: Plant, value: EnergyT, r: EnergyT)
    requires
        mowed(p0, p1, value, r),
    ensures
        r <= value,
        r <= p0.age,
        r == value || p1.age == 0,
        p1.age + r == p0.age,
        p1.kind == p0.kind,
{
}

/// Mowing above a threshold never takes a plant below the threshold, and takes at most the
/// threshold: nothing from a plant at or under it, down to it from a plant up to twice it,
/// and exactly the threshold from a larger plant.
pub proof fn lemma_mow_threshold(p0: Plant, p1: Plant, threshold: EnergyT, r: EnergyT)
    requires
        mowed_above(p0, p1, threshold, r),
    ensures
        p1.age + r == p0.age,
        p1.kind == p0.kind,
        p0.age <= threshold ==> r == 0 && p1.age == p0.age,
        threshold < p0.age <= 2 * threshold ==> p1.age == threshold,
        p0.age > 2 * threshold ==> r == threshold,
{
}

/// Adding a corpse adds its energy, saturating; the cell becomes a corpse when the corpse
/// brings more than the cell held, and a corpse stays a corpse.
pub proof fn lemma_add_corpse(p0: Plant, p1: Plant, value: EnergyT)
    requires
        corpse_added(p0, p1, value),
    ensures
        p1.age == (if p0.age + value <= EnergyT::MAX { p0.age + value } else { EnergyT::MAX as int }),
        p1.age >= p0.age,
        (p1.kind == Kind::Corpse) <==> (value > p0.age || p0.kind == Kind::Corpse),
        p1.kind != Kind::Corpse ==> p1.kind == p0.kind,
{
}

/// What one order does to a cell's plant: sowing a kind makes an empty cell a newly sown
/// plant of that kind and leaves any other cell alone; mowing takes what is asked, or all
/// when the plant has less, and keeps the kind; aging is one aging step. Only aging sends
/// orders on.
pub proof fn lemma_order_effect(p: Plant, o: Order, at: Crd, rules: conf::PlantRules)
    ensures
        o matches Order::PlantSowing(k) ==> (p.kind == Kind::Empty ==> spec_after_order(p, o, rules) == Plant { kind: k, age: 0 })
            && (p.kind != Kind::Empty ==> spec_after_order(p, o, rules) == p),
        o matches Order::PlantMow(v) ==> spec_after_order(p, o, rules).kind == p.kind
            && spec_after_order(p, o, rules).age == (if p.age >= v { p.age - v } else { 0 }),
        o == Order::PlantAging ==> spec_after_order(p, o, rules) == spec_aged(p, rules)
            && spec_order_output(p, o, at, rules) == spec_aging_orders(p, at, rules),
        o != Order::PlantAging ==> spec_order_output(p, o, at, rules).len() == 0,
{
}

/// A position whose four neighbours exist.
pub open spec fn inner_pos(at: Crd) -> bool {
    isize::MIN < at.0 < isize::MAX && isize::MIN < at.1 < isize::MAX
}

impl Kind {
    /// The rules of this kind of plant; corpses and empty cells have none.
    pub fn map(&self, rules: &conf::PlantRules) -> (r: Option<conf::Plant>)
        ensures
            r == spec_map(*self, *rules),
    {
        match *self {
            Kind::Empty | Kind::Corpse => None,
            Kind::Grass => Some(rules.grass),
            Kind::Tree => Some(rules.tree),
        }
    }

    pub open spec fn spec_as_str(&self) -> Seq<char> {
        match *self {
            Kind::Empty => "none"@,
            Kind::Corpse => "corpse"@,
            Kind::Grass => "grass"@,
            Kind::Tree => "tree"@,
        }
    }

    pub fn as_str(&self) -> (r: &'static str)
        ensures
            r@ == self.spec_as_str(),
    {
        match self {
            Kind::Empty => "none",
            Kind::Corpse => "corpse",
            Kind::Grass => "grass",
            Kind::Tree => "tree",
        }
    }
}

/// Both plants can be sown and their weights fit in a `u32`.
pub open spec fn sowable(rules: conf::PlantRules) -> bool {
    rules.grass.sow_weight + rules.tree.sow_weight <= u32::MAX
        && rules.grass.sow_weight + rules.tree.sow_weight > 0
}

impl Kind {
    /// The plant that a roll in `0..grass weight + tree weight` sows.
    pub open spec fn spec_sown(rules: conf::PlantRules, n: u32) -> Kind {
        if n < rules.grass.sow_weight { Kind::Grass } else { Kind::Tree }
    }

    pub fn sown(rules: &conf::PlantRules, n: u32) -> (r: Kind)
        ensures
            r == Kind::spec_sown(*rules, n),
    {
        if n < rules.grass.sow_weight { Kind::Grass } else { Kind::Tree }
    }

    /// A plant chosen at random, by the sow weights.
    pub fn random_new(rules: &conf::PlantRules, rng: &mut StdRng) -> (r: Kind)
        requires
            sowable(*rules),
        ensures
            exists|n: u32| n < rules.grass.sow_weight + rules.tree.sow_weight && r == #[trigger] Kind::spec_sown(*rules, n),
            r == Kind::Grass ==> rules.grass.sow_weight > 0,
            r == Kind::Tree ==> rules.tree.sow_weight > 0,
    {
        let total = rules.grass.sow_weight + rules.tree.sow_weight;
        let n = sample_uniform_u32(rng, 0, total);
        Kind::sown(rules, n)
    }
}

impl Plant {
    pub fn new(kind: Kind) -> (r: Self)
        ensures
            r.kind == kind,
            r.age == 0,
    {
        Plant { kind, age: 0 }
    }

    pub fn new_corpse(age: EnergyT) -> (r: Self)
        ensures
            r.kind == Kind::Corpse,
            r.age == age,
    {
        Plant { kind: Kind::Corpse, age }
    }

    /// One aging step: a corpse rots, a ripe plant bears fruit and sows the four
    /// cells around it, any other plant grows. Returns the sowing orders.
    pub fn aging(&mut self, at: Crd, rules: &conf::PlantRules) -> (r: Vec<(Crd, Order)>)
        requires
            inner_pos(at),
        ensures
            *final(self) == spec_aged(*old(self), *rules),
            r@ == spec_aging_orders(*old(self), at, *rules),
    {
        if self.kind == Kind::Corpse {
            self.age = self.age.saturating_sub(rules.corpse_rot);
            Vec::new()
        } else {
            let fruit_when = match self.kind.map(rules) {
                Some(p) => p.fruit_when,
                None => EnergyT::MAX,
            };
            if fruit_when <= self.age {
                let cost = match self.kind.map(rules) {
                    Some(p) => p.fruit_cost,
                    None => 0,
                };
                self.age = self.age.saturating_sub(cost);
                let mut orders = Vec::new();
                orders.push((Coord(at.0 - 1, at.1), Order::PlantSowing(self.kind)));
                orders.push((Coord(at.0, at.1 - 1), Order::PlantSowing(self.kind)));
                orders.push((Coord(at.0, at.1 + 1), Order::PlantSowing(self.kind)));
                orders.push((Coord(at.0 + 1, at.1), Order::PlantSowing(self.kind)));
                proof {
                    assert(orders@ =~= spec_aging_orders(*old(self), at, *rules));
                }
                orders
            } else {
                let g = match self.kind.map(rules) {
                    Some(p) => p.grow,
                    None => 0,
                };
                self.age = self.age.saturating_add(g);
                Vec::new()
            }
        }
    }

    /// Takes up to `value` energy away; returns how much was taken.
    pub fn mow(&mut self, value: EnergyT) -> (r: EnergyT)
        ensures
            mowed(*old(self), *final(self), value, r),
    {
        let age_before = self.age;
        self.age = self.age.saturating_sub(value);
        age_before - self.age
    }

    /// Takes away the energy above `threshold`, but no more than `threshold`;
    /// returns how much was taken. (`value` is not used.)
    pub fn mow_threshold(&mut self, value: EnergyT, threshold: EnergyT) -> (r: EnergyT)
        ensures
            mowed_above(*old(self), *final(self), threshold, r),
    {
        let over = self.age.saturating_sub(threshold);
        let mow = if over < threshold { over } else { threshold };
        self.age = self.age - mow;
        mow
    }

    /// Adds the energy of a dead body; a plant that had less energy than the body becomes a corpse.
    pub fn add_corpse(&mut self, value: EnergyT)
        ensures
            corpse_added(*old(self), *final(self), value),
    {
        if value > self.age {
            self.kind = Kind::Corpse;
        }
        self.age = self.age.saturating_add(value);
    }
}

impl Default for Plant {
    fn default() -> (r: Self)
        ensures
            r.kind == Kind::Empty,
            r.age == 0,
    {
        Plant::new(Kind::Empty)
    }
}

/// A ground cell holding an age-based plant.
pub struct Ground {
    pub plant: Plant,
}

/// The plant after one order.
pub open spec fn spec_after_order(p: Plant, o: Order, rules: conf::PlantRules) -> Plant {
    match o {
        Order::PlantMow(v) => Plant { kind: p.kind, age: (p.age - min(p.age, v)) as EnergyT },
        Order::PlantAging => spec_aged(p, rules),
        Order::PlantSowing(k) => if p.kind == Kind::Empty { Plant { kind: k, age: 0 } } else { p },
    }
}

/// The orders sent while one order is carried out.
pub open spec fn spec_order_output(p: Plant, o: Order, at: Crd, rules: conf::PlantRules) -> Seq<(Crd, Order)> {
    match o {
        Order::PlantAging => spec_aging_orders(p, at, rules),
        _ => Seq::empty(),
    }
}

/// The plant after a list of orders, carried out in turn.
pub open spec fn spec_after_orders(p: Plant, orders: Seq<Order>, rules: conf::PlantRules) -> Plant
    decreases orders.len(),
{
    if orders.len() == 0 {
        p
    } else {
        spec_after_order(spec_after_orders(p, orders.drop_last(), rules), orders.last(), rules)
    }
}

/// The orders sent while a list of orders is carried out.
pub open spec fn spec_orders_output(p: Plant, orders: Seq<Order>, at: Crd, rules: conf::PlantRules) -> Seq<(Crd, Order)>
    decreases orders.len(),
{
    if orders.len() == 0 {
        Seq::empty()
    } else {
        spec_orders_output(p, orders.drop_last(), at, rules) + spec_order_output(
            spec_after_orders(p, orders.drop_last(), rules),
            orders.last(),
            at,
            rules,
        )
    }
}

impl Ground {
    /// Carries out the orders in turn; returns the orders they send on.
    pub fn order(&mut self, at: Crd, rules: &conf::PlantRules, orders: Vec<Order>) -> (r: Vec<(Crd, Order)>)
        requires
            inner_pos(at),
        ensures
            final(self).plant == spec_after_orders(old(self).plant, orders@, *rules),
            r@ == spec_orders_output(old(self).plant, orders@, at, *rules),
    {
        let mut out: Vec<(Crd, Order)> = Vec::new();
        let mut i: usize = 0;
        while i < orders.len()
            invariant
                i <= orders.len(),
                inner_pos(at),
                self.plant == spec_after_orders(old(self).plant, orders@.subrange(0, i as int), *rules),
                out@ == spec_orders_output(old(self).plant, orders@.subrange(0, i as int), at, *rules),
            decreases orders.len() - i,
        {
            let o = orders[i];
            proof {
                assert(orders@.subrange(0, i + 1).drop_last() =~= orders@.subrange(0, i as int));
                assert(orders@.subrange(0, i + 1).last() == o);
            }
            match o {
                Order::PlantMow(value) => {
                    self.plant.mow(value);
                },
                Order::PlantAging => {
                    let mut sown = self.plant.aging(at, rules);
                    out.append(&mut sown);
                },
                Order::PlantSowing(kind) => {
                    if self.plant.kind == Kind::Empty {
                        self.plant = Plant::new(kind);
                    }
                },
            }
            i = i + 1;
        }
        proof {
            assert(orders@.subrange(0, orders.len() as int) =~= orders@);
        }
        out
    }

    /// The text shown for this cell: `Gr` and two digits for grass, `T` and three digits
    /// for a tree, nothing otherwise.
    pub fn name(&self) -> (r: String)
        ensures
            self.plant.kind == Kind::Grass ==> r@ == "Gr"@ + zero_padded(decimal(self.plant.age as nat), 2),
            self.plant.kind == Kind::Tree ==> r@ == "T"@ + zero_padded(decimal(self.plant.age as nat), 3),
            self.plant.kind == Kind::Empty || self.plant.kind == Kind::Corpse ==> r@ == Seq::<char>::empty(),
    {
        match self.plant.kind {
            Kind::Grass => {
                let mut s = owned("Gr");
                push_decimal(&mut s, self.plant.age as u64, 2);
                s
            },
            Kind::Tree => {
                let mut s = owned("T");
                push_decimal(&mut s, self.plant.age as u64, 3);
                s
            },
            _ => String::new(),
        }
    }
}

} // verus!
