use vstd::prelude::*;

use crate::grids::{point_area, spec_span, Coord, Crd, CrdI, Idx, Interval};
use crate::cosmos::Cosmos;
use crate::mob::atk::ATK;
use crate::mob::bio::{Bio, BioAction, BioTarget};
use crate::mob::gene::Gene;
use crate::observe::species::{count_population, population};
use crate::refs::Weak;
use crate::types::{AgeT, EnergyT, HitPointT, ThreatT, Tick};

verus! {

/// The traits shared by all creatures with one gene.
pub struct Species {
    pub gene: Gene,
    pub name: String,
    pub wake_period: Tick,
    pub wake_energy_consume: EnergyT,
    pub energy_cost: EnergyT,
    pub spawn_loss: EnergyT,
    pub spawn_init_energy: EnergyT,
    pub incubation_delay: Tick,
    pub size: Crd,
    pub watch_period: AgeT,
    pub watch_range: u16,
    pub move_period: AgeT,
    pub move_cost: EnergyT,
    pub eat_threshold: EnergyT,
    pub eat_takes: EnergyT,
    pub max_hp: HitPointT,
    pub threat: ThreatT,
    pub atk: ATK,
    pub attack_cost: EnergyT,
    pub flee_threshold: ThreatT,
    pub fight_back_threshold: ThreatT,
    pub attack_range: Crd,
    pub chase_threshold: ThreatT,
    pub regeneration: HitPointT,
    pub regeneration_cost: EnergyT,
}

/// What a creature sees of another creature in a watched cell.
#[derive(Clone, Copy)]
pub struct MobSight {
    pub threat: ThreatT,
    pub at: CrdI,
    pub mob: Weak,
}

/// The concatenation of the acid names.
pub open spec fn concat(acids: Seq<Seq<char>>) -> Seq<char>
    decreases acids.len(),
{
    if acids.len() == 0 {
        Seq::empty()
    } else {
        concat(acids.drop_last()) + acids.last()
    }
}

/// The target a creature of species `s` at `at` picks in a cell.
pub open spec fn spec_watching_choice(s: &Species, at: Crd, ground_energy: EnergyT, mob: Option<MobSight>) -> BioTarget {
    match mob {
        Some(m) if m.threat >= s.flee_threshold => BioTarget {
            action_weight: i8::MIN,
            action: BioAction::Flee,
            action_range: if m.threat <= s.fight_back_threshold { s.attack_range } else { Coord(0, 0) },
            target: Some(m.at),
            target_mob: Some(m.mob),
        },
        Some(m) if m.threat <= s.chase_threshold => BioTarget {
            action_weight: if s.chase_threshold - m.threat > i8::MAX { i8::MAX } else { (s.chase_threshold - m.threat) as i8 },
            action: BioAction::Chase,
            action_range: s.attack_range,
            target: Some(m.at),
            target_mob: Some(m.mob),
        },
        _ => if ground_energy > s.eat_threshold {
            BioTarget {
                action_weight: 1,
                action: BioAction::Eat,
                action_range: Coord(0, 0),
                target: Some(spec_span(at, at)),
                target_mob: None,
            }
        } else {
            BioTarget {
                action_weight: 0,
                action: BioAction::Nothing,
                action_range: Coord(0, 0),
                target: None,
                target_mob: None,
            }
        },
    }
}

/// With no creature there to flee or chase, a creature eats the cell it watches when its
/// energy is above the eating threshold, and otherwise does nothing.
pub open spec fn eats_or_rests(s: Species, at: Crd, ground_energy: EnergyT, r: BioTarget) -> bool {
    &&& r.target_mob is None
    &&& ground_energy > s.eat_threshold ==> r.action == BioAction::Eat && r.action_weight > 0
        && r.target == Some(Coord(Interval { from: at.0, to: at.0 }, Interval { from: at.1, to: at.1 }))
    &&& ground_energy <= s.eat_threshold ==> r.action == BioAction::Nothing && r.target is None
}

/// What a creature does about a watched cell. A creature whose threat reaches the flee
/// threshold is fled from; the fleeing creature keeps its attack range, to fight back, exactly
/// when that threat is at most its fight-back threshold, and drops it otherwise. A creature
/// weak enough is chased, pulled the more the weaker it is, within the attack range. With no
/// such creature there, the cell is eaten when its energy is above the eating threshold, and
/// otherwise nothing is done.
pub proof fn lemma_watching_choice(s: Species, at: Crd, ground_energy: EnergyT, mob: Option<MobSight>, r: BioTarget)
    requires
        r == spec_watching_choice(&s, at, ground_energy, mob),
    ensures
        match mob {
            Some(m) => if m.threat >= s.flee_threshold {
                &&& r.action == BioAction::Flee
                &&& r.action_weight < 0
                &&& r.target == Some(m.at)
                &&& r.target_mob == Some(m.mob)
                &&& m.threat <= s.fight_back_threshold ==> r.action_range == s.attack_range
                &&& m.threat > s.fight_back_threshold ==> r.action_range == Coord(0isize, 0isize)
            } else if m.threat <= s.chase_threshold {
                &&& r.action == BioAction::Chase
                &&& 0 <= r.action_weight <= s.chase_threshold - m.threat
                &&& (r.action_weight == s.chase_threshold - m.threat || r.action_weight == i8::MAX)
                &&& r.action_range == s.attack_range
                &&& r.target == Some(m.at)
                &&& r.target_mob == Some(m.mob)
            } else {
                eats_or_rests(s, at, ground_energy, r)
            },
            None => eats_or_rests(s, at, ground_energy, r),
        },
{
}

impl Species {
    /// Wake-ups between two strolls.
    pub fn stroll_period(&self) -> (r: AgeT)
        ensures
            r == 1,
    {
        1
    }

    /// How far a stroll may go on each axis.
    pub fn stroll_range(&self) -> (r: Idx)
        ensures
            r == 50,
    {
        50
    }

    /// Wake-ups between two attempts to breed.
    pub fn breed_period(&self) -> (r: AgeT)
        ensures
            r == 10,
    {
        10
    }

    /// Ticks between waking up and acting.
    pub fn act_delay(&self) -> (r: Tick)
        ensures
            r == 0,
    {
        0
    }

    pub open spec fn spec_spawn_energy_cost(&self) -> int {
        self.spawn_loss + self.energy_cost + self.spawn_init_energy
    }

    /// The energy a parent spends on one child.
    pub fn spawn_energy_cost(&self) -> (r: EnergyT)
        requires
            self.spec_spawn_energy_cost() <= EnergyT::MAX,
        ensures
            r == self.spec_spawn_energy_cost(),
    {
        self.spawn_loss + self.energy_cost + self.spawn_init_energy
    }

    /// The least energy with which a creature breeds.
    pub fn spawn_when(&self) -> (r: EnergyT)
        ensures
            r == 200,
    {
        200
    }

    /// The name of a species: the names of its acids, one after the other.
    pub fn name(gene: &Gene) -> (r: String)
        ensures
            r@ == concat(gene.view()),
    {
        let mut r = String::new();
        let mut i: usize = 0;
        while i < gene.acids.len()
            invariant
                i <= gene.acids.len(),
                r@ == concat(gene.view().subrange(0, i as int)),
            decreases gene.acids.len() - i,
        {
            r.append(gene.acids[i].as_str());
            proof {
                assert(gene.view().subrange(0, i + 1).drop_last() =~= gene.view().subrange(0, i as int));
            }
            i = i + 1;
        }
        proof {
            assert(gene.view().subrange(0, gene.acids.len() as int) =~= gene.view());
        }
        r
    }

    /// The target a creature of this species picks in a watched cell at `at`: it flees
    /// a creature whose threat reaches its flee threshold, chases one whose threat is
    /// at most its chase threshold, otherwise eats the plant if it holds enough energy.
    pub fn watching_choice(&self, at: Crd, ground_energy: EnergyT, mob: Option<MobSight>) -> (r: BioTarget)
        requires
            mob matches Some(m) ==> self.chase_threshold - m.threat <= ThreatT::MAX,
        ensures
            r == spec_watching_choice(self, at, ground_energy, mob),
    {
        if let Some(m) = mob {
            if m.threat >= self.flee_threshold {
                return BioTarget {
                    action_weight: i8::MIN,
                    action: BioAction::Flee,
                    action_range: if m.threat <= self.fight_back_threshold {
                        self.attack_range
                    } else {
                        Coord(0, 0)
                    },
                    target: Some(m.at),
                    target_mob: Some(m.mob),
                };
            } else if m.threat <= self.chase_threshold {
                let d = self.chase_threshold - m.threat;
                return BioTarget {
                    action_weight: if d > 127 { i8::MAX } else { d as i8 },
                    action: BioAction::Chase,
                    action_range: self.attack_range,
                    target: Some(m.at),
                    target_mob: Some(m.mob),
                };
            }
        }
        if ground_energy > self.eat_threshold {
            BioTarget {
                action_weight: 1,
                action: BioAction::Eat,
                action_range: Coord(0, 0),
                target: Some(point_area(at)),
                target_mob: None,
            }
        } else {
            BioTarget::new()
        }
    }

    /// How many creatures of this species are on the plate: those whose species has its gene.
    pub fn bio_count(cosmos: &Cosmos<Bio>, species: &Species) -> (r: usize)
        ensures
            r == population(cosmos.mobs@, species.gene@),
    {
        count_population(cosmos, &species.gene)
    }
}

} // verus!
