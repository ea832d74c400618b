use vstd::prelude::*;

use std::sync::Arc;

use crate::grids::{Coord, Crd, CrdI};
use crate::mob::atk::ATK;
use crate::mob::species::Species;
use crate::refs::Weak;
use crate::types::{AgeT, EnergyT, HitPointT};

verus! {

/// What a creature is up to.
#[derive(Clone, Copy, Debug, PartialEq, Eq, Structural)]
pub enum BioAction {
    Nothing,
    Stroll,
    Eat,
    Flee,
    Chase,
}

/// A creature's current aim.
#[derive(Clone, Copy)]
pub struct BioTarget {
    /// How strongly the aim pulls: negative to move away, positive to move closer.
    pub action_weight: i8,
    pub action: BioAction,
    /// How close, in Chebyshev distance, the creature must be to act.
    pub action_range: Crd,
    pub target: Option<CrdI>,
    pub target_mob: Option<Weak>,
}

pub struct BioMutex {
    pub target: BioTarget,
}

/// A living creature.
pub struct Bio {
    pub species: Arc<Species>,
    pub age: AgeT,
    pub target: BioMutex,
    pub energy: EnergyT,
    pub hp: HitPointT,
}

/// `Arc::clone`: another pointer to the same value.
#[verifier::external_body]
pub(crate) fn share<T>(a: &Arc<T>) -> (r: Arc<T>)
    ensures
        r == *a,
{
    Arc::clone(a)
}

/// No aim at all.
pub open spec fn spec_idle_target() -> BioTarget {
    BioTarget { action_weight: 0, action: BioAction::Nothing, action_range: Coord(0, 0), target: None, target_mob: None }
}

impl BioTarget {
    pub open spec fn is_idle(&self) -> bool {
        self.action_weight == 0 && self.action == BioAction::Nothing && self.action_range == Coord(0isize, 0isize)
            && self.target is None && self.target_mob is None
    }

    /// No aim at all.
    pub fn new() -> (r: BioTarget)
        ensures
            r.is_idle(),
            r == spec_idle_target(),
    {
        BioTarget {
            action_weight: 0,
            action: BioAction::Nothing,
            action_range: Coord(0, 0),
            target: None,
            target_mob: None,
        }
    }
}

impl Bio {
    /// A newborn creature of `species` with `energy`, at full health.
    pub fn new(species: Arc<Species>, energy: EnergyT) -> (r: Bio)
        ensures
            r.species == species,
            r.energy == energy,
            r.hp == species.max_hp,
            r.age == 0,
            r.target.target.is_idle(),
            r.target.target == spec_idle_target(),
    {
        let hp = species.max_hp;
        Bio { species, energy, hp, age: 0, target: BioMutex { target: BioTarget::new() } }
    }

    /// Takes the attack's hit points, down to zero.
    pub fn being_attacked(&mut self, atk: ATK)
        ensures
            ({
                let ATK::Normal(x) = atk;
                final(self).hp == (if old(self).hp >= x { (old(self).hp - x) as HitPointT } else { 0 })
            }),
            final(self).energy == old(self).energy,
            final(self).age == old(self).age,
            final(self).species == old(self).species,
            final(self).target == old(self).target,
    {
        match atk {
            ATK::Normal(x) => self.hp = self.hp.saturating_sub(x),
        }
    }
}

} // verus!
