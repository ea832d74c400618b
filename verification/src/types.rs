use vstd::prelude::*;

verus! {

/// Game time, counted in ticks.
pub type Tick = u64;

/// Energy held by plants and creatures.
pub type EnergyT = u32;

/// Hit points of a creature.
pub type HitPointT = u16;

/// How dangerous a creature looks to others.
pub type ThreatT = i32;

/// Age of a creature, counted in wake-ups.
pub type AgeT = u32;

/// Environment values of a ground cell (wetness, altitude).
pub type EnvT = i8;

} // verus!
