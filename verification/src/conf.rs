use vstd::prelude::*;

use crate::grids::Crd;
use crate::types::EnergyT;
use crate::mob::gene::Gene;

verus! {

/// The shape of the plate.
pub struct GameConf {
    /// How many chunks the plate has. The plate's size is the chunk count times the chunk size.
    pub chunk_count: Crd,
    /// The size of one chunk; both sides positive.
    pub chunk_size: Crd,
    /// How many chunks around a chunk its creatures may touch in one tick.
    pub padding: Crd,
}

/// Settings of the running world.
pub struct RuntimeConf {
    /// Least time between two ticks, in milliseconds.
    pub period: u64,
    /// Worker threads of the world; at least one.
    pub thread_count: usize,
    /// How many times a failed placement is tried again.
    pub retry: usize,
}

/// The rules of one kind of plant.
#[derive(Clone, Copy, Debug, PartialEq, Eq, Structural)]
pub struct Plant {
    /// Energy gained when the plant grows.
    pub grow: EnergyT,
    /// Weight of this plant when an empty cell is sown.
    pub sow_weight: u32,
    /// Energy spent when the plant bears fruit.
    pub fruit_cost: EnergyT,
    /// The plant bears fruit once its energy reaches this value.
    pub fruit_when: EnergyT,
}

/// The rules of all plants.
pub struct PlantRules {
    /// Energy a corpse loses each time it rots.
    pub corpse_rot: EnergyT,
    pub grass: Plant,
    pub tree: Plant,
}

/// A template from which creatures are made.
pub struct Creature {
    /// Weight of this template when one is chosen.
    pub weight: usize,
    /// How many insert mutations are applied to its gene.
    pub insertions: usize,
    /// The gene creatures start from.
    pub gene: Gene,
}

/// Where snapshots of the world are written.
pub struct SnapshotPaths {
    pub overview: String,
}

} // verus!
