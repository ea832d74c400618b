use vstd::prelude::*;

use crate::types::HitPointT;

verus! {

/// An attack.
#[derive(Clone, Copy, Debug, PartialEq, Eq, Structural)]
pub enum ATK {
    /// Takes this many hit points.
    Normal(HitPointT),
}

} // verus!
