use vstd::prelude::*;

use crate::mob::atk::ATK;
use crate::refs::Weak;
use crate::types::{ThreatT, Tick};

verus! {

/// Messages a creature can hear.
#[derive(Clone, Copy, Debug, PartialEq, Eq, Structural)]
pub enum Msg {
    /// The creature wakes up and looks around.
    Wake,
}

/// Orders a creature carries out.
#[derive(Clone, Copy)]
pub enum Order {
    /// The creature acts: it ages, breeds, eats, moves or attacks.
    MobMainTick,
    /// The creature is attacked.
    Attack { atk: ATK, attacker: Option<Weak>, threat: ThreatT },
}

/// What a creature sends to another creature, to be delivered after `delay` ticks.
#[derive(Clone, Copy)]
pub enum Post {
    Tell { to: Weak, msg: Msg, delay: Tick },
    Order { to: Weak, order: Order, delay: Tick },
}

} // verus!
