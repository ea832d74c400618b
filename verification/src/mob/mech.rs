use vstd::prelude::*;

use crate::cosmos::{Cosmos, MobRefMut, _MobBlock};
use crate::deamon::Deamon;
use crate::grids::{spec_normalize_area, Coord, CrdI, Interval};
use crate::mob::letters::{Order, Post};
use crate::plate::{covers, in_plate};
use crate::refs::Weak;

verus! {

/// A stand-in creature: on each main tick it moves to the single cell one step right of
/// and below the corner of its area, and asks for the next main tick.
#[derive(Clone, Copy, Debug, PartialEq, Eq, Structural)]
pub struct Mech {}

/// The one-cell area a mech standing on `at` steps to.
pub open spec fn mech_step(at: CrdI) -> CrdI {
    Coord(
        Interval { from: (at.0.from + 1) as isize, to: (at.0.from + 1) as isize },
        Interval { from: (at.1.from + 1) as isize, to: (at.1.from + 1) as isize },
    )
}

/// Every cell of `a` (brought into the plate) is empty or holds the creature in slot `s`.
pub open spec fn free_for<M>(c: Cosmos<M>, s: usize, a: CrdI) -> bool {
    let n = spec_normalize_area(c.plate.size, a);
    forall|x: int, y: int| #[trigger] in_plate(c.plate.size, x, y) && covers(c.plate.size, n, x, y)
        ==> c.plate.mob_at(x, y) is None || c.plate.mob_at(x, y) == Some(s)
}

impl Mech {
    pub fn get_name(&self) -> (r: String)
        ensures
            r@ == "delete this"@,
    {
        String::from_str("delete this")
    }

    /// The mech's main tick: it moves to `mech_step` of its area and asks to be ordered
    /// again one tick later. The move must succeed: its cell lies inside the deamon's bound
    /// and holds no other creature.
    pub fn order(cosmos: &mut Cosmos<Mech>, deamon: &Deamon, mob: MobRefMut) -> (r: Post)
        requires
            old(cosmos).wf(),
            old(cosmos).alive(mob.slot),
            deamon.valid(old(cosmos).plate.size),
            deamon.spec_contains(old(cosmos).plate.size, mech_step(old(cosmos).block(mob.slot).at)),
            free_for(*old(cosmos), mob.slot, mech_step(old(cosmos).block(mob.slot).at)),
        ensures
            final(cosmos).wf(),
            final(cosmos).mobs@ == old(cosmos).mobs@.update(mob.slot as int, Some(_MobBlock {
                at: spec_normalize_area(old(cosmos).plate.size, mech_step(old(cosmos).block(mob.slot).at)),
                ..old(cosmos).block(mob.slot)
            })),
            final(cosmos).properties == old(cosmos).properties,
            final(cosmos).plate.size == old(cosmos).plate.size,
            r == (Post::Order { to: Weak { slot: mob.slot }, order: Order::MobMainTick, delay: 1 }),
    {
        let ghost c0 = *cosmos;
        let at = mob.at(cosmos);
        proof {
            assert(crate::cosmos::placed(c0.plate, mob.slot, c0.block(mob.slot)));
        }
        let new_at = Coord(
            Interval { from: at.0.from + 1, to: at.0.from + 1 },
            Interval { from: at.1.from + 1, to: at.1.from + 1 },
        );
        let res = deamon.reset(cosmos, &mob, new_at);
        proof {
            assert(res is Ok);
        }
        Post::Order { to: mob.downgrade(), order: Order::MobMainTick, delay: 1 }
    }
}

} // verus!
