use vstd::prelude::*;

use crate::gnd::{Ground, Item};

verus! {

/// The colour of a cell in a picture of the plate, as red, green and blue: magenta where a
/// creature stands, else black air, light green grass, dark green trees, and plain green for
/// a plant of another class.
pub open spec fn spec_color_of(ground: Ground, has_mob: bool) -> (u8, u8, u8) {
    if has_mob {
        (255, 0, 255)
    } else {
        match ground.item {
            Item::Air => (0, 0, 0),
            Item::Plant(p) => if p.kind == 0 {
                (63, 255, 63)
            } else if p.kind == 1 {
                (31, 127, 31)
            } else {
                (0, 255, 0)
            },
        }
    }
}

pub fn color_of(ground: &Ground, has_mob: bool) -> (r: (u8, u8, u8))
    ensures
        r == spec_color_of(*ground, has_mob),
{
    if has_mob {
        return (255, 0, 255);
    }
    match &ground.item {
        Item::Air => (0, 0, 0),
        Item::Plant(p) => {
            if p.kind == 0 {
                (63, 255, 63)
            } else if p.kind == 1 {
                (31, 127, 31)
            } else {
                (0, 255, 0)
            }
        },
    }
}

} // verus!
