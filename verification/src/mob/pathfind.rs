use vstd::prelude::*;

use crate::grids::{displacement, small_area, spec_displacement, valid_size, Coord, Crd, CrdI};

verus! {

/// How many steps `silly_facing` proposes.
pub const SILLY_FACING_RETRY: usize = 2;

pub open spec fn signum(v: int) -> int {
    if v < 0 { -1 } else if v == 0 { 0 } else { 1 }
}

pub open spec fn abs(v: int) -> int {
    if v < 0 { -v } else { v }
}

/// The direction to the target, scaled so that the longer axis counts twice.
pub open spec fn spec_facing(delta: Crd) -> (int, int) {
    let (ax, ay) = if abs(delta.0 as int) > abs(delta.1 as int) { (2int, 1int) } else { (1int, 2int) };
    (signum(delta.0 as int) * ax, signum(delta.1 as int) * ay)
}

/// The two steps tried, in order, for a facing.
pub open spec fn cc(x: int, y: int) -> Crd {
    Coord(x as isize, y as isize)
}

pub open spec fn spec_steps(f: (int, int)) -> (Crd, Crd) {
    if f == (2int, 0int) || f == (2int, 1int) {
        (cc(1, 0), cc(0, 1))
    } else if f == (1int, 2int) {
        (cc(0, 1), cc(1, 0))
    } else if f == (0int, 2int) || f == (-1int, 2int) {
        (cc(0, 1), cc(-1, 0))
    } else if f == (-2int, 1int) {
        (cc(-1, 0), cc(0, 1))
    } else if f == (-2int, 0int) || f == (-2int, -1int) {
        (cc(-1, 0), cc(0, -1))
    } else if f == (-1int, -2int) {
        (cc(0, -1), cc(-1, 0))
    } else if f == (0int, -2int) || f == (1int, -2int) {
        (cc(0, -1), cc(1, 0))
    } else if f == (2int, -1int) {
        (cc(1, 0), cc(0, -1))
    } else {
        (cc(0, 0), cc(0, 0))
    }
}

/// Two unit steps to try, in order, to get from `mob_at` closer to `target`:
/// first along the axis on which the target is farther, then along the other.
pub fn silly_facing(mob_at: CrdI, target: CrdI, plate_size: Crd) -> (r: [Crd; SILLY_FACING_RETRY])
    requires
        valid_size(plate_size),
        small_area(mob_at),
        small_area(target),
    ensures
        (r[0], r[1]) == spec_steps(spec_facing(spec_displacement(plate_size, mob_at, target))),
{
    let delta = displacement(plate_size, mob_at, target);
    let sx: isize = if delta.0 < 0 { -1 } else if delta.0 == 0 { 0 } else { 1 };
    let sy: isize = if delta.1 < 0 { -1 } else if delta.1 == 0 { 0 } else { 1 };
    let ax: isize = if delta.0 < 0 { -delta.0 } else { delta.0 };
    let ay: isize = if delta.1 < 0 { -delta.1 } else { delta.1 };
    let (fx, fy): (isize, isize) = if ax > ay { (2, 1) } else { (1, 2) };
    let steps: (Crd, Crd) = match (sx * fx, sy * fy) {
        (2, 0) | (2, 1) => (Coord(1, 0), Coord(0, 1)),
        (1, 2) => (Coord(0, 1), Coord(1, 0)),
        (0, 2) | (-1, 2) => (Coord(0, 1), Coord(-1, 0)),
        (-2, 1) => (Coord(-1, 0), Coord(0, 1)),
        (-2, 0) | (-2, -1) => (Coord(-1, 0), Coord(0, -1)),
        (-1, -2) => (Coord(0, -1), Coord(-1, 0)),
        (0, -2) | (1, -2) => (Coord(0, -1), Coord(1, 0)),
        (2, -1) => (Coord(1, 0), Coord(0, -1)),
        _ => (Coord(0, 0), Coord(0, 0)),
    };
    [steps.0, steps.1]
}

/// Every step `silly_facing` proposes moves by at most one cell along one axis.
pub proof fn lemma_facing_steps_unit(delta: Crd)
    ensures
        ({
            let (a, b) = spec_steps(spec_facing(delta));
            &&& abs(a.0 as int) + abs(a.1 as int) <= 1
            &&& abs(b.0 as int) + abs(b.1 as int) <= 1
        }),
{
}

/// When the target is not where the creature stands, the first step proposed never moves away
/// from it along the axis it follows.
pub proof fn lemma_facing_first_step_toward(delta: Crd)
    requires
        delta != Coord(0isize, 0isize),
    ensures
        ({
            let a = spec_steps(spec_facing(delta)).0;
            &&& a.0 != 0 ==> (a.0 > 0) == (delta.0 > 0)
            &&& a.1 != 0 ==> (a.1 > 0) == (delta.1 > 0)
            &&& abs(a.0 as int) + abs(a.1 as int) == 1
        }),
{
}

} // verus!
