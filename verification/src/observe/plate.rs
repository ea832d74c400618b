use vstd::prelude::*;

use crate::conencode::Matrix;
use crate::cosmos::Cosmos;
use crate::deamon::{ground_at, grounds_valid};
use crate::gnd::prop::spec_class_name;
use crate::gnd::{Ground, Item};
use crate::grids::{normalize_pos, small_area, spec_normalize_pos, valid_size, Coord, Crd, CrdI};
use crate::plate::{cell_index, in_plate, index_of};
use crate::types::EnergyT;

verus! {

/// What a player is shown of one cell.
pub struct BlockView {
    /// One more than the slot of the creature on the cell; 0 for none.
    pub mob: usize,
    /// The name of what grows on the cell.
    pub item: String,
    /// The energy the cell holds.
    pub energy: EnergyT,
}

/// What a player is shown of an area of the plate, row by row.
pub struct PlateView {
    pub area: CrdI,
    pub matrix: Matrix<BlockView>,
}

/// The name a ground shows.
pub open spec fn ground_name(g: Ground) -> Seq<char> {
    match g.item {
        Item::Air => "air"@,
        Item::Plant(p) => spec_class_name(p.kind),
    }
}

/// The cell `dx` columns and `dy` rows into the area, brought into the plate.
pub open spec fn view_cell(size: Crd, area: CrdI, dx: int, dy: int) -> Crd {
    spec_normalize_pos(size, Coord((area.0.from + dx) as isize, (area.1.from + dy) as isize))
}

/// The view of the cell at `p`.
pub open spec fn view_of<M>(c: Cosmos<M>, p: Crd, b: BlockView) -> bool {
    let g = ground_at(c.plate, p.0 as int, p.1 as int);
    &&& b.mob == (match c.plate.mob_at(p.0 as int, p.1 as int) {
        Some(s) => s + 1,
        None => 0,
    })
    &&& b.item@ == ground_name(g)
    &&& b.energy == g.spec_energy(c.properties.tick)
}

impl PlateView {
    /// The view of the area `area` of the world, its cells brought into the plate.
    pub fn new<M>(cosmos: &Cosmos<M>, area: CrdI) -> (r: PlateView)
        requires
            cosmos.wf(),
            grounds_valid(cosmos.plate, cosmos.properties.tick),
            small_area(area),
            area.0.from <= area.0.to,
            area.1.from <= area.1.to,
        ensures
            r.area == area,
            r.matrix.wf(),
            r.matrix.size == Coord((area.0.to - area.0.from + 1) as isize, (area.1.to - area.1.from + 1) as isize),
            forall|dx: int, dy: int|
                0 <= dx < r.matrix.size.0 && 0 <= dy < r.matrix.size.1 ==> view_of(
                    *cosmos,
                    view_cell(cosmos.plate.size, area, dx, dy),
                    #[trigger] r.matrix.cell(dx, dy),
                ),
    {
        let size = cosmos.plate.size;
        let w = area.0.to - area.0.from + 1;
        let h = area.1.to - area.1.from + 1;
        let mut data: Vec<BlockView> = Vec::new();
        let mut dy: isize = 0;
        while dy < h
            invariant
                cosmos.wf(),
                grounds_valid(cosmos.plate, cosmos.properties.tick),
                size == cosmos.plate.size,
                small_area(area),
                w == area.0.to - area.0.from + 1,
                h == area.1.to - area.1.from + 1,
                0 < w,
                0 < h,
                0 <= dy <= h,
                data@.len() == dy * w,
                forall|i: int| 0 <= i < data@.len() ==> view_of(*cosmos, view_cell(size, area, i % (w as int), i / (w as int)), #[trigger] data@[i]),
            decreases h - dy,
        {
            let mut dx: isize = 0;
            while dx < w
                invariant
                    cosmos.wf(),
                    grounds_valid(cosmos.plate, cosmos.properties.tick),
                    size == cosmos.plate.size,
                    small_area(area),
                    w == area.0.to - area.0.from + 1,
                    h == area.1.to - area.1.from + 1,
                    0 < w,
                    0 <= dy < h,
                    0 <= dx <= w,
                    data@.len() == dy * w + dx,
                    forall|i: int| 0 <= i < data@.len() ==> view_of(*cosmos, view_cell(size, area, i % (w as int), i / (w as int)), #[trigger] data@[i]),
                decreases w - dx,
            {
                let p = normalize_pos(size, Coord(area.0.from + dx, area.1.from + dy));
                let i = index_of(size, p.0, p.1);
                let block = &cosmos.plate.blocks[i];
                proof {
                    assert(block.ground.valid_at(cosmos.properties.tick));
                }
                let mob = match block.mob {
                    Some(s) => {
                        let slots = cosmos.mobs.len();
                        proof {
                            assert(in_plate(size, p.0 as int, p.1 as int));
                            assert(cosmos.plate.mob_at(p.0 as int, p.1 as int) == Some(s));
                        }
                        s + 1
                    },
                    None => 0,
                };
                let item = block.ground.to_string();
                let energy = block.ground.energy(cosmos.properties.tick);
                let ghost k = dy * w + dx;
                proof {
                    vstd::arithmetic::div_mod::lemma_fundamental_div_mod_converse(k, w as int, dy as int, dx as int);
                }
                data.push(BlockView { mob, item, energy });
                dx = dx + 1;
            }
            proof {
                assert((dy + 1) * w == dy * w + w) by (nonlinear_arith);
            }
            dy = dy + 1;
        }
        let matrix = Matrix { size: Coord(w, h), data };
        proof {
            assert(dy * w == w * h) by (nonlinear_arith)
                requires
                    dy == h,
            ;
            assert forall|dx: int, dy2: int| 0 <= dx < w && 0 <= dy2 < h implies view_of(
                *cosmos,
                view_cell(size, area, dx, dy2),
                #[trigger] matrix.cell(dx, dy2),
            ) by {
                let k = dy2 * w + dx;
                assert(0 <= k < w * h) by (nonlinear_arith)
                    requires
                        0 <= dx < w,
                        0 <= dy2 < h,
                        k == dy2 * w + dx,
                ;
                vstd::arithmetic::div_mod::lemma_fundamental_div_mod_converse(k, w as int, dy2, dx);
            }
        }
        PlateView { area, matrix }
    }
}

} // verus!
