use vstd::prelude::*;

use crate::gnd::{Ground, Item};
use crate::grids::{area_fits, valid_size, Crd, CrdI, Idx, MAX_SIDE};

verus! {

/// One cell of the plate: its ground and the slot of the creature that stands on it.
pub struct Block {
    pub ground: Ground,
    pub mob: Option<usize>,
}

/// The plate: a torus of `size.0` by `size.1` cells, stored row after row.
pub struct Plate {
    pub size: Crd,
    pub blocks: Vec<Block>,
}

/// How far `c` lies after `f` going forward around a circle of `n` cells (both in `0..n`).
pub open spec fn off(c: int, f: int, n: int) -> int {
    if c >= f { c - f } else { c - f + n }
}

/// The cell `d` steps after `f` around a circle of `n` cells.
pub open spec fn spec_step(f: int, d: int, n: int) -> int {
    if f + d < n { f + d } else { f + d - n }
}

/// An area whose first corner lies on the plate and whose sides are shorter than the plate's.
pub open spec fn normal_area(size: Crd, a: CrdI) -> bool {
    &&& 0 <= a.0.from < size.0 && 0 <= a.0.to - a.0.from < size.0
    &&& 0 <= a.1.from < size.1 && 0 <= a.1.to - a.1.from < size.1
}

/// Whether the area starts on the plate and is shorter than the plate on both axes.
pub fn is_normal_area(size: Crd, a: CrdI) -> (r: bool)
    ensures
        r == normal_area(size, a),
{
    let ok0 = 0 <= a.0.from && a.0.from < size.0 && a.0.from <= a.0.to && (a.0.to as i128) - (a.0.from as i128) < size.0 as i128;
    let ok1 = 0 <= a.1.from && a.1.from < size.1 && a.1.from <= a.1.to && (a.1.to as i128) - (a.1.from as i128) < size.1 as i128;
    ok0 && ok1
}

/// The cell `(x, y)` of the plate lies in the area `a`, which may wrap around the plate's edges.
pub open spec fn covers(size: Crd, a: CrdI, x: int, y: int) -> bool {
    &&& off(x, a.0.from as int, size.0 as int) <= a.0.to - a.0.from
    &&& off(y, a.1.from as int, size.1 as int) <= a.1.to - a.1.from
}

pub open spec fn in_plate(size: Crd, x: int, y: int) -> bool {
    0 <= x < size.0 && 0 <= y < size.1
}

/// Where the cell `(x, y)` is stored.
pub open spec fn cell_index(size: Crd, x: int, y: int) -> int {
    y * size.0 + x
}

/// A plate size whose cells can be counted in a `usize`.
pub open spec fn plate_size_ok(size: Crd) -> bool {
    valid_size(size) && size.0 * size.1 <= usize::MAX
}

/// The cells of the area done so far by a walk that goes row `dy`, column `dx` next.
pub open spec fn walked(size: Crd, a: CrdI, dy: int, dx: int, x: int, y: int) -> bool {
    &&& covers(size, a, x, y)
    &&& {
        let oy = off(y, a.1.from as int, size.1 as int);
        let ox = off(x, a.0.from as int, size.0 as int);
        oy < dy || (oy == dy && ox < dx)
    }
}

pub proof fn lemma_cell_index(size: Crd)
    requires
        plate_size_ok(size),
    ensures
        forall|x: int, y: int| #[trigger] in_plate(size, x, y) ==> 0 <= cell_index(size, x, y) < size.0 * size.1,
        forall|x1: int, y1: int, x2: int, y2: int|
            in_plate(size, x1, y1) && in_plate(size, x2, y2) && #[trigger] cell_index(size, x1, y1) == #[trigger] cell_index(size, x2, y2)
                ==> x1 == x2 && y1 == y2,
{
    let w = size.0 as int;
    let h = size.1 as int;
    assert forall|x: int, y: int| #[trigger] in_plate(size, x, y) implies 0 <= cell_index(size, x, y) < w * h by {
        assert(0 <= y * w + x < w * h) by (nonlinear_arith)
            requires 0 <= x < w, 0 <= y < h;
    }
    assert forall|x1: int, y1: int, x2: int, y2: int|
        in_plate(size, x1, y1) && in_plate(size, x2, y2) && #[trigger] cell_index(size, x1, y1) == #[trigger] cell_index(size, x2, y2)
        implies x1 == x2 && y1 == y2 by {
        assert(x1 == x2 && y1 == y2) by (nonlinear_arith)
            requires 0 <= x1 < w, 0 <= x2 < w, 0 <= y1, 0 <= y2, y1 * w + x1 == y2 * w + x2;
    }
}

/// The index of the cell `(x, y)`.
pub fn index_of(size: Crd, x: Idx, y: Idx) -> (r: usize)
    requires
        plate_size_ok(size),
        in_plate(size, x as int, y as int),
    ensures
        r == cell_index(size, x as int, y as int),
        r < size.0 * size.1,
{
    proof {
        lemma_cell_index(size);
        assert(in_plate(size, x as int, y as int));
    }
    (y as usize) * (size.0 as usize) + (x as usize)
}

/// The cell `d` steps after `f` around a circle of `n` cells.
pub fn step(f: Idx, d: Idx, n: Idx) -> (r: Idx)
    requires
        0 <= f < n,
        0 <= d < n,
        n <= MAX_SIDE,
    ensures
        r == spec_step(f as int, d as int, n as int),
        0 <= r < n,
        off(r as int, f as int, n as int) == d,
{
    if f + d < n { f + d } else { f + d - n }
}

impl Plate {
    pub open spec fn wf(&self) -> bool {
        plate_size_ok(self.size) && self.blocks@.len() == self.size.0 * self.size.1
    }

    /// The slot of the creature on the cell `(x, y)`.
    pub open spec fn mob_at(&self, x: int, y: int) -> Option<usize> {
        self.blocks@[cell_index(self.size, x, y)].mob
    }

    /// Every cell of the plate holds what `other` holds, except the cells of `a`,
    /// which hold `v`; grounds are left alone.
    pub open spec fn filled_from(&self, other: Plate, a: CrdI, v: Option<usize>) -> bool {
        &&& self.size == other.size
        &&& self.blocks@.len() == other.blocks@.len()
        &&& forall|k: int| 0 <= k < self.blocks@.len() ==> #[trigger] self.blocks@[k].ground == other.blocks@[k].ground
        &&& forall|x: int, y: int| #[trigger] in_plate(self.size, x, y) ==>
            self.mob_at(x, y) == (if covers(self.size, a, x, y) { v } else { other.mob_at(x, y) })
    }

    /// A plate of `size` cells whose grounds are made by `ground`, with no creature on it.
    pub fn new(size: Crd) -> (r: Plate)
        requires
            plate_size_ok(size),
        ensures
            r.wf(),
            r.size == size,
            forall|x: int, y: int| #[trigger] in_plate(size, x, y) ==> r.mob_at(x, y) is None,
            forall|k: int| 0 <= k < r.blocks@.len() ==> ((#[trigger] r.blocks@[k]).ground.item matches Item::Air)
                && r.blocks@[k].ground.env.wet == 0 && r.blocks@[k].ground.env.altitude == 0,
    {
        let n = (size.0 as usize) * (size.1 as usize);
        let mut blocks: Vec<Block> = Vec::new();
        let mut i: usize = 0;
        while i < n
            invariant
                i <= n,
                n == size.0 * size.1,
                blocks@.len() == i,
                forall|k: int| 0 <= k < i ==> #[trigger] blocks@[k].mob is None,
                forall|k: int| 0 <= k < i ==> ((#[trigger] blocks@[k]).ground.item matches Item::Air)
                    && blocks@[k].ground.env.wet == 0 && blocks@[k].ground.env.altitude == 0,
            decreases n - i,
        {
            blocks.push(Block { ground: Ground::new(), mob: None });
            i = i + 1;
        }
        let r = Plate { size, blocks };
        proof {
            lemma_cell_index(size);
        }
        r
    }

    /// Whether every cell of the area is empty or holds the creature `allowed`.
    pub fn area_holds_only(&self, a: CrdI, allowed: Option<usize>) -> (r: bool)
        requires
            self.wf(),
            normal_area(self.size, a),
        ensures
            r == (forall|x: int, y: int| #[trigger] in_plate(self.size, x, y) && covers(self.size, a, x, y)
                ==> self.mob_at(x, y) is None || self.mob_at(x, y) == allowed),
    {
        let w = self.size.0;
        let h = self.size.1;
        let lx = a.0.to - a.0.from;
        let ly = a.1.to - a.1.from;
        proof {
            lemma_cell_index(self.size);
        }
        let mut dy: Idx = 0;
        while dy <= ly
            invariant
                self.wf(),
                normal_area(self.size, a),
                w == self.size.0, h == self.size.1,
                lx == a.0.to - a.0.from, ly == a.1.to - a.1.from,
                0 <= dy <= ly + 1,
                forall|x: int, y: int| #[trigger] in_plate(self.size, x, y) && walked(self.size, a, dy as int, 0, x, y)
                    ==> self.mob_at(x, y) is None || self.mob_at(x, y) == allowed,
            decreases ly + 1 - dy,
        {
            let y = step(a.1.from, dy, h);
            let mut dx: Idx = 0;
            while dx <= lx
                invariant
                    self.wf(),
                    normal_area(self.size, a),
                    w == self.size.0, h == self.size.1,
                    lx == a.0.to - a.0.from, ly == a.1.to - a.1.from,
                    0 <= dy <= ly,
                    0 <= dx <= lx + 1,
                    0 <= y < h,
                    off(y as int, a.1.from as int, h as int) == dy,
                    forall|x: int, yy: int| #[trigger] in_plate(self.size, x, yy) && walked(self.size, a, dy as int, dx as int, x, yy)
                        ==> self.mob_at(x, yy) is None || self.mob_at(x, yy) == allowed,
                decreases lx + 1 - dx,
            {
                let x = step(a.0.from, dx, w);
                let i = index_of(self.size, x, y);
                let m = self.blocks[i].mob;
                let ok = match m {
                    None => true,
                    Some(s) => match allowed {
                        Some(t) => s == t,
                        None => false,
                    },
                };
                if !ok {
                    proof {
                        assert(in_plate(self.size, x as int, y as int) && covers(self.size, a, x as int, y as int));
                    }
                    return false;
                }
                dx = dx + 1;
            }
            dy = dy + 1;
        }
        proof {
            assert forall|x: int, y: int| #[trigger] in_plate(self.size, x, y) && covers(self.size, a, x, y)
                implies self.mob_at(x, y) is None || self.mob_at(x, y) == allowed by {
                assert(walked(self.size, a, dy as int, 0, x, y));
            }
        }
        true
    }

    /// Puts `v` in every cell of the area.
    pub fn fill_area(&mut self, a: CrdI, v: Option<usize>)
        requires
            old(self).wf(),
            normal_area(old(self).size, a),
        ensures
            final(self).wf(),
            final(self).filled_from(*old(self), a, v),
    {
        let w = self.size.0;
        let h = self.size.1;
        let lx = a.0.to - a.0.from;
        let ly = a.1.to - a.1.from;
        proof {
            lemma_cell_index(self.size);
        }
        let ghost start = *self;
        let mut dy: Idx = 0;
        while dy <= ly
            invariant
                self.wf(),
                self.size == start.size,
                start.wf(),
                normal_area(self.size, a),
                w == self.size.0, h == self.size.1,
                lx == a.0.to - a.0.from, ly == a.1.to - a.1.from,
                0 <= dy <= ly + 1,
                self.blocks@.len() == start.blocks@.len(),
                forall|k: int| 0 <= k < self.blocks@.len() ==> #[trigger] self.blocks@[k].ground == start.blocks@[k].ground,
                forall|x: int, y: int| #[trigger] in_plate(self.size, x, y) ==>
                    self.mob_at(x, y) == (if walked(self.size, a, dy as int, 0, x, y) { v } else { start.mob_at(x, y) }),
            decreases ly + 1 - dy,
        {
            let y = step(a.1.from, dy, h);
            let mut dx: Idx = 0;
            while dx <= lx
                invariant
                    self.wf(),
                    self.size == start.size,
                    start.wf(),
                    normal_area(self.size, a),
                    w == self.size.0, h == self.size.1,
                    lx == a.0.to - a.0.from, ly == a.1.to - a.1.from,
                    0 <= dy <= ly,
                    0 <= dx <= lx + 1,
                    0 <= y < h,
                    off(y as int, a.1.from as int, h as int) == dy,
                    self.blocks@.len() == start.blocks@.len(),
                    forall|k: int| 0 <= k < self.blocks@.len() ==> #[trigger] self.blocks@[k].ground == start.blocks@[k].ground,
                    forall|x: int, yy: int| #[trigger] in_plate(self.size, x, yy) ==>
                        self.mob_at(x, yy) == (if walked(self.size, a, dy as int, dx as int, x, yy) { v } else { start.mob_at(x, yy) }),
                decreases lx + 1 - dx,
            {
                let x = step(a.0.from, dx, w);
                let i = index_of(self.size, x, y);
                let ghost before = *self;
                self.blocks[i].mob = v;
                proof {
                    lemma_cell_index(self.size);
                    assert forall|xx: int, yy: int| #[trigger] in_plate(self.size, xx, yy) implies
                        self.mob_at(xx, yy) == (if walked(self.size, a, dy as int, dx + 1, xx, yy) { v } else { start.mob_at(xx, yy) }) by {
                        assert(in_plate(before.size, xx, yy));
                        if xx == x && yy == y {
                        } else {
                            assert(in_plate(self.size, x as int, y as int));
                            assert(cell_index(self.size, xx, yy) != cell_index(self.size, x as int, y as int));
                        }
                    }
                }
                dx = dx + 1;
            }
            proof {
                assert forall|xx: int, yy: int| #[trigger] in_plate(self.size, xx, yy) implies
                    self.mob_at(xx, yy) == (if walked(self.size, a, dy + 1, 0, xx, yy) { v } else { start.mob_at(xx, yy) }) by {
                    assert(walked(self.size, a, dy + 1, 0, xx, yy) == walked(self.size, a, dy as int, dx as int, xx, yy));
                }
            }
            dy = dy + 1;
        }
        proof {
            assert forall|x: int, y: int| #[trigger] in_plate(self.size, x, y) implies
                self.mob_at(x, y) == (if covers(self.size, a, x, y) { v } else { start.mob_at(x, y) }) by {
                assert(walked(self.size, a, dy as int, 0, x, y) == covers(self.size, a, x, y));
            }
        }
    }
}

} // verus!
