use vstd::prelude::*;

use crate::grids::{valid_size, Coord, Crd, CrdI, Interval, MAX_SIDE};
use crate::plate::{covers, in_plate, off, plate_size_ok};

verus! {

/// Cuts the plate into chunks, and each chunk's bound (the chunk with `padding` cells around
/// it), in batches whose bounds never overlap, so that the work of one batch can be shared out.
#[derive(Clone, Copy)]
pub struct CosmosRipper {
    /// The size of the area whose messages are handled together.
    pub chunk_size: Crd,
    /// How far around its chunk that work may reach.
    pub padding: Crd,
    /// The size of a chunk with its padding.
    pub bound_size: Crd,
    /// How many bounds fit on the plate on each axis.
    pub batch_size: Crd,
}

/// One batch of chunks: the chunks at `batch_offset` within their bounds, handed out one after
/// the other.
#[derive(Clone, Copy)]
pub struct CosmosRipperBatch<'c> {
    pub ripper: &'c CosmosRipper,
    pub batch_offset: Crd,
    pub consumed: Crd,
}

/// The positions of a `b0` by `b1` grid from `(c0, c1)` on, row by row.
pub open spec fn pending(b0: int, b1: int, c0: int, c1: int) -> Seq<(int, int)>
    decreases b0 - c0, b1 - c1,
{
    if c0 >= b0 || c0 < 0 || c1 < 0 {
        Seq::empty()
    } else if c1 >= b1 {
        pending(b0, b1, c0 + 1, 0)
    } else {
        seq![(c0, c1)] + pending(b0, b1, c0, c1 + 1)
    }
}

/// The chunk of the position `c` in the batch at `offset`, and its bound.
pub open spec fn ripper_slice(rp: CosmosRipper, offset: Crd, c: (int, int)) -> (CrdI, CrdI) {
    let x = c.0 * rp.bound_size.0 + offset.0 * rp.chunk_size.0;
    let y = c.1 * rp.bound_size.1 + offset.1 * rp.chunk_size.1;
    let bound = Coord(
        Interval { from: x as isize, to: (x + rp.bound_size.0 - 1) as isize },
        Interval { from: y as isize, to: (y + rp.bound_size.1 - 1) as isize },
    );
    let chunk = Coord(
        Interval { from: (x + rp.padding.0) as isize, to: (x + rp.padding.0 + rp.chunk_size.0 - 1) as isize },
        Interval { from: (y + rp.padding.1) as isize, to: (y + rp.padding.1 + rp.chunk_size.1 - 1) as isize },
    );
    (chunk, bound)
}

/// The plate a ripper was made for.
pub open spec fn ripper_plate(rp: CosmosRipper) -> Crd {
    Coord((rp.batch_size.0 * rp.bound_size.0) as isize, (rp.batch_size.1 * rp.bound_size.1) as isize)
}

impl CosmosRipper {
    /// Sizes that fit together: bounds are chunks with their padding on both sides, a whole
    /// number of chunks long, and a whole number of bounds fill the plate.
    pub open spec fn wf(&self) -> bool {
        &&& self.chunk_size.0 > 0 && self.chunk_size.1 > 0
        &&& self.padding.0 >= 0 && self.padding.1 >= 0
        &&& self.bound_size.0 == self.chunk_size.0 + 2 * self.padding.0
        &&& self.bound_size.1 == self.chunk_size.1 + 2 * self.padding.1
        &&& self.bound_size.0 as int % self.chunk_size.0 as int == 0
        &&& self.bound_size.1 as int % self.chunk_size.1 as int == 0
        &&& 0 < self.batch_size.0 <= MAX_SIDE && 0 < self.batch_size.1 <= MAX_SIDE
        &&& self.bound_size.0 <= MAX_SIDE && self.bound_size.1 <= MAX_SIDE
        &&& self.batch_size.0 * self.bound_size.0 <= MAX_SIDE
        &&& self.batch_size.1 * self.bound_size.1 <= MAX_SIDE
        &&& self.batch_size.0 * self.batch_size.1 <= usize::MAX
    }

    /// How many batches there are on each axis.
    pub open spec fn batch_count(&self) -> (int, int) {
        (self.bound_size.0 as int / self.chunk_size.0 as int, self.bound_size.1 as int / self.chunk_size.1 as int)
    }

    /// A ripper for a plate of `plate_size`, chunks of `chunk_size` and `padding` around them.
    /// Twice the padding must be a whole number of chunks, and the plate a whole number of bounds.
    pub fn new(plate_size: Crd, chunk_size: Crd, padding: Crd) -> (r: Self)
        requires
            plate_size_ok(plate_size),
            chunk_size.0 > 0 && chunk_size.1 > 0,
            0 <= padding.0 <= MAX_SIDE && 0 <= padding.1 <= MAX_SIDE,
            chunk_size.0 <= MAX_SIDE && chunk_size.1 <= MAX_SIDE,
            (padding.0 * 2) as int % chunk_size.0 as int == 0,
            (padding.1 * 2) as int % chunk_size.1 as int == 0,
            plate_size.0 as int % (chunk_size.0 + 2 * padding.0) == 0,
            plate_size.1 as int % (chunk_size.1 + 2 * padding.1) == 0,
        ensures
            r.wf(),
            r.chunk_size == chunk_size,
            r.padding == padding,
            r.bound_size.0 == chunk_size.0 + 2 * padding.0,
            r.bound_size.1 == chunk_size.1 + 2 * padding.1,
            r.batch_size.0 == plate_size.0 / r.bound_size.0,
            r.batch_size.1 == plate_size.1 / r.bound_size.1,
            ripper_plate(r) == plate_size,
    {
        let bound_size = Coord(chunk_size.0 + 2 * padding.0, chunk_size.1 + 2 * padding.1);
        let batch_size = Coord(plate_size.0 / bound_size.0, plate_size.1 / bound_size.1);
        proof {
            lemma_whole_parts(plate_size.0 as int, bound_size.0 as int);
            lemma_whole_parts(plate_size.1 as int, bound_size.1 as int);
            lemma_padding_whole(chunk_size.0 as int, padding.0 as int);
            lemma_padding_whole(chunk_size.1 as int, padding.1 as int);
            lemma_fewer_batches(plate_size.0 as int, plate_size.1 as int, batch_size.0 as int, batch_size.1 as int, bound_size.0 as int, bound_size.1 as int);
        }
        CosmosRipper { chunk_size, padding, bound_size, batch_size }
    }

    /// Whether the sizes fit together as `wf` asks.
    pub fn is_wf(&self) -> (r: bool)
        ensures
            r == self.wf(),
    {
        let c = self.chunk_size;
        let p = self.padding;
        let b = self.bound_size;
        let n = self.batch_size;
        if !(c.0 > 0 && c.1 > 0 && p.0 >= 0 && p.1 >= 0) {
            return false;
        }
        if !(0 < n.0 && n.0 <= MAX_SIDE && 0 < n.1 && n.1 <= MAX_SIDE && b.0 <= MAX_SIDE && b.1 <= MAX_SIDE) {
            return false;
        }
        if !(c.0 <= MAX_SIDE && c.1 <= MAX_SIDE && p.0 <= MAX_SIDE && p.1 <= MAX_SIDE) {
            // a bound of at most `MAX_SIDE` cells cannot hold such a chunk and padding
            return false;
        }
        if !(b.0 == c.0 + 2 * p.0 && b.1 == c.1 + 2 * p.1) {
            return false;
        }
        proof {
            assert(0 < n.0 * b.0 <= MAX_SIDE * MAX_SIDE) by (nonlinear_arith)
                requires 0 < n.0 <= MAX_SIDE, 0 < b.0 <= MAX_SIDE;
            assert(0 < n.1 * b.1 <= MAX_SIDE * MAX_SIDE) by (nonlinear_arith)
                requires 0 < n.1 <= MAX_SIDE, 0 < b.1 <= MAX_SIDE;
            assert(0 < n.0 * n.1 <= MAX_SIDE * MAX_SIDE) by (nonlinear_arith)
                requires 0 < n.0 <= MAX_SIDE, 0 < n.1 <= MAX_SIDE;
        }
        let w: u64 = (n.0 as u64) * (b.0 as u64);
        let h: u64 = (n.1 as u64) * (b.1 as u64);
        let k: u64 = (n.0 as u64) * (n.1 as u64);
        b.0 % c.0 == 0 && b.1 % c.1 == 0 && w <= MAX_SIDE as u64 && h <= MAX_SIDE as u64
            && k as u128 <= usize::MAX as u128
    }

    /// The batches, one for each offset of a chunk within its bound, row by row.
    pub fn with(&self) -> (r: Vec<CosmosRipperBatch<'_>>)
        requires
            self.wf(),
        ensures
            r@.len() == pending(self.batch_count().0, self.batch_count().1, 0, 0).len(),
            forall|k: int| 0 <= k < r@.len() ==> {
                let o = pending(self.batch_count().0, self.batch_count().1, 0, 0)[k];
                &&& (#[trigger] r@[k]).ripper == self
                &&& r@[k].batch_offset == Coord(o.0 as isize, o.1 as isize)
                &&& r@[k].consumed == Coord(0isize, 0isize)
                &&& r@[k].wf()
            },
    {
        let m0 = self.bound_size.0 / self.chunk_size.0;
        let m1 = self.bound_size.1 / self.chunk_size.1;
        let ghost all = pending(m0 as int, m1 as int, 0, 0);
        proof {
            lemma_div_small(self.bound_size.0 as int, self.chunk_size.0 as int);
            lemma_div_small(self.bound_size.1 as int, self.chunk_size.1 as int);
            lemma_pending_len(m0 as int, m1 as int, 0, 0);
        }
        let mut out: Vec<CosmosRipperBatch<'_>> = Vec::new();
        let mut i: isize = 0;
        while i < m0
            invariant
                self.wf(),
                m0 == self.batch_count().0,
                m1 == self.batch_count().1,
                1 <= m0 <= MAX_SIDE,
                1 <= m1 <= MAX_SIDE,
                all == pending(m0 as int, m1 as int, 0, 0),
                0 <= i <= m0,
                pending(m0 as int, m1 as int, i as int, 0) == all.subrange(out@.len() as int, all.len() as int),
                out@.len() <= all.len(),
                forall|k: int| 0 <= k < out@.len() ==> {
                    let o = all[k];
                    &&& (#[trigger] out@[k]).ripper == self
                    &&& out@[k].batch_offset == Coord(o.0 as isize, o.1 as isize)
                    &&& out@[k].consumed == Coord(0isize, 0isize)
                    &&& out@[k].wf()
                },
            decreases m0 - i,
        {
            let mut j: isize = 0;
            while j < m1
                invariant
                    self.wf(),
                    m0 == self.batch_count().0,
                    m1 == self.batch_count().1,
                    1 <= m0 <= MAX_SIDE,
                    1 <= m1 <= MAX_SIDE,
                    all == pending(m0 as int, m1 as int, 0, 0),
                    0 <= i < m0,
                    0 <= j <= m1,
                    pending(m0 as int, m1 as int, i as int, j as int) == all.subrange(out@.len() as int, all.len() as int),
                    out@.len() <= all.len(),
                    forall|k: int| 0 <= k < out@.len() ==> {
                        let o = all[k];
                        &&& (#[trigger] out@[k]).ripper == self
                        &&& out@[k].batch_offset == Coord(o.0 as isize, o.1 as isize)
                        &&& out@[k].consumed == Coord(0isize, 0isize)
                        &&& out@[k].wf()
                    },
                decreases m1 - j,
            {
                let ghost n = out@.len() as int;
                proof {
                    let rest = pending(m0 as int, m1 as int, i as int, j as int);
                    assert(rest == seq![(i as int, j as int)] + pending(m0 as int, m1 as int, i as int, j + 1));
                    assert(rest[0] == all.subrange(n, all.len() as int)[0]);
                    assert(all[n] == (i as int, j as int));
                    assert(all.subrange(n + 1, all.len() as int) =~= rest.drop_first());
                    assert(rest.drop_first() =~= pending(m0 as int, m1 as int, i as int, j + 1));
                }
                out.push(CosmosRipperBatch { ripper: self, batch_offset: Coord(i, j), consumed: Coord(0, 0) });
                j = j + 1;
            }
            proof {
                assert(pending(m0 as int, m1 as int, i as int, j as int) == pending(m0 as int, m1 as int, i + 1, 0));
            }
            i = i + 1;
        }
        proof {
            assert(pending(m0 as int, m1 as int, i as int, 0) =~= Seq::<(int, int)>::empty());
        }
        out
    }
}

impl<'c> CosmosRipperBatch<'c> {
    /// A batch of a well-made ripper, at an offset within the bounds, with its counters in range.
    pub open spec fn wf(&self) -> bool {
        &&& self.ripper.wf()
        &&& 0 <= self.batch_offset.0 < self.ripper.batch_count().0
        &&& 0 <= self.batch_offset.1 < self.ripper.batch_count().1
        &&& 0 <= self.consumed.0
        &&& 0 <= self.consumed.1 < self.ripper.batch_size.1
    }

    /// The chunks still to come, each with its bound.
    pub open spec fn view(&self) -> Seq<(CrdI, CrdI)> {
        pending(self.ripper.batch_size.0 as int, self.ripper.batch_size.1 as int, self.consumed.0 as int, self.consumed.1 as int).map_values(
            |c: (int, int)| ripper_slice(*self.ripper, self.batch_offset, c),
        )
    }

    /// The next chunk and its bound.
    pub fn next(&mut self) -> (r: Option<(CrdI, CrdI)>)
        requires
            old(self).wf(),
        ensures
            final(self).wf(),
            final(self).ripper == old(self).ripper,
            final(self).batch_offset == old(self).batch_offset,
            old(self)@.len() == 0 ==> r is None && final(self)@ == old(self)@,
            old(self)@.len() > 0 ==> r == Some(old(self)@[0]) && final(self)@ == old(self)@.drop_first(),
    {
        let rp = self.ripper;
        let ghost rest = pending(rp.batch_size.0 as int, rp.batch_size.1 as int, self.consumed.0 as int, self.consumed.1 as int);
        if self.consumed.0 >= rp.batch_size.0 {
            return None;
        }
        let c0 = self.consumed.0;
        let c1 = self.consumed.1;
        proof {
            lemma_slice_fits(*rp, self.batch_offset, c0 as int, c1 as int);
        }
        let x = c0 * rp.bound_size.0 + self.batch_offset.0 * rp.chunk_size.0;
        let y = c1 * rp.bound_size.1 + self.batch_offset.1 * rp.chunk_size.1;
        let bound = Coord(
            Interval { from: x, to: x + rp.bound_size.0 - 1 },
            Interval { from: y, to: y + rp.bound_size.1 - 1 },
        );
        let chunk = Coord(
            Interval { from: x + rp.padding.0, to: x + rp.padding.0 + rp.chunk_size.0 - 1 },
            Interval { from: y + rp.padding.1, to: y + rp.padding.1 + rp.chunk_size.1 - 1 },
        );
        self.consumed.1 = c1 + 1;
        if self.consumed.1 >= rp.batch_size.1 {
            self.consumed.1 = 0;
            self.consumed.0 = c0 + 1;
        }
        proof {
            let b0 = rp.batch_size.0 as int;
            let b1 = rp.batch_size.1 as int;
            assert(rest == seq![(c0 as int, c1 as int)] + pending(b0, b1, c0 as int, c1 + 1));
            if c1 + 1 >= b1 {
                assert(pending(b0, b1, c0 as int, c1 + 1) == pending(b0, b1, c0 + 1, 0));
            }
            assert(old(self)@ == rest.map_values(|c: (int, int)| ripper_slice(*rp, self.batch_offset, c)));
            assert(self@ =~= old(self)@.drop_first());
        }
        Some((chunk, bound))
    }

    /// How many chunks are still to come.
    pub fn len(&self) -> (r: usize)
        requires
            self.wf(),
        ensures
            r == self@.len(),
    {
        let rp = self.ripper;
        proof {
            lemma_pending_len(rp.batch_size.0 as int, rp.batch_size.1 as int, self.consumed.0 as int, self.consumed.1 as int);
        }
        if self.consumed.0 >= rp.batch_size.0 {
            return 0;
        }
        proof {
            lemma_count_fits(rp.batch_size.0 as int, rp.batch_size.1 as int, self.consumed.0 as int, self.consumed.1 as int);
        }
        ((rp.batch_size.0 - self.consumed.0) as usize) * (rp.batch_size.1 as usize) - (self.consumed.1 as usize)
    }
}

/// `p` comes before `q` in row-by-row order.
pub open spec fn grid_before(p: (int, int), q: (int, int)) -> bool {
    p.0 < q.0 || (p.0 == q.0 && p.1 < q.1)
}

/// The grid positions from `(c0, c1)` on lie in the grid, from `(c0, c1)` on, in strictly
/// increasing row-by-row order.
proof fn lemma_pending_order(b0: int, b1: int, c0: int, c1: int)
    requires
        0 <= c0,
        0 <= c1,
    ensures
        forall|k: int| 0 <= k < pending(b0, b1, c0, c1).len() ==> {
            let p = #[trigger] pending(b0, b1, c0, c1)[k];
            &&& c0 <= p.0 < b0
            &&& 0 <= p.1 < b1
            &&& (p.0 == c0 ==> c1 <= p.1)
        },
        forall|i: int, j: int| 0 <= i < j < pending(b0, b1, c0, c1).len() ==> grid_before(
            #[trigger] pending(b0, b1, c0, c1)[i],
            #[trigger] pending(b0, b1, c0, c1)[j],
        ),
    decreases b0 - c0, b1 - c1,
{
    let ps = pending(b0, b1, c0, c1);
    if c0 >= b0 {
    } else if c1 >= b1 {
        lemma_pending_order(b0, b1, c0 + 1, 0);
        assert(ps == pending(b0, b1, c0 + 1, 0));
    } else {
        lemma_pending_order(b0, b1, c0, c1 + 1);
        let rest = pending(b0, b1, c0, c1 + 1);
        assert(ps == seq![(c0, c1)] + rest);
        assert forall|k: int| 1 <= k < ps.len() implies ps[k] == rest[k - 1] by {}
        assert forall|i: int, j: int| 0 <= i < j < ps.len() implies grid_before(#[trigger] ps[i], #[trigger] ps[j]) by {
            if i > 0 {
                assert(ps[i] == rest[i - 1]);
            }
            assert(ps[j] == rest[j - 1]);
        }
    }
}

/// On one axis: the bounds of two different bound positions, at the same offset, share no cell.
proof fn lemma_axis_apart(k: int, b: int, t: int, a1: int, a2: int, x: int)
    requires
        b > 0,
        0 <= t < b,
        0 <= a1 < a2 < k,
        0 <= x < k * b,
    ensures
        !(off(x, a1 * b + t, k * b) <= b - 1 && off(x, a2 * b + t, k * b) <= b - 1),
{
    assert(a2 * b - a1 * b >= b && a2 * b + b <= k * b && k * b - a1 * b >= 2 * b && a1 * b >= 0) by (nonlinear_arith)
        requires
            b > 0,
            0 <= a1 < a2 < k,
    {
        assert(a2 * b - a1 * b == (a2 - a1) * b);
        assert(k * b - a1 * b == (k - a1) * b);
        assert(k * b - a2 * b == (k - a2) * b);
    }
}

/// Within one batch, no cell of the plate lies in the bounds of two different chunks: the
/// chunks of a batch can be worked on side by side.
pub proof fn lemma_batch_bounds_apart<'c>(batch: CosmosRipperBatch<'c>, i: int, j: int, x: int, y: int)
    requires
        batch.wf(),
        0 <= i < j < batch@.len(),
        in_plate(ripper_plate(*batch.ripper), x, y),
    ensures
        !(covers(ripper_plate(*batch.ripper), batch@[i].1, x, y) && covers(ripper_plate(*batch.ripper), batch@[j].1, x, y)),
{
    let rp = *batch.ripper;
    let b0 = rp.batch_size.0 as int;
    let b1 = rp.batch_size.1 as int;
    let ps = pending(b0, b1, batch.consumed.0 as int, batch.consumed.1 as int);
    lemma_pending_order(b0, b1, batch.consumed.0 as int, batch.consumed.1 as int);
    let p = ps[i];
    let q = ps[j];
    assert(grid_before(p, q));
    lemma_slice_fits(rp, batch.batch_offset, p.0, p.1);
    lemma_slice_fits(rp, batch.batch_offset, q.0, q.1);
    let t0 = batch.batch_offset.0 * rp.chunk_size.0;
    let t1 = batch.batch_offset.1 * rp.chunk_size.1;
    if p.0 != q.0 {
        lemma_axis_apart(b0, rp.bound_size.0 as int, t0, p.0, q.0, x);
    } else {
        lemma_axis_apart(b1, rp.bound_size.1 as int, t1, p.1, q.1, y);
    }
}

/// Every cell of a chunk lies in the chunk's bound.
pub proof fn lemma_chunk_in_bound<'c>(batch: CosmosRipperBatch<'c>, i: int, x: int, y: int)
    requires
        batch.wf(),
        0 <= i < batch@.len(),
        in_plate(ripper_plate(*batch.ripper), x, y),
        covers(ripper_plate(*batch.ripper), batch@[i].0, x, y),
    ensures
        covers(ripper_plate(*batch.ripper), batch@[i].1, x, y),
{
    let rp = *batch.ripper;
    let ps = pending(rp.batch_size.0 as int, rp.batch_size.1 as int, batch.consumed.0 as int, batch.consumed.1 as int);
    lemma_pending_order(rp.batch_size.0 as int, rp.batch_size.1 as int, batch.consumed.0 as int, batch.consumed.1 as int);
    let p = ps[i];
    lemma_slice_fits(rp, batch.batch_offset, p.0, p.1);
}

/// A chunk position: a batch offset within the bounds, and a place in the grid of bounds.
pub open spec fn tile_pos(rp: CosmosRipper, o: (int, int), c: (int, int)) -> bool {
    &&& 0 <= o.0 < rp.batch_count().0 && 0 <= o.1 < rp.batch_count().1
    &&& 0 <= c.0 < rp.batch_size.0 && 0 <= c.1 < rp.batch_size.1
}

/// The chunk at a chunk position, brought into the plate.
pub open spec fn tile_chunk(rp: CosmosRipper, o: (int, int), c: (int, int)) -> CrdI {
    crate::grids::spec_normalize_area(ripper_plate(rp), ripper_slice(rp, Coord(o.0 as isize, o.1 as isize), c).0)
}

/// Where the cell `x` lies after `f` around a circle of `n` cells is `x - f` modulo `n`.
proof fn lemma_off_mod(x: int, f: int, n: int)
    requires
        0 <= x < n,
        0 <= f < n,
    ensures
        off(x, f, n) == (x - f) % n,
{
    if x >= f {
        vstd::arithmetic::div_mod::lemma_small_mod((x - f) as nat, n as nat);
    } else {
        vstd::arithmetic::div_mod::lemma_mod_add_multiples_vanish(x - f, n);
        vstd::arithmetic::div_mod::lemma_small_mod((x - f + n) as nat, n as nat);
    }
}

/// On one axis, with `n` cells in `kk` chunks of `ch` cells, chunk `k` starting `p` cells in:
/// the cell `x` lies in chunk `k` when `x - p - k * ch` is below `ch` modulo `n`; exactly one
/// chunk holds it.
proof fn lemma_axis_tile(n: int, kk: int, ch: int, p: int, x: int)
    requires
        ch > 0,
        kk > 0,
        n == kk * ch,
        0 <= p,
        0 <= x < n,
    ensures
        exists|k: int| 0 <= k < kk && #[trigger] ((x - p - k * ch) % n) < ch,
        forall|k1: int, k2: int|
            0 <= k1 < kk && 0 <= k2 < kk && #[trigger] ((x - p - k1 * ch) % n) < ch && #[trigger] ((x - p - k2 * ch) % n) < ch ==> k1
                == k2,
{
    let u = (x - p) % n;
    vstd::arithmetic::div_mod::lemma_mod_bound(x - p, n);
    let k = u / ch;
    let t = u % ch;
    vstd::arithmetic::div_mod::lemma_fundamental_div_mod(u, ch);
    vstd::arithmetic::div_mod::lemma_mod_bound(u, ch);
    assert(0 <= k < kk) by (nonlinear_arith)
        requires
            u == ch * k + t,
            0 <= t < ch,
            0 <= u < n,
            n == kk * ch,
            ch > 0,
    ;
    assert(0 <= k * ch < n) by (nonlinear_arith)
        requires
            0 <= k < kk,
            n == kk * ch,
            ch > 0,
    ;
    vstd::arithmetic::div_mod::lemma_sub_mod_noop(x - p, k * ch, n);
    vstd::arithmetic::div_mod::lemma_small_mod((k * ch) as nat, n as nat);
    assert(u - k * ch == t) by (nonlinear_arith)
        requires
            u == ch * k + t,
    ;
    vstd::arithmetic::div_mod::lemma_small_mod(t as nat, n as nat);
    assert((x - p - k * ch) % n == t);
    assert forall|k1: int, k2: int|
        0 <= k1 < kk && 0 <= k2 < kk && #[trigger] ((x - p - k1 * ch) % n) < ch && #[trigger] ((x - p - k2 * ch) % n) < ch implies k1
            == k2 by {
        if k1 != k2 {
            let (a, b) = if k1 < k2 { (k1, k2) } else { (k2, k1) };
            let ta = (x - p - a * ch) % n;
            let d = (b - a) * ch;
            assert(ch <= d <= n - ch) by (nonlinear_arith)
                requires
                    0 <= a < b < kk,
                    n == kk * ch,
                    ch > 0,
                    d == (b - a) * ch,
            ;
            assert(x - p - b * ch == (x - p - a * ch) - d) by (nonlinear_arith)
                requires
                    d == (b - a) * ch,
            ;
            vstd::arithmetic::div_mod::lemma_sub_mod_noop(x - p - a * ch, d, n);
            vstd::arithmetic::div_mod::lemma_small_mod(d as nat, n as nat);
            vstd::arithmetic::div_mod::lemma_mod_bound(x - p - a * ch, n);
            vstd::arithmetic::div_mod::lemma_mod_add_multiples_vanish(ta - d, n);
            vstd::arithmetic::div_mod::lemma_small_mod((n + ta - d) as nat, n as nat);
            assert((x - p - b * ch) % n == n + ta - d);
        }
    }
}

/// A chunk's first cell, on one axis, taken around the plate.
proof fn lemma_chunk_start(b: int, m: int, ch: int, c: int, o: int, p: int)
    requires
        b == m * ch,
    ensures
        c * b + o * ch + p == (c * m + o) * ch + p,
{
    assert(c * b + o * ch == (c * m + o) * ch) by (nonlinear_arith)
        requires
            b == m * ch,
    ;
}

/// On one axis: the cell `x` lies in the chunk `c` bounds and `o` chunks in, brought into the
/// plate, exactly when it lies `k = c * m + o` chunks on from the padding.
proof fn lemma_axis_cover(n: int, b: int, m: int, ch: int, p: int, c: int, o: int, x: int)
    requires
        ch > 0,
        b == m * ch,
        n > 0,
        0 <= x < n,
    ensures
        (off(x, (c * b + o * ch + p) % n, n) <= ch - 1) == ((x - p - (c * m + o) * ch) % n < ch),
{
    let f = c * b + o * ch + p;
    lemma_chunk_start(b, m, ch, c, o, p);
    vstd::arithmetic::div_mod::lemma_mod_bound(f, n);
    lemma_off_mod(x, f % n, n);
    vstd::arithmetic::div_mod::lemma_sub_mod_noop_right(x, f, n);
    assert(x - f == x - p - (c * m + o) * ch);
}

/// Where chunk `k` of one axis sits: `k / m` bounds and `k % m` chunks in.
proof fn lemma_split_index(k: int, m: int, kk: int, b: int)
    requires
        m > 0,
        0 <= k < kk,
        kk == b * m,
    ensures
        0 <= k / m < b,
        0 <= k % m < m,
        k == (k / m) * m + k % m,
{
    vstd::arithmetic::div_mod::lemma_fundamental_div_mod(k, m);
    vstd::arithmetic::div_mod::lemma_mod_bound(k, m);
    assert(0 <= k / m < b) by (nonlinear_arith)
        requires
            k == m * (k / m) + k % m,
            0 <= k % m < m,
            0 <= k < kk,
            kk == b * m,
            m > 0,
    ;
    assert(k == (k / m) * m + k % m) by (nonlinear_arith)
        requires
            k == m * (k / m) + k % m,
    ;
}

/// Two places `c * m + o` with `o` below `m` are the same only for the same `c` and `o`.
proof fn lemma_index_unique(c1: int, o1: int, c2: int, o2: int, m: int)
    requires
        m > 0,
        0 <= o1 < m,
        0 <= o2 < m,
        c1 * m + o1 == c2 * m + o2,
    ensures
        c1 == c2 && o1 == o2,
{
    vstd::arithmetic::div_mod::lemma_fundamental_div_mod_converse(c1 * m + o1, m, c1, o1);
    vstd::arithmetic::div_mod::lemma_fundamental_div_mod_converse(c2 * m + o2, m, c2, o2);
}

/// The sizes of one axis of a well-made ripper, as plain numbers.
proof fn lemma_axis_sizes(b: int, bb: int, ch: int, p: int)
    requires
        0 < b,
        0 < ch,
        0 <= p,
        bb == ch + 2 * p,
        bb % ch == 0,
        b * bb <= MAX_SIDE,
    ensures
        bb / ch > 0,
        bb == (bb / ch) * ch,
        b * bb == (b * (bb / ch)) * ch,
        b * (bb / ch) > 0,
{
    vstd::arithmetic::div_mod::lemma_fundamental_div_mod(bb, ch);
    assert(bb == (bb / ch) * ch) by (nonlinear_arith)
        requires
            bb == ch * (bb / ch) + bb % ch,
            bb % ch == 0,
    ;
    assert(bb / ch > 0) by (nonlinear_arith)
        requires
            bb == (bb / ch) * ch,
            bb >= ch > 0,
    ;
    assert(b * bb == (b * (bb / ch)) * ch && b * (bb / ch) > 0) by (nonlinear_arith)
        requires
            bb == (bb / ch) * ch,
            bb / ch > 0,
            b > 0,
    ;
}

/// Over all batches, the chunks cover the plate: every cell lies in the chunk of exactly one
/// chunk position.
pub proof fn lemma_chunks_tile(rp: CosmosRipper, x: int, y: int)
    requires
        rp.wf(),
        in_plate(ripper_plate(rp), x, y),
    ensures
        exists|o: (int, int), c: (int, int)| tile_pos(rp, o, c) && covers(ripper_plate(rp), #[trigger] tile_chunk(rp, o, c), x, y),
        forall|o1: (int, int), c1: (int, int), o2: (int, int), c2: (int, int)|
            tile_pos(rp, o1, c1) && tile_pos(rp, o2, c2) && covers(ripper_plate(rp), #[trigger] tile_chunk(rp, o1, c1), x, y)
                && covers(ripper_plate(rp), #[trigger] tile_chunk(rp, o2, c2), x, y) ==> o1 == o2 && c1 == c2,
{
    let size = ripper_plate(rp);
    let (b0, b1) = (rp.batch_size.0 as int, rp.batch_size.1 as int);
    let (bb0, bb1) = (rp.bound_size.0 as int, rp.bound_size.1 as int);
    let (z0, z1) = (rp.chunk_size.0 as int, rp.chunk_size.1 as int);
    let (p0, p1) = (rp.padding.0 as int, rp.padding.1 as int);
    let (m0, m1) = rp.batch_count();
    lemma_axis_sizes(b0, bb0, z0, p0);
    lemma_axis_sizes(b1, bb1, z1, p1);
    let (n0, n1) = (b0 * bb0, b1 * bb1);
    assert(size.0 as int == n0 && size.1 as int == n1);
    lemma_axis_tile(n0, b0 * m0, z0, p0, x);
    lemma_axis_tile(n1, b1 * m1, z1, p1, y);
    assert forall|o: (int, int), c: (int, int)| #[trigger] tile_pos(rp, o, c) implies (covers(size, tile_chunk(rp, o, c), x, y) <==> (
    (x - p0 - (c.0 * m0 + o.0) * z0) % n0 < z0 && (y - p1 - (c.1 * m1 + o.1) * z1) % n1 < z1)) by {
        lemma_slice_fits(rp, Coord(o.0 as isize, o.1 as isize), c.0, c.1);
        lemma_axis_cover(n0, bb0, m0, z0, p0, c.0, o.0, x);
        lemma_axis_cover(n1, bb1, m1, z1, p1, c.1, o.1, y);
        let ch = ripper_slice(rp, Coord(o.0 as isize, o.1 as isize), c).0;
        assert(ch.0.from as int == c.0 * bb0 + o.0 * z0 + p0);
        assert(ch.1.from as int == c.1 * bb1 + o.1 * z1 + p1);
        assert(ch.0.to - ch.0.from == z0 - 1);
        assert(ch.1.to - ch.1.from == z1 - 1);
        let t = tile_chunk(rp, o, c);
        vstd::arithmetic::div_mod::lemma_mod_bound(ch.0.from as int, n0);
        vstd::arithmetic::div_mod::lemma_mod_bound(ch.1.from as int, n1);
        assert(t.0.from as int == (c.0 * bb0 + o.0 * z0 + p0) % n0);
        assert(t.1.from as int == (c.1 * bb1 + o.1 * z1 + p1) % n1);
        assert(t.0.to - t.0.from == z0 - 1);
        assert(t.1.to - t.1.from == z1 - 1);
    }
    let kx = choose|k: int| 0 <= k < b0 * m0 && #[trigger] ((x - p0 - k * z0) % n0) < z0;
    let ky = choose|k: int| 0 <= k < b1 * m1 && #[trigger] ((y - p1 - k * z1) % n1) < z1;
    lemma_split_index(kx, m0, b0 * m0, b0);
    lemma_split_index(ky, m1, b1 * m1, b1);
    let o = (kx % m0, ky % m1);
    let c = (kx / m0, ky / m1);
    assert(tile_pos(rp, o, c));
    assert(c.0 * m0 + o.0 == kx && c.1 * m1 + o.1 == ky);
    assert(covers(size, tile_chunk(rp, o, c), x, y));
    assert forall|o1: (int, int), c1: (int, int), o2: (int, int), c2: (int, int)|
        tile_pos(rp, o1, c1) && tile_pos(rp, o2, c2) && covers(size, #[trigger] tile_chunk(rp, o1, c1), x, y) && covers(
            size,
            #[trigger] tile_chunk(rp, o2, c2),
            x,
            y,
        ) implies o1 == o2 && c1 == c2 by {
        assert(tile_pos(rp, o1, c1) && tile_pos(rp, o2, c2));
        let k1x = c1.0 * m0 + o1.0;
        let k2x = c2.0 * m0 + o2.0;
        let k1y = c1.1 * m1 + o1.1;
        let k2y = c2.1 * m1 + o2.1;
        assert(0 <= k1x < b0 * m0 && 0 <= k2x < b0 * m0 && 0 <= k1y < b1 * m1 && 0 <= k2y < b1 * m1) by (nonlinear_arith)
            requires
                0 <= o1.0 < m0 && 0 <= o2.0 < m0 && 0 <= c1.0 < b0 && 0 <= c2.0 < b0,
                0 <= o1.1 < m1 && 0 <= o2.1 < m1 && 0 <= c1.1 < b1 && 0 <= c2.1 < b1,
                k1x == c1.0 * m0 + o1.0,
                k2x == c2.0 * m0 + o2.0,
                k1y == c1.1 * m1 + o1.1,
                k2y == c2.1 * m1 + o2.1,
        ;
        assert((x - p0 - k1x * z0) % n0 < z0 && (x - p0 - k2x * z0) % n0 < z0);
        assert((y - p1 - k1y * z1) % n1 < z1 && (y - p1 - k2y * z1) % n1 < z1);
        lemma_index_unique(c1.0, o1.0, c2.0, o2.0, m0);
        lemma_index_unique(c1.1, o1.1, c2.1, o2.1, m1);
    }
}

/// Every position of the grid from `(c0, c1)` on is listed.
proof fn lemma_pending_has(b0: int, b1: int, c0: int, c1: int, a: int, b: int)
    requires
        0 <= c0,
        0 <= c1,
        a > c0 || (a == c0 && b >= c1),
        a < b0,
        0 <= b < b1,
    ensures
        pending(b0, b1, c0, c1).contains((a, b)),
    decreases b0 - c0, b1 - c1,
{
    let ps = pending(b0, b1, c0, c1);
    if c1 >= b1 {
        lemma_pending_has(b0, b1, c0 + 1, 0, a, b);
        assert(ps == pending(b0, b1, c0 + 1, 0));
    } else if a == c0 && b == c1 {
        assert(ps == seq![(c0, c1)] + pending(b0, b1, c0, c1 + 1));
        assert(ps[0] == (a, b));
    } else {
        lemma_pending_has(b0, b1, c0, c1 + 1, a, b);
        let rest = pending(b0, b1, c0, c1 + 1);
        assert(ps == seq![(c0, c1)] + rest);
        let k = choose|k: int| 0 <= k < rest.len() && rest[k] == (a, b);
        assert(ps[k + 1] == (a, b));
    }
}

/// No chunk is handed out twice in a tick: the chunks at two different chunk positions differ.
pub proof fn lemma_chunks_distinct(rp: CosmosRipper, o1: (int, int), c1: (int, int), o2: (int, int), c2: (int, int))
    requires
        rp.wf(),
        tile_pos(rp, o1, c1),
        tile_pos(rp, o2, c2),
        o1 != o2 || c1 != c2,
    ensures
        ripper_slice(rp, Coord(o1.0 as isize, o1.1 as isize), c1).0 != ripper_slice(rp, Coord(o2.0 as isize, o2.1 as isize), c2).0,
{
    let size = ripper_plate(rp);
    let ch1 = ripper_slice(rp, Coord(o1.0 as isize, o1.1 as isize), c1).0;
    let ch2 = ripper_slice(rp, Coord(o2.0 as isize, o2.1 as isize), c2).0;
    if ch1 == ch2 {
        let t = tile_chunk(rp, o1, c1);
        assert(t == tile_chunk(rp, o2, c2));
        let (b0, b1) = (rp.batch_size.0 as int, rp.batch_size.1 as int);
        let (bb0, bb1) = (rp.bound_size.0 as int, rp.bound_size.1 as int);
        lemma_axis_sizes(b0, bb0, rp.chunk_size.0 as int, rp.padding.0 as int);
        lemma_axis_sizes(b1, bb1, rp.chunk_size.1 as int, rp.padding.1 as int);
        lemma_slice_fits(rp, Coord(o1.0 as isize, o1.1 as isize), c1.0, c1.1);
        let x = t.0.from as int;
        let y = t.1.from as int;
        assert(0 <= x < size.0 && 0 <= y < size.1);
        assert(in_plate(size, x, y));
        assert(covers(size, t, x, y));
        lemma_chunks_tile(rp, x, y);
    }
}

/// The batches of `with` list every batch offset, and a fresh batch hands out every place of the
/// grid of bounds: every chunk position is handed out.
pub proof fn lemma_batches_cover(rp: CosmosRipper, o: (int, int), c: (int, int))
    requires
        rp.wf(),
        tile_pos(rp, o, c),
    ensures
        pending(rp.batch_count().0, rp.batch_count().1, 0, 0).contains(o),
        pending(rp.batch_size.0 as int, rp.batch_size.1 as int, 0, 0).contains(c),
{
    lemma_pending_has(rp.batch_count().0, rp.batch_count().1, 0, 0, o.0, o.1);
    lemma_pending_has(rp.batch_size.0 as int, rp.batch_size.1 as int, 0, 0, c.0, c.1);
}


/// A whole number of parts fill a length exactly.
proof fn lemma_whole_parts(n: int, d: int)
    requires
        0 < n,
        0 < d,
        n % d == 0,
    ensures
        n / d > 0,
        (n / d) * d == n,
        n / d <= n,
        d <= n,
{
    assert(n == d * (n / d) + n % d) by (nonlinear_arith)
        requires
            0 < d,
    {
        vstd::arithmetic::div_mod::lemma_fundamental_div_mod(n, d);
    }
    assert((n / d) * d == n) by (nonlinear_arith)
        requires
            n == d * (n / d),
    ;
    assert(n / d > 0 && n / d <= n && d <= n) by (nonlinear_arith)
        requires
            n == d * (n / d),
            n > 0,
            d > 0,
    ;
}

/// A chunk with twice a padding that is a whole number of chunks is a whole number of chunks.
proof fn lemma_padding_whole(c: int, p: int)
    requires
        c > 0,
        p >= 0,
        (p * 2) % c == 0,
    ensures
        (c + 2 * p) % c == 0,
{
    assert((c + 2 * p) % c == (p * 2) % c) by {
        vstd::arithmetic::div_mod::lemma_mod_add_multiples_vanish(p * 2, c);
    }
}

/// There are at least one and at most `MAX_SIDE` chunks in a bound.
proof fn lemma_div_small(b: int, c: int)
    requires
        0 < c <= b <= MAX_SIDE,
    ensures
        1 <= b / c <= MAX_SIDE,
{
    vstd::arithmetic::div_mod::lemma_div_basics_5(b, c);
    vstd::arithmetic::div_mod::lemma_div_is_ordered(c, b, c);
    vstd::arithmetic::div_mod::lemma_div_by_self(c);
}

/// The grid from `(c0, c1)` on holds what remains of `(b0 - c0)` rows of `b1` after `c1`.
proof fn lemma_pending_len(b0: int, b1: int, c0: int, c1: int)
    requires
        b1 > 0,
        0 <= c0,
        0 <= c1 <= b1,
    ensures
        c0 >= b0 ==> pending(b0, b1, c0, c1).len() == 0,
        c0 < b0 ==> pending(b0, b1, c0, c1).len() == (b0 - c0) * b1 - c1,
    decreases b0 - c0, b1 - c1,
{
    if c0 < b0 {
        if c1 >= b1 {
            lemma_pending_len(b0, b1, c0 + 1, 0);
            assert((b0 - c0) * b1 - b1 == (b0 - (c0 + 1)) * b1) by (nonlinear_arith);
        } else {
            lemma_pending_len(b0, b1, c0, c1 + 1);
        }
    }
}

/// The count of chunks left fits a `usize`.
proof fn lemma_count_fits(b0: int, b1: int, c0: int, c1: int)
    requires
        0 <= c0 < b0,
        0 <= c1 < b1,
        b0 * b1 <= usize::MAX,
    ensures
        b1 <= (b0 - c0) * b1 <= usize::MAX,
{
    assert(b1 <= (b0 - c0) * b1 <= b0 * b1) by (nonlinear_arith)
        requires
            0 <= c0 < b0,
            0 < b1,
    ;
}

/// A plate whose cells can be counted in a `usize` has fewer bounds than cells.
proof fn lemma_fewer_batches(n0: int, n1: int, k0: int, k1: int, d0: int, d1: int)
    requires
        k0 * d0 == n0,
        k1 * d1 == n1,
        k0 > 0 && k1 > 0 && d0 > 0 && d1 > 0,
        n0 * n1 <= usize::MAX,
    ensures
        k0 * k1 <= usize::MAX,
{
    assert(k0 * k1 <= n0 * n1) by (nonlinear_arith)
        requires
            k0 * d0 == n0,
            k1 * d1 == n1,
            k0 > 0 && k1 > 0 && d0 > 0 && d1 > 0,
    {
        assert(k0 <= n0);
        assert(k1 <= n1);
        assert(k0 * k1 <= n0 * k1);
        assert(n0 * k1 <= n0 * n1);
    }
}

/// The corners of every chunk and bound of a batch stay well inside `isize`.
proof fn lemma_slice_fits(rp: CosmosRipper, off: Crd, c0: int, c1: int)
    requires
        rp.wf(),
        0 <= off.0 < rp.batch_count().0,
        0 <= off.1 < rp.batch_count().1,
        0 <= c0 < rp.batch_size.0,
        0 <= c1 < rp.batch_size.1,
    ensures
        0 <= c0 * rp.bound_size.0 + off.0 * rp.chunk_size.0 < ripper_plate(rp).0,
        0 <= c1 * rp.bound_size.1 + off.1 * rp.chunk_size.1 < ripper_plate(rp).1,
        0 <= c0 * rp.bound_size.0 <= MAX_SIDE,
        0 <= off.0 * rp.chunk_size.0 < rp.bound_size.0,
        0 <= c1 * rp.bound_size.1 <= MAX_SIDE,
        0 <= off.1 * rp.chunk_size.1 < rp.bound_size.1,
{
    lemma_axis_fits(rp.batch_size.0 as int, rp.bound_size.0 as int, rp.chunk_size.0 as int, off.0 as int, c0);
    lemma_axis_fits(rp.batch_size.1 as int, rp.bound_size.1 as int, rp.chunk_size.1 as int, off.1 as int, c1);
}

/// On one axis: `c` bounds and `o` chunks in stay inside the `k` bounds of the plate.
proof fn lemma_axis_fits(k: int, b: int, ch: int, o: int, c: int)
    requires
        0 < ch,
        0 <= o < b / ch,
        0 <= c < k,
        k * b <= MAX_SIDE,
        b > 0,
    ensures
        0 <= c * b + o * ch < k * b,
        0 <= c * b <= MAX_SIDE,
        0 <= o * ch < b,
{
    assert(o * ch < b) by (nonlinear_arith)
        requires
            0 < ch,
            0 <= o < b / ch,
    {
        vstd::arithmetic::div_mod::lemma_fundamental_div_mod(b, ch);
        assert(o + 1 <= b / ch);
        assert((o + 1) * ch <= (b / ch) * ch);
    }
    assert(0 <= c * b + o * ch < k * b && c * b <= k * b && o * ch >= 0) by (nonlinear_arith)
        requires
            0 <= c < k,
            b > 0,
            0 <= o,
            0 < ch,
            o * ch < b,
    {
        assert(c * b + b <= k * b);
    }
}

} // verus!
