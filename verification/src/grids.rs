use vstd::prelude::*;
use vstd::arithmetic::div_mod::{lemma_fundamental_div_mod, lemma_fundamental_div_mod_converse};

verus! {

/// Coordinate component on the plate.
pub type Idx = isize;

/// A pair of values, one per axis.
#[derive(Clone, Copy, Debug, PartialEq, Eq, Hash)]
pub struct Coord<T>(pub T, pub T);

/// A closed interval `from..=to`.
#[derive(Clone, Copy, Debug, PartialEq, Eq, Hash)]
pub struct Interval<T> {
    pub from: T,
    pub to: T,
}

/// A position on the plate.
pub type Crd = Coord<Idx>;

/// A rectangular area on the plate, one closed interval per axis.
pub type CrdI = Coord<Interval<Idx>>;

impl<T: Copy> Interval<T> {
    pub fn new(from: T, to: T) -> (r: Self)
        ensures
            r.from == from,
            r.to == to,
    {
        Interval { from, to }
    }
}

/// The area spanned by the two corners `a` and `b`.
pub open spec fn spec_span(a: Crd, b: Crd) -> CrdI {
    Coord(Interval { from: a.0, to: b.0 }, Interval { from: a.1, to: b.1 })
}

pub fn span(a: Crd, b: Crd) -> (r: CrdI)
    ensures
        r == spec_span(a, b),
{
    Coord(Interval { from: a.0, to: b.0 }, Interval { from: a.1, to: b.1 })
}

/// The one-cell area at `p`.
pub fn point_area(p: Crd) -> (r: CrdI)
    ensures
        r == spec_span(p, p),
{
    span(p, p)
}

/// `v` taken modulo `n`, in `0..n`.
pub open spec fn wrap(v: int, n: int) -> int {
    v % n
}

/// A plate size: both sides positive.
pub open spec fn valid_size(size: Crd) -> bool {
    0 < size.0 <= MAX_SIDE && 0 < size.1 <= MAX_SIDE
}

/// The longest side a plate can have. Positions are `isize`, which may be 32 bits wide, and the
/// plate's arithmetic moves areas whose corners lie up to four sides out by up to four more
/// sides (`offset`, `displacement`): eight sides must stay below 2^31, so a side is at most
/// 2^27 cells.
pub const MAX_SIDE: isize = 0x0800_0000;

pub open spec fn spec_normalize_pos(size: Crd, p: Crd) -> Crd {
    Coord(wrap(p.0 as int, size.0 as int) as isize, wrap(p.1 as int, size.1 as int) as isize)
}

/// An interval moved by a whole number of plate sides so that it starts inside the plate.
pub open spec fn spec_normalize_interval(n: int, i: Interval<Idx>) -> Interval<Idx> {
    Interval { from: wrap(i.from as int, n) as isize, to: (wrap(i.from as int, n) + (i.to - i.from)) as isize }
}

pub open spec fn spec_normalize_area(size: Crd, a: CrdI) -> CrdI {
    Coord(spec_normalize_interval(size.0 as int, a.0), spec_normalize_interval(size.1 as int, a.1))
}

/// An interval that starts no later than it ends, and is shorter than the side `n`.
pub open spec fn interval_fits(i: Interval<Idx>, n: int) -> bool {
    i.from <= i.to && i.to - i.from < n
}

/// An area whose sides are both shorter than the plate's.
pub open spec fn area_fits(size: Crd, a: CrdI) -> bool {
    interval_fits(a.0, size.0 as int) && interval_fits(a.1, size.1 as int)
}

/// `v` modulo `n` for a positive `n`.
pub fn wrap_idx(v: Idx, n: Idx) -> (r: Idx)
    requires
        n > 0,
    ensures
        r == wrap(v as int, n as int),
        0 <= r < n,
{
    if v >= 0 {
        v % n
    } else {
        let a = -(v + 1);
        let r = a % n;
        proof {
            let q = a as int / n as int;
            lemma_fundamental_div_mod(a as int, n as int);
            assert(v as int == (-q - 1) * (n as int) + (n - 1 - r)) by (nonlinear_arith)
                requires
                    a as int == n as int * q + r as int,
                    a == -(v + 1),
            ;
            lemma_fundamental_div_mod_converse(v as int, n as int, -q - 1, n - 1 - r);
        }
        n - 1 - r
    }
}

/// Brings a position into the plate, which wraps around on both axes.
pub fn normalize_pos(size: Crd, p: Crd) -> (r: Crd)
    requires
        valid_size(size),
    ensures
        r == spec_normalize_pos(size, p),
        0 <= r.0 < size.0,
        0 <= r.1 < size.1,
{
    Coord(wrap_idx(p.0, size.0), wrap_idx(p.1, size.1))
}

fn normalize_interval(n: Idx, i: Interval<Idx>) -> (r: Interval<Idx>)
    requires
        0 < n <= MAX_SIDE,
        interval_fits(i, n as int),
    ensures
        r == spec_normalize_interval(n as int, i),
        0 <= r.from < n,
        r.to - r.from == i.to - i.from,
{
    let from = wrap_idx(i.from, n);
    Interval { from, to: from + (i.to - i.from) }
}

/// Moves an area by whole plate sides so that its first corner lies inside the plate.
pub fn normalize_area(size: Crd, a: CrdI) -> (r: CrdI)
    requires
        valid_size(size),
        area_fits(size, a),
    ensures
        r == spec_normalize_area(size, a),
        area_fits(size, r),
{
    Coord(normalize_interval(size.0, a.0), normalize_interval(size.1, a.1))
}

} // verus!

verus! {

/// The area `a` moved by `p`.
pub open spec fn spec_offset(a: CrdI, p: Crd) -> CrdI {
    Coord(
        Interval { from: (a.0.from + p.0) as isize, to: (a.0.to + p.0) as isize },
        Interval { from: (a.1.from + p.1) as isize, to: (a.1.to + p.1) as isize },
    )
}

/// Positions small enough that areas near them can be moved around without overflow.
pub open spec fn small_pos(p: Crd) -> bool {
    -MAX_SIDE * 4 <= p.0 <= MAX_SIDE * 4 && -MAX_SIDE * 4 <= p.1 <= MAX_SIDE * 4
}

pub open spec fn small_area(a: CrdI) -> bool {
    small_pos(Coord(a.0.from, a.1.from)) && small_pos(Coord(a.0.to, a.1.to))
}

/// Whether the area's corners are small positions.
pub fn is_small_area(a: CrdI) -> (r: bool)
    ensures
        r == small_area(a),
{
    let m = MAX_SIDE * 4;
    -m <= a.0.from && a.0.from <= m && -m <= a.1.from && a.1.from <= m && -m <= a.0.to && a.0.to <= m && -m <= a.1.to && a.1.to <= m
}

/// The area `a` moved by `p`.
pub fn offset(a: CrdI, p: Crd) -> (r: CrdI)
    requires
        small_area(a),
        small_pos(p),
    ensures
        r == spec_offset(a, p),
{
    Coord(
        Interval { from: a.0.from + p.0, to: a.0.to + p.0 },
        Interval { from: a.1.from + p.1, to: a.1.to + p.1 },
    )
}

/// The first corner of an area.
pub fn from_corner(a: CrdI) -> (r: Crd)
    ensures
        r == Coord(a.0.from, a.1.from),
{
    Coord(a.0.from, a.1.from)
}

/// How many cells an interval spans.
pub open spec fn spec_measure_length(i: Interval<Idx>) -> int {
    i.to - i.from + 1
}

pub fn measure_length(i: Interval<Idx>) -> (r: Idx)
    requires
        i.from <= i.to,
        i.to - i.from < MAX_SIDE,
    ensures
        r == spec_measure_length(i),
{
    i.to - i.from + 1
}

/// The shortest signed distance from `a` to `b` around a circle of `n` cells:
/// a value in `-n/2 .. n/2` (upper end included when `n` is even).
pub open spec fn spec_torus_delta(a: int, b: int, n: int) -> int {
    let d = wrap(b - a, n);
    if d * 2 > n { d - n } else { d }
}

/// The shortest move, on the wrapping plate, from the first corner of `from` to the first corner of `to`.
pub open spec fn spec_displacement(size: Crd, from: CrdI, to: CrdI) -> Crd {
    Coord(
        spec_torus_delta(from.0.from as int, to.0.from as int, size.0 as int) as isize,
        spec_torus_delta(from.1.from as int, to.1.from as int, size.1 as int) as isize,
    )
}

fn torus_delta(a: Idx, b: Idx, n: Idx) -> (r: Idx)
    requires
        0 < n <= MAX_SIDE,
        -MAX_SIDE * 4 <= a <= MAX_SIDE * 4,
        -MAX_SIDE * 4 <= b <= MAX_SIDE * 4,
    ensures
        r == spec_torus_delta(a as int, b as int, n as int),
        -n < r < n,
{
    let d = wrap_idx(b - a, n);
    if d * 2 > n { d - n } else { d }
}

/// The shortest move from the first corner of `from` to the first corner of `to`,
/// going around the plate's edges where that is shorter.
pub fn displacement(size: Crd, from: CrdI, to: CrdI) -> (r: Crd)
    requires
        valid_size(size),
        small_area(from),
        small_area(to),
    ensures
        r == spec_displacement(size, from, to),
        -size.0 < r.0 < size.0,
        -size.1 < r.1 < size.1,
{
    Coord(torus_delta(from.0.from, to.0.from, size.0), torus_delta(from.1.from, to.1.from, size.1))
}

} // verus!

verus! {

/// Bringing an area into the plate twice is bringing it in once.
pub proof fn lemma_normalize_area_idem(size: Crd, a: CrdI)
    requires
        valid_size(size),
        area_fits(size, a),
    ensures
        spec_normalize_area(size, spec_normalize_area(size, a)) == spec_normalize_area(size, a),
        area_fits(size, spec_normalize_area(size, a)),
{
    let n = spec_normalize_area(size, a);
    vstd::arithmetic::div_mod::lemma_mod_bound(a.0.from as int, size.0 as int);
    vstd::arithmetic::div_mod::lemma_mod_bound(a.1.from as int, size.1 as int);
    vstd::arithmetic::div_mod::lemma_small_mod(n.0.from as nat, size.0 as nat);
    vstd::arithmetic::div_mod::lemma_small_mod(n.1.from as nat, size.1 as nat);
}

} // verus!
