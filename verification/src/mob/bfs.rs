use vstd::prelude::*;

use std::collections::HashSet;

use crate::grids::{Coord, Crd};
use crate::mob::pathfind::{abs, cc};

verus! {

broadcast use vstd::std_specs::hash::group_hash_axioms;

/// The `k`-th offset of ring `r` as the carpet search walks it. The ring has `5r` offsets:
/// those from `3r` to `4r` lie beyond the diamond, at Manhattan distances `r + 2` to `3r`, and
/// the other `4r` go once round the diamond of cells at distance `r`.
pub open spec fn ring_at(r: int, k: int) -> Crd {
    if k < r {
        cc(k, k - r)
    } else if k < 2 * r {
        cc(r - (k - r), k - r)
    } else if k < 3 * r {
        cc(-(k - 2 * r), r - (k - 2 * r))
    } else {
        let x = k - 3 * r - r;
        cc(x - r, -x)
    }
}

/// The offsets of ring `r`, in the order they are searched.
pub open spec fn ring(r: int) -> Seq<Crd> {
    Seq::new((5 * r) as nat, |k: int| ring_at(r, k))
}

/// The offsets searched by a Manhattan carpet search of `depth` rings: the centre, then each ring.
pub open spec fn manhattan_offsets(depth: int) -> Seq<Crd>
    decreases depth,
{
    if depth <= 0 {
        seq![cc(0, 0)]
    } else {
        manhattan_offsets(depth - 1) + ring(depth)
    }
}

/// The cell `o` away from `start`.
pub open spec fn probe(start: Crd, o: Crd) -> Crd {
    Coord((start.0 + o.0) as isize, (start.1 + o.1) as isize)
}

/// Positions far enough from the ends of `isize` for a search around them.
pub open spec fn search_start_ok(p: Crd) -> bool {
    isize::MIN + 0x40000 <= p.0 <= isize::MAX - 0x40000 && isize::MIN + 0x40000 <= p.1 <= isize::MAX - 0x40000
}

/// `r` is what a search of the cells `start + offs`, in order, can give: the first answer
/// `f` gives, every earlier cell answering nothing; or nothing, when no cell answers.
pub open spec fn search_result<R, F: Fn(Crd) -> Option<R>>(f: F, start: Crd, offs: Seq<Crd>, r: Option<R>) -> bool {
    match r {
        Some(a) => exists|k: int|
            0 <= k < offs.len() && call_ensures(f, (probe(start, offs[k]),), Some(a)) && forall|j: int|
                0 <= j < k ==> #[trigger] call_ensures(f, (probe(start, offs[j]),), None::<R>),
        None => forall|j: int| 0 <= j < offs.len() ==> #[trigger] call_ensures(f, (probe(start, offs[j]),), None::<R>),
    }
}

/// The `k`-th offset of the square ring `r` steps out, as the Chebyshev carpet search walks it.
pub open spec fn square_at(r: int, k: int) -> Crd {
    if k < 2 * r {
        cc(k - r, -r)
    } else if k < 4 * r {
        cc(r, (k - 2 * r) - r)
    } else if k < 6 * r {
        cc(-((k - 4 * r) - r), r)
    } else {
        cc(-r, -((k - 6 * r) - r))
    }
}

/// The offsets of the square ring `r`, in the order they are searched.
pub open spec fn square(r: int) -> Seq<Crd> {
    Seq::new((8 * r) as nat, |k: int| square_at(r, k))
}

/// The offsets searched by a Chebyshev carpet search of `depth` rings: the centre, then each ring.
pub open spec fn chebyshev_offsets(depth: int) -> Seq<Crd>
    decreases depth,
{
    if depth <= 0 {
        seq![cc(0, 0)]
    } else {
        chebyshev_offsets(depth - 1) + square(depth)
    }
}

/// How far, in Manhattan distance, the offset `o` reaches.
pub open spec fn manhattan_len(o: Crd) -> int {
    abs(o.0 as int) + abs(o.1 as int)
}

/// The cell `(x, y)` is at Manhattan distance `r` from the origin.
pub open spec fn on_diamond(r: int, x: int, y: int) -> bool {
    abs(x) + abs(y) == r
}

/// Where in ring `r` the cell `(x, y)` is walked.
spec fn ring_index(r: int, x: int, y: int) -> int {
    if y < 0 && x >= 0 {
        x
    } else if (y > 0 && -r < x) || (x > 0 && y >= 0) {
        2 * r - x
    } else {
        5 * r + x
    }
}

proof fn lemma_ring_index(r: int, k: int)
    requires
        0 < r <= 0x10000,
        0 <= k < 5 * r,
    ensures
        ring_index(r, ring_at(r, k).0 as int, ring_at(r, k).1 as int) == k,
        3 * r <= k < 4 * r ==> manhattan_len(ring_at(r, k)) == r + 2 * (4 * r - k),
        !(3 * r <= k < 4 * r) ==> manhattan_len(ring_at(r, k)) == r,
{
}

/// Ring `r` of the Manhattan carpet search walks `5r` different cells: every cell at
/// Manhattan distance `r` from the start once, and `r` more beyond it, the one walked at `k`
/// (from `3r` to `4r`) at distance `r + 2(4r - k)`, so from `3r` down to `r + 2`.
pub proof fn lemma_diamond_ring(r: int)
    requires
        0 < r <= 0x10000,
    ensures
        ring(r).len() == 5 * r,
        forall|k: int| 0 <= k < 5 * r && !(3 * r <= k < 4 * r) ==> manhattan_len(#[trigger] ring(r)[k]) == r,
        forall|k: int| 3 * r <= k < 4 * r ==> manhattan_len(#[trigger] ring(r)[k]) == r + 2 * (4 * r - k),
        forall|i: int, j: int| 0 <= i < j < 5 * r ==> (#[trigger] ring(r)[i]) != (#[trigger] ring(r)[j]),
        forall|x: int, y: int| #[trigger] on_diamond(r, x, y) ==> exists|k: int| 0 <= k < 5 * r && #[trigger] ring(r)[k] == cc(x, y),
{
    assert forall|k: int| 0 <= k < 5 * r && !(3 * r <= k < 4 * r) implies manhattan_len(#[trigger] ring(r)[k]) == r by {
        lemma_ring_index(r, k);
    }
    assert forall|k: int| 3 * r <= k < 4 * r implies manhattan_len(#[trigger] ring(r)[k]) == r + 2 * (4 * r - k) by {
        lemma_ring_index(r, k);
    }
    assert forall|i: int, j: int| 0 <= i < j < 5 * r implies (#[trigger] ring(r)[i]) != (#[trigger] ring(r)[j]) by {
        lemma_ring_index(r, i);
        lemma_ring_index(r, j);
    }
    assert forall|x: int, y: int| #[trigger] on_diamond(r, x, y) implies exists|k: int| 0 <= k < 5 * r && #[trigger] ring(r)[k] == cc(x, y) by {
        let k = ring_index(r, x, y);
        assert(0 <= k < 5 * r);
        assert(ring(r)[k] == cc(x, y));
    }
}

/// A Manhattan carpet search of `depth` rings asks about every cell within Manhattan
/// distance `depth` of the start, and about none beyond `3 * depth`.
pub proof fn lemma_manhattan_offsets_cover(depth: int, x: int, y: int)
    requires
        0 <= depth <= 0x10000,
        abs(x) + abs(y) <= depth,
    ensures
        exists|j: int| 0 <= j < manhattan_offsets(depth).len() && #[trigger] manhattan_offsets(depth)[j] == cc(x, y),
        forall|j: int| 0 <= j < manhattan_offsets(depth).len() ==> manhattan_len(#[trigger] manhattan_offsets(depth)[j]) <= 3 * depth,
    decreases depth,
{
    let offs = manhattan_offsets(depth);
    if depth == 0 {
        assert(offs =~= seq![cc(0, 0)]);
        assert(offs[0] == cc(x, y));
    } else {
        let prev = manhattan_offsets(depth - 1);
        let rg = ring(depth);
        assert(offs == prev + rg);
        lemma_diamond_ring(depth);
        if on_diamond(depth, x, y) {
            let k = choose|k: int| 0 <= k < 5 * depth && #[trigger] rg[k] == cc(x, y);
            assert(offs[prev.len() + k] == rg[k]);
            lemma_manhattan_offsets_cover(depth - 1, 0, 0);
        } else {
            lemma_manhattan_offsets_cover(depth - 1, x, y);
            let j = choose|j: int| 0 <= j < prev.len() && #[trigger] prev[j] == cc(x, y);
            assert(offs[j] == prev[j]);
        }
        assert forall|j: int| 0 <= j < offs.len() implies manhattan_len(#[trigger] offs[j]) <= 3 * depth by {
            if j < prev.len() {
                assert(offs[j] == prev[j]);
                assert(manhattan_len(prev[j]) <= 3 * (depth - 1));
            } else {
                assert(offs[j] == rg[j - prev.len()]);
            }
        }
    }
}

/// A Manhattan carpet search that finds nothing has asked about every cell within
/// Manhattan distance `max_depth` of the start, and got no answer from any of them.
pub proof fn lemma_manhattan_search_asks_all<R, F: Fn(Crd) -> Option<R>>(f: F, start: Crd, max_depth: u16, x: int, y: int)
    requires
        search_result(f, start, manhattan_offsets(max_depth as int), None::<R>),
        abs(x) + abs(y) <= max_depth,
    ensures
        call_ensures(f, (probe(start, cc(x, y)),), None::<R>),
{
    lemma_manhattan_offsets_cover(max_depth as int, x, y);
    let offs = manhattan_offsets(max_depth as int);
    let j = choose|j: int| 0 <= j < offs.len() && #[trigger] offs[j] == cc(x, y);
    assert(call_ensures(f, (probe(start, offs[j]),), None::<R>));
}

/// How far, in Chebyshev distance, the offset `o` reaches: the larger of its two sides.
pub open spec fn chebyshev_len(o: Crd) -> int {
    if abs(o.0 as int) >= abs(o.1 as int) { abs(o.0 as int) } else { abs(o.1 as int) }
}

/// The cell `(x, y)` is at Chebyshev distance `r` from the origin.
pub open spec fn on_square(r: int, x: int, y: int) -> bool {
    -r <= x <= r && -r <= y <= r && (x == r || x == -r || y == r || y == -r)
}

/// Where on the square ring `r` the cell `(x, y)` is walked.
spec fn square_index(r: int, x: int, y: int) -> int {
    if y == -r && x < r {
        x + r
    } else if x == r && y < r {
        y + 3 * r
    } else if y == r && x > -r {
        5 * r - x
    } else {
        7 * r - y
    }
}

proof fn lemma_square_index(r: int, k: int)
    requires
        0 < r <= 0x10000,
        0 <= k < 8 * r,
    ensures
        square_index(r, square_at(r, k).0 as int, square_at(r, k).1 as int) == k,
        chebyshev_len(square_at(r, k)) == r,
{
}

/// Square ring `r` of the Chebyshev carpet search walks each of the `8r` cells at Chebyshev
/// distance `r` from the start exactly once: every offset it holds is at that distance, no
/// two are the same, and every cell at that distance is among them.
pub proof fn lemma_square_ring(r: int)
    requires
        0 < r <= 0x10000,
    ensures
        square(r).len() == 8 * r,
        forall|k: int| 0 <= k < 8 * r ==> chebyshev_len(#[trigger] square(r)[k]) == r,
        forall|i: int, j: int| 0 <= i < j < 8 * r ==> (#[trigger] square(r)[i]) != (#[trigger] square(r)[j]),
        forall|x: int, y: int| #[trigger] on_square(r, x, y) ==> exists|k: int| 0 <= k < 8 * r && #[trigger] square(r)[k] == cc(x, y),
{
    assert forall|k: int| 0 <= k < 8 * r implies chebyshev_len(#[trigger] square(r)[k]) == r by {
        lemma_square_index(r, k);
    }
    assert forall|i: int, j: int| 0 <= i < j < 8 * r implies (#[trigger] square(r)[i]) != (#[trigger] square(r)[j]) by {
        lemma_square_index(r, i);
        lemma_square_index(r, j);
    }
    assert forall|x: int, y: int| #[trigger] on_square(r, x, y) implies exists|k: int| 0 <= k < 8 * r && #[trigger] square(r)[k] == cc(x, y) by {
        let k = square_index(r, x, y);
        assert(0 <= k < 8 * r);
        assert(square(r)[k] == cc(x, y));
    }
}

/// A Chebyshev carpet search of `depth` rings asks about exactly the cells within
/// Chebyshev distance `depth` of the start: each offset it holds is within that distance,
/// and each cell within it is among them.
pub proof fn lemma_chebyshev_offsets_cover(depth: int, x: int, y: int)
    requires
        0 <= depth <= 0x10000,
        -depth <= x <= depth,
        -depth <= y <= depth,
    ensures
        exists|j: int| 0 <= j < chebyshev_offsets(depth).len() && #[trigger] chebyshev_offsets(depth)[j] == cc(x, y),
        forall|j: int| 0 <= j < chebyshev_offsets(depth).len() ==> chebyshev_len(#[trigger] chebyshev_offsets(depth)[j]) <= depth,
    decreases depth,
{
    let offs = chebyshev_offsets(depth);
    if depth == 0 {
        assert(offs =~= seq![cc(0, 0)]);
        assert(offs[0] == cc(x, y));
    } else {
        let prev = chebyshev_offsets(depth - 1);
        let ring = square(depth);
        assert(offs == prev + ring);
        lemma_square_ring(depth);
        if on_square(depth, x, y) {
            let k = choose|k: int| 0 <= k < 8 * depth && #[trigger] ring[k] == cc(x, y);
            assert(offs[prev.len() + k] == ring[k]);
            lemma_chebyshev_offsets_cover(depth - 1, 0, 0);
        } else {
            lemma_chebyshev_offsets_cover(depth - 1, x, y);
            let j = choose|j: int| 0 <= j < prev.len() && #[trigger] prev[j] == cc(x, y);
            assert(offs[j] == prev[j]);
        }
        assert forall|j: int| 0 <= j < offs.len() implies chebyshev_len(#[trigger] offs[j]) <= depth by {
            if j < prev.len() {
                assert(offs[j] == prev[j]);
                assert(chebyshev_len(prev[j]) <= depth - 1);
            } else {
                assert(offs[j] == ring[j - prev.len()]);
            }
        }
    }
}

/// A Chebyshev carpet search that finds nothing has asked about every cell within
/// `max_depth` of the start, and got no answer from any of them.
pub proof fn lemma_chebyshev_search_asks_all<R, F: Fn(Crd) -> Option<R>>(f: F, start: Crd, max_depth: u16, x: int, y: int)
    requires
        search_result(f, start, chebyshev_offsets(max_depth as int), None::<R>),
        -max_depth <= x <= max_depth,
        -max_depth <= y <= max_depth,
    ensures
        call_ensures(f, (probe(start, cc(x, y)),), None::<R>),
{
    lemma_chebyshev_offsets_cover(max_depth as int, x, y);
    let offs = chebyshev_offsets(max_depth as int);
    let j = choose|j: int| 0 <= j < offs.len() && #[trigger] offs[j] == cc(x, y);
    assert(call_ensures(f, (probe(start, offs[j]),), None::<R>));
}

/// The `k`-th offset of the square ring `r`.
fn square_offset(r: isize, k: isize) -> (o: Crd)
    requires
        0 < r <= 0x10000,
        0 <= k < 8 * r,
    ensures
        o == square_at(r as int, k as int),
{
    if k < 2 * r {
        Coord(k - r, -r)
    } else if k < 4 * r {
        Coord(r, (k - 2 * r) - r)
    } else if k < 6 * r {
        Coord(-((k - 4 * r) - r), r)
    } else {
        Coord(-r, -((k - 6 * r) - r))
    }
}

/// The `k`-th offset of the diamond ring `r`.
pub fn diamond_offset(r: isize, k: isize) -> (o: Crd)
    requires
        0 < r <= 0x10000,
        0 <= k < 5 * r,
    ensures
        o == ring_at(r as int, k as int),
{
    if k < r {
        Coord(k, k - r)
    } else if k < 2 * r {
        Coord(r - (k - r), k - r)
    } else if k < 3 * r {
        Coord(-(k - 2 * r), r - (k - 2 * r))
    } else {
        let x = k - 3 * r - r;
        Coord(x - r, -x)
    }
}

/// Asks `f` about the cells around `start`, ring after ring out to `max_depth` rings, ring
/// `r` holding the cells at Chebyshev distance `r`; gives the first answer.
pub fn chebyshev_carpet_bomb_search<R, F: Fn(Crd) -> Option<R>>(start_at: Crd, max_depth: u16, f: F) -> (r: Option<R>)
    requires
        search_start_ok(start_at),
        forall|p: Crd| call_requires(f, (p,)),
    ensures
        search_result(f, start_at, chebyshev_offsets(max_depth as int), r),
{
    let ghost all = chebyshev_offsets(max_depth as int);
    proof {
        lemma_chebyshev_prefix(0, max_depth as int);
        assert(chebyshev_offsets(0) =~= seq![cc(0, 0)]);
        assert(chebyshev_offsets(0)[0] == cc(0, 0));
        assert(all[0] == cc(0, 0));
        assert(probe(start_at, all[0]) == start_at);
    }
    let first = f(start_at);
    if first.is_some() {
        return first;
    }
    let depth: isize = max_depth as isize;
    let mut range: isize = 1;
    while range <= depth
        invariant
            search_start_ok(start_at),
            forall|p: Crd| call_requires(f, (p,)),
            depth == max_depth,
            all == chebyshev_offsets(max_depth as int),
            1 <= range <= depth + 1,
            chebyshev_offsets(range - 1).len() <= all.len(),
            forall|j: int| 0 <= j < chebyshev_offsets(range - 1).len() ==> #[trigger] call_ensures(f, (probe(start_at, all[j]),), None::<R>),
        decreases depth + 1 - range,
    {
        let ghost base = chebyshev_offsets(range - 1).len() as int;
        proof {
            lemma_chebyshev_prefix(range as int, max_depth as int);
            lemma_chebyshev_prefix(range - 1, range as int);
            let cur = chebyshev_offsets(range as int);
            assert(cur == chebyshev_offsets(range - 1) + square(range as int));
            assert forall|j: int| 0 <= j < 8 * range implies all[base + j] == #[trigger] square_at(range as int, j) by {
                assert(cur[base + j] == square(range as int)[j]);
                assert(all[base + j] == cur[base + j]);
            }
        }
        let mut k: isize = 0;
        while k < 8 * range
            invariant
                search_start_ok(start_at),
                forall|p: Crd| call_requires(f, (p,)),
                depth == max_depth,
                all == chebyshev_offsets(max_depth as int),
                1 <= range <= depth,
                0 <= k <= 8 * range,
                base == chebyshev_offsets(range - 1).len(),
                chebyshev_offsets(range as int).len() == base + 8 * range,
                chebyshev_offsets(range as int).len() <= all.len(),
                forall|j: int| 0 <= j < 8 * range ==> all[base + j] == #[trigger] square_at(range as int, j),
                forall|j: int| 0 <= j < base + k ==> #[trigger] call_ensures(f, (probe(start_at, all[j]),), None::<R>),
            decreases 8 * range - k,
        {
            let o = square_offset(range, k);
            proof {
                assert(all[base + k] == square_at(range as int, k as int));
            }
            let a = f(Coord(start_at.0 + o.0, start_at.1 + o.1));
            if a.is_some() {
                proof {
                    assert(call_ensures(f, (probe(start_at, all[base + k]),), a));
                }
                return a;
            }
            k = k + 1;
        }
        range = range + 1;
    }
    proof {
        assert(chebyshev_offsets(range - 1) == all);
    }
    None
}

/// Asks `f` about the cells around `start`, ring after ring out to `max_depth` rings; ring `r`
/// holds the `4r` cells at Manhattan distance `r` and `r` cells farther out, at distances
/// `r + 2` to `3r` (see `ring`). Gives the first answer.
pub fn manhattan_carpet_bomb_search<R, F: Fn(Crd) -> Option<R>>(start_at: Crd, max_depth: u16, f: F) -> (r: Option<R>)
    requires
        search_start_ok(start_at),
        forall|p: Crd| call_requires(f, (p,)),
    ensures
        search_result(f, start_at, manhattan_offsets(max_depth as int), r),
{
    let ghost all = manhattan_offsets(max_depth as int);
    proof {
        lemma_offsets_prefix(0, max_depth as int);
        assert(manhattan_offsets(0) =~= seq![cc(0, 0)]);
        assert(all.subrange(0, 1)[0] == all[0]);
        assert(all[0] == cc(0, 0));
        assert(probe(start_at, all[0]) == start_at);
    }
    let first = f(start_at);
    if first.is_some() {
        return first;
    }
    let depth: isize = max_depth as isize;
    let mut range: isize = 1;
    while range <= depth
        invariant
            search_start_ok(start_at),
            forall|p: Crd| call_requires(f, (p,)),
            depth == max_depth,
            all == manhattan_offsets(max_depth as int),
            1 <= range <= depth + 1,
            manhattan_offsets(range - 1).len() <= all.len(),
            forall|j: int| 0 <= j < manhattan_offsets(range - 1).len() ==> #[trigger] call_ensures(f, (probe(start_at, all[j]),), None::<R>),
        decreases depth + 1 - range,
    {
        let ghost base = manhattan_offsets(range - 1).len() as int;
        proof {
            lemma_offsets_prefix(range as int, max_depth as int);
            let cur = manhattan_offsets(range as int);
            assert(cur == manhattan_offsets(range - 1) + ring(range as int));
            assert forall|j: int| 0 <= j < 5 * range implies all[base + j] == #[trigger] ring_at(range as int, j) by {
                assert(cur[base + j] == ring(range as int)[j]);
                assert(all.subrange(0, cur.len() as int)[base + j] == all[base + j]);
            }
        }
        let mut k: isize = 0;
        while k < 5 * range
            invariant
                search_start_ok(start_at),
                forall|p: Crd| call_requires(f, (p,)),
                depth == max_depth,
                all == manhattan_offsets(max_depth as int),
                1 <= range <= depth,
                0 <= k <= 5 * range,
                base == manhattan_offsets(range - 1).len(),
                manhattan_offsets(range as int).len() == base + 5 * range,
                manhattan_offsets(range as int).len() <= all.len(),
                forall|j: int| 0 <= j < 5 * range ==> all[base + j] == #[trigger] ring_at(range as int, j),
                forall|j: int| 0 <= j < base + k ==> #[trigger] call_ensures(f, (probe(start_at, all[j]),), None::<R>),
            decreases 5 * range - k,
        {
            let o = diamond_offset(range, k);
            proof {
                assert(all[base + k] == ring_at(range as int, k as int));
            }
            let a = f(Coord(start_at.0 + o.0, start_at.1 + o.1));
            if a.is_some() {
                proof {
                    assert(call_ensures(f, (probe(start_at, all[base + k]),), a));
                }
                return a;
            }
            k = k + 1;
        }
        range = range + 1;
    }
    proof {
        assert(manhattan_offsets(range - 1) == all);
    }
    None
}

/// The searched offsets of fewer square rings come first.
proof fn lemma_chebyshev_prefix(a: int, b: int)
    requires
        0 <= a <= b,
    ensures
        chebyshev_offsets(a).len() <= chebyshev_offsets(b).len(),
        chebyshev_offsets(b).subrange(0, chebyshev_offsets(a).len() as int) == chebyshev_offsets(a),
        a > 0 ==> chebyshev_offsets(a).len() == chebyshev_offsets(a - 1).len() + 8 * a,
        forall|j: int| 0 <= j < chebyshev_offsets(a).len() ==> chebyshev_offsets(b)[j] == #[trigger] chebyshev_offsets(a)[j],
    decreases b - a,
{
    if a < b {
        lemma_chebyshev_prefix(a, b - 1);
        assert(chebyshev_offsets(b) == chebyshev_offsets(b - 1) + square(b));
    }
    assert(chebyshev_offsets(b).subrange(0, chebyshev_offsets(a).len() as int) =~= chebyshev_offsets(a));
}

/// The searched offsets of fewer rings come first.
pub proof fn lemma_offsets_prefix(a: int, b: int)
    requires
        0 <= a <= b,
    ensures
        manhattan_offsets(a).len() <= manhattan_offsets(b).len(),
        manhattan_offsets(b).subrange(0, manhattan_offsets(a).len() as int) == manhattan_offsets(a),
        manhattan_offsets(a) + manhattan_offsets(b).subrange(manhattan_offsets(a).len() as int, manhattan_offsets(b).len() as int) == manhattan_offsets(b),
    decreases b - a,
{
    if a < b {
        lemma_offsets_prefix(a, b - 1);
        assert(manhattan_offsets(b) == manhattan_offsets(b - 1) + ring(b));
        assert(manhattan_offsets(b).subrange(0, manhattan_offsets(a).len() as int) =~= manhattan_offsets(b - 1).subrange(0, manhattan_offsets(a).len() as int));
    }
    assert(manhattan_offsets(a) + manhattan_offsets(b).subrange(manhattan_offsets(a).len() as int, manhattan_offsets(b).len() as int) =~= manhattan_offsets(b));
}

/// The offsets of `r - 1` rings and the first `k` of ring `r` start the offsets of `depth` rings.
pub proof fn lemma_offsets_extend(r: int, k: int, depth: int)
    requires
        1 <= r <= depth,
        0 <= k <= 5 * r,
    ensures
        ({
            let done = manhattan_offsets(r - 1) + ring(r).take(k);
            let whole = manhattan_offsets(depth);
            done.len() <= whole.len() && whole.subrange(0, done.len() as int) == done
        }),
{
    lemma_offsets_prefix(r, depth);
    let done = manhattan_offsets(r - 1) + ring(r).take(k);
    assert(manhattan_offsets(r) == manhattan_offsets(r - 1) + ring(r));
    assert(manhattan_offsets(r).subrange(0, done.len() as int) =~= done);
    assert(manhattan_offsets(depth).subrange(0, done.len() as int) =~= manhattan_offsets(r).subrange(0, done.len() as int));
}

} // verus!

verus! {

/// What a breadth-first search is told about a cell.
pub enum Result<E> {
    /// The search does not go on from this cell.
    Blocked,
    /// The search goes on to the cells around this one.
    Pass,
    /// The search ends here with this answer.
    Finish(E),
}

/// The `k`-th of the eight steps to the cells around a cell, in the order the search takes
/// them: clockwise from the top left.
pub open spec fn expand_step(k: int) -> Crd {
    if k == 0 {
        cc(-1, -1)
    } else if k == 1 {
        cc(0, -1)
    } else if k == 2 {
        cc(1, -1)
    } else if k == 3 {
        cc(1, 0)
    } else if k == 4 {
        cc(1, 1)
    } else if k == 5 {
        cc(0, 1)
    } else if k == 6 {
        cc(-1, 1)
    } else {
        cc(-1, 0)
    }
}

/// The cell `c` is one of the eight cells around `p`.
pub open spec fn around(p: Crd, c: Crd) -> bool {
    c != p && -1 <= c.0 - p.0 <= 1 && -1 <= c.1 - p.1 <= 1
}

/// A cell whose eight neighbours are positions.
pub open spec fn inner_cell(p: Crd) -> bool {
    isize::MIN < p.0 < isize::MAX && isize::MIN < p.1 < isize::MAX
}

/// The eight steps of a breadth-first search lead from a cell to the eight cells around it,
/// each once.
pub proof fn lemma_expand_steps(p: Crd)
    requires
        inner_cell(p),
    ensures
        forall|k: int| 0 <= k < 8 ==> around(p, #[trigger] probe(p, expand_step(k))),
        forall|i: int, j: int| 0 <= i < j < 8 ==> #[trigger] probe(p, expand_step(i)) != #[trigger] probe(p, expand_step(j)),
        forall|c: Crd| #[trigger] around(p, c) ==> exists|k: int| 0 <= k < 8 && #[trigger] probe(p, expand_step(k)) == c,
{
    assert forall|c: Crd| #[trigger] around(p, c) implies exists|k: int| 0 <= k < 8 && #[trigger] probe(p, expand_step(k)) == c by {
        let dx = c.0 - p.0;
        let dy = c.1 - p.1;
        let k = if dy == -1 { dx + 1 } else if dx == 1 && dy == 0 { 3 } else if dy == 1 { 5 - dx } else { 7 };
        assert(probe(p, expand_step(k)) == c);
    }
}

/// After the first `n` steps around `p`: the seen cells are those seen before and the cells
/// of those steps; the cells that were not seen yet are added once each, in step order, to
/// the seen cells and to the queue, one step deeper than `p`; nothing else changes.
proof fn lemma_spread_n(q: Seq<(Crd, u16)>, seen: Seq<Crd>, p: Crd, d: u16, n: int)
    requires
        0 <= n <= 8,
    ensures
        ({
            let (q1, s1) = spread(q, seen, p, d, n);
            &&& q1.len() - q.len() == s1.len() - seen.len() >= 0
            &&& q1.subrange(0, q.len() as int) == q
            &&& s1.subrange(0, seen.len() as int) == seen
            &&& forall|i: int| q.len() <= i < q1.len() ==> #[trigger] q1[i] == (s1[seen.len() + i - q.len()], (d + 1) as u16)
            &&& forall|c: Crd| #[trigger] s1.contains(c) <==> seen.contains(c) || exists|k: int| 0 <= k < n && #[trigger] probe(p, expand_step(k)) == c
            &&& forall|j: int| seen.len() <= j < s1.len() ==> !seen.contains(#[trigger] s1[j])
            &&& forall|i: int, j: int| seen.len() <= i < j < s1.len() ==> #[trigger] s1[i] != #[trigger] s1[j]
        }),
    decreases n,
{
    if n > 0 {
        lemma_spread_n(q, seen, p, d, n - 1);
        let (q0, s0) = spread(q, seen, p, d, n - 1);
        let c = probe(p, expand_step(n - 1));
        let (q1, s1) = spread(q, seen, p, d, n);
        if !s0.contains(c) {
            assert(q1 == q0.push((c, (d + 1) as u16)));
            assert(s1 == s0.push(c));
            assert(q1.subrange(0, q.len() as int) =~= q0.subrange(0, q.len() as int));
            assert(s1.subrange(0, seen.len() as int) =~= s0.subrange(0, seen.len() as int));
            assert forall|i: int| q.len() <= i < q1.len() implies #[trigger] q1[i] == (s1[seen.len() + i - q.len()], (d + 1) as u16) by {
                if i < q0.len() {
                    assert(q1[i] == q0[i]);
                }
            }
            assert forall|cc_: Crd| #[trigger] s1.contains(cc_) <==> seen.contains(cc_) || exists|k: int| 0 <= k < n && #[trigger] probe(p, expand_step(k)) == cc_ by {
                if s1.contains(cc_) {
                    let j = choose|j: int| 0 <= j < s1.len() && s1[j] == cc_;
                    if j < s0.len() {
                        assert(s0[j] == cc_);
                        assert(s0.contains(cc_));
                        if !seen.contains(cc_) {
                            let k = choose|k: int| 0 <= k < n - 1 && #[trigger] probe(p, expand_step(k)) == cc_;
                            assert(0 <= k < n && probe(p, expand_step(k)) == cc_);
                        }
                    } else {
                        assert(probe(p, expand_step(n - 1)) == cc_);
                    }
                }
                if seen.contains(cc_) {
                    assert(s0.contains(cc_));
                    let j = choose|j: int| 0 <= j < s0.len() && s0[j] == cc_;
                    assert(s1[j] == cc_);
                }
                if exists|k: int| 0 <= k < n && #[trigger] probe(p, expand_step(k)) == cc_ {
                    let k = choose|k: int| 0 <= k < n && #[trigger] probe(p, expand_step(k)) == cc_;
                    if k < n - 1 {
                        assert(s0.contains(cc_));
                        let j = choose|j: int| 0 <= j < s0.len() && s0[j] == cc_;
                        assert(s1[j] == cc_);
                    } else {
                        assert(s1[s1.len() - 1] == cc_);
                    }
                }
            }
            assert forall|j: int| seen.len() <= j < s1.len() implies !seen.contains(#[trigger] s1[j]) by {
                if j < s0.len() {
                    assert(s1[j] == s0[j]);
                } else {
                    if seen.contains(c) {
                        assert(s0.contains(c));
                    }
                }
            }
            assert forall|i: int, j: int| seen.len() <= i < j < s1.len() implies #[trigger] s1[i] != #[trigger] s1[j] by {
                assert(s1[i] == s0[i]);
                if j < s0.len() {
                    assert(s1[j] == s0[j]);
                } else {
                    assert(s0.contains(s0[i]));
                }
            }
        } else {
            assert forall|cc_: Crd| #[trigger] s1.contains(cc_) <==> seen.contains(cc_) || exists|k: int| 0 <= k < n && #[trigger] probe(p, expand_step(k)) == cc_ by {
                if exists|k: int| 0 <= k < n && #[trigger] probe(p, expand_step(k)) == cc_ {
                    let k = choose|k: int| 0 <= k < n && #[trigger] probe(p, expand_step(k)) == cc_;
                    if k == n - 1 {
                        assert(s1.contains(cc_));
                    }
                }
            }
        }
    }
}

/// One spread of a breadth-first search around `p`, found at depth `d`: afterwards the seen
/// cells are exactly those seen before and the eight cells around `p`; each cell around `p`
/// that was not seen yet is queued once, one step deeper, and nothing else is queued or lost.
pub proof fn lemma_spread(q: Seq<(Crd, u16)>, seen: Seq<Crd>, p: Crd, d: u16)
    requires
        inner_cell(p),
    ensures
        ({
            let (q1, s1) = spread(q, seen, p, d, 8);
            &&& q1.len() - q.len() == s1.len() - seen.len() >= 0
            &&& q1.subrange(0, q.len() as int) == q
            &&& s1.subrange(0, seen.len() as int) == seen
            &&& forall|i: int| q.len() <= i < q1.len() ==> #[trigger] q1[i] == (s1[seen.len() + i - q.len()], (d + 1) as u16)
            &&& forall|c: Crd| #[trigger] s1.contains(c) <==> seen.contains(c) || around(p, c)
            &&& forall|j: int| seen.len() <= j < s1.len() ==> !seen.contains(#[trigger] s1[j]) && around(p, s1[j])
            &&& forall|i: int, j: int| seen.len() <= i < j < s1.len() ==> #[trigger] s1[i] != #[trigger] s1[j]
        }),
{
    lemma_spread_n(q, seen, p, d, 8);
    lemma_expand_steps(p);
    let (q1, s1) = spread(q, seen, p, d, 8);
    assert forall|c: Crd| #[trigger] s1.contains(c) <==> seen.contains(c) || around(p, c) by {
        if around(p, c) {
            let k = choose|k: int| 0 <= k < 8 && #[trigger] probe(p, expand_step(k)) == c;
        }
        if exists|k: int| 0 <= k < 8 && #[trigger] probe(p, expand_step(k)) == c {
            let k = choose|k: int| 0 <= k < 8 && #[trigger] probe(p, expand_step(k)) == c;
            assert(around(p, probe(p, expand_step(k))));
        }
    }
    assert forall|j: int| seen.len() <= j < s1.len() implies !seen.contains(#[trigger] s1[j]) && around(p, s1[j]) by {
        assert(s1.contains(s1[j]));
    }
}

/// The start cells, each once, in the order they first appear.
pub open spec fn seed(starts: Seq<Crd>) -> Seq<Crd>
    decreases starts.len(),
{
    if starts.len() == 0 {
        Seq::empty()
    } else {
        let v = seed(starts.drop_last());
        if v.contains(starts.last()) { v } else { v.push(starts.last()) }
    }
}

/// The queue and the seen cells after the first `n` steps around `p` were tried: each cell
/// around `p` not seen yet is seen and queued at depth `d + 1`.
pub open spec fn spread(q: Seq<(Crd, u16)>, seen: Seq<Crd>, p: Crd, d: u16, n: int) -> (Seq<(Crd, u16)>, Seq<Crd>)
    decreases n,
{
    if n <= 0 {
        (q, seen)
    } else {
        let (q1, s1) = spread(q, seen, p, d, n - 1);
        let c = probe(p, expand_step(n - 1));
        if s1.contains(c) {
            (q1, s1)
        } else {
            (q1.push((c, (d + 1) as u16)), s1.push(c))
        }
    }
}

/// The search from the queue `q` and the seen cells `seen`, after the answers `ans` about the
/// first cells of the queue, one answer each: the queue, the seen cells, whether it stopped,
/// and its result.
pub open spec fn bfs_run<R>(q: Seq<(Crd, u16)>, seen: Seq<Crd>, max: u16, ans: Seq<Result<R>>) -> (
    Seq<(Crd, u16)>,
    Seq<Crd>,
    bool,
    Option<R>,
)
    decreases ans.len(),
{
    if ans.len() == 0 {
        (q, seen, false, None)
    } else {
        let (q0, s0, stopped, res) = bfs_run(q, seen, max, ans.drop_last());
        if stopped || q0.len() < ans.len() {
            (q0, s0, true, res)
        } else {
            let (p, d) = q0[ans.len() - 1];
            match ans.last() {
                Result::Blocked => (q0, s0, false, None),
                Result::Finish(r) => (q0, s0, true, Some(r)),
                Result::Pass => if max <= d {
                    (q0, s0, true, None)
                } else {
                    let (q1, s1) = spread(q0, s0, p, d, 8);
                    (q1, s1, false, None)
                },
            }
        }
    }
}

/// `r` is what the search from `starts` gives when `f` answers `ans`: the cells are asked in
/// the order they were queued, each answer is one `f` may give for its cell, and the search
/// asks until it stops or its queue runs out.
pub open spec fn bfs_found<R, F: Fn(Crd) -> Result<R>>(f: F, starts: Seq<Crd>, max: u16, ans: Seq<Result<R>>, r: Option<R>) -> bool {
    let s0 = seed(starts);
    let q0 = s0.map_values(|c: Crd| (c, 0u16));
    let (q, s, stopped, res) = bfs_run(q0, s0, max, ans);
    &&& ans.len() <= q.len()
    &&& forall|i: int| 0 <= i < ans.len() ==> #[trigger] call_ensures(f, (q[i].0,), ans[i])
    &&& (stopped || ans.len() == q.len())
    &&& r == res
}

/// How much searching a queued cell at depth `d` can still cause: itself, and up to eight
/// cells one deeper each, down to `max`.
pub open spec fn weight(d: int, max: int) -> nat
    decreases max - d,
{
    if d >= max {
        1
    } else {
        1 + 8 * weight(d + 1, max)
    }
}

/// How much searching the queued cells `q` can still cause.
pub open spec fn qweight(q: Seq<(Crd, u16)>, max: int) -> nat
    decreases q.len(),
{
    if q.len() == 0 {
        0
    } else {
        qweight(q.drop_last(), max) + weight(q.last().1 as int, max)
    }
}

proof fn lemma_qweight_front(q: Seq<(Crd, u16)>, max: int)
    requires
        q.len() > 0,
    ensures
        qweight(q, max) == weight(q[0].1 as int, max) + qweight(q.drop_first(), max),
    decreases q.len(),
{
    if q.len() > 1 {
        lemma_qweight_front(q.drop_last(), max);
        assert(q.drop_last().drop_first() =~= q.drop_first().drop_last());
    } else {
        assert(q.drop_first() =~= Seq::<(Crd, u16)>::empty());
        assert(q.drop_last() =~= Seq::<(Crd, u16)>::empty());
    }
}

/// The queued cells stay well inside `isize` and no deeper than `max`.
pub open spec fn queue_ok(q: Seq<(Crd, u16)>, max: u16) -> bool {
    forall|i: int| 0 <= i < q.len() ==> {
        let (c, d) = #[trigger] q[i];
        &&& d <= max
        &&& isize::MIN + 0x40000 - d <= c.0 <= isize::MAX - 0x40000 + d
        &&& isize::MIN + 0x40000 - d <= c.1 <= isize::MAX - 0x40000 + d
    }
}

/// The `k`-th step around a cell.
fn expand_offset(k: usize) -> (r: Crd)
    requires
        k < 8,
    ensures
        r == expand_step(k as int),
{
    if k == 0 {
        Coord(-1, -1)
    } else if k == 1 {
        Coord(0, -1)
    } else if k == 2 {
        Coord(1, -1)
    } else if k == 3 {
        Coord(1, 0)
    } else if k == 4 {
        Coord(1, 1)
    } else if k == 5 {
        Coord(0, 1)
    } else if k == 6 {
        Coord(-1, 1)
    } else {
        Coord(-1, 0)
    }
}

/// The number that stands for cell `c` among the cells a search has seen: the first
/// coordinate in the high half, the second, shifted to be at least zero, in the low half.
pub open spec fn spec_cell_key(c: Crd) -> i128 {
    (c.0 * 0x1_0000_0000_0000_0000int + (c.1 + 0x8000_0000_0000_0000int)) as i128
}

/// The key of cell `c` (see `spec_cell_key`).
fn cell_key(c: Crd) -> (r: i128)
    ensures
        r == spec_cell_key(c),
{
    let x = c.0 as i128;
    let y = c.1 as i128 + 0x8000_0000_0000_0000i128;
    proof {
        assert(-0x8000_0000_0000_0000 <= x < 0x8000_0000_0000_0000);
        assert(0 <= y < 0x1_0000_0000_0000_0000);
        assert(-0x8000_0000_0000_0000_0000_0000_0000_0000 <= x * 0x1_0000_0000_0000_0000 <= 0x7fff_ffff_ffff_ffff_0000_0000_0000_0000)
            by (nonlinear_arith)
            requires
                -0x8000_0000_0000_0000 <= x < 0x8000_0000_0000_0000,
        ;
    }
    x * 0x1_0000_0000_0000_0000i128 + y
}

/// Different cells have different keys.
proof fn lemma_cell_key_injective(a: Crd, b: Crd)
    requires
        spec_cell_key(a) == spec_cell_key(b),
    ensures
        a == b,
{
    let (ax, ay, bx, by_) = (a.0 as int, a.1 as int, b.0 as int, b.1 as int);
    assert(-0x8000_0000_0000_0000 <= ax < 0x8000_0000_0000_0000);
    assert(-0x8000_0000_0000_0000 <= bx < 0x8000_0000_0000_0000);
    assert(-0x8000_0000_0000_0000 <= ay < 0x8000_0000_0000_0000);
    assert(-0x8000_0000_0000_0000 <= by_ < 0x8000_0000_0000_0000);
    assert(-0x8000_0000_0000_0000_0000_0000_0000_0000 <= ax * 0x1_0000_0000_0000_0000 <= 0x7fff_ffff_ffff_ffff_0000_0000_0000_0000)
        by (nonlinear_arith)
        requires
            -0x8000_0000_0000_0000 <= ax < 0x8000_0000_0000_0000,
    ;
    assert(-0x8000_0000_0000_0000_0000_0000_0000_0000 <= bx * 0x1_0000_0000_0000_0000 <= 0x7fff_ffff_ffff_ffff_0000_0000_0000_0000)
        by (nonlinear_arith)
        requires
            -0x8000_0000_0000_0000 <= bx < 0x8000_0000_0000_0000,
    ;
    assert(ax == bx) by (nonlinear_arith)
        requires
            ax * 0x1_0000_0000_0000_0000 + (ay + 0x8000_0000_0000_0000) == bx * 0x1_0000_0000_0000_0000 + (by_ + 0x8000_0000_0000_0000),
            -0x8000_0000_0000_0000 <= ay < 0x8000_0000_0000_0000,
            -0x8000_0000_0000_0000 <= by_ < 0x8000_0000_0000_0000,
    ;
}

/// The keys of `ks` are those of the cells of `seen`.
pub open spec fn keys_of(ks: Set<i128>, seen: Seq<Crd>) -> bool {
    forall|c: Crd| #[trigger] ks.contains(spec_cell_key(c)) <==> seen.contains(c)
}

proof fn lemma_keys_push(ks: Set<i128>, seen: Seq<Crd>, c0: Crd)
    requires
        keys_of(ks, seen),
    ensures
        keys_of(ks.insert(spec_cell_key(c0)), seen.push(c0)),
{
    let s1 = seen.push(c0);
    assert forall|c: Crd| #[trigger] ks.insert(spec_cell_key(c0)).contains(spec_cell_key(c)) <==> s1.contains(c) by {
        if spec_cell_key(c) == spec_cell_key(c0) {
            lemma_cell_key_injective(c, c0);
            assert(s1[seen.len() as int] == c0);
        }
        if s1.contains(c) {
            let j = choose|j: int| 0 <= j < s1.len() && s1[j] == c;
            if j < seen.len() {
                assert(seen[j] == c);
            }
        }
        if seen.contains(c) {
            let j = choose|j: int| 0 <= j < seen.len() && seen[j] == c;
            assert(s1[j] == c);
        }
    }
}

/// Searches breadth first from the cells `start_at`, going from a cell to the eight around it,
/// and asks `f` about each cell once, in the order they are reached, up to `max_depth` steps
/// from the start; gives the first answer that ends the search.
pub fn breadth_first_search<R, F: Fn(Crd) -> Result<R>>(start_at: Vec<Crd>, max_depth: u16, f: F) -> (r: Option<R>)
    requires
        forall|i: int| 0 <= i < start_at@.len() ==> search_start_ok(#[trigger] start_at@[i]),
        forall|p: Crd| call_requires(f, (p,)),
    ensures
        exists|ans: Seq<Result<R>>| #[trigger] bfs_found(f, start_at@, max_depth, ans, r),
{
    let ghost mut seen: Seq<Crd> = Seq::empty();
    let mut seen_keys: HashSet<i128> = HashSet::new();
    let mut queue: Vec<(Crd, u16)> = Vec::new();
    let mut i: usize = 0;
    while i < start_at.len()
        invariant
            i <= start_at@.len(),
            forall|j: int| 0 <= j < start_at@.len() ==> search_start_ok(#[trigger] start_at@[j]),
            seen == seed(start_at@.subrange(0, i as int)),
            keys_of(seen_keys@, seen),
            queue@ == seen.map_values(|c: Crd| (c, 0u16)),
            queue_ok(queue@, max_depth),
        decreases start_at@.len() - i,
    {
        let c = start_at[i];
        proof {
            assert(start_at@.subrange(0, i + 1).drop_last() =~= start_at@.subrange(0, i as int));
            assert(start_at@.subrange(0, i + 1).last() == c);
        }
        if !seen_keys.contains(&cell_key(c)) {
            proof {
                lemma_keys_push(seen_keys@, seen, c);
                seen = seen.push(c);
            }
            seen_keys.insert(cell_key(c));
            queue.push((c, 0));
            proof {
                assert(queue@ =~= seen.map_values(|c: Crd| (c, 0u16)));
                assert(search_start_ok(start_at@[i as int]));
            }
        }
        i = i + 1;
    }
    proof {
        assert(start_at@.subrange(0, i as int) =~= start_at@);
    }
    let ghost s0 = seen;
    let ghost q0 = queue@;
    let ghost mut ans: Seq<Result<R>> = Seq::empty();
    let mut head: usize = 0;
    loop
        invariant
            forall|p: Crd| call_requires(f, (p,)),
            s0 == seed(start_at@),
            q0 == s0.map_values(|c: Crd| (c, 0u16)),
            bfs_run(q0, s0, max_depth, ans) == (queue@, seen, false, None::<R>),
            keys_of(seen_keys@, seen),
            head == ans.len(),
            head <= queue@.len(),
            forall|j: int| 0 <= j < ans.len() ==> #[trigger] call_ensures(f, (queue@[j].0,), ans[j]),
            queue_ok(queue@, max_depth),
        decreases qweight(queue@.skip(head as int), max_depth as int),
    {
        if head >= queue.len() {
            proof {
                assert(bfs_found(f, start_at@, max_depth, ans, None::<R>));
            }
            return None;
        }
        let (p, d) = queue[head];
        let a = f(p);
        let ghost ga = a;
        let ghost before = ans;
        let ghost measure = qweight(queue@.skip(head as int), max_depth as int);
        proof {
            ans = ans.push(ga);
            assert(ans.drop_last() =~= before);
            lemma_qweight_front(queue@.skip(head as int), max_depth as int);
            assert(queue@.skip(head as int).drop_first() =~= queue@.skip(head + 1));
            assert(call_ensures(f, (p,), ga));
            assert forall|j: int| 0 <= j < ans.len() implies #[trigger] call_ensures(f, (queue@[j].0,), ans[j]) by {
                if j < before.len() {
                    assert(ans[j] == before[j]);
                } else {
                    assert(queue@[j].0 == p);
                }
            }
        }
        head = head + 1;
        match a {
            Result::Blocked => {
                proof {
                    assert(ans.last() == ga);
                }
            },
            Result::Finish(r) => {
                proof {
                    assert(ans.last() == ga);
                    assert(bfs_found(f, start_at@, max_depth, ans, Some(r)));
                }
                return Some(r);
            },
            Result::Pass => {
                proof {
                    assert(ans.last() == ga);
                }
                if max_depth <= d {
                    proof {
                        assert(bfs_found(f, start_at@, max_depth, ans, None::<R>));
                    }
                    return None;
                }
                let ghost qb = queue@;
                let ghost sb = seen;
                let ghost rest = qweight(queue@.skip(head as int), max_depth as int);
                proof {
                    assert(spread(qb, sb, p, d, 0) == (qb, sb));
                    assert(queue@.skip(head as int) =~= qb.skip(head as int));
                    assert(weight(d as int, max_depth as int) == 1 + 8 * weight(d + 1, max_depth as int));
                }
                let mut k: usize = 0;
                while k < 8
                    invariant
                        k <= 8,
                        (queue@, seen) == spread(qb, sb, p, d, k as int),
                        keys_of(seen_keys@, seen),
                        qb.len() <= queue@.len(),
                        head <= qb.len(),
                        forall|j: int| 0 <= j < qb.len() ==> queue@[j] == qb[j],
                        queue_ok(queue@, max_depth),
                        d < max_depth,
                        isize::MIN + 0x40000 - d <= p.0 <= isize::MAX - 0x40000 + d,
                        isize::MIN + 0x40000 - d <= p.1 <= isize::MAX - 0x40000 + d,
                        qweight(queue@.skip(head as int), max_depth as int) <= rest + k * weight(d + 1, max_depth as int),
                    decreases 8 - k,
                {
                    let o = expand_offset(k);
                    let c = Coord(p.0 + o.0, p.1 + o.1);
                    proof {
                        assert(c == probe(p, expand_step(k as int)));
                    }
                    if !seen_keys.contains(&cell_key(c)) {
                        let ghost qk = queue@;
                        proof {
                            lemma_keys_push(seen_keys@, seen, c);
                            seen = seen.push(c);
                        }
                        seen_keys.insert(cell_key(c));
                        queue.push((c, d + 1));
                        proof {
                            assert(queue@.skip(head as int) =~= qk.skip(head as int).push((c, (d + 1) as u16)));
                            assert(queue@.skip(head as int).drop_last() =~= qk.skip(head as int));
                            assert(k * weight(d + 1, max_depth as int) + weight(d + 1, max_depth as int) == (k + 1) * weight(
                                d + 1,
                                max_depth as int,
                            )) by (nonlinear_arith);
                        }
                    } else {
                        proof {
                            assert(k * weight(d + 1, max_depth as int) <= (k + 1) * weight(d + 1, max_depth as int)) by (
                            nonlinear_arith);
                        }
                    }
                    k = k + 1;
                }
                proof {
                    assert(qweight(queue@.skip(head as int), max_depth as int) < measure);
                    assert forall|j: int| 0 <= j < ans.len() implies #[trigger] call_ensures(f, (queue@[j].0,), ans[j]) by {
                        assert(queue@[j] == qb[j]);
                    }
                }
            },
        }
    }
}

} // verus!
