use are_world::grids::{displacement, measure_length, normalize_area, normalize_pos, offset, span, wrap_idx, Coord, Interval};
use are_world::mob::bfs::{chebyshev_carpet_bomb_search, manhattan_carpet_bomb_search};
use are_world::mob::pathfind::silly_facing;
use are_world::ripper::CosmosRipper;

fn area(x0: isize, x1: isize, y0: isize, y1: isize) -> Coord<Interval<isize>> {
    Coord(Interval { from: x0, to: x1 }, Interval { from: y0, to: y1 })
}

#[test]
fn wrap_idx_goes_around() {
    assert_eq!(wrap_idx(7, 5), 2);
    assert_eq!(wrap_idx(-1, 5), 4);
    assert_eq!(wrap_idx(-10, 5), 0);
    assert_eq!(wrap_idx(0, 5), 0);
}

#[test]
fn normalize_pos_brings_into_plate() {
    assert_eq!(normalize_pos(Coord(10, 8), Coord(-1, 17)), Coord(9, 1));
    assert_eq!(normalize_pos(Coord(10, 8), Coord(3, 4)), Coord(3, 4));
}

#[test]
fn normalize_area_keeps_extent() {
    let a = normalize_area(Coord(10, 10), area(-2, 1, 12, 13));
    assert_eq!(a, area(8, 11, 2, 3));
    // bringing an area in twice is bringing it in once
    assert_eq!(normalize_area(Coord(10, 10), a), a);
}

#[test]
fn measure_length_counts_cells() {
    assert_eq!(measure_length(Interval { from: 3, to: 3 }), 1);
    assert_eq!(measure_length(Interval { from: -2, to: 4 }), 7);
}

#[test]
fn span_and_offset() {
    let a = span(Coord(0, 0), Coord(2, 1));
    assert_eq!(a, area(0, 2, 0, 1));
    assert_eq!(offset(a, Coord(5, -3)), area(5, 7, -3, -2));
}

#[test]
fn displacement_takes_shorter_way_round() {
    let size = Coord(10, 10);
    assert_eq!(displacement(size, area(1, 1, 1, 1), area(3, 3, 8, 8)), Coord(2, -3));
    assert_eq!(displacement(size, area(1, 1, 1, 1), area(9, 9, 4, 4)), Coord(-2, 3));
    // exactly half way round goes forward
    assert_eq!(displacement(size, area(0, 0, 0, 0), area(5, 5, 0, 0)), Coord(5, 0));
}

#[test]
fn silly_facing_steps_toward_target() {
    let size = Coord(100, 100);
    // mostly to the right
    assert_eq!(silly_facing(area(10, 10, 10, 10), area(20, 20, 12, 12), size), [Coord(1, 0), Coord(0, 1)]);
    // mostly down
    assert_eq!(silly_facing(area(10, 10, 10, 10), area(12, 12, 20, 20), size), [Coord(0, 1), Coord(1, 0)]);
    // straight up
    assert_eq!(silly_facing(area(10, 10, 10, 10), area(10, 10, 0, 0), size), [Coord(0, -1), Coord(1, 0)]);
    // already there: no step
    assert_eq!(silly_facing(area(10, 10, 10, 10), area(10, 10, 10, 10), size), [Coord(0, 0), Coord(0, 0)]);
}

#[test]
fn manhattan_search_order() {
    let start = Coord(100, 100);
    // the centre first
    assert_eq!(manhattan_carpet_bomb_search(start, 3, |p| if p == start { Some(0) } else { None }), Some(0));
    // the first ring starts at (0, -1) from the centre
    assert_eq!(manhattan_carpet_bomb_search(start, 3, |p| if p != start { Some(p) } else { None }), Some(Coord(100, 99)));
    // ring 2 is searched after ring 1
    let found = manhattan_carpet_bomb_search(start, 3, |p| {
        let d = (p.0 - 100).abs() + (p.1 - 100).abs();
        if d == 2 { Some(p) } else { None }
    });
    assert_eq!(found, Some(Coord(100, 98)));
    // nothing found within the depth
    assert_eq!(manhattan_carpet_bomb_search(start, 2, |p| if p == Coord(110, 100) { Some(1) } else { None }), None);
    // depth zero only looks at the centre
    assert_eq!(manhattan_carpet_bomb_search(start, 0, |p| if p != start { Some(1) } else { None }), None);
}

#[test]
fn chebyshev_search_order() {
    let start = Coord(0, 0);
    assert_eq!(chebyshev_carpet_bomb_search(start, 2, |p| if p == start { Some(p) } else { None }), Some(start));
    // the first square ring starts at its top left corner
    assert_eq!(chebyshev_carpet_bomb_search(start, 2, |p| if p != start { Some(p) } else { None }), Some(Coord(-1, -1)));
    // (1, 1) lies in ring 1 and is found
    assert_eq!(chebyshev_carpet_bomb_search(start, 1, |p| if p == Coord(1, 1) { Some(7) } else { None }), Some(7));
    // (2, 0) lies in ring 2, out of a depth of one
    assert_eq!(chebyshev_carpet_bomb_search(start, 1, |p| if p == Coord(2, 0) { Some(7) } else { None }), None);
}

#[test]
fn ripper_sizes() {
    let r = CosmosRipper::new(Coord(12, 6), Coord(2, 2), Coord(2, 0));
    assert_eq!(r.bound_size, Coord(6, 2));
    assert_eq!(r.batch_size, Coord(2, 3));
    assert_eq!(r.chunk_size, Coord(2, 2));
    assert_eq!(r.padding, Coord(2, 0));
}

#[test]
fn ripper_batches_in_order() {
    let r = CosmosRipper::new(Coord(12, 6), Coord(2, 2), Coord(2, 0));
    let batches = r.with();
    // three chunk offsets across each bound, one down
    assert_eq!(batches.len(), 3);
    let mut first = r.with();
    let b = &mut first[1];
    assert_eq!(b.len(), 6);
    let (chunk, bound) = b.next().unwrap();
    assert_eq!(bound, area(2, 7, 0, 1));
    assert_eq!(chunk, area(4, 5, 0, 1));
    assert_eq!(b.len(), 5);
    let (_, bound2) = b.next().unwrap();
    assert_eq!(bound2, area(2, 7, 2, 3));
    let mut rest = 0;
    while let Some(_) = b.next() {
        rest += 1;
    }
    assert_eq!(rest, 4);
    assert_eq!(b.len(), 0);
    assert_eq!(b.next(), None);
}

#[test]
fn ripper_bounds_of_a_batch_do_not_overlap() {
    let size = Coord(12, 6);
    let r = CosmosRipper::new(size, Coord(2, 2), Coord(2, 0));
    for mut b in r.with() {
        let mut seen = vec![0u32; 72];
        while let Some((chunk, bound)) = b.next() {
            for dx in 0..=(bound.0.to - bound.0.from) {
                for dy in 0..=(bound.1.to - bound.1.from) {
                    let x = (bound.0.from + dx).rem_euclid(size.0);
                    let y = (bound.1.from + dy).rem_euclid(size.1);
                    seen[(y * size.0 + x) as usize] += 1;
                }
            }
            // the chunk lies inside its bound
            assert!(chunk.0.from >= bound.0.from && chunk.0.to <= bound.0.to);
            assert!(chunk.1.from >= bound.1.from && chunk.1.to <= bound.1.to);
        }
        assert!(seen.iter().all(|&n| n <= 1));
    }
}

use are_world::mob::bfs::{breadth_first_search, Result as Step};
use are_world::refs::Weak;
use are_world::tick::{chunk_of, group_by_mob};
use std::cell::Cell;

#[test]
fn bfs_finds_in_step_order() {
    let asked = Cell::new(0u32);
    let found = breadth_first_search(vec![Coord(0, 0)], 2, |p| {
        asked.set(asked.get() + 1);
        if p == Coord(1, 1) { Step::Finish(p) } else { Step::Pass }
    });
    assert_eq!(found, Some(Coord(1, 1)));
    // the start, then the steps (-1,-1), (0,-1), (1,-1), (1,0), (1,1)
    assert_eq!(asked.get(), 6);
}

#[test]
fn bfs_stops_at_depth() {
    let far = |p: Coord<isize>| if p == Coord(3, 0) { Step::Finish(1) } else { Step::Pass };
    assert_eq!(breadth_first_search(vec![Coord(0, 0)], 2, far), None);
    // at depth three the first cell three steps out ends the search before (3, 0) is asked
    assert_eq!(breadth_first_search(vec![Coord(0, 0)], 3, far), None);
    assert_eq!(breadth_first_search(vec![Coord(0, 0)], 4, far), Some(1));
    // the first cell at the last depth that lets the search through ends it
    let asked = Cell::new(0u32);
    let r: Option<u8> = breadth_first_search(vec![Coord(0, 0)], 1, |_| {
        asked.set(asked.get() + 1);
        Step::Pass
    });
    assert_eq!(r, None);
    assert_eq!(asked.get(), 2);
}

#[test]
fn bfs_walls_and_starts() {
    // a wall at x = 1 keeps the search away from (2, 0)
    let walled = |p: Coord<isize>| {
        if p.0 == 1 {
            Step::Blocked
        } else if p == Coord(2, 0) {
            Step::Finish(())
        } else {
            Step::Pass
        }
    };
    assert_eq!(breadth_first_search(vec![Coord(0, 0)], 4, walled), None);
    // a start behind the wall finds it
    assert_eq!(breadth_first_search(vec![Coord(0, 0), Coord(3, 0)], 4, walled), Some(()));
    // repeated starts are asked about once
    let asked = Cell::new(0u32);
    let r: Option<u8> = breadth_first_search(vec![Coord(5, 5), Coord(5, 5)], 3, |_| {
        asked.set(asked.get() + 1);
        Step::Blocked
    });
    assert_eq!(r, None);
    assert_eq!(asked.get(), 1);
}

#[test]
fn chunk_of_holds_the_middle() {
    let c = chunk_of(Coord(12, 12), Coord(4, 4), area(5, 6, 9, 9));
    assert_eq!(c, area(4, 7, 8, 11));
    let d = chunk_of(Coord(12, 12), Coord(4, 4), area(11, 13, 0, 0));
    assert_eq!(d, area(0, 3, 0, 3));
}

#[test]
fn groups_keep_first_order() {
    let a = Weak::from_slot(3);
    let b = Weak::from_slot(1);
    let g = group_by_mob(&vec![(a, 'x'), (b, 'y'), (a, 'z')]);
    assert_eq!(g, vec![(a, vec!['x', 'z']), (b, vec!['y'])]);
    assert!(group_by_mob::<u8>(&vec![]).is_empty());
}

#[test]
fn ripper_chunks_tile_the_plate() {
    let size = Coord(12, 6);
    let r = CosmosRipper::new(size, Coord(2, 2), Coord(2, 0));
    let mut seen = vec![0u32; 72];
    for mut b in r.with() {
        while let Some((chunk, _)) = b.next() {
            for dx in 0..=(chunk.0.to - chunk.0.from) {
                for dy in 0..=(chunk.1.to - chunk.1.from) {
                    let x = (chunk.0.from + dx).rem_euclid(size.0);
                    let y = (chunk.1.from + dy).rem_euclid(size.1);
                    seen[(y * size.0 + x) as usize] += 1;
                }
            }
        }
    }
    assert!(seen.iter().all(|&n| n == 1));
}

#[test]
fn ripper_hands_out_each_chunk_once() {
    let r = CosmosRipper::new(Coord(12, 6), Coord(2, 2), Coord(2, 0));
    assert!(r.is_wf());
    let mut chunks = Vec::new();
    for mut b in r.with() {
        while let Some((chunk, _)) = b.next() {
            assert!(!chunks.contains(&chunk));
            chunks.push(chunk);
        }
    }
    assert_eq!(chunks.len(), 18);
    let mut bad = r;
    bad.padding = Coord(1, 0);
    assert!(!bad.is_wf());
}

#[test]
fn small_areas() {
    let m = 4 * are_world::grids::MAX_SIDE;
    let a = Coord(Interval { from: -m, to: m }, Interval { from: 0, to: 3 });
    assert!(are_world::grids::is_small_area(a));
    let b = Coord(Interval { from: -m - 1, to: 0 }, Interval { from: 0, to: 3 });
    assert!(!are_world::grids::is_small_area(b));
}
