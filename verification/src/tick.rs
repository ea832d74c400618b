use vstd::prelude::*;

use crate::cosmos::Cosmos;
use crate::grids::{normalize_pos, spec_normalize_pos, valid_size, Coord, Crd, CrdI, Interval, MAX_SIDE};
use crate::plate::normal_area;
use crate::refs::Weak;
use crate::ripper::{lemma_chunks_distinct, pending, ripper_slice, tile_pos, CosmosRipper, CosmosRipperBatch};

verus! {

/// The middle cell of an area (rounded towards its first corner).
pub open spec fn center(at: CrdI) -> Crd {
    Coord(((at.0.from + at.0.to) / 2) as isize, ((at.1.from + at.1.to) / 2) as isize)
}

/// The chunk whose work a creature standing on `at` belongs to: the chunk of `chunk` cells,
/// counted from the plate's first corner, that holds the middle of the area.
pub open spec fn spec_chunk_of(size: Crd, chunk: Crd, at: CrdI) -> CrdI {
    let c = spec_normalize_pos(size, center(at));
    let x = c.0 - c.0 % chunk.0;
    let y = c.1 - c.1 % chunk.1;
    Coord(Interval { from: x as isize, to: (x + chunk.0 - 1) as isize }, Interval { from: y as isize, to: (y + chunk.1 - 1) as isize })
}

/// The chunk whose work a creature standing on `at` belongs to.
pub fn chunk_of(size: Crd, chunk: Crd, at: CrdI) -> (r: CrdI)
    requires
        valid_size(size),
        0 < chunk.0 <= MAX_SIDE,
        0 < chunk.1 <= MAX_SIDE,
        normal_area(size, at),
    ensures
        r == spec_chunk_of(size, chunk, at),
        r.0.from <= spec_normalize_pos(size, center(at)).0 <= r.0.to,
        r.1.from <= spec_normalize_pos(size, center(at)).1 <= r.1.to,
        r.0.from % chunk.0 == 0 && r.1.from % chunk.1 == 0,
{
    let mid = Coord((at.0.from + at.0.to) / 2, (at.1.from + at.1.to) / 2);
    let c = normalize_pos(size, mid);
    let x = c.0 - c.0 % chunk.0;
    let y = c.1 - c.1 % chunk.1;
    proof {
        vstd::arithmetic::div_mod::lemma_fundamental_div_mod(c.0 as int, chunk.0 as int);
        vstd::arithmetic::div_mod::lemma_fundamental_div_mod(c.1 as int, chunk.1 as int);
        vstd::arithmetic::div_mod::lemma_mod_multiples_basic(c.0 as int / chunk.0 as int, chunk.0 as int);
        vstd::arithmetic::div_mod::lemma_mod_multiples_basic(c.1 as int / chunk.1 as int, chunk.1 as int);
        assert((c.0 as int / chunk.0 as int) * chunk.0 as int == chunk.0 as int * (c.0 as int / chunk.0 as int)) by (nonlinear_arith);
        assert((c.1 as int / chunk.1 as int) * chunk.1 as int == chunk.1 as int * (c.1 as int / chunk.1 as int)) by (nonlinear_arith);
    }
    Coord(Interval { from: x, to: x + chunk.0 - 1 }, Interval { from: y, to: y + chunk.1 - 1 })
}

/// The keys of `items`, each once, in the order they first appear.
pub open spec fn first_keys<T>(items: Seq<(Weak, T)>) -> Seq<Weak>
    decreases items.len(),
{
    if items.len() == 0 {
        Seq::empty()
    } else {
        let ks = first_keys(items.drop_last());
        if ks.contains(items.last().0) { ks } else { ks.push(items.last().0) }
    }
}

/// The values of `items` with the key `k`, in order.
pub open spec fn values_of<T>(items: Seq<(Weak, T)>, k: Weak) -> Seq<T>
    decreases items.len(),
{
    if items.len() == 0 {
        Seq::empty()
    } else {
        let vs = values_of(items.drop_last(), k);
        if items.last().0 == k { vs.push(items.last().1) } else { vs }
    }
}

/// What `group_by_mob` gives for `items`: one group for each key, in the order the keys first
/// appear, holding the values with that key in order.
pub open spec fn grouped<T>(items: Seq<(Weak, T)>, groups: Seq<(Weak, Seq<T>)>) -> bool {
    &&& groups.len() == first_keys(items).len()
    &&& forall|i: int| 0 <= i < groups.len() ==> (#[trigger] groups[i]).0 == first_keys(items)[i] && groups[i].1 == values_of(
        items,
        groups[i].0,
    )
}

/// Where `k` stands among `ks`, if it does.
fn find_key(ks: &Vec<Weak>, k: Weak) -> (r: Option<usize>)
    ensures
        match r {
            Some(i) => i < ks@.len() && ks@[i as int] == k && forall|j: int| 0 <= j < i ==> ks@[j] != k,
            None => !ks@.contains(k),
        },
{
    let mut i: usize = 0;
    while i < ks.len()
        invariant
            i <= ks@.len(),
            forall|j: int| 0 <= j < i ==> ks@[j] != k,
        decreases ks@.len() - i,
    {
        if ks[i].slot == k.slot {
            return Some(i);
        }
        i = i + 1;
    }
    None
}

/// Gathers the values sent to each creature: one group per creature, in the order the
/// creatures first appear, with its values in the order they were sent.
pub fn group_by_mob<T: Copy>(items: &Vec<(Weak, T)>) -> (r: Vec<(Weak, Vec<T>)>)
    ensures
        grouped(items@, r@.map_values(|g: (Weak, Vec<T>)| (g.0, g.1@))),
{
    let mut keys: Vec<Weak> = Vec::new();
    let mut groups: Vec<(Weak, Vec<T>)> = Vec::new();
    let mut n: usize = 0;
    while n < items.len()
        invariant
            n <= items@.len(),
            keys@ == first_keys(items@.subrange(0, n as int)),
            groups@.len() == keys@.len(),
            forall|i: int| 0 <= i < groups@.len() ==> (#[trigger] groups@[i]).0 == keys@[i] && groups@[i].1@ == values_of(
                items@.subrange(0, n as int),
                keys@[i],
            ),
        decreases items@.len() - n,
    {
        let (k, v) = items[n];
        let ghost prev = items@.subrange(0, n as int);
        let ghost next = items@.subrange(0, n + 1);
        proof {
            assert(next.drop_last() =~= prev);
            assert(next.last() == (k, v));
        }
        match find_key(&keys, k) {
            Some(i) => {
                let ghost before = groups@;
                let mut g = groups.remove(i);
                g.1.push(v);
                groups.insert(i, g);
                proof {
                    assert forall|j: int| 0 <= j < groups@.len() implies (#[trigger] groups@[j]).0 == keys@[j] && groups@[j].1@
                        == values_of(next, keys@[j]) by {
                        if j != i {
                            assert(groups@[j] == before[j]);
                            assert(keys@[j] != k) by {
                                if keys@[j] == k {
                                    lemma_first_keys_distinct(prev);
                                }
                            }
                        }
                    }
                }
            },
            None => {
                keys.push(k);
                let mut vs: Vec<T> = Vec::new();
                vs.push(v);
                let ghost before = groups@;
                groups.push((k, vs));
                proof {
                    lemma_values_of_absent(prev, k);
                    assert forall|j: int| 0 <= j < groups@.len() implies (#[trigger] groups@[j]).0 == keys@[j] && groups@[j].1@
                        == values_of(next, keys@[j]) by {
                        if j < before.len() {
                            assert(groups@[j] == before[j]);
                        } else {
                            assert(values_of(prev, k) =~= Seq::<T>::empty());
                        }
                    }
                }
            },
        }
        n = n + 1;
    }
    proof {
        assert(items@.subrange(0, n as int) =~= items@);
        let view = groups@.map_values(|g: (Weak, Vec<T>)| (g.0, g.1@));
        assert forall|i: int| 0 <= i < view.len() implies (#[trigger] view[i]).0 == first_keys(items@)[i] && view[i].1 == values_of(
            items@,
            view[i].0,
        ) by {
            assert(view[i] == (groups@[i].0, groups@[i].1@));
        }
    }
    groups
}

/// No key appears twice among the first keys.
proof fn lemma_first_keys_distinct<T>(items: Seq<(Weak, T)>)
    ensures
        forall|i: int, j: int| 0 <= i < j < first_keys(items).len() ==> first_keys(items)[i] != first_keys(items)[j],
    decreases items.len(),
{
    if items.len() > 0 {
        lemma_first_keys_distinct(items.drop_last());
        let ks = first_keys(items.drop_last());
        let k = items.last().0;
        if !ks.contains(k) {
            let fk = ks.push(k);
            assert(first_keys(items) == fk);
            assert forall|i: int, j: int| 0 <= i < j < fk.len() implies fk[i] != fk[j] by {
                if j == ks.len() {
                    assert(fk[i] == ks[i]);
                    assert(fk[j] == k);
                } else {
                    assert(fk[i] == ks[i] && fk[j] == ks[j]);
                }
            }
        }
    }
}

/// A key that never appears has no values.
proof fn lemma_values_of_absent<T>(items: Seq<(Weak, T)>, k: Weak)
    requires
        !first_keys(items).contains(k),
    ensures
        values_of(items, k) == Seq::<T>::empty(),
    decreases items.len(),
{
    if items.len() > 0 {
        let ks = first_keys(items.drop_last());
        if ks.contains(k) {
            assert(first_keys(items).contains(k)) by {
                let i = choose|i: int| 0 <= i < ks.len() && ks[i] == k;
                if !ks.contains(items.last().0) {
                    assert(first_keys(items)[i] == k);
                }
            }
        }
        lemma_values_of_absent(items.drop_last(), k);
        if items.last().0 == k {
            assert(first_keys(items).contains(k)) by {
                if ks.contains(items.last().0) {
                } else {
                    assert(first_keys(items)[ks.len() as int] == k);
                }
            }
        }
    }
}

/// The groups of `items`, as `group_by_mob` gives them.
pub open spec fn group_seq<T>(items: Seq<(Weak, T)>) -> Seq<(Weak, Seq<T>)> {
    Seq::new(first_keys(items).len(), |i: int| (first_keys(items)[i], values_of(items, first_keys(items)[i])))
}

/// There is one way to group `items`.
pub proof fn lemma_grouped_unique<T>(items: Seq<(Weak, T)>, groups: Seq<(Weak, Seq<T>)>)
    requires
        grouped(items, groups),
    ensures
        groups == group_seq(items),
{
    assert forall|i: int| 0 <= i < groups.len() implies groups[i] == group_seq(items)[i] by {
        assert(groups[i].0 == first_keys(items)[i]);
    }
    assert(groups =~= group_seq(items));
}

/// A list of creature groups as its values.
pub open spec fn groups_view<T>(g: Seq<(Weak, Vec<T>)>) -> Seq<(Weak, Seq<T>)> {
    g.map_values(|x: (Weak, Vec<T>)| (x.0, x.1@))
}

/// A list of chunk entries as its values.
pub open spec fn entries_view<T>(e: Seq<(CrdI, Weak, Vec<T>)>) -> Seq<(CrdI, Weak, Seq<T>)> {
    e.map_values(|x: (CrdI, Weak, Vec<T>)| (x.0, x.1, x.2@))
}

/// A list of works as its values.
pub open spec fn works_view<T>(w: Seq<(CrdI, Vec<(Weak, Vec<T>)>)>) -> Seq<(CrdI, Seq<(Weak, Seq<T>)>)> {
    w.map_values(|x: (CrdI, Vec<(Weak, Vec<T>)>)| (x.0, groups_view(x.1@)))
}

/// The groups whose creature is on the plate, in order, each with the chunk its work belongs to.
pub open spec fn placed_groups<M, T>(c: Cosmos<M>, groups: Seq<(Weak, Seq<T>)>) -> Seq<(CrdI, Weak, Seq<T>)>
    decreases groups.len(),
{
    if groups.len() == 0 {
        Seq::empty()
    } else {
        let e = placed_groups(c, groups.drop_last());
        let g = groups.last();
        if c.alive(g.0.slot) {
            e.push((spec_chunk_of(c.plate.size, c.ripper.chunk_size, c.block(g.0.slot).at), g.0, g.1))
        } else {
            e
        }
    }
}

/// The groups of the entries of the chunk `chunk`, in order.
pub open spec fn work_of<T>(entries: Seq<(CrdI, Weak, Seq<T>)>, chunk: CrdI) -> Seq<(Weak, Seq<T>)>
    decreases entries.len(),
{
    if entries.len() == 0 {
        Seq::empty()
    } else {
        let w = work_of(entries.drop_last(), chunk);
        let e = entries.last();
        if e.0 == chunk { w.push((e.1, e.2)) } else { w }
    }
}

/// For each chunk of `slices` that has work, in order: its bound and its work.
pub open spec fn works_of<T>(slices: Seq<(CrdI, CrdI)>, entries: Seq<(CrdI, Weak, Seq<T>)>) -> Seq<(CrdI, Seq<(Weak, Seq<T>)>)>
    decreases slices.len(),
{
    if slices.len() == 0 {
        Seq::empty()
    } else {
        let w = works_of(slices.drop_last(), entries);
        let s = slices.last();
        let sel = work_of(entries, s.0);
        if sel.len() > 0 { w.push((s.1, sel)) } else { w }
    }
}

/// The chunks of the batch at offset `o`, each with its bound, in the order they are handed out.
pub open spec fn batch_slices(rp: CosmosRipper, o: (int, int)) -> Seq<(CrdI, CrdI)> {
    pending(rp.batch_size.0 as int, rp.batch_size.1 as int, 0, 0).map_values(
        |c: (int, int)| ripper_slice(rp, Coord(o.0 as isize, o.1 as isize), c),
    )
}

/// The offsets of the batches, in the order they run.
pub open spec fn batch_offsets(rp: CosmosRipper) -> Seq<(int, int)> {
    pending(rp.batch_count().0, rp.batch_count().1, 0, 0)
}

fn copy_vec<T: Copy>(v: &Vec<T>) -> (r: Vec<T>)
    ensures
        r@ == v@,
{
    let mut r: Vec<T> = Vec::new();
    let mut i: usize = 0;
    while i < v.len()
        invariant
            i <= v@.len(),
            r@ == v@.subrange(0, i as int),
        decreases v@.len() - i,
    {
        r.push(v[i]);
        i = i + 1;
        proof {
            assert(r@ =~= v@.subrange(0, i as int));
        }
    }
    proof {
        assert(v@.subrange(0, i as int) =~= v@);
    }
    r
}

fn same_area(a: CrdI, b: CrdI) -> (r: bool)
    ensures
        r == (a == b),
{
    a.0.from == b.0.from && a.0.to == b.0.to && a.1.from == b.1.from && a.1.to == b.1.to
}

/// The groups whose creature is on the plate, each with the chunk its work belongs to.
fn place_groups<M, T: Copy>(cosmos: &Cosmos<M>, groups: Vec<(Weak, Vec<T>)>) -> (r: Vec<(CrdI, Weak, Vec<T>)>)
    requires
        cosmos.wf(),
        cosmos.ripper.wf(),
    ensures
        entries_view(r@) == placed_groups(*cosmos, groups_view(groups@)),
{
    let ghost gv = groups_view(groups@);
    let chunk = cosmos.ripper.chunk_size;
    let size = cosmos.plate.size;
    let mut out: Vec<(CrdI, Weak, Vec<T>)> = Vec::new();
    let mut rest = groups;
    let mut i: usize = 0;
    let n = rest.len();
    let ghost all = rest@;
    while i < n
        invariant
            cosmos.wf(),
            cosmos.ripper.wf(),
            chunk == cosmos.ripper.chunk_size,
            size == cosmos.plate.size,
            n == all.len(),
            gv == groups_view(all),
            i <= n,
            rest@ == all.subrange(i as int, n as int),
            entries_view(out@) == placed_groups(*cosmos, gv.subrange(0, i as int)),
        decreases n - i,
    {
        proof {
            assert(gv.subrange(0, i + 1).drop_last() =~= gv.subrange(0, i as int));
            assert(gv.subrange(0, i + 1).last() == (all[i as int].0, all[i as int].1@));
            assert(rest@[0] == all[i as int]);
        }
        let (k, vs) = rest.remove(0);
        proof {
            assert(rest@ =~= all.subrange(i + 1, n as int));
        }
        if k.slot < cosmos.mobs.len() {
            match &cosmos.mobs[k.slot] {
                Some(b) => {
                    proof {
                        assert(crate::cosmos::placed(cosmos.plate, k.slot, cosmos.mobs@[k.slot as int]->0));
                    }
                    let c = chunk_of(size, chunk, b.at);
                    let ghost before = out@;
                    out.push((c, k, vs));
                    proof {
                        assert(entries_view(out@) =~= entries_view(before).push((c, k, vs@)));
                    }
                },
                None => {},
            }
        }
        i = i + 1;
    }
    proof {
        assert(gv.subrange(0, n as int) =~= gv);
    }
    out
}

/// The groups of the entries of the chunk `chunk`, in order.
fn work_for<T: Copy>(entries: &Vec<(CrdI, Weak, Vec<T>)>, chunk: CrdI) -> (r: Vec<(Weak, Vec<T>)>)
    ensures
        groups_view(r@) == work_of(entries_view(entries@), chunk),
{
    let ghost ev = entries_view(entries@);
    let mut out: Vec<(Weak, Vec<T>)> = Vec::new();
    let mut i: usize = 0;
    while i < entries.len()
        invariant
            i <= entries@.len(),
            ev == entries_view(entries@),
            groups_view(out@) == work_of(ev.subrange(0, i as int), chunk),
        decreases entries@.len() - i,
    {
        proof {
            assert(ev.subrange(0, i + 1).drop_last() =~= ev.subrange(0, i as int));
            assert(ev.subrange(0, i + 1).last() == ev[i as int]);
        }
        if same_area(entries[i].0, chunk) {
            let vs = copy_vec(&entries[i].2);
            let ghost before = out@;
            out.push((entries[i].1, vs));
            proof {
                assert(groups_view(out@) =~= groups_view(before).push((entries@[i as int].1, entries@[i as int].2@)));
            }
        }
        i = i + 1;
    }
    proof {
        assert(ev.subrange(0, i as int) =~= ev);
    }
    out
}

/// The work of one batch: for each of its chunks that has work, its bound and the groups of
/// the creatures whose work belongs to it.
fn batch_works<T: Copy>(batch: CosmosRipperBatch<'_>, entries: &Vec<(CrdI, Weak, Vec<T>)>) -> (r: Vec<(CrdI, Vec<(Weak, Vec<T>)>)>)
    requires
        batch.wf(),
    ensures
        works_view(r@) == works_of(batch@, entries_view(entries@)),
{
    let ghost all = batch@;
    let ghost ev = entries_view(entries@);
    let mut b = batch;
    let mut out: Vec<(CrdI, Vec<(Weak, Vec<T>)>)> = Vec::new();
    loop
        invariant
            b.wf(),
            ev == entries_view(entries@),
            b@.len() <= all.len(),
            b@ == all.subrange(all.len() - b@.len(), all.len() as int),
            works_view(out@) == works_of(all.subrange(0, all.len() - b@.len()), ev),
        ensures
            works_view(out@) == works_of(all, ev),
        decreases b@.len(),
    {
        let ghost k = all.len() - b@.len();
        match b.next() {
            None => {
                proof {
                    assert(all.subrange(0, all.len() as int) =~= all);
                }
                break;
            },
            Some((chunk, bound)) => {
                proof {
                    assert(all.subrange(0, k + 1).drop_last() =~= all.subrange(0, k));
                    assert(all[k] == (chunk, bound));
                    assert(b@ =~= all.subrange(k + 1, all.len() as int));
                }
                let sel = work_for(entries, chunk);
                if sel.len() > 0 {
                    let ghost before = out@;
                    out.push((bound, sel));
                    proof {
                        assert(works_view(out@) =~= works_view(before).push((bound, groups_view(sel@))));
                    }
                }
            },
        }
    }
    out
}

/// Plans this tick's orders: groups the orders `due` by creature, leaves out the creatures no
/// longer on the plate, and hands each group to the chunk that holds the middle of its
/// creature. For each batch of the ripper, in order, it gives each chunk of the batch that
/// has work, in order, with its bound.
pub fn plan_orders<M, T: Copy>(cosmos: &Cosmos<M>, due: &Vec<(Weak, T)>) -> (r: Vec<Vec<(CrdI, Vec<(Weak, Vec<T>)>)>>)
    requires
        cosmos.wf(),
        cosmos.ripper.wf(),
    ensures
        r@.len() == batch_offsets(cosmos.ripper).len(),
        forall|b: int| 0 <= b < r@.len() ==> works_view((#[trigger] r@[b])@) == works_of(
            batch_slices(cosmos.ripper, batch_offsets(cosmos.ripper)[b]),
            placed_groups(*cosmos, group_seq(due@)),
        ),
{
    let groups = group_by_mob(due);
    proof {
        lemma_grouped_unique(due@, groups_view(groups@));
    }
    let entries = place_groups(cosmos, groups);
    let batches = cosmos.ripper.with();
    let ghost ev = entries_view(entries@);
    let mut out: Vec<Vec<(CrdI, Vec<(Weak, Vec<T>)>)>> = Vec::new();
    let mut i: usize = 0;
    while i < batches.len()
        invariant
            cosmos.ripper.wf(),
            ev == entries_view(entries@),
            ev == placed_groups(*cosmos, group_seq(due@)),
            batches@.len() == batch_offsets(cosmos.ripper).len(),
            forall|k: int| 0 <= k < batches@.len() ==> {
                let o = batch_offsets(cosmos.ripper)[k];
                &&& (#[trigger] batches@[k]).ripper == cosmos.ripper
                &&& batches@[k].batch_offset == Coord(o.0 as isize, o.1 as isize)
                &&& batches@[k].consumed == Coord(0isize, 0isize)
                &&& batches@[k].wf()
            },
            i <= batches@.len(),
            out@.len() == i,
            forall|b: int| 0 <= b < i ==> works_view((#[trigger] out@[b])@) == works_of(
                batch_slices(cosmos.ripper, batch_offsets(cosmos.ripper)[b]),
                ev,
            ),
        decreases batches@.len() - i,
    {
        let batch = batches[i];
        let w = batch_works(batch, &entries);
        proof {
            let o = batch_offsets(cosmos.ripper)[i as int];
            assert(batch@ =~= batch_slices(cosmos.ripper, o));
        }
        out.push(w);
        i = i + 1;
    }
    out
}

/// Each group of a chunk's work comes from an entry of that chunk.
proof fn lemma_work_of_from<T>(entries: Seq<(CrdI, Weak, Seq<T>)>, chunk: CrdI, i: int)
    requires
        0 <= i < work_of(entries, chunk).len(),
    ensures
        exists|j: int| 0 <= j < entries.len() && #[trigger] entries[j] == (chunk, work_of(entries, chunk)[i].0, work_of(entries, chunk)[i].1),
    decreases entries.len(),
{
    let w = work_of(entries.drop_last(), chunk);
    if i < w.len() {
        lemma_work_of_from(entries.drop_last(), chunk, i);
        let j = choose|j: int| 0 <= j < entries.drop_last().len() && #[trigger] entries.drop_last()[j] == (chunk, w[i].0, w[i].1);
        assert(entries[j] == entries.drop_last()[j]);
    } else {
        assert(entries[entries.len() - 1] == entries.last());
    }
}

/// The creatures of the placed groups are those of the groups, in order, each once when
/// each group's creature is.
proof fn lemma_placed_distinct<M, T>(c: Cosmos<M>, groups: Seq<(Weak, Seq<T>)>)
    requires
        forall|i: int, j: int| 0 <= i < j < groups.len() ==> groups[i].0 != groups[j].0,
    ensures
        forall|i: int, j: int| 0 <= i < j < placed_groups(c, groups).len() ==> placed_groups(c, groups)[i].1 != placed_groups(c, groups)[j].1,
        forall|i: int| 0 <= i < placed_groups(c, groups).len() ==> exists|k: int| 0 <= k < groups.len() && #[trigger] groups[k].0 == (#[trigger] placed_groups(c, groups)[i]).1,
    decreases groups.len(),
{
    if groups.len() > 0 {
        let g = groups.drop_last();
        assert forall|i: int, j: int| 0 <= i < j < g.len() implies g[i].0 != g[j].0 by {
            assert(g[i] == groups[i] && g[j] == groups[j]);
        }
        lemma_placed_distinct(c, g);
        let e = placed_groups(c, g);
        let last = groups.last();
        assert forall|i: int| 0 <= i < e.len() implies e[i].1 != last.0 by {
            let k = choose|k: int| 0 <= k < g.len() && #[trigger] g[k].0 == e[i].1;
            assert(g[k] == groups[k]);
            assert(groups[groups.len() - 1] == last);
        }
        let pe = placed_groups(c, groups);
        assert forall|i: int| 0 <= i < pe.len() implies exists|k: int| 0 <= k < groups.len() && #[trigger] groups[k].0 == (#[trigger] pe[i]).1 by {
            if i < e.len() {
                let k = choose|k: int| 0 <= k < g.len() && #[trigger] g[k].0 == e[i].1;
                assert(groups[k] == g[k]);
            } else {
                assert(groups[groups.len() - 1].0 == pe[i].1);
            }
        }
    }
}

/// The groups of `group_by_mob` name each creature once.
proof fn lemma_group_seq_distinct<T>(items: Seq<(Weak, T)>)
    ensures
        forall|i: int, j: int| 0 <= i < j < group_seq(items).len() ==> group_seq(items)[i].0 != group_seq(items)[j].0,
{
    lemma_first_keys_distinct(items);
}

/// A creature's orders are carried out at most once a tick: the works of two different chunk
/// positions never hold the same creature.
pub proof fn lemma_orders_once<M, T>(
    c: Cosmos<M>,
    due: Seq<(Weak, T)>,
    o1: (int, int),
    c1: (int, int),
    o2: (int, int),
    c2: (int, int),
    i1: int,
    i2: int,
)
    requires
        c.ripper.wf(),
        tile_pos(c.ripper, o1, c1),
        tile_pos(c.ripper, o2, c2),
        o1 != o2 || c1 != c2,
        0 <= i1 < work_of(placed_groups(c, group_seq(due)), ripper_slice(c.ripper, Coord(o1.0 as isize, o1.1 as isize), c1).0).len(),
        0 <= i2 < work_of(placed_groups(c, group_seq(due)), ripper_slice(c.ripper, Coord(o2.0 as isize, o2.1 as isize), c2).0).len(),
    ensures
        work_of(placed_groups(c, group_seq(due)), ripper_slice(c.ripper, Coord(o1.0 as isize, o1.1 as isize), c1).0)[i1].0
            != work_of(placed_groups(c, group_seq(due)), ripper_slice(c.ripper, Coord(o2.0 as isize, o2.1 as isize), c2).0)[i2].0,
{
    let e = placed_groups(c, group_seq(due));
    let ch1 = ripper_slice(c.ripper, Coord(o1.0 as isize, o1.1 as isize), c1).0;
    let ch2 = ripper_slice(c.ripper, Coord(o2.0 as isize, o2.1 as isize), c2).0;
    lemma_chunks_distinct(c.ripper, o1, c1, o2, c2);
    lemma_group_seq_distinct(due);
    lemma_placed_distinct(c, group_seq(due));
    let w1 = work_of(e, ch1)[i1];
    let w2 = work_of(e, ch2)[i2];
    lemma_work_of_from(e, ch1, i1);
    lemma_work_of_from(e, ch2, i2);
    let j1 = choose|j: int| 0 <= j < e.len() && #[trigger] e[j] == (ch1, w1.0, w1.1);
    let j2 = choose|j: int| 0 <= j < e.len() && #[trigger] e[j] == (ch2, w2.0, w2.1);
    if w1.0 == w2.0 {
        assert(j1 != j2);
        if j1 < j2 {
            assert(e[j1].1 != e[j2].1);
        } else {
            assert(e[j2].1 != e[j1].1);
        }
    }
}

} // verus!
