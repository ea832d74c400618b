use vstd::prelude::*;

use rand::rngs::StdRng;

use crate::cosmos::{placed, Cosmos, MobRefMut, _MobBlock};
use crate::deamon::grounds_valid;
use crate::grids::{
    from_corner, normalize_area, normalize_pos, offset, spec_normalize_area, spec_normalize_pos, spec_offset, valid_size, Coord, Crd,
    CrdI, Interval,
};
use crate::mob::bio::{Bio, BioAction, BioMutex, BioTarget};
use crate::mob::bfs::{diamond_offset, lemma_offsets_extend, lemma_offsets_prefix, manhattan_offsets, ring};
use crate::mob::bio_order::target_ok;
use crate::mob::letters::{Msg, Order, Post};
use crate::mob::pathfind::{abs, cc};
use crate::mob::species::{spec_watching_choice, MobSight};
use crate::plate::{cell_index, in_plate, index_of, normal_area};
use crate::random::sample_uniform_isize;
use crate::refs::Weak;
use crate::types::ThreatT;

verus! {

/// The area `a` contains the position `p` (without going around the plate's edges).
pub open spec fn area_contains(a: CrdI, p: Crd) -> bool {
    a.0.from <= p.0 <= a.0.to && a.1.from <= p.1 <= a.1.to
}

/// What creature `s` sees of the creature on the cell `p`.
pub open spec fn spec_sight(c: Cosmos<Bio>, p: Crd) -> Option<MobSight> {
    match c.plate.mob_at(p.0 as int, p.1 as int) {
        Some(t) => Some(MobSight { threat: c.block(t).mob.species.threat, at: c.block(t).at, mob: Weak { slot: t } }),
        None => None,
    }
}

/// The target creature `s` picks at `p` (brought into the plate); nothing on its own area.
pub open spec fn spec_choice_at(c: Cosmos<Bio>, s: usize, p: Crd) -> Option<BioTarget> {
    let q = spec_normalize_pos(c.plate.size, p);
    if area_contains(c.block(s).at, q) {
        None
    } else {
        Some(spec_watching_choice(
            &*c.block(s).mob.species,
            q,
            c.plate.blocks@[cell_index(c.plate.size, q.0 as int, q.1 as int)].ground.spec_energy(c.properties.tick),
            spec_sight(c, q),
        ))
    }
}

/// One step of watching: a choice with the lowest or highest weight is taken at once and ends
/// the watch; otherwise a choice whose weight is larger in size replaces the current one.
pub open spec fn watch_step(cur: BioTarget, ch: Option<BioTarget>) -> (BioTarget, bool) {
    match ch {
        None => (cur, false),
        Some(t) => if t.action_weight == i8::MIN || t.action_weight == i8::MAX {
            (t, true)
        } else if abs(t.action_weight as int) > abs(cur.action_weight as int) {
            (t, false)
        } else {
            (cur, false)
        },
    }
}

/// The target after watching the cells `start + offs`, in order, and whether the watch ended early.
pub open spec fn spec_watch(c: Cosmos<Bio>, s: usize, start: Crd, cur: BioTarget, offs: Seq<Crd>) -> (BioTarget, bool)
    decreases offs.len(),
{
    if offs.len() == 0 {
        (cur, false)
    } else {
        let (t, stop) = spec_watch(c, s, start, cur, offs.drop_last());
        if stop {
            (t, true)
        } else {
            let o = offs.last();
            watch_step(t, spec_choice_at(c, s, Coord((start.0 + o.0) as isize, (start.1 + o.1) as isize)))
        }
    }
}

/// Creature `s` can weigh every creature it may see.
pub open spec fn threats_ok(c: Cosmos<Bio>, s: usize) -> bool {
    forall|t: usize| #[trigger] c.alive(t) ==> c.block(s).mob.species.chase_threshold - c.block(t).mob.species.threat <= ThreatT::MAX
}

/// The cell the creature picks to watch, if any.
fn choice_at(c: &Cosmos<Bio>, s: usize, p: Crd) -> (r: Option<BioTarget>)
    requires
        c.wf(),
        c.alive(s),
        grounds_valid(c.plate, c.properties.tick),
        threats_ok(*c, s),
    ensures
        r == spec_choice_at(*c, s, p),
{
    let size = c.plate.size;
    let q = normalize_pos(size, p);
    let blk = c.mobs[s].as_ref().unwrap();
    if blk.at.0.from <= q.0 && q.0 <= blk.at.0.to && blk.at.1.from <= q.1 && q.1 <= blk.at.1.to {
        return None;
    }
    let i = index_of(size, q.0, q.1);
    proof {
        assert(c.plate.blocks@[i as int].ground.valid_at(c.properties.tick));
    }
    let energy = c.plate.blocks[i].ground.energy(c.properties.tick);
    let sight = match c.plate.blocks[i].mob {
        Some(t) => {
            proof {
                assert(in_plate(size, q.0 as int, q.1 as int));
                assert(c.alive(t));
            }
            let other = c.mobs[t].as_ref().unwrap();
            Some(MobSight { threat: other.mob.species.threat, at: other.at, mob: Weak { slot: t } })
        },
        None => None,
    };
    Some(blk.mob.species.watching_choice(q, energy, sight))
}

} // verus!

verus! {

/// How strongly a weight pulls, whichever way.
fn weight_size(w: i8) -> (r: i16)
    ensures
        r == abs(w as int),
{
    let v = w as i16;
    if v < 0 { -v } else { v }
}

/// Once a watch has ended early, watching more cells changes nothing.
proof fn lemma_watch_stopped(c: Cosmos<Bio>, s: usize, start: Crd, cur: BioTarget, offs: Seq<Crd>, more: Seq<Crd>)
    requires
        spec_watch(c, s, start, cur, offs).1,
    ensures
        spec_watch(c, s, start, cur, offs + more) == spec_watch(c, s, start, cur, offs),
    decreases more.len(),
{
    if more.len() == 0 {
        assert(offs + more =~= offs);
    } else {
        lemma_watch_stopped(c, s, start, cur, offs, more.drop_last());
        assert((offs + more).drop_last() =~= offs + more.drop_last());
    }
}

/// Watches the cells around `start`, ring by ring, up to `depth` rings out.
fn watch(c: &Cosmos<Bio>, s: usize, start: Crd, cur: BioTarget, depth: u16) -> (r: (BioTarget, bool))
    requires
        c.wf(),
        c.alive(s),
        grounds_valid(c.plate, c.properties.tick),
        threats_ok(*c, s),
        -0x1000_0000 <= start.0 <= 0x1000_0000,
        -0x1000_0000 <= start.1 <= 0x1000_0000,
    ensures
        r == spec_watch(*c, s, start, cur, manhattan_offsets(depth as int)),
{
    let first = choice_at(c, s, Coord(start.0, start.1));
    let ghost m0 = manhattan_offsets(0);
    proof {
        assert(m0 =~= seq![cc(0, 0)]);
        assert(m0.drop_last() =~= Seq::<Crd>::empty());
        assert(spec_watch(*c, s, start, cur, m0.drop_last()) == (cur, false));
        assert(Coord((start.0 + m0.last().0) as isize, (start.1 + m0.last().1) as isize) == start);
        assert(spec_watch(*c, s, start, cur, m0) == watch_step(cur, first));
        lemma_offsets_prefix(0, depth as int);
    }
    let mut acc = cur;
    match first {
        Some(t) => {
            if t.action_weight == i8::MIN || t.action_weight == i8::MAX {
                proof {
                    let whole = manhattan_offsets(depth as int);
                    lemma_watch_stopped(*c, s, start, cur, m0, whole.subrange(m0.len() as int, whole.len() as int));
                }
                return (t, true);
            }
            if weight_size(t.action_weight) > weight_size(acc.action_weight) {
                acc = t;
            }
        },
        None => {},
    }
    let depth_i: isize = depth as isize;
    let mut r: isize = 1;
    while r <= depth_i
        invariant
            c.wf(),
            c.alive(s),
            grounds_valid(c.plate, c.properties.tick),
            threats_ok(*c, s),
            -0x1000_0000 <= start.0 <= 0x1000_0000,
            -0x1000_0000 <= start.1 <= 0x1000_0000,
            depth_i == depth,
            1 <= r <= depth_i + 1,
            (acc, false) == spec_watch(*c, s, start, cur, manhattan_offsets(r - 1)),
        decreases depth_i + 1 - r,
    {
        let mut k: isize = 0;
        while k < 5 * r
            invariant
                c.wf(),
                c.alive(s),
                grounds_valid(c.plate, c.properties.tick),
                threats_ok(*c, s),
                -0x1000_0000 <= start.0 <= 0x1000_0000,
                -0x1000_0000 <= start.1 <= 0x1000_0000,
                depth_i == depth,
                1 <= r <= depth_i,
                0 <= k <= 5 * r,
                (acc, false) == spec_watch(*c, s, start, cur, manhattan_offsets(r - 1) + ring(r as int).take(k as int)),
            decreases 5 * r - k,
        {
            let o = diamond_offset(r, k);
            let ch = choice_at(c, s, Coord(start.0 + o.0, start.1 + o.1));
            let ghost prefix = manhattan_offsets(r - 1) + ring(r as int).take(k as int);
            proof {
                assert((manhattan_offsets(r - 1) + ring(r as int).take(k + 1)).drop_last() =~= prefix);
                assert((manhattan_offsets(r - 1) + ring(r as int).take(k + 1)).last() == o);
            }
            match ch {
                Some(t) => {
                    if t.action_weight == i8::MIN || t.action_weight == i8::MAX {
                        proof {
                            let whole = manhattan_offsets(depth as int);
                            let done = manhattan_offsets(r - 1) + ring(r as int).take(k + 1);
                            lemma_offsets_extend(r as int, k + 1, depth as int);
                            lemma_watch_stopped(*c, s, start, cur, done, whole.subrange(done.len() as int, whole.len() as int));
                            assert(done + whole.subrange(done.len() as int, whole.len() as int) =~= whole);
                        }
                        return (t, true);
                    }
                    if weight_size(t.action_weight) > weight_size(acc.action_weight) {
                        acc = t;
                    }
                },
                None => {},
            }
            k = k + 1;
        }
        proof {
            assert(ring(r as int).take(5 * r) =~= ring(r as int));
            assert(manhattan_offsets(r as int) == manhattan_offsets(r - 1) + ring(r as int));
        }
        r = r + 1;
    }
    (acc, false)
}


} // verus!

verus! {

/// How far a stroll may go on each axis, either way.
pub open spec fn stroll_rel_ok(rel: Crd) -> bool {
    -50 <= rel.0 <= 50 && -50 <= rel.1 <= 50
}

/// A stroll to the area `at` moved by `rel`, brought into the plate.
pub open spec fn spec_stroll(size: Crd, at: CrdI, rel: Crd) -> BioTarget {
    BioTarget {
        action_weight: 0,
        action: BioAction::Stroll,
        action_range: Coord(0, 0),
        target: Some(spec_normalize_area(size, spec_offset(at, rel))),
        target_mob: None,
    }
}

/// A stroll to the area `at` moved by `rel`, brought into the plate.
pub fn stroll_target(size: Crd, at: CrdI, rel: Crd) -> (r: BioTarget)
    requires
        valid_size(size),
        normal_area(size, at),
        stroll_rel_ok(rel),
    ensures
        r == spec_stroll(size, at, rel),
        target_ok(size, r),
{
    let moved = offset(at, rel);
    BioTarget {
        action_weight: 0,
        action: BioAction::Stroll,
        action_range: Coord(0, 0),
        target: Some(normalize_area(size, moved)),
        target_mob: None,
    }
}

/// What watching gives creature `s`: the aim it ends with, and whether it found anything
/// worth doing. It watches only on wake-ups that are a multiple of its watch period.
pub open spec fn spec_watched(c: Cosmos<Bio>, s: usize) -> (BioTarget, bool) {
    let b = c.block(s);
    let cur = b.mob.target.target;
    if b.mob.age % b.mob.species.watch_period == 0 {
        let (t, stop) = spec_watch(c, s, Coord(b.at.0.from, b.at.1.from), cur, manhattan_offsets(b.mob.species.watch_range as int));
        (t, stop || t.action != BioAction::Nothing)
    } else {
        (cur, false)
    }
}

/// The aim creature `s` takes on waking, or `None` where it goes for a stroll.
/// An aim with a target place is kept; one with only a target creature learns where that
/// creature stands, or forgets it when it is gone; otherwise the creature watches.
pub open spec fn spec_hear_target(c: Cosmos<Bio>, s: usize) -> Option<BioTarget> {
    let cur = c.block(s).mob.target.target;
    if cur.target is Some {
        Some(cur)
    } else {
        match cur.target_mob {
            Some(w) => Some(
                if c.alive(w.slot) {
                    BioTarget { target: Some(c.block(w.slot).at), ..cur }
                } else {
                    BioTarget { target_mob: None, ..cur }
                },
            ),
            None => {
                let (t, watched) = spec_watched(c, s);
                if watched { Some(t) } else { None }
            },
        }
    }
}

/// `t` is an aim creature `s` may take on waking: the one `spec_hear_target` gives, or
/// else a stroll within range.
pub open spec fn hear_outcome(c: Cosmos<Bio>, s: usize, t: BioTarget) -> bool {
    match spec_hear_target(c, s) {
        Some(x) => t == x,
        None => exists|rel: Crd| #[trigger] stroll_rel_ok(rel) && t == spec_stroll(c.plate.size, c.block(s).at, rel),
    }
}

/// Creature `s` has a watch period wherever it would watch.
pub open spec fn watch_period_ok(c: Cosmos<Bio>, s: usize) -> bool {
    let cur = c.block(s).mob.target.target;
    cur.target is None && cur.target_mob is None ==> c.block(s).mob.species.watch_period > 0
}

/// Whether the creature in slot `s` may hear now: its chase threshold can be weighed
/// against every creature's threat, and an aimless creature watches at some period.
pub fn can_hear(c: &Cosmos<Bio>, s: usize) -> (r: bool)
    requires
        c.alive(s),
    ensures
        r == (threats_ok(*c, s) && watch_period_ok(*c, s)),
{
    let b = c.mobs[s].as_ref().unwrap();
    let chase = b.mob.species.chase_threshold;
    let cur = b.mob.target.target;
    if cur.target.is_none() && cur.target_mob.is_none() && b.mob.species.watch_period == 0 {
        return false;
    }
    let mut i: usize = 0;
    while i < c.mobs.len()
        invariant
            c.alive(s),
            chase == c.block(s).mob.species.chase_threshold,
            i <= c.mobs@.len(),
            forall|t: usize| t < i && #[trigger] c.alive(t) ==> chase - c.block(t).mob.species.threat <= ThreatT::MAX,
        decreases c.mobs@.len() - i,
    {
        match &c.mobs[i] {
            Some(o) => {
                if (chase as i64) - (o.mob.species.threat as i64) > ThreatT::MAX as i64 {
                    proof {
                        assert(c.alive(i));
                    }
                    return false;
                }
            },
            None => {},
        }
        i = i + 1;
    }
    proof {
        assert forall|t: usize| #[trigger] c.alive(t) implies chase - c.block(t).mob.species.threat <= ThreatT::MAX by {
            assert(t < i);
        }
    }
    true
}

/// Every choice a watch can make has a target inside the plate.
proof fn lemma_choice_target_ok(c: Cosmos<Bio>, s: usize, p: Crd)
    requires
        c.wf(),
        c.alive(s),
    ensures
        spec_choice_at(c, s, p) matches Some(t) ==> target_ok(c.plate.size, t),
{
    let size = c.plate.size;
    let q = spec_normalize_pos(size, p);
    assert(in_plate(size, q.0 as int, q.1 as int));
    if let Some(t) = c.plate.mob_at(q.0 as int, q.1 as int) {
        assert(c.alive(t));
        assert(placed(c.plate, t, c.mobs@[t as int]->0));
    }
}

/// Watching keeps the aim's target inside the plate.
proof fn lemma_watch_target_ok(c: Cosmos<Bio>, s: usize, start: Crd, cur: BioTarget, offs: Seq<Crd>)
    requires
        c.wf(),
        c.alive(s),
        target_ok(c.plate.size, cur),
    ensures
        target_ok(c.plate.size, spec_watch(c, s, start, cur, offs).0),
    decreases offs.len(),
{
    if offs.len() > 0 {
        lemma_watch_target_ok(c, s, start, cur, offs.drop_last());
        let o = offs.last();
        lemma_choice_target_ok(c, s, Coord((start.0 + o.0) as isize, (start.1 + o.1) as isize));
    }
}

/// The aim creature `s` takes on waking; a stroll goes to a place drawn from `rng`.
fn hear_target(c: &Cosmos<Bio>, s: usize, rng: &mut StdRng) -> (r: BioTarget)
    requires
        c.wf(),
        c.alive(s),
        grounds_valid(c.plate, c.properties.tick),
        threats_ok(*c, s),
        watch_period_ok(*c, s),
    ensures
        hear_outcome(*c, s, r),
        target_ok(c.plate.size, c.block(s).mob.target.target) ==> target_ok(c.plate.size, r),
{
    let size = c.plate.size;
    let blk = c.mobs[s].as_ref().unwrap();
    proof {
        assert(placed(c.plate, s, c.mobs@[s as int]->0));
    }
    let cur = blk.mob.target.target;
    if cur.target.is_some() {
        return cur;
    }
    match cur.target_mob {
        Some(w) => {
            match c.wrap_weak(&w) {
                Some(m) => {
                    proof {
                        assert(placed(c.plate, w.slot, c.mobs@[w.slot as int]->0));
                    }
                    BioTarget { target: Some(m.at()), ..cur }
                },
                None => BioTarget { target_mob: None, ..cur },
            }
        },
        None => {
            let mut t = cur;
            let mut watched = false;
            if blk.mob.age % blk.mob.species.watch_period == 0 {
                let start = from_corner(blk.at);
                let (t2, stop) = watch(c, s, start, cur, blk.mob.species.watch_range);
                proof {
                    lemma_watch_target_ok(*c, s, start, cur, manhattan_offsets(blk.mob.species.watch_range as int));
                }
                t = t2;
                watched = stop || t2.action != BioAction::Nothing;
            }
            if watched {
                t
            } else if blk.mob.age % blk.mob.species.stroll_period() == 0 {
                let range = blk.mob.species.stroll_range();
                let rx = sample_uniform_isize(rng, -range, range + 1);
                let ry = sample_uniform_isize(rng, -range, range + 1);
                let r = stroll_target(size, blk.at, Coord(rx, ry));
                proof {
                    assert(stroll_rel_ok(Coord(rx, ry)));
                }
                r
            } else {
                t
            }
        },
    }
}

/// `c1` and `r` are what creature `s` of `c0` hearing `messages` gives. Unless one of them wakes
/// it, nothing happens. Awake, it asks to be woken again after its wake period and to act at
/// once, and picks its aim (see `hear_outcome`); nothing but its aim changes.
pub open spec fn heard(c0: Cosmos<Bio>, c1: Cosmos<Bio>, s: usize, messages: Seq<Msg>, r: Seq<Post>) -> bool {
    let b = c0.block(s);
    let woke = exists|j: int| 0 <= j < messages.len() && messages[j] == Msg::Wake;
    let t = c1.block(s).mob.target.target;
    &&& c1.wf()
    &&& c1.plate == c0.plate
    &&& c1.properties == c0.properties
    &&& !woke ==> r == Seq::<Post>::empty() && c1.mobs@ == c0.mobs@
    &&& woke ==> {
        &&& r == seq![
            Post::Tell { to: Weak { slot: s }, msg: Msg::Wake, delay: b.mob.species.wake_period },
            Post::Order { to: Weak { slot: s }, order: Order::MobMainTick, delay: 0 },
        ]
        &&& c1.mobs@ == c0.mobs@.update(s as int, Some(_MobBlock { mob: Bio { target: BioMutex { target: t }, ..b.mob }, ..b }))
        &&& hear_outcome(c0, s, t)
    }
    &&& target_ok(c0.plate.size, b.mob.target.target) ==> target_ok(c0.plate.size, t)
}

/// Creature `s` of `c` is there and can hear (see `can_hear`).
pub open spec fn hearable(c: Cosmos<Bio>, s: usize) -> bool {
    c.alive(s) && threats_ok(c, s) && watch_period_ok(c, s)
}

/// The posts of each step, one after another.
pub open spec fn all_posts(ps: Seq<Seq<Post>>) -> Seq<Post>
    decreases ps.len(),
{
    if ps.len() == 0 {
        Seq::empty()
    } else {
        all_posts(ps.drop_last()) + ps.last()
    }
}

/// `cs` are the worlds between the deliveries of `groups`, one after another, from `cs[0]`,
/// and `ps` the posts each gives: a creature that can hear hears its messages, and the
/// messages for any other are dropped.
pub open spec fn delivered(groups: Seq<(Weak, Vec<Msg>)>, cs: Seq<Cosmos<Bio>>, ps: Seq<Seq<Post>>) -> bool {
    &&& cs.len() == groups.len() + 1
    &&& ps.len() == groups.len()
    &&& forall|k: int| 0 <= k < groups.len() ==> {
        let s = (#[trigger] groups[k]).0.slot;
        &&& hearable(cs[k], s) ==> heard(cs[k], cs[k + 1], s, groups[k].1@, ps[k])
        &&& !hearable(cs[k], s) ==> cs[k + 1] == cs[k] && ps[k] == Seq::<Post>::empty()
    }
}

/// Delivers each creature's messages in turn, in the order of `groups`: a creature that is
/// there and can hear hears them (see `Bio::hear`), and messages for any other are dropped.
/// Gives the posts of all of them, in that order.
pub fn deliver_messages(cosmos: &mut Cosmos<Bio>, groups: &Vec<(Weak, Vec<Msg>)>, rng: &mut StdRng) -> (r: Vec<Post>)
    requires
        old(cosmos).wf(),
        grounds_valid(old(cosmos).plate, old(cosmos).properties.tick),
    ensures
        final(cosmos).wf(),
        final(cosmos).plate == old(cosmos).plate,
        final(cosmos).properties == old(cosmos).properties,
        exists|cs: Seq<Cosmos<Bio>>, ps: Seq<Seq<Post>>|
            #[trigger] delivered(groups@, cs, ps) && cs[0] == *old(cosmos) && cs.last() == *final(cosmos) && r@ == all_posts(ps),
{
    let mut posts: Vec<Post> = Vec::new();
    let ghost mut cs: Seq<Cosmos<Bio>> = seq![*cosmos];
    let ghost mut ps: Seq<Seq<Post>> = Seq::empty();
    let mut k: usize = 0;
    while k < groups.len()
        invariant
            k <= groups@.len(),
            cosmos.wf(),
            cosmos.plate == old(cosmos).plate,
            cosmos.properties == old(cosmos).properties,
            grounds_valid(cosmos.plate, cosmos.properties.tick),
            cs.len() == k + 1,
            ps.len() == k,
            cs[0] == *old(cosmos),
            cs.last() == *cosmos,
            posts@ == all_posts(ps),
            delivered(groups@.subrange(0, k as int), cs, ps),
        decreases groups@.len() - k,
    {
        let s = groups[k].0.slot;
        let ghost before = *cosmos;
        let ghost heard_posts: Seq<Post>;
        let here = s < cosmos.mobs.len() && cosmos.mobs[s].is_some();
        if here && can_hear(cosmos, s) {
            let mut p = Bio::hear(cosmos, MobRefMut { slot: s }, &groups[k].1, rng);
            proof {
                heard_posts = p@;
            }
            posts.append(&mut p);
        } else {
            proof {
                heard_posts = Seq::empty();
            }
        }
        proof {
            let ps1 = ps.push(heard_posts);
            assert(ps1.drop_last() =~= ps);
            assert(posts@ =~= all_posts(ps1));
            let cs1 = cs.push(*cosmos);
            let g1 = groups@.subrange(0, k + 1);
            assert forall|j: int| 0 <= j < g1.len() implies {
                let t = (#[trigger] g1[j]).0.slot;
                &&& hearable(cs1[j], t) ==> heard(cs1[j], cs1[j + 1], t, g1[j].1@, ps1[j])
                &&& !hearable(cs1[j], t) ==> cs1[j + 1] == cs1[j] && ps1[j] == Seq::<Post>::empty()
            } by {
                if j < k {
                    assert(g1[j] == groups@.subrange(0, k as int)[j]);
                }
            }
            cs = cs1;
            ps = ps1;
        }
        k = k + 1;
    }
    proof {
        assert(groups@.subrange(0, k as int) =~= groups@);
    }
    posts
}

impl Bio {
    /// Creature `mob` hears `messages`. Unless one of them wakes it, nothing happens.
    /// Awake, it asks to be woken again after its wake period and to act at once, and
    /// picks its aim (see `hear_outcome`).
    pub fn hear(cosmos: &mut Cosmos<Bio>, mob: MobRefMut, messages: &Vec<Msg>, rng: &mut StdRng) -> (r: Vec<Post>)
        requires
            old(cosmos).wf(),
            old(cosmos).alive(mob.slot),
            grounds_valid(old(cosmos).plate, old(cosmos).properties.tick),
            threats_ok(*old(cosmos), mob.slot),
            watch_period_ok(*old(cosmos), mob.slot),
        ensures
            heard(*old(cosmos), *final(cosmos), mob.slot, messages@, r@),
    {
        let s = mob.slot;
        let mut wake = false;
        let mut i: usize = 0;
        while i < messages.len()
            invariant
                i <= messages.len(),
                wake == exists|j: int| 0 <= j < i && messages@[j] == Msg::Wake,
            decreases messages.len() - i,
        {
            match messages[i] {
                Msg::Wake => wake = true,
            }
            i = i + 1;
        }
        if !wake {
            return Vec::new();
        }
        let ghost c0 = *cosmos;
        let next = hear_target(cosmos, s, rng);
        let blk = cosmos.mobs[s].as_ref().unwrap();
        let mut posts: Vec<Post> = Vec::new();
        posts.push(Post::Tell { to: mob.downgrade(), msg: Msg::Wake, delay: blk.mob.species.wake_period });
        posts.push(Post::Order { to: mob.downgrade(), order: Order::MobMainTick, delay: blk.mob.species.act_delay() });
        cosmos.mob_mut(s).target.target = next;
        proof {
            crate::cosmos::lemma_wf_mob_changed(c0, *cosmos, s, cosmos.block(s).mob);
            assert(posts@ =~= seq![
                Post::Tell { to: Weak { slot: s }, msg: Msg::Wake, delay: c0.block(s).mob.species.wake_period },
                Post::Order { to: Weak { slot: s }, order: Order::MobMainTick, delay: 0 },
            ]);
        }
        posts
    }
}

} // verus!
