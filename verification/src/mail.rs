use vstd::prelude::*;

use crate::cosmos::Cosmos;
use crate::grids::{normalize_pos, spec_normalize_pos, Crd};
use crate::mob::letters::{Msg, Order, Post};
use crate::plate::Plate;
use crate::refs::Weak;
use crate::types::Tick;

verus! {

/// Something that takes messages addressed by `Index`, to be heard after `delay` ticks.
pub trait Teller<Index, Letter> {
    fn tell(&mut self, index: Index, letter: Letter, delay: Tick);
}

/// Something that takes orders addressed by `Index`, to be carried out after `delay` ticks.
pub trait Orderer<Index, Letter> {
    fn order(&mut self, index: Index, letter: Letter, delay: Tick);
}

/// The tick a letter sent at `now` with `delay` is due at; letters due past the last tick
/// that can be counted are due at that last tick.
pub open spec fn due_at(now: Tick, delay: Tick) -> Tick {
    if now + delay <= u64::MAX {
        (now + delay) as Tick
    } else {
        u64::MAX
    }
}

/// The letters of `queue` due by `now`, in the order they were sent, with their addresses.
pub open spec fn due_of<K, T>(queue: Seq<(Tick, K, T)>, now: Tick) -> Seq<(K, T)>
    decreases queue.len(),
{
    if queue.len() == 0 {
        Seq::empty()
    } else {
        let d = due_of(queue.drop_last(), now);
        let l = queue.last();
        if l.0 <= now { d.push((l.1, l.2)) } else { d }
    }
}

/// The letters of `queue` due after `now`, in the order they were sent.
pub open spec fn later_of<K, T>(queue: Seq<(Tick, K, T)>, now: Tick) -> Seq<(Tick, K, T)>
    decreases queue.len(),
{
    if queue.len() == 0 {
        Seq::empty()
    } else {
        let k = later_of(queue.drop_last(), now);
        let l = queue.last();
        if l.0 <= now { k } else { k.push(l) }
    }
}

/// The messages among `posts`, sent at `now`, each with the tick it is due at.
pub open spec fn told(posts: Seq<Post>, now: Tick) -> Seq<(Tick, Weak, Msg)>
    decreases posts.len(),
{
    if posts.len() == 0 {
        Seq::empty()
    } else {
        let t = told(posts.drop_last(), now);
        match posts.last() {
            Post::Tell { to, msg, delay } => t.push((due_at(now, delay), to, msg)),
            Post::Order { .. } => t,
        }
    }
}

/// The orders among `posts`, sent at `now`, each with the tick it is due at.
pub open spec fn ordered(posts: Seq<Post>, now: Tick) -> Seq<(Tick, Weak, Order)>
    decreases posts.len(),
{
    if posts.len() == 0 {
        Seq::empty()
    } else {
        let o = ordered(posts.drop_last(), now);
        match posts.last() {
            Post::Tell { .. } => o,
            Post::Order { to, order, delay } => o.push((due_at(now, delay), to, order)),
        }
    }
}

/// Letters to creatures waiting to be delivered, each with the tick it is due at: those
/// addressed to a creature, and those addressed to a cell, for whichever creature stands on
/// it when they are due.
pub struct PostOffice {
    /// The current tick.
    pub now: Tick,
    pub messages: Vec<(Tick, Weak, Msg)>,
    pub orders: Vec<(Tick, Weak, Order)>,
    pub cell_messages: Vec<(Tick, Crd, Msg)>,
    pub cell_orders: Vec<(Tick, Crd, Order)>,
}

/// The letters addressed to cells, each handed to the creature on its cell (brought into
/// the plate), in order; letters to an empty cell are dropped.
pub open spec fn at_creatures<T>(plate: Plate, letters: Seq<(Crd, T)>) -> Seq<(Weak, T)>
    decreases letters.len(),
{
    if letters.len() == 0 {
        Seq::empty()
    } else {
        let d = at_creatures(plate, letters.drop_last());
        let (p, v) = letters.last();
        let q = spec_normalize_pos(plate.size, p);
        match plate.mob_at(q.0 as int, q.1 as int) {
            Some(s) => d.push((Weak { slot: s }, v)),
            None => d,
        }
    }
}

/// Hands each letter addressed to a cell to the creature standing on it.
fn to_creatures<M, T: Copy>(cosmos: &Cosmos<M>, letters: &Vec<(Crd, T)>) -> (r: Vec<(Weak, T)>)
    requires
        cosmos.plate.wf(),
    ensures
        r@ == at_creatures(cosmos.plate, letters@),
{
    let size = cosmos.plate.size;
    let mut out: Vec<(Weak, T)> = Vec::new();
    let mut i: usize = 0;
    while i < letters.len()
        invariant
            cosmos.plate.wf(),
            size == cosmos.plate.size,
            i <= letters@.len(),
            out@ == at_creatures(cosmos.plate, letters@.subrange(0, i as int)),
        decreases letters@.len() - i,
    {
        proof {
            assert(letters@.subrange(0, i + 1).drop_last() =~= letters@.subrange(0, i as int));
        }
        let (p, v) = letters[i];
        let q = normalize_pos(size, p);
        match cosmos.mob_on(q) {
            Some(s) => out.push((Weak { slot: s }, v)),
            None => {},
        }
        i = i + 1;
    }
    proof {
        assert(letters@.subrange(0, i as int) =~= letters@);
    }
    out
}

fn due_tick(now: Tick, delay: Tick) -> (r: Tick)
    ensures
        r == due_at(now, delay),
{
    now.saturating_add(delay)
}

/// Splits `queue` into the letters due by `now` and those still to wait.
fn split_due<K: Copy, T: Copy>(queue: &Vec<(Tick, K, T)>, now: Tick) -> (r: (Vec<(K, T)>, Vec<(Tick, K, T)>))
    ensures
        r.0@ == due_of(queue@, now),
        r.1@ == later_of(queue@, now),
{
    let mut due: Vec<(K, T)> = Vec::new();
    let mut later: Vec<(Tick, K, T)> = Vec::new();
    let mut i: usize = 0;
    while i < queue.len()
        invariant
            i <= queue@.len(),
            due@ == due_of(queue@.subrange(0, i as int), now),
            later@ == later_of(queue@.subrange(0, i as int), now),
        decreases queue@.len() - i,
    {
        proof {
            assert(queue@.subrange(0, i + 1).drop_last() =~= queue@.subrange(0, i as int));
        }
        let (t, k, v) = queue[i];
        if t <= now {
            due.push((k, v));
        } else {
            later.push((t, k, v));
        }
        i = i + 1;
    }
    proof {
        assert(queue@.subrange(0, i as int) =~= queue@);
    }
    (due, later)
}

impl Teller<Weak, Msg> for PostOffice {
    /// Queues `letter` for the creature `index`, due `delay` ticks from now.
    fn tell(&mut self, index: Weak, letter: Msg, delay: Tick)
        ensures
            final(self).now == old(self).now,
            final(self).messages@ == old(self).messages@.push((due_at(old(self).now, delay), index, letter)),
            final(self).orders@ == old(self).orders@,
            final(self).cell_messages@ == old(self).cell_messages@,
            final(self).cell_orders@ == old(self).cell_orders@,
    {
        let t = due_tick(self.now, delay);
        self.messages.push((t, index, letter));
    }
}

impl Orderer<Weak, Order> for PostOffice {
    /// Queues `letter` for the creature `index`, due `delay` ticks from now.
    fn order(&mut self, index: Weak, letter: Order, delay: Tick)
        ensures
            final(self).now == old(self).now,
            final(self).messages@ == old(self).messages@,
            final(self).orders@ == old(self).orders@.push((due_at(old(self).now, delay), index, letter)),
            final(self).cell_messages@ == old(self).cell_messages@,
            final(self).cell_orders@ == old(self).cell_orders@,
    {
        let t = due_tick(self.now, delay);
        self.orders.push((t, index, letter));
    }
}

impl Teller<Crd, Msg> for PostOffice {
    /// Queues `letter` for whichever creature stands on the cell `index` when it is due,
    /// `delay` ticks from now.
    fn tell(&mut self, index: Crd, letter: Msg, delay: Tick)
        ensures
            final(self).now == old(self).now,
            final(self).messages@ == old(self).messages@,
            final(self).orders@ == old(self).orders@,
            final(self).cell_messages@ == old(self).cell_messages@.push((due_at(old(self).now, delay), index, letter)),
            final(self).cell_orders@ == old(self).cell_orders@,
    {
        let t = due_tick(self.now, delay);
        self.cell_messages.push((t, index, letter));
    }
}

impl Orderer<Crd, Order> for PostOffice {
    /// Queues `letter` for whichever creature stands on the cell `index` when it is due,
    /// `delay` ticks from now.
    fn order(&mut self, index: Crd, letter: Order, delay: Tick)
        ensures
            final(self).now == old(self).now,
            final(self).messages@ == old(self).messages@,
            final(self).orders@ == old(self).orders@,
            final(self).cell_messages@ == old(self).cell_messages@,
            final(self).cell_orders@ == old(self).cell_orders@.push((due_at(old(self).now, delay), index, letter)),
    {
        let t = due_tick(self.now, delay);
        self.cell_orders.push((t, index, letter));
    }
}

impl PostOffice {
    /// An empty post office at tick `now`.
    pub fn new(now: Tick) -> (r: PostOffice)
        ensures
            r.now == now,
            r.messages@ == Seq::<(Tick, Weak, Msg)>::empty(),
            r.orders@ == Seq::<(Tick, Weak, Order)>::empty(),
            r.cell_messages@ == Seq::<(Tick, Crd, Msg)>::empty(),
            r.cell_orders@ == Seq::<(Tick, Crd, Order)>::empty(),
    {
        PostOffice { now, messages: Vec::new(), orders: Vec::new(), cell_messages: Vec::new(), cell_orders: Vec::new() }
    }

    /// Queues each of `posts` as a message or an order, in order.
    pub fn send(&mut self, posts: &Vec<Post>)
        ensures
            final(self).now == old(self).now,
            final(self).messages@ == old(self).messages@ + told(posts@, old(self).now),
            final(self).orders@ == old(self).orders@ + ordered(posts@, old(self).now),
            final(self).cell_messages@ == old(self).cell_messages@,
            final(self).cell_orders@ == old(self).cell_orders@,
    {
        let ghost m0 = self.messages@;
        let ghost o0 = self.orders@;
        let mut i: usize = 0;
        while i < posts.len()
            invariant
                i <= posts@.len(),
                self.now == old(self).now,
                m0 == old(self).messages@,
                o0 == old(self).orders@,
                self.messages@ == m0 + told(posts@.subrange(0, i as int), self.now),
                self.orders@ == o0 + ordered(posts@.subrange(0, i as int), self.now),
                self.cell_messages@ == old(self).cell_messages@,
                self.cell_orders@ == old(self).cell_orders@,
            decreases posts@.len() - i,
        {
            proof {
                assert(posts@.subrange(0, i + 1).drop_last() =~= posts@.subrange(0, i as int));
            }
            match posts[i] {
                Post::Tell { to, msg, delay } => {
                    self.tell(to, msg, delay);
                    proof {
                        assert(self.messages@ =~= m0 + told(posts@.subrange(0, i + 1), self.now));
                    }
                },
                Post::Order { to, order, delay } => {
                    self.order(to, order, delay);
                    proof {
                        assert(self.orders@ =~= o0 + ordered(posts@.subrange(0, i + 1), self.now));
                    }
                },
            }
            i = i + 1;
        }
        proof {
            assert(posts@.subrange(0, i as int) =~= posts@);
        }
    }

    /// Takes out the messages due by now, in the order they were sent: first those addressed
    /// to creatures, then those addressed to cells, each handed to the creature on its cell.
    pub fn pop_messages<M>(&mut self, cosmos: &Cosmos<M>) -> (r: Vec<(Weak, Msg)>)
        requires
            cosmos.plate.wf(),
        ensures
            r@ == due_of(old(self).messages@, old(self).now) + at_creatures(cosmos.plate, due_of(old(self).cell_messages@, old(self).now)),
            final(self).messages@ == later_of(old(self).messages@, old(self).now),
            final(self).cell_messages@ == later_of(old(self).cell_messages@, old(self).now),
            final(self).orders@ == old(self).orders@,
            final(self).cell_orders@ == old(self).cell_orders@,
            final(self).now == old(self).now,
    {
        let (mut due, later) = split_due(&self.messages, self.now);
        self.messages = later;
        let (cell_due, cell_later) = split_due(&self.cell_messages, self.now);
        self.cell_messages = cell_later;
        let mut found = to_creatures(cosmos, &cell_due);
        due.append(&mut found);
        due
    }

    /// Takes out the orders due by now, in the order they were sent: first those addressed
    /// to creatures, then those addressed to cells, each handed to the creature on its cell.
    pub fn pop_orders<M>(&mut self, cosmos: &Cosmos<M>) -> (r: Vec<(Weak, Order)>)
        requires
            cosmos.plate.wf(),
        ensures
            r@ == due_of(old(self).orders@, old(self).now) + at_creatures(cosmos.plate, due_of(old(self).cell_orders@, old(self).now)),
            final(self).orders@ == later_of(old(self).orders@, old(self).now),
            final(self).cell_orders@ == later_of(old(self).cell_orders@, old(self).now),
            final(self).messages@ == old(self).messages@,
            final(self).cell_messages@ == old(self).cell_messages@,
            final(self).now == old(self).now,
    {
        let (mut due, later) = split_due(&self.orders, self.now);
        self.orders = later;
        let (cell_due, cell_later) = split_due(&self.cell_orders, self.now);
        self.cell_orders = cell_later;
        let mut found = to_creatures(cosmos, &cell_due);
        due.append(&mut found);
        due
    }

    /// One tick passes; the letters stay queued.
    pub fn tick(&mut self)
        requires
            old(self).now < u64::MAX,
        ensures
            final(self).now == old(self).now + 1,
            final(self).messages@ == old(self).messages@,
            final(self).orders@ == old(self).orders@,
            final(self).cell_messages@ == old(self).cell_messages@,
            final(self).cell_orders@ == old(self).cell_orders@,
    {
        self.now = self.now + 1;
    }
}

/// No letter is lost or made up: each queued letter is either due now or still waiting.
pub proof fn lemma_split_keeps_all<K, T>(queue: Seq<(Tick, K, T)>, now: Tick)
    ensures
        due_of(queue, now).len() + later_of(queue, now).len() == queue.len(),
        forall|i: int| 0 <= i < later_of(queue, now).len() ==> #[trigger] later_of(queue, now)[i].0 > now,
    decreases queue.len(),
{
    if queue.len() > 0 {
        lemma_split_keeps_all(queue.drop_last(), now);
        let k = later_of(queue.drop_last(), now);
        if queue.last().0 > now {
            assert forall|i: int| 0 <= i < later_of(queue, now).len() implies #[trigger] later_of(queue, now)[i].0 > now by {
                if i < k.len() {
                    assert(later_of(queue, now)[i] == k[i]);
                }
            }
        }
    }
}

/// A letter sent at `now` with `delay` is delivered by the first pop at a tick `t` from
/// `now + delay` on, after the letters queued before it, and waits until then.
pub proof fn lemma_delivered_when_due<K, T>(queue: Seq<(Tick, K, T)>, now: Tick, delay: Tick, to: K, letter: T, t: Tick)
    ensures
        due_at(now, delay) <= t ==> due_of(queue.push((due_at(now, delay), to, letter)), t) == due_of(queue, t).push((to, letter))
            && later_of(queue.push((due_at(now, delay), to, letter)), t) == later_of(queue, t),
        t < due_at(now, delay) ==> due_of(queue.push((due_at(now, delay), to, letter)), t) == due_of(queue, t)
            && later_of(queue.push((due_at(now, delay), to, letter)), t) == later_of(queue, t).push((due_at(now, delay), to, letter)),
{
    assert(queue.push((due_at(now, delay), to, letter)).drop_last() =~= queue);
}

} // verus!
