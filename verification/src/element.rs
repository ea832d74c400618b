use vstd::prelude::*;

use crate::messages::Message;

verus! {

/// Low bits of an element's state: how many lit signals it received since its last fire tick.
pub const FIRE_COUNT: u32 = 0x0F;

/// The bit that marks an element as burning.
pub const IS_FIRE: u32 = 0x10;

/// The fire state of one cell. Fire follows the rules of a life game:
/// a cell lit by exactly three burning neighbours catches fire, a burning
/// cell with two burning neighbours keeps burning, every other cell goes out.
pub struct Element {
    pub data: u32,
}

/// What a cell's fire tick asks the world to do.
#[derive(Clone, Copy, Debug, PartialEq, Eq, Structural)]
pub struct FireStep {
    /// The cell was burning: it lights the 3x3 area around itself.
    pub spread: bool,
    /// The cell caught fire at this tick: it is woken again at the next fire tick.
    pub wake: bool,
}

pub open spec fn burning_bits(data: u32) -> bool {
    data & IS_FIRE != 0
}

pub open spec fn count_bits(data: u32) -> u32 {
    data & FIRE_COUNT
}

/// Neighbours counted at a fire tick: lit signals, less the one a burning cell sends itself.
pub open spec fn spec_neighbors(data: u32) -> int {
    count_bits(data) - (if burning_bits(data) { 1int } else { 0int })
}

/// The state after a fire tick.
pub open spec fn spec_after_fire_tick(data: u32) -> u32 {
    let n = spec_neighbors(data);
    if n == 3 {
        IS_FIRE
    } else if n == 2 {
        data & IS_FIRE
    } else {
        0
    }
}

/// `d1` and `r` are what counting one lit signal on `d0` gives: the state one more, and
/// whether it was the first signal since the last fire tick.
pub open spec fn lit(d0: u32, d1: u32, r: bool) -> bool {
    &&& d1 == d0.wrapping_add(1)
    &&& r == (count_bits(d0) == 0)
}

/// `d1` and `r` are what setting `d0` on fire gives: the fire bit set, and whether it was
/// off before.
pub open spec fn burnt(d0: u32, d1: u32, r: bool) -> bool {
    &&& d1 == d0 | IS_FIRE
    &&& r == !burning_bits(d0)
}

/// `d1` and `r` are what a fire tick on `d0` gives: the state after the life-game rule, a
/// spread when the cell was burning, and a wake-up when it caught fire just now.
pub open spec fn fire_ticked(d0: u32, d1: u32, r: FireStep) -> bool {
    &&& d1 == spec_after_fire_tick(d0)
    &&& r.spread == burning_bits(d0)
    &&& r.wake == (spec_neighbors(d0) == 3 && !burning_bits(d0))
}

/// A fire tick runs a life game on the counted signals, less the one a burning cell sends
/// itself: afterwards the cell holds no count and no bit but the fire bit, and it burns
/// exactly when it had three burning neighbours, or two and was burning already. With more
/// than three it dies of overcrowding; with fewer than two, of loneliness. A burning cell
/// spreads its fire, and a cell is woken again exactly when it caught fire at this tick.
pub proof fn lemma_fire_tick_life_game(d0: u32, d1: u32, r: FireStep)
    requires
        fire_ticked(d0, d1, r),
    ensures
        d1 == 0 || d1 == IS_FIRE,
        ({
            let was = d0 & IS_FIRE != 0;
            let n = (d0 & FIRE_COUNT) - (if was { 1int } else { 0int });
            &&& (d1 & IS_FIRE != 0) <==> (n == 3 || (n == 2 && was))
            &&& n > 3 ==> d1 == 0
            &&& n < 2 ==> d1 == 0
            &&& r.spread == was
            &&& r.wake == (!was && d1 & IS_FIRE != 0)
        }),
{
    assert(d0 & 0x10u32 == 0 || d0 & 0x10u32 == 0x10u32) by (bit_vector);
    assert(0x10u32 & 0x10u32 != 0u32) by (bit_vector);
    assert(0u32 & 0x10u32 == 0u32) by (bit_vector);
}

/// A lit signal adds one to the count and leaves the fire bit, while fewer than fifteen are
/// counted; it asks for a wake-up exactly when it is the first since the last fire tick.
pub proof fn lemma_light_counts(d0: u32, d1: u32, r: bool)
    requires
        lit(d0, d1, r),
        d0 & FIRE_COUNT < FIRE_COUNT,
    ensures
        d1 & FIRE_COUNT == (d0 & FIRE_COUNT) + 1,
        (d1 & IS_FIRE) == (d0 & IS_FIRE),
        r == (d0 & FIRE_COUNT == 0),
{
    assert((d0 & 0x0Fu32) < 0x0Fu32 ==> (d0.wrapping_add(1u32) & 0x0Fu32) == (d0 & 0x0Fu32) + 1
        && (d0.wrapping_add(1u32) & 0x10u32) == (d0 & 0x10u32)) by (bit_vector);
}

/// Setting a cell on fire makes it burn and keeps its count; it reports whether the cell
/// was not burning before.
pub proof fn lemma_burn_sets_fire(d0: u32, d1: u32, r: bool)
    requires
        burnt(d0, d1, r),
    ensures
        d1 & IS_FIRE != 0,
        d1 & FIRE_COUNT == d0 & FIRE_COUNT,
        r == (d0 & IS_FIRE == 0),
{
    assert((d0 | 0x10u32) & 0x10u32 != 0u32 && (d0 | 0x10u32) & 0x0Fu32 == d0 & 0x0Fu32) by (bit_vector);
}

impl Element {
    pub open spec fn spec_is_burning(&self) -> bool {
        burning_bits(self.data)
    }

    pub fn new() -> (r: Self)
        ensures
            r.data == 0,
    {
        Element { data: 0 }
    }

    pub fn get_raw(&self) -> (r: u32)
        ensures
            r == self.data,
    {
        self.data
    }

    pub fn set_raw(&mut self, value: u32)
        ensures
            final(self).data == value,
    {
        self.data = value;
    }

    /// `"fire"` for a burning cell, the empty string otherwise.
    pub fn get_name(&self) -> (r: String)
        ensures
            self.spec_is_burning() ==> r@ == "fire"@,
            !self.spec_is_burning() ==> r@ == Seq::<char>::empty(),
    {
        if self.is_burning() {
            String::from_str("fire")
        } else {
            String::new()
        }
    }

    pub fn is_burning(&self) -> (r: bool)
        ensures
            r == self.spec_is_burning(),
    {
        self.data & IS_FIRE != 0
    }

    /// Counts one lit signal. Returns true when it is the first one since the
    /// last fire tick, that is, when the cell has to be woken at the next fire tick.
    pub fn light(&mut self) -> (r: bool)
        ensures
            lit(old(self).data, final(self).data, r),
    {
        let before = self.data;
        self.data = before.wrapping_add(1);
        before & FIRE_COUNT == 0
    }

    /// Sets the cell on fire. Returns true when it was not burning before,
    /// that is, when the cell has to light the area around it.
    pub fn burn(&mut self) -> (r: bool)
        ensures
            burnt(old(self).data, final(self).data, r),
            final(self).spec_is_burning(),
    {
        let before = self.data;
        self.data = before | IS_FIRE;
        proof {
            assert((before | 0x10u32) & 0x10u32 != 0) by (bit_vector);
        }
        before & IS_FIRE == 0
    }

    /// Reacts to a message sent to the cell. Returns true when the cell has to
    /// be woken at the next fire tick.
    pub fn hear(&mut self, message: Message) -> (r: bool)
        ensures
            message == Message::Light ==> final(self).data == old(self).data.wrapping_add(1)
                && r == (count_bits(old(self).data) == 0),
            message == Message::Ignite ==> final(self).data == old(self).data | IS_FIRE && !r,
    {
        match message {
            Message::Light => self.light(),
            Message::Ignite => {
                self.burn();
                false
            }
        }
    }

    /// Runs the life-game rule on the signals counted since the last fire tick.
    pub fn fire_tick(&mut self) -> (r: FireStep)
        requires
            burning_bits(old(self).data) ==> count_bits(old(self).data) > 0,
        ensures
            fire_ticked(old(self).data, final(self).data, r),
    {
        let burning = self.is_burning();
        let neighbors = (self.data & FIRE_COUNT) - (if burning { 1u32 } else { 0u32 });
        let mut wake = false;
        if neighbors == 3 {
            if !burning {
                wake = true;
            }
            self.data = IS_FIRE;
        } else if neighbors == 2 {
            self.data = self.data & IS_FIRE;
        } else {
            self.data = 0;
        }
        FireStep { spread: burning, wake }
    }

    /// Ticks to wait, counted from `tick`, before the current fire tick.
    pub fn this_fire_tick(tick: u64, fire_tick: u64) -> (r: u64)
        requires
            fire_tick > 0,
            tick / fire_tick + fire_tick <= u64::MAX,
            tick / fire_tick + fire_tick - 1 >= tick,
        ensures
            r == tick / fire_tick + fire_tick - 1 - tick,
    {
        tick / fire_tick + fire_tick - 1 - tick
    }

    /// Ticks to wait, counted from `tick`, before the next fire tick.
    pub fn next_fire_tick(tick: u64, fire_tick: u64) -> (r: u64)
        requires
            fire_tick > 0,
            tick / fire_tick + fire_tick * 2 <= u64::MAX,
            tick / fire_tick + fire_tick * 2 - 1 >= tick,
        ensures
            r == tick / fire_tick + fire_tick * 2 - 1 - tick,
    {
        tick / fire_tick + fire_tick * 2 - 1 - tick
    }
}

impl Default for Element {
    fn default() -> (r: Self)
        ensures
            r.data == 0,
    {
        Element { data: 0 }
    }
}

/// The fire state of a cell together with the name it shows.
pub struct Body {
    pub name: String,
    pub element: Element,
}

impl Body {
    /// Runs the cell's fire tick and refreshes its name.
    pub fn act(&mut self) -> (r: FireStep)
        requires
            burning_bits(old(self).element.data) ==> count_bits(old(self).element.data) > 0,
        ensures
            final(self).element.data == spec_after_fire_tick(old(self).element.data),
            r.spread == burning_bits(old(self).element.data),
            r.wake == (spec_neighbors(old(self).element.data) == 3 && !burning_bits(
                old(self).element.data,
            )),
            final(self).element.spec_is_burning() ==> final(self).name@ == "fire"@,
            !final(self).element.spec_is_burning() ==> final(self).name@ == Seq::<char>::empty(),
    {
        let step = self.element.fire_tick();
        self.name = self.element.get_name();
        step
    }

    pub fn new() -> (r: Self)
        ensures
            r.name@ == Seq::<char>::empty(),
            r.element.data == 0,
    {
        Body { name: String::new(), element: Element::new() }
    }
}

} // verus!
