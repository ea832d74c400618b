use vstd::prelude::*;
use vstd::arithmetic::div_mod::{lemma_fundamental_div_mod, lemma_fundamental_div_mod_converse};

use crate::gnd::Environment;
use crate::types::{EnergyT, Tick};

verus! {

/// A plant class whose energy grows linearly with its age, up to a cap.
#[derive(Clone, Copy)]
pub struct FirstPlant {
    pub name: &'static str,
    /// Energy gained per tick of age; positive.
    pub aging_factor: EnergyT,
    /// The most energy the plant can hold; a multiple of `aging_factor`.
    pub max_energy: EnergyT,
}

/// How many plant classes there are.
pub const CLASS_COUNT: u8 = 2;

/// The plant classes, by kind: grass grows by 10 up to 10000, trees by 20 up to 50000.
pub open spec fn spec_detail(kind: u8) -> (EnergyT, EnergyT) {
    if kind == 0 {
        (10, 10000)
    } else {
        (20, 50000)
    }
}

pub open spec fn spec_class_name(kind: u8) -> Seq<char> {
    if kind == 0 {
        "grass"@
    } else {
        "tree"@
    }
}

/// The class of plants of this kind.
pub fn detail(kind: u8) -> (r: FirstPlant)
    requires
        kind < CLASS_COUNT,
    ensures
        (r.aging_factor, r.max_energy) == spec_detail(kind),
        r.name@ == spec_class_name(kind),
        r.valid(),
{
    if kind == 0 {
        FirstPlant { name: "grass", aging_factor: 10, max_energy: 10000 }
    } else {
        FirstPlant { name: "tree", aging_factor: 20, max_energy: 50000 }
    }
}

/// The chance, as a numerator and a denominator, that a plant of class `kind` sprouts on a
/// cell of environment `env` when the plate is sown: one in ten for every class and cell.
pub open spec fn spec_gen_possibility(kind: u8, env: Environment) -> (u32, u32) {
    (1, 10)
}

pub fn gen_possibility(kind: u8, env: &Environment) -> (r: (u32, u32))
    ensures
        r == spec_gen_possibility(kind, *env),
        0 < r.1 && r.0 <= r.1,
{
    (1, 10)
}

/// `a / b` rounded up.
pub open spec fn ceil_div(a: int, b: int) -> int {
    (a + b - 1) / b
}

fn div_ceil(a: EnergyT, b: EnergyT) -> (r: EnergyT)
    requires
        b > 0,
    ensures
        r == ceil_div(a as int, b as int),
        r as int * b as int >= a,
        (r as int - 1) * b < a,
{
    let q = a / b;
    proof {
        lemma_fundamental_div_mod(a as int, b as int);
        let rm = a as int % b as int;
        if rm != 0 {
            assert(q < EnergyT::MAX) by (nonlinear_arith)
                requires
                    a as int == b as int * q as int + rm,
                    0 < rm < b,
                    a <= EnergyT::MAX,
            ;
        }
    }
    let r = if a % b != 0 { q + 1 } else { q };
    proof {
        let rm = a as int % b as int;
        if rm != 0 {
            assert(a as int + b as int - 1 == (q as int + 1) * b as int + (rm - 1)) by (nonlinear_arith)
                requires a as int == b as int * q as int + rm;
            lemma_fundamental_div_mod_converse(a as int + b as int - 1, b as int, q as int + 1, rm - 1);
        } else {
            assert(a as int + b as int - 1 == (q as int) * b as int + (b - 1)) by (nonlinear_arith)
                requires a as int == b as int * q as int + rm, rm == 0;
            lemma_fundamental_div_mod_converse(a as int + b as int - 1, b as int, q as int, b as int - 1);
        }
        assert(r as int * b as int >= a && (r as int - 1) * b < a) by (nonlinear_arith)
            requires
                a as int == b as int * q as int + rm,
                0 <= rm < b,
                r == (if rm != 0 { q + 1 } else { q as int }),
        ;
    }
    r
}

impl FirstPlant {
    pub open spec fn valid(&self) -> bool {
        self.aging_factor > 0 && self.max_energy % self.aging_factor == 0
    }

    /// The energy of a plant born at `birthday`, at time `now`.
    pub open spec fn spec_energy(&self, birthday: Tick, now: Tick) -> EnergyT {
        let e = (now - birthday) * self.aging_factor;
        if e > self.max_energy {
            self.max_energy
        } else {
            e as EnergyT
        }
    }

    /// The age, in ticks, a mowed plant is set back to.
    pub open spec fn spec_mowed_age(&self, energy: EnergyT, value: EnergyT, threshold: EnergyT) -> int {
        if energy >= value && energy - value >= threshold {
            ceil_div(energy - value, self.aging_factor as int)
        } else {
            ceil_div(threshold as int, self.aging_factor as int)
        }
    }

    pub fn energy(&self, birthday: &Tick, now: &Tick, _env: &Environment) -> (r: EnergyT)
        requires
            *birthday <= *now,
        ensures
            r == self.spec_energy(*birthday, *now),
    {
        let age = *now - *birthday;
        match age.checked_mul(self.aging_factor as Tick) {
            Some(e) => {
                if e > self.max_energy as Tick {
                    self.max_energy
                } else {
                    e as EnergyT
                }
            },
            None => self.max_energy,
        }
    }

    /// Takes up to `value` energy from the plant, leaving it at least `threshold`,
    /// by setting its birthday later. A plant with no more than `threshold` energy is
    /// left alone. Returns the energy taken.
    pub fn mow_threshold(
        &self,
        value: EnergyT,
        threshold: EnergyT,
        birthday: &mut Tick,
        now: &Tick,
        env: &Environment,
    ) -> (r: EnergyT)
        requires
            self.valid(),
            *old(birthday) <= *now,
        ensures
            ({
                let energy = self.spec_energy(*old(birthday), *now);
                if energy <= threshold && !(energy >= value && energy - value >= threshold) {
                    r == 0 && *final(birthday) == *old(birthday)
                } else {
                    *final(birthday) == *now - self.spec_mowed_age(energy, value, threshold)
                        && r == energy - self.spec_mowed_age(energy, value, threshold) * self.aging_factor
                }
            }),
            *old(birthday) <= *final(birthday) <= *now,
            r == self.spec_energy(*old(birthday), *now) - self.spec_energy(*final(birthday), *now),
            r <= value,
            r > 0 ==> self.spec_energy(*final(birthday), *now) >= threshold,
    {
        let energy = self.energy(birthday, now, env);
        let ghost age = *now - *old(birthday);
        let f = self.aging_factor;
        proof {
            // The energy is a multiple of the aging factor, at most `age` times it.
            let m = self.max_energy as int / f as int;
            lemma_fundamental_div_mod(self.max_energy as int, f as int);
            if age * f > self.max_energy {
                assert(energy == m * f);
                assert(m < age) by (nonlinear_arith)
                    requires age * f > m * f, f > 0;
            }
        }
        let ghost k: int = if age * f > self.max_energy { self.max_energy as int / f as int } else { age };
        assert(energy == k * f && k <= age) by {
            lemma_fundamental_div_mod(self.max_energy as int, f as int);
            if age * f > self.max_energy {
                assert(k * f == self.max_energy) by (nonlinear_arith)
                    requires self.max_energy as int == f * k, f > 0;
                assert(k < age) by (nonlinear_arith)
                    requires age * f > k * f, f > 0;
            }
        }
        let expected_age = if energy >= value && energy - value >= threshold {
            div_ceil(energy - value, f)
        } else if energy <= threshold {
            return 0;
        } else {
            div_ceil(threshold, f)
        };
        proof {
            // ceil(x / f) * f never passes a multiple of f that is at least x.
            let ea = expected_age as int;
            assert(ea <= k) by (nonlinear_arith)
                requires
                    (ea - 1) * f < k * f,
                    f > 0,
            ;
            assert(ea * f <= energy) by (nonlinear_arith)
                requires ea <= k, f > 0, energy == k * f;
            assert(0 <= ea * f) by (nonlinear_arith) requires ea >= 0, f > 0;
        }
        *birthday = *now - expected_age as Tick;
        let taken = energy - expected_age * f;
        proof {
            let ea = expected_age as int;
            assert((*now - *birthday) == ea);
            assert(ea * f <= self.max_energy);
            assert(self.spec_energy(*birthday, *now) == ea * f);
        }
        taken
    }
}

} // verus!
