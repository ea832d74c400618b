use vstd::prelude::*;

use crate::mob::gene::Gene;
use crate::mob::pool::same_gene;

verus! {

/// A total kept in an `i64`: clamped at its ends.
pub open spec fn clamp64(v: int) -> int {
    if v > i64::MAX { i64::MAX as int } else if v < i64::MIN { i64::MIN as int } else { v }
}

/// The totals after `delta` is added to the total of `gene`: its entry changes, or a new one
/// is added at the end.
pub open spec fn ledger_add(l: Seq<(Seq<Seq<char>>, i64)>, gene: Seq<Seq<char>>, delta: int) -> Seq<(Seq<Seq<char>>, i64)> {
    if exists|i: int| 0 <= i < l.len() && (#[trigger] l[i]).0 == gene {
        let i = choose|i: int| 0 <= i < l.len() && (#[trigger] l[i]).0 == gene;
        l.update(i, (gene, clamp64(l[i].1 + delta) as i64))
    } else {
        l.push((gene, clamp64(delta) as i64))
    }
}

/// The total of `gene`: 0 for a gene never recorded.
pub open spec fn ledger_total(l: Seq<(Seq<Seq<char>>, i64)>, gene: Seq<Seq<char>>) -> int {
    if exists|i: int| 0 <= i < l.len() && (#[trigger] l[i]).0 == gene {
        l[choose|i: int| 0 <= i < l.len() && (#[trigger] l[i]).0 == gene].1 as int
    } else {
        0
    }
}

fn clamped_sum(a: i64, b: i64) -> (r: i64)
    ensures
        r == clamp64(a + b),
{
    let s = (a as i128) + (b as i128);
    if s > i64::MAX as i128 {
        i64::MAX
    } else if s < i64::MIN as i128 {
        i64::MIN
    } else {
        s as i64
    }
}

/// The energy each species' creatures hold, by gene, in the order the genes were first
/// recorded.
pub struct EnergyLedger {
    pub entries: Vec<(Gene, i64)>,
}

impl EnergyLedger {
    pub open spec fn view(&self) -> Seq<(Seq<Seq<char>>, i64)> {
        self.entries@.map_values(|e: (Gene, i64)| (e.0.view(), e.1))
    }

    /// No gene is recorded twice.
    pub open spec fn wf(&self) -> bool {
        forall|i: int, j: int| 0 <= i < j < self@.len() ==> (#[trigger] self@[i]).0 != (#[trigger] self@[j]).0
    }

    pub fn new() -> (r: EnergyLedger)
        ensures
            r.wf(),
            r@ == Seq::<(Seq<Seq<char>>, i64)>::empty(),
    {
        let r = EnergyLedger { entries: Vec::new() };
        proof {
            assert(r@ =~= Seq::<(Seq<Seq<char>>, i64)>::empty());
        }
        r
    }

    /// Adds `delta` to the total of `gene`, clamped at the ends of an `i64`.
    pub fn add(&mut self, gene: &Gene, delta: i64)
        requires
            old(self).wf(),
        ensures
            final(self).wf(),
            final(self)@ == ledger_add(old(self)@, gene.view(), delta as int),
            ledger_total(final(self)@, gene.view()) == clamp64(ledger_total(old(self)@, gene.view()) + delta),
            forall|g: Seq<Seq<char>>| g != gene.view() ==> ledger_total(final(self)@, g) == ledger_total(old(self)@, g),
    {
        let ghost l = self@;
        let mut i: usize = 0;
        while i < self.entries.len()
            invariant
                i <= self.entries@.len(),
                self.wf(),
                *self == *old(self),
                l == self@,
                forall|j: int| 0 <= j < i ==> (#[trigger] l[j]).0 != gene.view(),
            decreases self.entries@.len() - i,
        {
            if same_gene(&self.entries[i].0, gene) {
                let t = clamped_sum(self.entries[i].1, delta);
                let g = gene.clone();
                let ghost k = choose|k: int| 0 <= k < l.len() && (#[trigger] l[k]).0 == gene.view();
                proof {
                    assert(l[i as int].0 == gene.view());
                    if k != i {
                        if k < i {
                            assert(l[k].0 != gene.view());
                        } else {
                            assert(l[i as int].0 != l[k].0);
                        }
                    }
                }
                self.entries.set(i, (g, t));
                proof {
                    assert(self@ =~= l.update(i as int, (gene.view(), clamp64(l[i as int].1 + delta) as i64)));
                    assert forall|g2: Seq<Seq<char>>| g2 != gene.view() implies ledger_total(self@, g2) == ledger_total(l, g2) by {
                        if exists|j: int| 0 <= j < l.len() && (#[trigger] l[j]).0 == g2 {
                            let j = choose|j: int| 0 <= j < l.len() && (#[trigger] l[j]).0 == g2;
                            assert(self@[j].0 == g2);
                            let j2 = choose|j2: int| 0 <= j2 < self@.len() && (#[trigger] self@[j2]).0 == g2;
                            if j2 != j {
                                if j2 < j {
                                    assert(self@[j2].0 != self@[j].0);
                                } else {
                                    assert(self@[j].0 != self@[j2].0);
                                }
                            }
                        } else {
                            assert forall|j: int| 0 <= j < self@.len() implies (#[trigger] self@[j]).0 != g2 by {
                                assert(self@[j].0 == l[j].0 || j == i);
                            }
                        }
                    }
                    assert(self@[i as int].0 == gene.view());
                    let k2 = choose|k2: int| 0 <= k2 < self@.len() && (#[trigger] self@[k2]).0 == gene.view();
                    if k2 != i {
                        if k2 < i {
                            assert(self@[k2].0 != self@[i as int].0);
                        } else {
                            assert(self@[i as int].0 != self@[k2].0);
                        }
                    }
                }
                return;
            }
            i = i + 1;
        }
        let g = gene.clone();
        let t: i64 = delta;
        self.entries.push((g, t));
        proof {
            assert(self@ =~= l.push((gene.view(), clamp64(delta as int) as i64)));
            assert(self@[l.len() as int].0 == gene.view());
            let k2 = choose|k2: int| 0 <= k2 < self@.len() && (#[trigger] self@[k2]).0 == gene.view();
            assert(k2 == l.len());
            assert forall|g2: Seq<Seq<char>>| g2 != gene.view() implies ledger_total(self@, g2) == ledger_total(l, g2) by {
                if exists|j: int| 0 <= j < l.len() && (#[trigger] l[j]).0 == g2 {
                    let j = choose|j: int| 0 <= j < l.len() && (#[trigger] l[j]).0 == g2;
                    assert(self@[j].0 == g2);
                    let j2 = choose|j2: int| 0 <= j2 < self@.len() && (#[trigger] self@[j2]).0 == g2;
                    if j2 != j {
                        if j2 < j {
                            assert(self@[j2].0 != self@[j].0);
                        } else {
                            assert(self@[j].0 != self@[j2].0);
                        }
                    }
                } else {
                    assert forall|j: int| 0 <= j < self@.len() implies (#[trigger] self@[j]).0 != g2 by {
                        if j < l.len() {
                            assert(self@[j] == l[j]);
                        }
                    }
                }
            }
        }
    }

    /// The total of `gene`.
    pub fn total(&self, gene: &Gene) -> (r: i64)
        requires
            self.wf(),
        ensures
            r == ledger_total(self@, gene.view()),
    {
        let mut i: usize = 0;
        while i < self.entries.len()
            invariant
                i <= self.entries@.len(),
                self.wf(),
                forall|j: int| 0 <= j < i ==> (#[trigger] self@[j]).0 != gene.view(),
            decreases self.entries@.len() - i,
        {
            if same_gene(&self.entries[i].0, gene) {
                proof {
                    assert(self@[i as int].0 == gene.view());
                    let k = choose|k: int| 0 <= k < self@.len() && (#[trigger] self@[k]).0 == gene.view();
                    if k != i {
                        if k < i {
                            assert(self@[k].0 != gene.view());
                        } else {
                            assert(self@[i as int].0 != self@[k].0);
                        }
                    }
                }
                return self.entries[i].1;
            }
            i = i + 1;
        }
        0
    }
}

/// What the world counts as it goes.
pub struct Stats {
    /// The energy each species' creatures hold.
    pub bio_energy_store: EnergyLedger,
}

impl Stats {
    pub fn new() -> (r: Stats)
        ensures
            r.bio_energy_store.wf(),
            r.bio_energy_store@ == Seq::<(Seq<Seq<char>>, i64)>::empty(),
    {
        Stats { bio_energy_store: EnergyLedger::new() }
    }
}

} // verus!
