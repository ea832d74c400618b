use vstd::prelude::*;

verus! {

/// The sum of the weights.
pub open spec fn total(w: Seq<usize>) -> int
    decreases w.len(),
{
    if w.len() == 0 {
        0
    } else {
        total(w.drop_last()) + w.last()
    }
}

/// The index that a roll in `0..total(w)` lands on: the first `i` with
/// `roll < w[0] + .. + w[i]`.
pub open spec fn landing(w: Seq<usize>, roll: int) -> int
    decreases w.len(),
{
    if w.len() == 0 {
        0
    } else if roll < w[0] {
        0
    } else {
        1 + landing(w.drop_first(), roll - w[0])
    }
}

pub proof fn lemma_total_nonneg(w: Seq<usize>)
    ensures
        total(w) >= 0,
    decreases w.len(),
{
    if w.len() > 0 {
        lemma_total_nonneg(w.drop_last());
    }
}

/// The sum of a prefix one longer is the sum plus the next weight.
pub proof fn lemma_total_push(w: Seq<usize>, i: int)
    requires
        0 <= i < w.len(),
    ensures
        total(w.subrange(0, i + 1)) == total(w.subrange(0, i)) + w[i],
{
    assert(w.subrange(0, i + 1).drop_last() =~= w.subrange(0, i));
}

/// A prefix sums to no more than the whole.
pub proof fn lemma_total_prefix_le(w: Seq<usize>, i: int)
    requires
        0 <= i <= w.len(),
    ensures
        total(w.subrange(0, i)) <= total(w),
    decreases w.len() - i,
{
    if i < w.len() {
        lemma_total_prefix_le(w, i + 1);
        lemma_total_push(w, i);
    } else {
        assert(w.subrange(0, i) =~= w);
    }
}

/// Dropping the first weight takes it off the sum.
pub proof fn lemma_total_first(w: Seq<usize>)
    requires
        w.len() > 0,
    ensures
        total(w) == w[0] + total(w.drop_first()),
    decreases w.len(),
{
    if w.len() == 1 {
        assert(w.drop_first() =~= Seq::<usize>::empty());
        assert(w.drop_last() =~= Seq::<usize>::empty());
    } else {
        lemma_total_first(w.drop_last());
        assert(w.drop_last().drop_first() =~= w.drop_first().drop_last());
    }
}

/// If the roll is past the first `i` weights, it lands at `i` or later, `i` less into the rest.
proof fn lemma_landing_skip(w: Seq<usize>, roll: int, i: int)
    requires
        0 <= i <= w.len(),
        roll >= total(w.subrange(0, i)),
    ensures
        landing(w, roll) == i + landing(w.subrange(i, w.len() as int), roll - total(w.subrange(0, i))),
    decreases i,
{
    if i > 0 {
        lemma_total_nonneg(w.subrange(1, i));
        lemma_total_first(w.subrange(0, i));
        assert(w.subrange(0, i).drop_first() =~= w.subrange(1, i));
        assert(w.subrange(0, i).drop_first() =~= w.drop_first().subrange(0, i - 1));
        assert(roll >= w[0]);
        lemma_landing_skip(w.drop_first(), roll - w[0], i - 1);
        assert(w.drop_first().subrange(i - 1, w.len() - 1) =~= w.subrange(i, w.len() as int));
    } else {
        assert(w.subrange(0, 0) =~= Seq::<usize>::empty());
        assert(w.subrange(0, w.len() as int) =~= w);
    }
}

/// The index a roll lands on; the roll must be below the sum of the weights.
pub fn weighted_index(weights: &Vec<usize>, roll: usize) -> (r: usize)
    requires
        roll < total(weights@),
    ensures
        r == landing(weights@, roll as int),
        r < weights.len(),
{
    let mut i: usize = 0;
    let mut rest: usize = roll;
    proof {
        assert(weights@.subrange(0, weights.len() as int) =~= weights@);
        assert(weights@.subrange(0, 0) =~= Seq::<usize>::empty());
    }
    while i < weights.len()
        invariant
            i <= weights.len(),
            roll < total(weights@),
            rest as int == roll - total(weights@.subrange(0, i as int)),
            landing(weights@, roll as int) == i + landing(weights@.subrange(i as int, weights.len() as int), rest as int),
        decreases weights.len() - i,
    {
        let w = weights[i];
        if rest < w {
            let ghost tail = weights@.subrange(i as int, weights.len() as int);
            assert(tail[0] == w);
            return i;
        }
        proof {
            lemma_total_push(weights@, i as int);
            lemma_landing_skip(weights@, roll as int, i as int + 1);
        }
        rest = rest - w;
        i = i + 1;
    }
    proof {
        assert(weights@.subrange(0, weights.len() as int) =~= weights@);
    }
    0
}

} // verus!
