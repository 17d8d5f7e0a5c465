//! How a usage count fades with the time since the history was last written.

use vstd::arithmetic::div_mod::*;
use vstd::arithmetic::power2::*;
use vstd::prelude::*;

verus! {

/// The number of whole decay intervals that fit in `elapsed`. An interval of
/// zero switches decay off.
pub open spec fn halvings(elapsed: nat, interval: nat) -> nat {
    if interval == 0 {
        0
    } else {
        elapsed / interval
    }
}

/// A count after `elapsed` time: halved once per whole interval, rounding
/// down, so it never grows and never falls below zero.
pub open spec fn decayed(score: nat, elapsed: nat, interval: nat) -> nat {
    score / pow2(halvings(elapsed, interval))
}

/// Dividing by a larger power of two gives no more than dividing by a smaller one.
pub proof fn lemma_more_halvings_less_score(score: nat, few: nat, many: nat)
    requires
        few <= many,
    ensures
        score / pow2(many) <= score / pow2(few),
{
    lemma_pow2_pos(few);
    if few < many {
        lemma_pow2_strictly_increases(few, many);
    }
    lemma_div_is_ordered_by_denominator(score as int, pow2(few) as int, pow2(many) as int);
}

/// Decay is monotone: the longer ago the history was written, the smaller
/// (or equal) every count, and no count is negative.
pub proof fn lemma_decay_monotonic(score: nat, d1: nat, d2: nat, interval: nat)
    requires
        d1 < d2,
    ensures
        decayed(score, d1, interval) >= decayed(score, d2, interval) >= 0,
{
    if interval > 0 {
        lemma_div_is_ordered(d1 as int, d2 as int, interval as int);
    }
    lemma_more_halvings_less_score(score, halvings(d1, interval), halvings(d2, interval));
}

/// Decay never increases a count, and leaves it alone while no whole
/// interval has passed.
pub proof fn lemma_decay_bounded(score: nat, elapsed: nat, interval: nat)
    ensures
        decayed(score, elapsed, interval) <= score,
        halvings(elapsed, interval) == 0 ==> decayed(score, elapsed, interval) == score,
{
    lemma_no_halving(score);
    lemma_more_halvings_less_score(score, 0, halvings(elapsed, interval));
}

/// Halving zero times changes nothing.
pub proof fn lemma_no_halving(score: nat)
    ensures
        score / pow2(0) == score,
{
    lemma2_to64();
    assert(pow2(0) == 1);
    assert(score / 1 == score);
}

/// Applies the decay to one count. `elapsed` and `interval` are in the same
/// unit of time.
pub fn decay(score: usize, elapsed: u64, interval: u64) -> (r: usize)
    ensures
        r == decayed(score as nat, elapsed as nat, interval as nat),
{
    proof {
        lemma_no_halving(score as nat);
    }
    if interval == 0 {
        return score;
    }
    let steps: u64 = elapsed / interval;
    let mut left: u64 = steps;
    let mut value: usize = score;
    while left > 0 && value > 0
        invariant
            left <= steps,
            value == score as nat / pow2((steps - left) as nat),
        decreases left,
    {
        proof {
            let done = (steps - left) as nat;
            lemma_pow2_pos(done);
            lemma_pow2_unfold(done + 1);
            lemma_div_denominator(score as int, pow2(done) as int, 2);
        }
        value = value / 2;
        left = left - 1;
    }
    proof {
        lemma_more_halvings_less_score(score as nat, (steps - left) as nat, steps as nat);
    }
    value
}

} // verus!
