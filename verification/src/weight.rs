//! Weights: whole numbers of units, a fixed number of them to one observed
//! transition.
use vstd::prelude::*;

verus! {

/// The weight that one observed transition adds. A prior is given in the
/// same units, so that one unit is a millionth of an observation.
pub const OBSERVATION: u64 = 1_000_000;

/// `weight` after `times` further observations. A weight that has reached
/// the largest value stays there.
pub open spec fn raised(weight: u64, times: nat) -> u64 {
    if weight + OBSERVATION * times <= u64::MAX {
        (weight + OBSERVATION * times) as u64
    } else {
        u64::MAX
    }
}

/// Observations add up: raising twice is raising once by both counts.
pub proof fn lemma_raised_twice(weight: u64, first: nat, second: nat)
    ensures
        raised(raised(weight, first), second) == raised(weight, first + second),
{
    assert(OBSERVATION * (first + second) == OBSERVATION * first + OBSERVATION * second)
        by (nonlinear_arith);
    assert(OBSERVATION * first >= 0 && OBSERVATION * second >= 0) by (nonlinear_arith);
}

/// After an observation a weight is at least one observation, and no
/// smaller than before.
pub proof fn lemma_raised_grows(weight: u64, times: nat)
    ensures
        raised(weight, times) >= weight,
        times >= 1 ==> raised(weight, times) >= OBSERVATION,
{
    assert(times >= 1 ==> OBSERVATION * times >= OBSERVATION) by (nonlinear_arith);
    assert(OBSERVATION * times >= 0) by (nonlinear_arith);
}

/// `weight` after one more observation.
pub fn observe(weight: u64) -> (r: u64)
    ensures
        r == raised(weight, 1),
{
    weight.saturating_add(OBSERVATION)
}

} // verus!
