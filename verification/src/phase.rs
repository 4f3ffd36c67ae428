//! Samples of magnitude one, held exactly by their angle.

use vstd::arithmetic::div_mod::{lemma_div_is_ordered, lemma_hoist_over_denominator};
use vstd::prelude::*;

verus! {

/// One full turn, in the units of [`Phase::angle`]: the angle 2π.
pub const FULL_TURN: u64 = 0x1_0000_0000;

/// Half a turn: the angle π.
pub const HALF_TURN: u64 = 0x8000_0000;

/// A complex baseband sample of magnitude one.
///
/// The sample with angle `a` is the complex number `exp(2πi · a / 2^32)`:
/// angle 0 is `1`, a quarter turn `0x4000_0000` is `i`, half a turn is `-1`.
/// Every value of the type lies on the unit circle, and every multiple of
/// `π / 2^31` is held without rounding.
#[derive(Clone, Copy, Debug, PartialEq, Eq, Hash, Structural)]
pub struct Phase {
    pub angle: u32,
}

/// The angle between two phases the short way round: at most half a turn.
///
/// Two samples of magnitude one that lie an angle `d` apart, `0 <= d <= π`,
/// are the straight-line distance `2 · sin(d / 2)` apart, which grows with
/// `d`. So of several such samples the one at the least angular distance
/// from a given sample is also the one at the least Euclidean distance.
pub open spec fn angular_distance(a: Phase, b: Phase) -> nat {
    let d = (a.angle - b.angle) % (FULL_TURN as int);
    if d <= HALF_TURN {
        d as nat
    } else {
        (FULL_TURN - d) as nat
    }
}

/// How far `p` lies ahead of `reference`: from minus half a turn, included,
/// to plus half a turn, excluded.
pub open spec fn deviation(p: Phase, reference: Phase) -> int {
    (p.angle - reference.angle + HALF_TURN) % (FULL_TURN as int) - HALF_TURN
}

/// The deviations of all samples of `block` from `reference`, added up.
pub open spec fn deviation_sum(block: Seq<Phase>, reference: Phase) -> int
    decreases block.len(),
{
    if block.len() == 0 {
        0
    } else {
        deviation_sum(block.drop_last(), reference) + deviation(block.last(), reference)
    }
}

/// The mean phase of a block of samples: its first sample, advanced by the
/// mean deviation of the block's samples from it, rounded down.
///
/// Angles wrap, so they are averaged by their deviations from one of them.
pub open spec fn mean_phase(block: Seq<Phase>) -> Phase
    recommends
        block.len() > 0,
{
    Phase {
        angle: ((block[0].angle + deviation_sum(block, block[0]) / (block.len() as int)) % (
        FULL_TURN as int)) as u32,
    }
}

/// A block that holds one phase throughout has that phase as its mean.
pub proof fn lemma_mean_of_constant_block(block: Seq<Phase>, p: Phase)
    requires
        block.len() > 0,
        forall|i: int| 0 <= i < block.len() ==> block[i] == p,
    ensures
        mean_phase(block) == p,
{
    lemma_deviation_sum_constant(block, p);
}

proof fn lemma_deviation_sum_constant(block: Seq<Phase>, p: Phase)
    requires
        forall|i: int| 0 <= i < block.len() ==> block[i] == p,
    ensures
        deviation_sum(block, p) == 0,
    decreases block.len(),
{
    if block.len() > 0 {
        lemma_deviation_sum_constant(block.drop_last(), p);
    }
}

impl Phase {
    /// The angular distance to `other`.
    pub fn distance(self, other: Phase) -> (d: u32)
        ensures
            d == angular_distance(self, other),
            d <= HALF_TURN,
    {
        let ahead: u64 = if self.angle >= other.angle {
            (self.angle - other.angle) as u64
        } else {
            FULL_TURN - (other.angle - self.angle) as u64
        };
        if ahead <= HALF_TURN {
            ahead as u32
        } else {
            (FULL_TURN - ahead) as u32
        }
    }
}

/// The mean phase of `block`, or `None` for an empty block.
pub fn block_mean(block: &[Phase]) -> (mean: Option<Phase>)
    ensures
        block@.len() == 0 <==> mean is None,
        mean matches Some(p) ==> p == mean_phase(block@),
{
    let n = block.len();
    if n == 0 {
        return None;
    }
    let first = block[0];
    let mut lifted: u128 = 0;
    let mut i: usize = 0;
    while i < n
        invariant
            n == block@.len(),
            i <= n,
            lifted == deviation_sum(block@.take(i as int), first) + i * HALF_TURN,
            lifted <= i * 0xffff_ffff,
        decreases n - i,
    {
        let p = block[i];
        let ahead: u64 = if p.angle >= first.angle {
            (p.angle - first.angle) as u64
        } else {
            FULL_TURN - (first.angle - p.angle) as u64
        };
        let raised: u64 = if ahead < HALF_TURN {
            ahead + HALF_TURN
        } else {
            ahead - HALF_TURN
        };
        proof {
            assert(block@.take(i + 1).drop_last() =~= block@.take(i as int));
        }
        lifted = lifted + raised as u128;
        i = i + 1;
    }
    let mean_raised = lifted / (n as u128);
    proof {
        let sum = deviation_sum(block@, first);
        assert(block@.take(n as int) =~= block@);
        lemma_hoist_over_denominator(sum, HALF_TURN as int, n as nat);
        lemma_div_is_ordered(lifted as int, n * 0xffff_ffff, n as int);
        assert((n * 0xffff_ffff) / (n as int) == 0xffff_ffff) by (nonlinear_arith)
            requires
                n > 0,
        ;
    }
    let angle = (first.angle as u64 + mean_raised as u64 + HALF_TURN) % FULL_TURN;
    Some(Phase { angle: angle as u32 })
}

} // verus!
