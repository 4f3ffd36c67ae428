//! The symbol constellation: which phase stands for which symbol value, and
//! which symbol a received phase is taken for.

use crate::error::ModulationError;
use crate::phase::{angular_distance, Phase, FULL_TURN, HALF_TURN};
use vstd::arithmetic::mul::lemma_mul_inequality;
use vstd::arithmetic::power2::{lemma2_to64, lemma_pow2_adds, lemma_pow2_subtracts, pow2};
use vstd::bits::{lemma_u64_shr_is_div, lemma_usize_shl_is_mul};
use vstd::prelude::*;

verus! {

/// The most bits that one symbol can carry.
pub const MAX_BITS_PER_SYMBOL: usize = 30;

/// The angle between neighbouring points of the constellation for `m` bits
/// per symbol: a full turn divided by the `2^m` points.
pub open spec fn phase_step(m: nat) -> nat {
    FULL_TURN as nat / pow2(m)
}

/// The angle of the first point: half a step where `m` is even, so that no
/// point of an even constellation lies at angle 0, and 0 where `m` is odd.
pub open spec fn phase_offset(m: nat) -> nat {
    if m % 2 == 0 {
        HALF_TURN as nat / pow2(m)
    } else {
        0
    }
}

/// The point that stands for the symbol value `i`.
pub open spec fn constellation_point(m: nat, i: int) -> Phase {
    Phase { angle: (phase_offset(m) + i * phase_step(m)) as u32 }
}

/// The constellation for `m` bits per symbol: `2^m` points, evenly spaced
/// over one turn from the offset on, the turn's end left out.
pub open spec fn constellation(m: nat) -> Seq<Phase> {
    Seq::new(pow2(m), |i: int| constellation_point(m, i))
}

/// The distance between neighbouring values of [`linspace`].
pub open spec fn linspace_step(start: u64, stop: u64, size: usize, endpoint: bool) -> int {
    if endpoint {
        (stop - start) / (size - 1)
    } else {
        (stop - start) / (size as int)
    }
}

/// `yttria_math`'s `linspace` on `u64`: `size` values from `start` on, each
/// one step above the one before. The step is the span from `start` to
/// `stop`, divided with rounding down by `size`, or by `size - 1` where the
/// end point is asked for. The outside function divides by zero where that
/// divisor is 0, and underflows where `stop` is below `start`.
#[verifier::external_body]
pub(crate) fn linspace(start: u64, stop: u64, size: usize, endpoint: bool) -> (values: Vec<u64>)
    requires
        start <= stop,
        size >= 1,
        endpoint ==> size >= 2,
    ensures
        values@.len() == size,
        forall|i: int|
            0 <= i < size ==> #[trigger] values@[i] == start + i * linspace_step(
                start,
                stop,
                size,
                endpoint,
            ),
{
    yttria_math::linspace(start, stop, size, endpoint)
}

/// The step and the offset divide the turn without remainder, for every
/// number of bits that a symbol can carry.
pub proof fn lemma_phase_grid(m: nat)
    requires
        m <= MAX_BITS_PER_SYMBOL,
    ensures
        pow2(m) * phase_step(m) == FULL_TURN,
        phase_step(m) == pow2((32 - m) as nat),
        m % 2 == 0 ==> pow2(m) * phase_offset(m) == HALF_TURN,
        m % 2 == 0 ==> 2 * phase_offset(m) == phase_step(m),
        m % 2 == 1 ==> phase_offset(m) == 0,
        1 <= pow2(m) <= 0x4000_0000,
        4 <= phase_step(m),
{
    lemma2_to64();
    lemma_pow2_subtracts(m, 32);
    lemma_pow2_subtracts(m, 31);
    lemma_pow2_adds(m, (32 - m) as nat);
    lemma_pow2_adds(m, (31 - m) as nat);
    lemma_pow2_adds(m, (30 - m) as nat);
    let n = pow2(m) as int;
    assert(n <= 0x4000_0000) by (nonlinear_arith)
        requires
            n * pow2((30 - m) as nat) == 0x4000_0000,
            pow2((30 - m) as nat) >= 1,
            n >= 1,
    ;
}

/// Every point of the constellation lies at its offset plus so many steps,
/// below a full turn: no angle wraps.
pub proof fn lemma_constellation_angle(m: nat, i: int)
    requires
        m <= MAX_BITS_PER_SYMBOL,
        0 <= i < pow2(m),
    ensures
        constellation(m)[i].angle == phase_offset(m) + i * phase_step(m),
        phase_offset(m) + i * phase_step(m) < FULL_TURN,
{
    lemma_phase_grid(m);
    let n = pow2(m) as int;
    let step = phase_step(m) as int;
    lemma_mul_inequality(i, n - 1, step);
    assert((n - 1) * step == n * step - step) by (nonlinear_arith);
    assert(i * step >= 0) by (nonlinear_arith)
        requires
            i >= 0,
            step >= 0,
    ;
}

/// The constellation for `m` bits per symbol has `2^m` points.
pub proof fn lemma_constellation_size(m: nat)
    ensures
        constellation(m).len() == pow2(m),
{
}

/// The first point lies at `π / 2^m` where `m` is even and at 0 where `m` is
/// odd, each point lies exactly `2π / 2^m` past the one before, and one more
/// step from the last point leads back to the first.
pub proof fn lemma_constellation_spacing(m: nat, i: int)
    requires
        m <= MAX_BITS_PER_SYMBOL,
        0 <= i < pow2(m),
    ensures
        pow2(m) * phase_step(m) == FULL_TURN,
        m % 2 == 0 ==> pow2(m) * constellation(m)[0].angle == HALF_TURN,
        m % 2 == 1 ==> constellation(m)[0].angle == 0,
        i + 1 < pow2(m) ==> constellation(m)[i + 1].angle == constellation(m)[i].angle
            + phase_step(m),
        i + 1 == pow2(m) ==> constellation(m)[i].angle + phase_step(m) == constellation(
            m,
        )[0].angle + FULL_TURN,
{
    lemma_phase_grid(m);
    let step = phase_step(m) as int;
    if i + 1 < pow2(m) {
        lemma_constellation_angle(m, i + 1);
        assert((i + 1) * step == i * step + step) by (nonlinear_arith);
    } else {
        let n = pow2(m) as int;
        assert((n - 1) * step == n * step - step) by (nonlinear_arith);
    }
}

/// No two points of the constellation share an angle.
pub proof fn lemma_constellation_distinct(m: nat, i: int, j: int)
    requires
        m <= MAX_BITS_PER_SYMBOL,
        0 <= i < pow2(m),
        0 <= j < pow2(m),
        i != j,
    ensures
        constellation(m)[i].angle != constellation(m)[j].angle,
{
    lemma_phase_grid(m);
    lemma_constellation_angle(m, i);
    lemma_constellation_angle(m, j);
    let step = phase_step(m) as int;
    if i < j {
        assert(i * step < j * step) by (nonlinear_arith)
            requires
                i < j,
                step > 0,
        ;
    } else {
        assert(j * step < i * step) by (nonlinear_arith)
            requires
                j < i,
                step > 0,
        ;
    }
}

/// The constellation for `bits_per_symbol` bits: the point at index `i`
/// stands for the symbol value `i`. Fails with `InvalidParameter` where a
/// symbol would carry more than [`MAX_BITS_PER_SYMBOL`] bits. With no bit per
/// symbol the constellation is its single first point.
pub fn build_constellation(bits_per_symbol: usize) -> (built: Result<Vec<Phase>, ModulationError>)
    ensures
        built is Ok <==> bits_per_symbol <= MAX_BITS_PER_SYMBOL,
        built matches Ok(points) ==> points@ == constellation(bits_per_symbol as nat),
        built matches Err(e) ==> e == ModulationError::InvalidParameter,
{
    if bits_per_symbol > MAX_BITS_PER_SYMBOL {
        return Err(ModulationError::InvalidParameter);
    }
    let ghost m = bits_per_symbol as nat;
    proof {
        lemma_phase_grid(m);
        lemma_usize_shl_is_mul(1, bits_per_symbol);
        lemma_u64_shr_is_div(HALF_TURN, bits_per_symbol as u64);
    }
    let npoints: usize = 1usize << bits_per_symbol;
    let offset: u64 = if bits_per_symbol % 2 == 0 {
        HALF_TURN >> (bits_per_symbol as u64)
    } else {
        0
    };
    let angles = linspace(offset, FULL_TURN + offset, npoints, false);
    let mut points: Vec<Phase> = Vec::with_capacity(npoints);
    let mut i: usize = 0;
    while i < npoints
        invariant
            m == bits_per_symbol,
            m <= MAX_BITS_PER_SYMBOL,
            npoints == pow2(m),
            offset == phase_offset(m),
            angles@.len() == npoints,
            forall|k: int|
                0 <= k < npoints ==> #[trigger] angles@[k] == offset + k * linspace_step(
                    offset,
                    (FULL_TURN + offset) as u64,
                    npoints,
                    false,
                ),
            i <= npoints,
            points@.len() == i,
            forall|k: int| 0 <= k < i ==> #[trigger] points@[k] == constellation_point(m, k),
        decreases npoints - i,
    {
        let angle = angles[i];
        points.push(Phase { angle: angle as u32 });
        i = i + 1;
    }
    assert(points@ =~= constellation(m));
    Ok(points)
}

/// Whether the point at `i` is the one that `sample` is taken for: no point
/// lies nearer to the sample, and every point of a lower index lies farther
/// from it.
pub open spec fn is_nearest(points: Seq<Phase>, sample: Phase, i: int) -> bool {
    &&& 0 <= i < points.len()
    &&& forall|j: int|
        0 <= j < points.len() ==> angular_distance(points[i], sample) <= angular_distance(
            #[trigger] points[j],
            sample,
        )
    &&& forall|j: int|
        0 <= j < i ==> angular_distance(points[i], sample) < angular_distance(
            #[trigger] points[j],
            sample,
        )
}

/// The index of the point that `sample` is taken for.
pub open spec fn nearest(points: Seq<Phase>, sample: Phase) -> int {
    choose|i: int| is_nearest(points, sample, i)
}

/// At most one point is the one that a sample is taken for.
pub proof fn lemma_nearest_unique(points: Seq<Phase>, sample: Phase, i: int, j: int)
    requires
        is_nearest(points, sample, i),
        is_nearest(points, sample, j),
    ensures
        i == j,
{
    if i < j {
        // `j` is nearest, so the point at the lower index `i` lies farther.
        assert(angular_distance(points[j], sample) < angular_distance(points[i], sample));
        assert(angular_distance(points[i], sample) <= angular_distance(points[j], sample));
    } else if j < i {
        assert(angular_distance(points[i], sample) < angular_distance(points[j], sample));
        assert(angular_distance(points[j], sample) <= angular_distance(points[i], sample));
    }
}

/// A point of the constellation is taken for itself.
pub proof fn lemma_nearest_of_point(m: nat, i: int)
    requires
        m <= MAX_BITS_PER_SYMBOL,
        0 <= i < pow2(m),
    ensures
        nearest(constellation(m), constellation(m)[i]) == i,
{
    let points = constellation(m);
    let sample = points[i];
    assert(angular_distance(sample, sample) == 0);
    assert forall|j: int| 0 <= j < i implies angular_distance(points[i], sample)
        < angular_distance(#[trigger] points[j], sample) by {
        lemma_constellation_distinct(m, i, j);
    }
    assert(is_nearest(points, sample, i));
    lemma_nearest_unique(points, sample, i, nearest(points, sample));
}

/// The index of the point of `points` nearest to `sample`, the lowest such
/// index where several points are equally near; `None` where there is no
/// point.
pub fn nearest_point(points: &[Phase], sample: Phase) -> (found: Option<usize>)
    ensures
        found is None <==> points@.len() == 0,
        found matches Some(i) ==> is_nearest(points@, sample, i as int) && i == nearest(
            points@,
            sample,
        ),
{
    let n = points.len();
    if n == 0 {
        return None;
    }
    let mut best: usize = 0;
    let mut least: u32 = points[0].distance(sample);
    let mut j: usize = 1;
    while j < n
        invariant
            n == points@.len(),
            1 <= j <= n,
            best < j,
            least == angular_distance(points@[best as int], sample),
            forall|k: int|
                0 <= k < j ==> least <= angular_distance(#[trigger] points@[k], sample),
            forall|k: int|
                0 <= k < best ==> least < angular_distance(#[trigger] points@[k], sample),
        decreases n - j,
    {
        let d = points[j].distance(sample);
        if d < least {
            best = j;
            least = d;
        }
        j = j + 1;
    }
    proof {
        lemma_nearest_unique(points@, sample, best as int, nearest(points@, sample));
    }
    Some(best)
}

} // verus!
