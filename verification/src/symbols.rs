//! Symbols: the groups of bits that a bitstream is cut into, the waveform
//! that holds their constellation points, and the way back.

use crate::bits::{
    bit_at, bit_or_zero, is_bit_seq, lemma_bit_of_window, lemma_window_of_bits,
    lemma_window_of_subrange, lemma_window_value_bound, lemma_window_zero_tail, pack_into, packed,
    unpackbits, unpacked, window_count, window_value,
};
use crate::constellation::{constellation, lemma_nearest_of_point, nearest, MAX_BITS_PER_SYMBOL};
use crate::error::ModulationError;
use crate::phase::{lemma_mean_of_constant_block, mean_phase, Phase};
use vstd::arithmetic::div_mod::{lemma_fundamental_div_mod, lemma_fundamental_div_mod_converse};
use vstd::arithmetic::mul::lemma_mul_inequality;
use vstd::arithmetic::power2::{lemma2_to64, lemma_pow2_strictly_increases, pow2};
use vstd::bits::{lemma_usize_shl_is_mul, lemma_usize_shr_is_div};
use vstd::prelude::*;
use vstd::slice::slice_subrange;

verus! {

/// The symbol values that `data` is cut into, `m` bits to a symbol: the bits
/// of `data` in order, each group of `m` read as a number with its first bit
/// the most significant. A last group of fewer than `m` bits fills the high
/// places of its symbol; the low places are 0.
pub open spec fn symbols(data: Seq<u8>, m: nat) -> Seq<usize> {
    Seq::new(
        window_count(8 * data.len(), m),
        |k: int| window_value(unpacked(data), k * m, m) as usize,
    )
}

/// The waveform that holds the point of each symbol for `hold` samples,
/// whatever a sample is.
pub open spec fn held<T>(points: Seq<T>, symbols: Seq<usize>, hold: nat) -> Seq<T> {
    Seq::new(symbols.len() * hold, |j: int| points[symbols[j / (hold as int)] as int])
}

/// The symbol values that `samples` are taken for: of each block of `hold`
/// samples the mean phase, and for it the index of the nearest point.
/// Samples past the last whole block are left out.
pub open spec fn decisions(points: Seq<Phase>, samples: Seq<Phase>, hold: nat) -> Seq<usize> {
    Seq::new(
        samples.len() / hold,
        |k: int| nearest(points, mean_phase(samples.subrange(k * hold, (k + 1) * hold))) as usize,
    )
}

/// The bits that `symbols` spell: `m` for each, its most significant first.
pub open spec fn symbol_bits(symbols: Seq<usize>, m: nat) -> Seq<u8> {
    Seq::new(symbols.len() * m, |j: int| bit_at(symbols[j / (m as int)] as nat, m, j % (m as int)))
}

/// `count` bytes of 0.
pub open spec fn zero_bytes(count: nat) -> Seq<u8> {
    Seq::new(count, |i: int| 0u8)
}

/// The windows that cover `len` places: the whole ones, and one more where
/// places are left over. All but the last lie within the `len` places.
pub proof fn lemma_window_count(len: nat, width: nat)
    requires
        width > 0,
    ensures
        window_count(len, width) == len / width + if len % width == 0 {
            0nat
        } else {
            1nat
        },
        len <= window_count(len, width) * width < len + width,
{
    let q = (len / width) as int;
    let r = (len % width) as int;
    let w = width as int;
    lemma_fundamental_div_mod(len as int, w);
    if r == 0 {
        lemma_fundamental_div_mod_converse(len + w - 1, w, q, w - 1);
    } else {
        assert(w * (q + 1) == w * q + w) by (nonlinear_arith);
        lemma_fundamental_div_mod_converse(len + w - 1, w, q + 1, r - 1);
    }
}

/// The bits of bytes are bits.
pub proof fn lemma_unpacked_is_bit_seq(data: Seq<u8>)
    ensures
        is_bit_seq(unpacked(data)),
        unpacked(data).len() == 8 * data.len(),
{
}

/// The symbol values that `data` is cut into, `bits_per_symbol` bits to a
/// symbol.
pub fn symbol_values(data: &[u8], bits_per_symbol: usize) -> (values: Vec<usize>)
    requires
        1 <= bits_per_symbol <= MAX_BITS_PER_SYMBOL,
        8 * data@.len() <= usize::MAX,
    ensures
        values@ == symbols(data@, bits_per_symbol as nat),
{
    let bits = unpackbits(data);
    let len = bits.len();
    let count = if len % bits_per_symbol == 0 {
        len / bits_per_symbol
    } else {
        len / bits_per_symbol + 1
    };
    let ghost m = bits_per_symbol as nat;
    proof {
        lemma_window_count(len as nat, m);
    }
    let mut values: Vec<usize> = Vec::with_capacity(count);
    let mut k: usize = 0;
    while k < count
        invariant
            m == bits_per_symbol,
            1 <= m <= MAX_BITS_PER_SYMBOL,
            bits@ == unpacked(data@),
            is_bit_seq(bits@),
            len == bits@.len(),
            count == window_count(len as nat, m),
            len <= count * m < len + m,
            k <= count,
            values@.len() == k,
            forall|i: int|
                0 <= i < k ==> #[trigger] values@[i] == window_value(bits@, i * m, m) as usize,
        decreases count - k,
    {
        proof {
            lemma_mul_inequality(k as int, count - 1, m as int);
            assert((count - 1) * m == count * m - m) by (nonlinear_arith);
        }
        let start = k * bits_per_symbol;
        let end = if len - start >= bits_per_symbol {
            start + bits_per_symbol
        } else {
            len
        };
        let group = slice_subrange(bits.as_slice(), start, end);
        let head = pack_into(group);
        let ghost present = (end - start) as nat;
        proof {
            // The group spells the first `present` places of the symbol; the
            // places that are left lie past the end of the bits.
            lemma_window_of_subrange(bits@, start as int, end as int, 0, present);
            lemma_window_zero_tail(bits@, start as int, present, m);
            // The symbol is below `2^m`, which a `usize` holds.
            lemma_window_value_bound(bits@, start as int, m);
            lemma2_to64();
            lemma_pow2_strictly_increases(m, 31);
            if present < m {
                lemma_usize_shl_is_mul(head, (bits_per_symbol - (end - start)) as usize);
            }
        }
        let value = if end - start == bits_per_symbol {
            head
        } else {
            head << (bits_per_symbol - (end - start))
        };
        values.push(value);
        k = k + 1;
    }
    assert(values@ =~= symbols(data@, m));
    values
}

/// Writes the waveform that holds the point of each of `values` for `hold`
/// samples to the front of `out`, and leaves the rest of `out` as it was.
/// Where `out` is too short for the waveform, nothing is written and
/// `BufferTooSmall` comes back.
///
/// Every value must be the index of a point.
pub fn hold_into<T: Copy>(points: &[T], values: &[usize], hold: usize, out: &mut [T]) -> (done:
    Result<(), ModulationError>)
    requires
        forall|k: int| 0 <= k < values@.len() ==> #[trigger] values@[k] < points@.len(),
    ensures
        done is Ok <==> values@.len() * hold <= old(out)@.len(),
        done is Ok ==> final(out)@ == held(points@, values@, hold as nat) + old(out)@.skip(
            values@.len() * hold,
        ),
        done matches Err(e) ==> e == ModulationError::BufferTooSmall && final(out)@ == old(out)@,
{
    let ghost before = out@;
    let ghost wave = held(points@, values@, hold as nat);
    let count = values.len();
    let capacity = out.len();
    let required = match count.checked_mul(hold) {
        Some(required) => required,
        None => {
            return Err(ModulationError::BufferTooSmall);
        },
    };
    if capacity < required {
        return Err(ModulationError::BufferTooSmall);
    }
    let mut k: usize = 0;
    while k < count
        invariant
            wave == held(points@, values@, hold as nat),
            forall|i: int| 0 <= i < values@.len() ==> #[trigger] values@[i] < points@.len(),
            count == values@.len(),
            count * hold <= capacity,
            capacity == out@.len(),
            out@.len() == before.len(),
            k <= count,
            0 <= k * hold <= count * hold,
            forall|j: int| 0 <= j < k * hold ==> #[trigger] out@[j] == wave[j],
            forall|j: int| k * hold <= j < out@.len() ==> #[trigger] out@[j] == before[j],
        decreases count - k,
    {
        proof {
            assert((k + 1) * hold == k * hold + hold) by (nonlinear_arith);
            assert((k + 1) * hold <= count * hold) by (nonlinear_arith)
                requires
                    k + 1 <= count,
                    hold >= 0,
            ;
        }
        let point = points[values[k]];
        let mut t: usize = 0;
        while t < hold
            invariant
                wave == held(points@, values@, hold as nat),
                0 <= values@[k as int] < points@.len(),
                point == points@[values@[k as int] as int],
                count == values@.len(),
                k < count,
                0 <= k * hold,
                (k + 1) * hold <= count * hold,
                (k + 1) * hold == k * hold + hold,
                count * hold <= capacity,
                capacity == out@.len(),
                out@.len() == before.len(),
                t <= hold,
                forall|j: int| 0 <= j < k * hold + t ==> #[trigger] out@[j] == wave[j],
                forall|j: int| k * hold + t <= j < out@.len() ==> #[trigger] out@[j] == before[j],
            decreases hold - t,
        {
            proof {
                lemma_held_sample(points@, values@, hold as nat, k as int, t as int);
            }
            out[k * hold + t] = point;
            t = t + 1;
        }
        k = k + 1;
    }
    assert(out@ =~= wave + before.skip(wave.len() as int));
    Ok(())
}

/// The bits that `values` spell, `bits_per_symbol` for each value, its most
/// significant first.
pub fn spell_symbols(values: &[usize], bits_per_symbol: usize) -> (bits: Vec<u8>)
    requires
        1 <= bits_per_symbol <= MAX_BITS_PER_SYMBOL,
        values@.len() * bits_per_symbol <= usize::MAX,
    ensures
        bits@ == symbol_bits(values@, bits_per_symbol as nat),
        is_bit_seq(bits@),
{
    let count = values.len();
    let ghost m = bits_per_symbol as nat;
    let mut bits: Vec<u8> = Vec::new();
    let mut k: usize = 0;
    while k < count
        invariant
            m == bits_per_symbol,
            1 <= m <= MAX_BITS_PER_SYMBOL,
            count == values@.len(),
            count * m <= usize::MAX,
            k <= count,
            bits@.len() == k * m,
            forall|i: int|
                0 <= i < k * m ==> #[trigger] bits@[i] == bit_at(
                    values@[i / (m as int)] as nat,
                    m,
                    i % (m as int),
                ),
        decreases count - k,
    {
        let value = values[k];
        let mut j: usize = 0;
        while j < bits_per_symbol
            invariant
                m == bits_per_symbol,
                1 <= m <= MAX_BITS_PER_SYMBOL,
                count == values@.len(),
                count * m <= usize::MAX,
                k < count,
                value == values@[k as int],
                j <= m,
                bits@.len() == k * m + j,
                forall|i: int|
                    0 <= i < k * m + j ==> #[trigger] bits@[i] == bit_at(
                        values@[i / (m as int)] as nat,
                        m,
                        i % (m as int),
                    ),
            decreases bits_per_symbol - j,
        {
            let shift = bits_per_symbol - 1 - j;
            proof {
                lemma_usize_shr_is_div(value, shift);
                lemma_fundamental_div_mod_converse(k * m + j, m as int, k as int, j as int);
            }
            let bit = ((value >> shift) % 2) as u8;
            bits.push(bit);
            j = j + 1;
        }
        proof {
            assert((k + 1) * m == k * m + m) by (nonlinear_arith);
        }
        k = k + 1;
    }
    assert(bits@ =~= symbol_bits(values@, m));
    bits
}

/// Spelling the symbols that `data` was cut into gives the bits of `data`
/// back, followed by the zeros that filled the last symbol.
pub proof fn lemma_bits_of_symbols(data: Seq<u8>, m: nat)
    requires
        1 <= m <= MAX_BITS_PER_SYMBOL,
    ensures
        symbol_bits(symbols(data, m), m).len() == window_count(8 * data.len(), m) * m,
        forall|j: int|
            0 <= j < window_count(8 * data.len(), m) * m ==> #[trigger] symbol_bits(
                symbols(data, m),
                m,
            )[j] == bit_or_zero(unpacked(data), j),
{
    let raw = unpacked(data);
    let cut = symbols(data, m);
    let spelt = symbol_bits(cut, m);
    assert forall|j: int| 0 <= j < window_count(8 * data.len(), m) * m implies #[trigger] spelt[j]
        == bit_or_zero(raw, j) by {
        let k = j / (m as int);
        let place = j % (m as int);
        lemma_fundamental_div_mod(j, m as int);
        assert(0 <= k < cut.len()) by (nonlinear_arith)
            requires
                0 <= j < cut.len() * m,
                j == m * k + place,
                0 <= place < m,
        ;
        lemma_window_value_bound(raw, k * m, m);
        lemma2_to64();
        lemma_bit_of_window(raw, k * m, m, place);
    }
}

/// Bits that begin with the bits of `data` and go on with zeros pack into
/// `data`, followed by bytes of 0.
pub proof fn lemma_packed_of_extended(data: Seq<u8>, bits: Seq<u8>)
    requires
        bits.len() >= 8 * data.len(),
        forall|j: int| 0 <= j < bits.len() ==> #[trigger] bits[j] == bit_or_zero(unpacked(data), j),
    ensures
        packed(bits) == data + zero_bytes((window_count(bits.len(), 8) - data.len()) as nat),
        window_count(bits.len(), 8) >= data.len(),
{
    let raw = unpacked(data);
    let bytes = packed(bits);
    lemma2_to64();
    assert forall|b: int| 0 <= b < data.len() implies #[trigger] bytes[b] == data[b] by {
        // The eight bits from `8 * b` on are the bits of byte `b`.
        assert forall|j: int| 0 <= j < 8 implies bit_or_zero(bits, 8 * b + j) == #[trigger] bit_at(
            data[b] as nat,
            8,
            j,
        ) by {
            assert(bits[8 * b + j] == bit_or_zero(raw, 8 * b + j));
        }
        lemma_window_of_bits(bits, 8 * b, 8, data[b] as nat);
    }
    assert forall|b: int| data.len() <= b < bytes.len() implies #[trigger] bytes[b] == 0 by {
        // Past the bits of `data` there are zeros only.
        assert forall|at: int| 8 * b <= at < 8 * b + 8 implies bit_or_zero(bits, at) == 0 by {
            if at < bits.len() {
                assert(bits[at] == bit_or_zero(raw, at));
            }
        }
        lemma_window_zero_tail(bits, 8 * b, 0, 8);
        assert(window_value(bits, 8 * b, 0) == 0);
    }
    assert(bytes =~= data + zero_bytes((window_count(bits.len(), 8) - data.len()) as nat));
}

/// The sample at place `t` of block `k` of a held waveform is the point of
/// symbol `k`.
pub proof fn lemma_held_sample<T>(
    points: Seq<T>,
    symbols: Seq<usize>,
    hold: nat,
    k: int,
    t: int,
)
    requires
        0 <= k < symbols.len(),
        0 <= t < hold,
    ensures
        0 <= k * hold + t < held(points, symbols, hold).len(),
        held(points, symbols, hold)[k * hold + t] == points[symbols[k] as int],
{
    let h = hold as int;
    lemma_fundamental_div_mod_converse(k * h + t, h, k, t);
    assert(0 <= k * h && (k + 1) * h <= symbols.len() * h) by (nonlinear_arith)
        requires
            0 <= k < symbols.len(),
            h >= 1,
    ;
    assert((k + 1) * h == k * h + h) by (nonlinear_arith);
}

/// A waveform that holds each symbol's point is taken for those symbols.
pub proof fn lemma_decisions_of_held(m: nat, symbols: Seq<usize>, hold: nat)
    requires
        m <= MAX_BITS_PER_SYMBOL,
        hold >= 1,
        forall|k: int| 0 <= k < symbols.len() ==> #[trigger] symbols[k] < pow2(m),
    ensures
        held(constellation(m), symbols, hold).len() == symbols.len() * hold,
        decisions(constellation(m), held(constellation(m), symbols, hold), hold) == symbols,
{
    let points = constellation(m);
    let wave = held(points, symbols, hold);
    let taken = decisions(points, wave, hold);
    let h = hold as int;
    lemma_fundamental_div_mod_converse((symbols.len() * hold) as int, h, symbols.len() as int, 0);
    assert forall|k: int| 0 <= k < symbols.len() implies #[trigger] taken[k] == symbols[k] by {
        let block = wave.subrange(k * h, (k + 1) * h);
        let point = points[symbols[k] as int];
        assert((k + 1) * h == k * h + h) by (nonlinear_arith);
        assert(0 <= k * h && (k + 1) * h <= symbols.len() * h) by (nonlinear_arith)
            requires
                0 <= k < symbols.len(),
                h >= 1,
        ;
        assert forall|t: int| 0 <= t < block.len() implies #[trigger] block[t] == point by {
            lemma_fundamental_div_mod_converse(k * h + t, h, k, t);
        }
        lemma_mean_of_constant_block(block, point);
        lemma_nearest_of_point(m, symbols[k] as int);
    }
    assert(taken =~= symbols);
}

} // verus!
