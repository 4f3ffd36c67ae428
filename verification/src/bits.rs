//! Bit sequences, most significant bit first, and the fixed-width numbers
//! that they spell.

use vstd::arithmetic::div_mod::lemma_div_denominator;
use vstd::arithmetic::power2::{lemma2_to64, lemma_pow2_pos, lemma_pow2_unfold, pow2};
use vstd::prelude::*;
use yttria_math::prelude::YttriaVectorBitwise;

verus! {

/// Every element is 0 or 1.
pub open spec fn is_bit_seq(bits: Seq<u8>) -> bool {
    forall|i: int| 0 <= i < bits.len() ==> bits[i] <= 1
}

/// The element at `i`, and 0 where the sequence has none.
pub open spec fn bit_or_zero(bits: Seq<u8>, i: int) -> nat {
    if 0 <= i < bits.len() {
        bits[i] as nat
    } else {
        0
    }
}

/// The number that the `width` bits from `start` on spell, the first of them
/// being the most significant. Places past the end of `bits` count as 0, so
/// a window that reaches over the end holds the bits that exist in its high
/// places and zeros below them.
pub open spec fn window_value(bits: Seq<u8>, start: int, width: nat) -> nat
    decreases width,
{
    if width == 0 {
        0
    } else {
        2 * window_value(bits, start, (width - 1) as nat) + bit_or_zero(bits, start + width - 1)
    }
}

/// The bit at place `j` of `value` written with `width` bits, place 0 being
/// the most significant.
pub open spec fn bit_at(value: nat, width: nat, j: int) -> u8 {
    ((value / pow2((width - 1 - j) as nat)) % 2) as u8
}

/// How many windows of `width` places it takes to cover `len` places.
pub open spec fn window_count(len: nat, width: nat) -> nat {
    ((len + width - 1) / (width as int)) as nat
}

/// The bits of `data`: eight per byte, the most significant first.
pub open spec fn unpacked(data: Seq<u8>) -> Seq<u8> {
    Seq::new(8 * data.len(), |k: int| bit_at(data[k / 8] as nat, 8, k % 8))
}

/// The bytes that `bits` spell, eight bits to a byte, the first bit of each
/// eight being the most significant. Where the bits run out within the last
/// byte, its low places are 0.
pub open spec fn packed(bits: Seq<u8>) -> Seq<u8> {
    Seq::new(window_count(bits.len(), 8), |b: int| window_value(bits, 8 * b, 8) as u8)
}

/// `yttria_math`'s `unpackbits` on a byte slice: eight elements for each
/// byte, each 0 or 1, the byte's most significant bit first.
#[verifier::external_body]
pub(crate) fn unpackbits(data: &[u8]) -> (bits: Vec<u8>)
    requires
        8 * data@.len() <= usize::MAX,
    ensures
        bits@ == unpacked(data@),
{
    data.unpackbits()
}

/// `yttria_math`'s `packbits` on a slice of bits: one byte for each eight
/// elements, the first of them in the byte's most significant place. A last
/// group of fewer than eight fills the high places of its byte.
#[verifier::external_body]
pub(crate) fn packbits(bits: &[u8]) -> (bytes: Vec<u8>)
    requires
        is_bit_seq(bits@),
    ensures
        bytes@ == packed(bits@),
{
    bits.packbits()
}

/// `yttria_math`'s `pack_into` on a slice of bits, for `usize`: the number
/// that the bits spell, the first being the most significant. The outside
/// function panics on more bits than a `usize` has.
#[verifier::external_body]
pub(crate) fn pack_into(bits: &[u8]) -> (value: usize)
    requires
        is_bit_seq(bits@),
        bits@.len() <= usize::BITS,
    ensures
        value == window_value(bits@, 0, bits@.len()),
{
    bits.pack_into::<usize>()
}

/// A window of bits spells a number below `2^width`.
pub proof fn lemma_window_value_bound(bits: Seq<u8>, start: int, width: nat)
    requires
        is_bit_seq(bits),
    ensures
        window_value(bits, start, width) < pow2(width),
    decreases width,
{
    if width == 0 {
        lemma2_to64();
    } else {
        lemma_window_value_bound(bits, start, (width - 1) as nat);
        lemma_pow2_unfold(width);
    }
}

/// Reading place `j` of the number that a window spells gives back the bit
/// at place `j` of the window.
pub proof fn lemma_bit_of_window(bits: Seq<u8>, start: int, width: nat, j: int)
    requires
        is_bit_seq(bits),
        0 <= j < width,
    ensures
        bit_at(window_value(bits, start, width), width, j) == bit_or_zero(bits, start + j),
    decreases width,
{
    let value = window_value(bits, start, width);
    if j == width - 1 {
        // The lowest place of `value` is the last bit of the window.
        lemma2_to64();
        assert(value / 1 == value);
    } else {
        // A higher place of `value` is that place of the window without its
        // last bit, which spells half of `value`, rounded down.
        let place = pow2((width - 2 - j) as nat);
        lemma_pow2_pos((width - 2 - j) as nat);
        lemma_pow2_unfold((width - 1 - j) as nat);
        lemma_div_denominator(value as int, 2, place as int);
        lemma_bit_of_window(bits, start, (width - 1) as nat, j);
    }
}

/// A window whose bits are those of `value`, place by place, spells `value`.
pub proof fn lemma_window_of_bits(bits: Seq<u8>, start: int, width: nat, value: nat)
    requires
        value < pow2(width),
        forall|j: int| 0 <= j < width ==> bit_or_zero(bits, start + j) == bit_at(value, width, j),
    ensures
        window_value(bits, start, width) == value,
    decreases width,
{
    if width == 0 {
        lemma2_to64();
    } else {
        // All bits but the last are those of half of `value`, rounded down.
        let half = value / 2;
        let shorter = (width - 1) as nat;
        lemma_pow2_unfold(width);
        assert forall|j: int| 0 <= j < shorter implies bit_or_zero(bits, start + j)
            == #[trigger] bit_at(half, shorter, j) by {
            let place = pow2((width - 2 - j) as nat);
            lemma_pow2_pos((width - 2 - j) as nat);
            lemma_pow2_unfold((width - 1 - j) as nat);
            lemma_div_denominator(value as int, 2, place as int);
            assert(bit_or_zero(bits, start + j) == bit_at(value, width, j));
        }
        lemma_window_of_bits(bits, start, shorter, half);
        lemma2_to64();
        assert(pow2((width - 1 - (width - 1)) as nat) == 1);
        assert(bit_or_zero(bits, start + (width - 1)) == bit_at(value, width, width - 1));
    }
}

/// A window within a stretch of `bits` spells the same number in the stretch
/// as in `bits`.
pub proof fn lemma_window_of_subrange(
    bits: Seq<u8>,
    from: int,
    to: int,
    start: int,
    width: nat,
)
    requires
        0 <= from <= to <= bits.len(),
        0 <= start,
        start + width <= to - from,
    ensures
        window_value(bits.subrange(from, to), start, width) == window_value(
            bits,
            from + start,
            width,
        ),
    decreases width,
{
    if width > 0 {
        lemma_window_of_subrange(bits, from, to, start, (width - 1) as nat);
    }
}

/// A window whose places are all 0 from its `head`-th on spells the number
/// of its first `head` places, shifted up by the places that remain.
pub proof fn lemma_window_zero_tail(bits: Seq<u8>, start: int, head: nat, width: nat)
    requires
        head <= width,
        forall|at: int| start + head <= at < start + width ==> bit_or_zero(bits, at) == 0,
    ensures
        window_value(bits, start, width) == window_value(bits, start, head) * pow2(
            (width - head) as nat,
        ),
    decreases width,
{
    if head == width {
        lemma2_to64();
        assert(pow2((width - head) as nat) == 1);
    } else {
        lemma_window_zero_tail(bits, start, head, (width - 1) as nat);
        lemma_pow2_unfold((width - head) as nat);
        let head_value = window_value(bits, start, head);
        let scale = pow2((width - 1 - head) as nat);
        assert(2 * (head_value * scale) == head_value * (2 * scale)) by (nonlinear_arith);
    }
}

} // verus!
