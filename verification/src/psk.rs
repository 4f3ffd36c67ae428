//! Phase-shift keying.

use crate::bits::{lemma_window_value_bound, packbits, packed, unpacked, window_count};
use crate::constellation::{build_constellation, constellation, lemma_phase_grid, nearest_point};
use crate::error::ModulationError;
use crate::phase::{block_mean, Phase};
use crate::rates::{Rates, Ratio};
use crate::symbols::{
    decisions, held, hold_into, lemma_bits_of_symbols, lemma_decisions_of_held,
    lemma_packed_of_extended, lemma_window_count, spell_symbols, symbol_bits, symbol_values,
    symbols, zero_bytes,
};
use crate::traits::{Demodulator, Modulation, Modulator};
use vstd::arithmetic::div_mod::{lemma_fundamental_div_mod, lemma_fundamental_div_mod_converse};
use vstd::arithmetic::power2::pow2;
use vstd::pervasive::unreached;
use vstd::prelude::*;
use vstd::slice::slice_subrange;

verus! {

/// A phase-shift-keying scheme: every symbol of `bits_per_symbol` bits is
/// sent as one point of the constellation, held for `samples_per_symbol`
/// samples.
///
/// A scheme is built once and not changed afterwards.
pub struct PskModulation {
    rates: Rates,
    symbol_map: Vec<Phase>,
}

impl PskModulation {
    #[verifier::type_invariant]
    spec fn holds(self) -> bool {
        self.well_formed()
    }

    /// The rates are valid and the symbol map is the constellation for the
    /// scheme's bits per symbol. Every scheme that [`PskModulation::new`]
    /// hands out is well formed.
    pub open spec fn well_formed(&self) -> bool {
        &&& self.rates().valid()
        &&& self.points() == constellation(self.rates().bits_per_symbol as nat)
    }

    /// The scheme for symbols of `bits_per_symbol` bits at `sample_rate`
    /// samples per second in a bandwidth of `bandwidth` hertz. Fails with
    /// `InvalidParameter` where the three are no valid rates. Only the
    /// quotient of the two rates enters the timing, so both may be given in
    /// any unit that they share.
    pub fn new(bits_per_symbol: usize, sample_rate: u64, bandwidth: u64) -> (made: Result<
        PskModulation,
        ModulationError,
    >)
        ensures
            made is Ok <==> (Rates { bits_per_symbol, sample_rate, bandwidth }).valid(),
            made matches Ok(scheme) ==> scheme.well_formed() && scheme.rates() == (Rates {
                bits_per_symbol,
                sample_rate,
                bandwidth,
            }),
            made matches Err(e) ==> e == ModulationError::InvalidParameter,
    {
        let rates = Rates { bits_per_symbol, sample_rate, bandwidth };
        match rates.checked_samples_per_symbol() {
            Err(e) => Err(e),
            Ok(_) => match build_constellation(bits_per_symbol) {
                Err(e) => Err(e),
                Ok(symbol_map) => Ok(PskModulation { rates, symbol_map }),
            },
        }
    }

    /// The symbol values that `samples` are taken for: one for each whole
    /// block of `samples_per_symbol` samples.
    pub fn symbol_decisions(&self, samples: &[Phase]) -> (taken: Vec<usize>)
        ensures
            taken@ == decisions(
                self.points(),
                samples@,
                self.rates().samples_per_symbol(),
            ),
    {
        proof {
            use_type_invariant(self);
            lemma_phase_grid(self.rates.bits_per_symbol as nat);
        }
        let hold = self.samples_per_symbol();
        let total = samples.len();
        let count = total / hold;
        proof {
            lemma_fundamental_div_mod(samples@.len() as int, hold as int);
        }
        let mut taken: Vec<usize> = Vec::with_capacity(count);
        let mut k: usize = 0;
        while k < count
            invariant
                self.well_formed(),
                self.symbol_map@ == self.points(),
                self.points().len() >= 1,
                hold == self.rates().samples_per_symbol(),
                hold >= 1,
                total == samples@.len(),
                count == total / hold,
                count * hold <= total,
                k <= count,
                taken@.len() == k,
                forall|i: int|
                    0 <= i < k ==> #[trigger] taken@[i] == decisions(
                        self.points(),
                        samples@,
                        hold as nat,
                    )[i],
            decreases count - k,
        {
            proof {
                assert((k + 1) * hold == k * hold + hold) by (nonlinear_arith);
                assert(0 <= k * hold && (k + 1) * hold <= count * hold) by (nonlinear_arith)
                    requires
                        0 <= k,
                        k + 1 <= count,
                        hold >= 1,
                ;
            }
            let block = slice_subrange(samples, k * hold, (k + 1) * hold);
            let mean = match block_mean(block) {
                Some(mean) => mean,
                None => unreached(),
            };
            let value = match nearest_point(self.symbol_map.as_slice(), mean) {
                Some(value) => value,
                None => unreached(),
            };
            taken.push(value);
            k = k + 1;
        }
        assert(taken@ =~= decisions(self.points(), samples@, hold as nat));
        taken
    }
}

impl Modulation for PskModulation {
    closed spec fn rates(&self) -> Rates {
        self.rates
    }

    closed spec fn points(&self) -> Seq<Phase> {
        self.symbol_map@
    }

    fn sample_rate(&self) -> (rate: u64) {
        self.rates.sample_rate
    }

    fn bits_per_symbol(&self) -> (bits: usize) {
        self.rates.bits_per_symbol
    }

    fn symbol_period(&self) -> (period: Ratio) {
        Ratio { numer: 2, denom: self.rates.bandwidth as u128 }
    }

    fn bitrate(&self) -> (rate: Ratio) {
        proof {
            use_type_invariant(self);
        }
        let bits = self.rates.bits_per_symbol as u128;
        let bandwidth = self.rates.bandwidth as u128;
        assert(bits * bandwidth <= 30 * 0xffff_ffff_ffff_ffff) by (nonlinear_arith)
            requires
                bits <= 30,
                bandwidth <= 0xffff_ffff_ffff_ffff,
        ;
        Ratio { numer: bits * bandwidth, denom: 2 }
    }

    fn samples_per_symbol(&self) -> (samples: usize)
        ensures
            samples >= 1,
    {
        proof {
            use_type_invariant(self);
        }
        ((2 * (self.rates.sample_rate as u128)) / (self.rates.bandwidth as u128)) as usize
    }

    fn symbol_map(&self) -> (points: &[Phase])
        ensures
            points@ == constellation(self.rates().bits_per_symbol as nat),
    {
        proof {
            use_type_invariant(self);
        }
        self.symbol_map.as_slice()
    }
}

impl Modulator for PskModulation {
    /// The point of each symbol of `data`, held for the samples of one
    /// symbol.
    open spec fn waveform(&self, data: Seq<u8>) -> Seq<Phase> {
        held(
            self.points(),
            symbols(data, self.rates().bits_per_symbol as nat),
            self.rates().samples_per_symbol(),
        )
    }

    fn modulate_into(&self, data: &[u8], out: &mut [Phase]) -> (done: Result<(), ModulationError>) {
        proof {
            use_type_invariant(self);
        }
        let ghost m = self.rates.bits_per_symbol as nat;
        let hold = self.samples_per_symbol();
        let values = symbol_values(data, self.rates.bits_per_symbol);
        proof {
            assert forall|k: int| 0 <= k < values@.len() implies #[trigger] values@[k]
                < self.symbol_map@.len() by {
                lemma_window_value_bound(unpacked(data@), k * m, m);
            }
        }
        hold_into(self.symbol_map.as_slice(), values.as_slice(), hold, out)
    }

    fn modulate(&self, data: &[u8]) -> (samples: Vec<Phase>)
        ensures
            samples@.len() == window_count(8 * data@.len(), self.rates().bits_per_symbol as nat)
                * self.rates().samples_per_symbol(),
    {
        proof {
            use_type_invariant(self);
            lemma_window_count(8 * data@.len(), self.rates.bits_per_symbol as nat);
        }
        let hold = self.samples_per_symbol();
        let bits_per_symbol = self.rates.bits_per_symbol;
        let bit_count = 8 * data.len();
        let count = if bit_count % bits_per_symbol == 0 {
            bit_count / bits_per_symbol
        } else {
            bit_count / bits_per_symbol + 1
        };
        let mut samples = vec![Phase { angle: 0 }; count * hold];
        let _ = self.modulate_into(data, samples.as_mut_slice());
        assert(samples@ =~= self.waveform(data@));
        samples
    }
}

impl Demodulator for PskModulation {
    /// The bits of the symbols that the blocks of `samples` are taken for.
    open spec fn recovered_bits(&self, samples: Seq<Phase>) -> Seq<u8> {
        symbol_bits(
            decisions(self.points(), samples, self.rates().samples_per_symbol()),
            self.rates().bits_per_symbol as nat,
        )
    }

    /// An empty buffer is refused as `EmptyInput`, and one that is no whole
    /// number of blocks as `UnalignedInput`. Of any other buffer every block
    /// gives all the bits of one symbol, and the bits are packed into bytes.
    ///
    /// The samples do not tell how many bits of the last symbol were data:
    /// all of them come back. The last byte is filled up with zeros, and it
    /// is for the caller to cut off what was not sent.
    open spec fn demodulated(&self, samples: Seq<Phase>) -> Result<Seq<u8>, ModulationError> {
        if samples.len() == 0 {
            Err(ModulationError::EmptyInput)
        } else if samples.len() % self.rates().samples_per_symbol() != 0 {
            Err(ModulationError::UnalignedInput)
        } else {
            Ok(packed(self.recovered_bits(samples)))
        }
    }

    fn demodulate_into(&self, samples: &[Phase], out: &mut [u8]) -> (done: Result<
        (),
        ModulationError,
    >) {
        let ghost before = out@;
        let bytes = match self.demodulate(samples) {
            Ok(bytes) => bytes,
            Err(e) => {
                return Err(e);
            },
        };
        let count = bytes.len();
        if out.len() < count {
            return Err(ModulationError::BufferTooSmall);
        }
        let mut i: usize = 0;
        while i < count
            invariant
                count == bytes@.len(),
                count <= out@.len(),
                out@.len() == before.len(),
                i <= count,
                forall|j: int| 0 <= j < i ==> #[trigger] out@[j] == bytes@[j],
                forall|j: int| i <= j < out@.len() ==> #[trigger] out@[j] == before[j],
            decreases count - i,
        {
            out[i] = bytes[i];
            i = i + 1;
        }
        assert(out@ =~= bytes@ + before.skip(count as int));
        Ok(())
    }

    fn demodulate(&self, samples: &[Phase]) -> (bytes: Result<Vec<u8>, ModulationError>) {
        proof {
            use_type_invariant(self);
        }
        if samples.len() == 0 {
            return Err(ModulationError::EmptyInput);
        }
        let hold = self.samples_per_symbol();
        if samples.len() % hold != 0 {
            return Err(ModulationError::UnalignedInput);
        }
        let taken = self.symbol_decisions(samples);
        let bits = spell_symbols(taken.as_slice(), self.rates.bits_per_symbol);
        Ok(packbits(bits.as_slice()))
    }
}

/// What is demodulated from the waveform of `data` is `data`, followed by as
/// many bytes of 0 as the zeros that filled the last symbol take up beyond
/// the last byte of `data`.
pub proof fn lemma_round_trip_padded(scheme: PskModulation, data: Seq<u8>)
    requires
        scheme.well_formed(),
        data.len() > 0,
    ensures
        scheme.demodulated(scheme.waveform(data)) == Ok::<Seq<u8>, ModulationError>(
            data + zero_bytes(
                (window_count(
                    window_count(8 * data.len(), scheme.rates().bits_per_symbol as nat)
                        * scheme.rates().bits_per_symbol as nat,
                    8,
                ) - data.len()) as nat,
            ),
        ),
        window_count(
            window_count(8 * data.len(), scheme.rates().bits_per_symbol as nat)
                * scheme.rates().bits_per_symbol as nat,
            8,
        ) >= data.len(),
{
    let m = scheme.rates().bits_per_symbol as nat;
    let hold = scheme.rates().samples_per_symbol();
    let cut = symbols(data, m);
    let wave = scheme.waveform(data);
    assert forall|k: int| 0 <= k < cut.len() implies #[trigger] cut[k] < pow2(m) by {
        lemma_window_value_bound(unpacked(data), k * m, m);
    }
    lemma_decisions_of_held(m, cut, hold);
    lemma_window_count(8 * data.len(), m);
    assert(cut.len() >= 1) by (nonlinear_arith)
        requires
            8 * data.len() <= cut.len() * m,
            data.len() > 0,
    ;
    assert(wave.len() >= 1) by (nonlinear_arith)
        requires
            wave.len() == cut.len() * hold,
            cut.len() >= 1,
            hold >= 1,
    ;
    lemma_fundamental_div_mod_converse(wave.len() as int, hold as int, cut.len() as int, 0);
    lemma_bits_of_symbols(data, m);
    lemma_packed_of_extended(data, symbol_bits(cut, m));
}

/// Round trip: where the bits of `data` fill whole symbols, what is
/// demodulated from the waveform of `data` is `data`.
pub proof fn lemma_round_trip(scheme: PskModulation, data: Seq<u8>)
    requires
        scheme.well_formed(),
        data.len() > 0,
        (8 * data.len()) % (scheme.rates().bits_per_symbol as nat) == 0,
    ensures
        scheme.demodulated(scheme.waveform(data)) == Ok::<Seq<u8>, ModulationError>(data),
{
    let m = scheme.rates().bits_per_symbol as nat;
    lemma_round_trip_padded(scheme, data);
    lemma_window_count(8 * data.len(), m);
    lemma_fundamental_div_mod((8 * data.len()) as int, m as int);
    assert(window_count(8 * data.len(), m) * m == 8 * data.len()) by (nonlinear_arith)
        requires
            window_count(8 * data.len(), m) == (8 * data.len()) as int / (m as int),
            (8 * data.len()) as int == (m as int) * (((8 * data.len()) as int) / (m as int)),
    ;
    assert(data + zero_bytes(0) =~= data);
}

} // verus!
