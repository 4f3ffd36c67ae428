//! The three capabilities of a modulation scheme: its parameters, the way
//! from bytes to samples, and the way back.

use crate::error::ModulationError;
use crate::phase::Phase;
use crate::rates::{Rates, Ratio};
use vstd::prelude::*;

verus! {

/// The parameters of a scheme, and the timing that follows from them.
pub trait Modulation {
    /// What the scheme was built from.
    spec fn rates(&self) -> Rates;

    /// The scheme's constellation: the point at index `i` stands for the
    /// symbol value `i`.
    spec fn points(&self) -> Seq<Phase>;

    /// The sample rate, in samples per second.
    fn sample_rate(&self) -> (rate: u64)
        ensures
            rate == self.rates().sample_rate,
    ;

    /// The bits that one symbol carries.
    fn bits_per_symbol(&self) -> (bits: usize)
        ensures
            bits == self.rates().bits_per_symbol,
    ;

    /// The time that one symbol lasts, in seconds.
    fn symbol_period(&self) -> (period: Ratio)
        ensures
            period == self.rates().symbol_period(),
    ;

    /// The bits sent per second.
    fn bitrate(&self) -> (rate: Ratio)
        ensures
            rate == self.rates().bitrate(),
    ;

    /// The samples that one symbol is held for.
    fn samples_per_symbol(&self) -> (samples: usize)
        ensures
            samples == self.rates().samples_per_symbol(),
    ;

    /// The constellation.
    fn symbol_map(&self) -> (points: &[Phase])
        ensures
            points@ == self.points(),
    ;
}

/// The way from bytes to samples.
pub trait Modulator {
    /// The samples that `data` is sent as.
    spec fn waveform(&self, data: Seq<u8>) -> Seq<Phase>;

    /// Writes the samples that `data` is sent as to the front of `out`, and
    /// leaves the rest of `out` as it was. Where `out` is too short for
    /// them, nothing is written and `BufferTooSmall` comes back.
    ///
    /// The bits of `data` must be countable in a `usize`.
    fn modulate_into(&self, data: &[u8], out: &mut [Phase]) -> (done: Result<(), ModulationError>)
        requires
            8 * data@.len() <= usize::MAX,
        ensures
            done is Ok <==> self.waveform(data@).len() <= old(out)@.len(),
            done is Ok ==> final(out)@ == self.waveform(data@) + old(out)@.skip(
                self.waveform(data@).len() as int,
            ),
            done matches Err(e) ==> e == ModulationError::BufferTooSmall
                && final(out)@ == old(out)@,
    ;

    /// The samples that `data` is sent as.
    ///
    /// The bits of `data` and the samples must be countable in a `usize`.
    fn modulate(&self, data: &[u8]) -> (samples: Vec<Phase>)
        requires
            8 * data@.len() <= usize::MAX,
            self.waveform(data@).len() <= usize::MAX,
        ensures
            samples@ == self.waveform(data@),
    ;
}

/// The way from samples back to bytes.
pub trait Demodulator {
    /// The bits that `samples` are taken for, before they are packed into
    /// bytes.
    spec fn recovered_bits(&self, samples: Seq<Phase>) -> Seq<u8>;

    /// What demodulating `samples` comes to: the bytes, or the reason why
    /// the samples are refused.
    spec fn demodulated(&self, samples: Seq<Phase>) -> Result<Seq<u8>, ModulationError>;

    /// Writes the bytes that `samples` are taken for to the front of `out`,
    /// and leaves the rest of `out` as it was. Where the samples are
    /// refused, or `out` is too short for the bytes (`BufferTooSmall`),
    /// nothing is written.
    ///
    /// The bits that the samples are taken for must be countable in a
    /// `usize`.
    fn demodulate_into(&self, samples: &[Phase], out: &mut [u8]) -> (done: Result<
        (),
        ModulationError,
    >)
        requires
            self.recovered_bits(samples@).len() <= usize::MAX,
        ensures
            match self.demodulated(samples@) {
                Ok(bytes) => if bytes.len() <= old(out)@.len() {
                    done is Ok && final(out)@ == bytes + old(out)@.skip(bytes.len() as int)
                } else {
                    done == Err::<(), ModulationError>(ModulationError::BufferTooSmall)
                        && final(out)@ == old(out)@
                },
                Err(e) => done == Err::<(), ModulationError>(e) && final(out)@ == old(out)@,
            },
    ;

    /// The bytes that `samples` are taken for, or the reason why the samples
    /// are refused.
    ///
    /// The bits that the samples are taken for must be countable in a
    /// `usize`.
    fn demodulate(&self, samples: &[Phase]) -> (bytes: Result<Vec<u8>, ModulationError>)
        requires
            self.recovered_bits(samples@).len() <= usize::MAX,
        ensures
            match self.demodulated(samples@) {
                Ok(expected) => bytes matches Ok(found) && found@ == expected,
                Err(e) => bytes matches Err(f) && f == e,
            },
    ;
}

} // verus!
