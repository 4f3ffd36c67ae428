//! The rates of a scheme, and the timing that follows from them.

use crate::constellation::MAX_BITS_PER_SYMBOL;
use crate::error::ModulationError;
use vstd::prelude::*;

verus! {

/// A quotient of two whole numbers, not reduced: the number `numer / denom`.
#[derive(Clone, Copy, Debug, PartialEq, Eq, Structural)]
pub struct Ratio {
    pub numer: u128,
    pub denom: u128,
}

/// What a scheme is built from: the bits that one symbol carries, the sample
/// rate in samples per second, and the occupied bandwidth in hertz.
#[derive(Clone, Copy, Debug, PartialEq, Eq, Structural)]
pub struct Rates {
    pub bits_per_symbol: usize,
    pub sample_rate: u64,
    pub bandwidth: u64,
}

impl Rates {
    /// The time that one symbol lasts, in seconds: `2 / bandwidth`.
    pub open spec fn symbol_period(self) -> Ratio {
        Ratio { numer: 2, denom: self.bandwidth as u128 }
    }

    /// The bits sent per second: the bits of one symbol divided by the
    /// symbol period, `bits_per_symbol * bandwidth / 2`.
    pub open spec fn bitrate(self) -> Ratio {
        Ratio { numer: (self.bits_per_symbol * self.bandwidth) as u128, denom: 2 }
    }

    /// The samples that one symbol is held for: the symbol period times the
    /// sample rate, `2 * sample_rate / bandwidth`, rounded down.
    pub open spec fn samples_per_symbol(self) -> nat {
        (2 * self.sample_rate / (self.bandwidth as int)) as nat
    }

    /// Whether a scheme can be built from these rates: both rates are
    /// positive, a symbol carries between 1 and [`MAX_BITS_PER_SYMBOL`] bits,
    /// and it is held for at least one sample, and for no more than can be
    /// counted.
    pub open spec fn valid(self) -> bool {
        &&& 1 <= self.bits_per_symbol <= MAX_BITS_PER_SYMBOL
        &&& self.sample_rate > 0
        &&& self.bandwidth > 0
        &&& 1 <= self.samples_per_symbol() <= usize::MAX
    }

    /// The samples per symbol of valid rates, and `InvalidParameter` for
    /// rates that are not valid.
    pub fn checked_samples_per_symbol(&self) -> (checked: Result<usize, ModulationError>)
        ensures
            checked is Ok <==> self.valid(),
            checked matches Ok(samples) ==> samples == self.samples_per_symbol(),
            checked matches Err(e) ==> e == ModulationError::InvalidParameter,
    {
        if self.bits_per_symbol < 1 || self.bits_per_symbol > MAX_BITS_PER_SYMBOL {
            return Err(ModulationError::InvalidParameter);
        }
        if self.sample_rate == 0 || self.bandwidth == 0 {
            return Err(ModulationError::InvalidParameter);
        }
        let samples: u128 = (2 * (self.sample_rate as u128)) / (self.bandwidth as u128);
        if samples < 1 || samples > usize::MAX as u128 {
            return Err(ModulationError::InvalidParameter);
        }
        Ok(samples as usize)
    }
}

/// The timing of valid rates hangs together: the samples per symbol are the
/// symbol period times the sample rate, rounded down, and the bitrate is the
/// bits of one symbol divided by the symbol period.
pub proof fn lemma_timing(rates: Rates)
    requires
        rates.valid(),
    ensures
        rates.samples_per_symbol() == (rates.symbol_period().numer * rates.sample_rate) / (
        rates.symbol_period().denom as int),
        rates.bitrate().numer * rates.symbol_period().numer == rates.bits_per_symbol
            * rates.symbol_period().denom * rates.bitrate().denom,
        rates.symbol_period().denom > 0,
        rates.bitrate().denom > 0,
{
    let bits = rates.bits_per_symbol as int;
    let bandwidth = rates.bandwidth as int;
    assert(0 <= bits * bandwidth <= 30 * 0xffff_ffff_ffff_ffff) by (nonlinear_arith)
        requires
            0 <= bits <= 30,
            0 <= bandwidth <= 0xffff_ffff_ffff_ffff,
    ;
    assert((bits * bandwidth) * 2 == bits * bandwidth * 2) by (nonlinear_arith);
}

} // verus!
