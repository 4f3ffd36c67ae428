//! The failures that the modulation functions report.

use vstd::prelude::*;

verus! {

/// Why a scheme could not be built, or a buffer not be processed.
///
/// Each failure is determined by the arguments alone; nothing is written
/// before one is reported.
#[derive(Clone, Copy, Debug, PartialEq, Eq, Structural)]
pub enum ModulationError {
    /// A rate is zero, the bits per symbol are out of range, or the rates
    /// leave no whole sample for a symbol.
    InvalidParameter,
    /// The output buffer cannot hold what the input produces.
    BufferTooSmall,
    /// The sample count is no multiple of the samples per symbol.
    UnalignedInput,
    /// There are no samples to demodulate.
    EmptyInput,
}

} // verus!
