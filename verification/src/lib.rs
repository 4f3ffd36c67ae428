//! Phase-shift keying on exact phases.
//!
//! A scheme cuts a byte stream into symbols of a fixed number of bits, sends
//! each symbol as one point of a constellation on the unit circle, and holds
//! that point for a fixed number of samples. Demodulation takes each block of
//! samples for the nearest point and gives the bytes back.
//!
//! A sample of magnitude one is held by its angle alone, as a [`Phase`]: the
//! points of every constellation are then exact, and so is every decision
//! between them. Turning a phase into a pair of floating-point numbers, and a
//! received sample into its phase, is left to the caller.
//!
//! - [`phase`]: phases, their distance, and the mean phase of a block.
//! - [`constellation`]: the points of a constellation, and the nearest point.
//! - [`bits`]: bit sequences and the numbers that they spell.
//! - [`symbols`]: from bytes to symbol values and to the held waveform, and
//!   back.
//! - [`rates`]: the rates of a scheme and its timing.
//! - [`traits`]: the capabilities of a modulation scheme.
//! - [`psk`]: the scheme itself, and its round trip.
//! - [`error`]: the failures.

pub mod bits;
pub mod constellation;
pub mod error;
pub mod phase;
pub mod psk;
pub mod rates;
pub mod symbols;
pub mod traits;

pub use error::ModulationError;
pub use phase::Phase;
pub use psk::PskModulation;
pub use rates::{Rates, Ratio};
pub use traits::{Demodulator, Modulation, Modulator};
