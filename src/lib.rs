//! Parser for the Swedish-Norwegian smart power meter customer interface
//! (HAN, also known as P1): frame scanning, checksum validation and decoding
//! of the OBIS-tagged measurement records of a telegram.
use vstd::prelude::*;

pub mod text;
pub mod obis;
pub mod read;

pub use obis::{Direction, Line, Obis, Object, Power, Timestamp};
pub use read::{AsyncReader, Reader, Readout, Scanner, Telegram, CAPACITY};

verus! {

/// HAN error.
#[derive(Debug, Clone, Copy, PartialEq, Eq, Structural)]
pub enum Error {
    /// Parsing failed due to an invalid format.
    InvalidFormat,
    /// Checksum mismatch.
    Checksum,
    /// The parser came across a correctly formatted, but unrecognized,
    /// [`Obis`] reference.
    UnrecognizedReference,
}

impl Error {
    /// A short human-readable description of the error.
    pub fn message(&self) -> (r: &'static str)
        ensures
            *self == Error::InvalidFormat ==> r@ == "invalid format"@,
            *self == Error::Checksum ==> r@ == "checksum mismatch"@,
            *self == Error::UnrecognizedReference ==> r@ == "unrecognized obis reference"@,
    {
        match self {
            Error::InvalidFormat => "invalid format",
            Error::Checksum => "checksum mismatch",
            Error::UnrecognizedReference => "unrecognized obis reference",
        }
    }
}

} // verus!
