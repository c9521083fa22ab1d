//! The error values that conversions return.
use vstd::prelude::*;

verus! {

/// A conversion to a narrower integer type would have changed the value.
#[derive(Clone, Copy, Debug)]
pub struct TryFromIntError;

impl TryFromIntError {
    /// What the error says, for display.
    pub fn description(&self) -> (r: &'static str)
        ensures
            r@ == "out of range integral type conversion attempted"@,
    {
        "out of range integral type conversion attempted"
    }
}

/// Why a text could not be read as a number.
#[derive(Clone, Copy, Debug, PartialEq, Eq, Structural)]
pub enum ParseIntError {
    /// The text is empty.
    Empty,
    /// The text holds a character that is no digit of the radix.
    InvalidDigit,
    /// The number is too large for the type.
    PosOverflow,
    /// The number is too small for the type.
    NegOverflow,
}

impl ParseIntError {
    /// What the error says, for display.
    pub fn description(&self) -> (r: &'static str)
        ensures
            r@ == (match *self {
                ParseIntError::Empty => "cannot parse integer from empty string"@,
                ParseIntError::InvalidDigit => "invalid digit found in string"@,
                ParseIntError::PosOverflow => "number too large to fit in target type"@,
                ParseIntError::NegOverflow => "number too small to fit in target type"@,
            }),
    {
        match self {
            ParseIntError::Empty => "cannot parse integer from empty string",
            ParseIntError::InvalidDigit => "invalid digit found in string",
            ParseIntError::PosOverflow => "number too large to fit in target type",
            ParseIntError::NegOverflow => "number too small to fit in target type",
        }
    }
}

} // verus!
