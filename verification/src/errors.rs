use vstd::prelude::*;

verus! {

/// Failure conditions of the formatting and Champernowne entry points.
///
/// Every failure is immediate and final: no partial output is ever returned.
#[derive(Clone, Copy, Debug, PartialEq, Eq, Structural)]
pub enum NumeralError {
    /// The group-size argument is present but not a positive integer.
    InvalidGroupSize,
    /// The base argument is present but not parseable as an integer.
    InvalidBase,
    /// The parsed base lies outside the supported range `[2, 36]`.
    BaseOutOfRange,
    /// The integer portion of the numeral cannot be parsed as a
    /// non-negative integer within 128 unsigned bits.
    InvalidNumeral,
}

} // verus!
