//! Error types of the calculation and conversion functions.

use vstd::prelude::*;

verus! {

/// Errors of the arithmetic operations.
#[derive(Copy, Clone, Debug, PartialEq, Eq, Structural)]
pub enum Error {
    /// The divisor was zero.
    DivisionByZero,
    /// The square root of a negative number was requested.
    NumberIsNegative,
}

impl Error {
    /// A short human-readable description.
    pub fn message(&self) -> (r: String)
        ensures
            r@ == (match self {
                Error::DivisionByZero => "Division by zero"@,
                Error::NumberIsNegative => "Number is negative"@,
            }),
    {
        match self {
            Error::DivisionByZero => "Division by zero".to_owned(),
            Error::NumberIsNegative => "Number is negative".to_owned(),
        }
    }
}

/// Errors of the conversions from and to other representations.
#[derive(Copy, Clone, Debug, PartialEq, Eq, Structural)]
pub enum ConversionError {
    /// The float is not finite.
    FloatIsNotFinite,
    /// The number does not fit the integer type.
    NumberTooLarge,
    /// The input is not a valid number.
    ParseError,
    /// A negative number cannot become an unsigned integer.
    NumberIsNegative,
    /// A number with decimals cannot become an integer.
    NumberIsNotAnInteger,
    /// The encoded exponent does not fit this platform's exponent type.
    ExponentTooLargeForThisPlatform,
}

impl ConversionError {
    /// A short human-readable description.
    pub fn message(&self) -> (r: String)
        ensures
            r@ == (match self {
                ConversionError::FloatIsNotFinite => "Float is not finite"@,
                ConversionError::NumberTooLarge => "Number too large"@,
                ConversionError::ParseError => "Parse error"@,
                ConversionError::NumberIsNegative => "Number is negative"@,
                ConversionError::NumberIsNotAnInteger => "Number is not an integer"@,
                ConversionError::ExponentTooLargeForThisPlatform => "Exponent is too large for this platform"@,
            }),
    {
        match self {
            ConversionError::FloatIsNotFinite => "Float is not finite".to_owned(),
            ConversionError::NumberTooLarge => "Number too large".to_owned(),
            ConversionError::ParseError => "Parse error".to_owned(),
            ConversionError::NumberIsNegative => "Number is negative".to_owned(),
            ConversionError::NumberIsNotAnInteger => "Number is not an integer".to_owned(),
            ConversionError::ExponentTooLargeForThisPlatform => {
                "Exponent is too large for this platform".to_owned()
            },
        }
    }
}

} // verus!
