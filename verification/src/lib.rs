//! Arbitrary-precision decimal scientific numbers.
//!
//! A value is an exact signed decimal `(-1)^sign * m * 10^e`, where the
//! mantissa `m` is a sequence of decimal digits (one digit per byte) and the
//! exponent `e` is a signed machine word.  Addition, subtraction and
//! multiplication are exact; division and square root are bounded by a
//! caller-supplied precision.

pub mod addsub;
pub mod cmp;
pub mod codec;
pub mod convert;
pub mod digits;
pub mod div;
pub mod errors;
pub mod fmt;
pub mod laws;
pub mod mul;
pub mod ops;
pub mod parse;
pub mod rounding;
pub mod sci;
pub mod sqrt;

pub use digits::mant_val;
pub use digits::pow10;
pub use errors::ConversionError;
pub use errors::Error;
pub use rounding::Precision;
pub use rounding::Rounding;
pub use sci::Scientific;
