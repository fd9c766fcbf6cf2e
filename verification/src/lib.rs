//! ECMAScript `Number::prototype.toString()` formatting of IEEE 754 binary64
//! and binary32 values.
//!
//! A value is given by its bit pattern and by its shortest round-trip decimal
//! `mantissa * 10^exponent` (computed from the floating-point value by a
//! shortest-digits algorithm such as Ryu).
//!
//! - [`float_bits`]: the class (NaN, infinity, zero, finite) and sign of a
//!   value from its bit pattern;
//! - [`digits`]: decimal digits and numerals;
//! - [`ecma`]: the ECMA-262 layout of a decimal (fixed notation for decimal
//!   exponents -6 to 20, exponential notation otherwise);
//! - [`format`]: the whole formatter;
//! - [`shortest`]: ECMA-262's choice of decimal for a binary value (fewest
//!   digits that read back as the value, then nearest, then even), in integer
//!   arithmetic, and ECMA-262 `Number::toString` of a bit pattern;
//! - [`laws`]: properties that hold of every input.

pub mod digits;
pub mod ecma;
pub mod float_bits;
pub mod format;
pub mod laws;
pub mod shortest;
