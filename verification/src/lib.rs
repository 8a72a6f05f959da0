//! A fixed-width unsigned big integer: exactly `N` 64-bit words, with
//! hexadecimal parsing and rendering and wrapping addition and subtraction.

pub mod big_uint;
pub mod hex_digits;
pub mod laws;
mod hex_io;
pub mod words;

pub use big_uint::BigUint;
pub use big_uint::ParseError;
