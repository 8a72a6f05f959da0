//! The trusted boundary to the `hex` crate: decoding hexadecimal text to
//! bytes and encoding bytes back to lowercase hexadecimal text.

use vstd::prelude::*;
use crate::hex_digits::{all_hex_digits, bytes_of_hex, hex_chars_of_bytes};

verus! {

/// `hex::FromHexError`, declared so it can appear in a result type. The
/// library never reads it: any decode failure maps to its own error.
#[verifier::external_type_specification]
#[verifier::external_body]
pub struct ExFromHexError(hex::FromHexError);

/// Relies on `hex::decode`: it succeeds on a byte string exactly when the
/// length is even and every byte is a hexadecimal digit, and then yields one
/// byte per digit pair, high nibble first. The contract is stated over the
/// characters of `s`; that is faithful because a string whose characters are
/// all hexadecimal digits is ASCII (bytes and characters coincide), and a
/// string with any other character always makes `hex::decode` fail: a
/// non-ASCII character contributes only bytes at or above 0x80, which are not
/// digits, and a wrong ASCII character is itself a non-digit byte.
#[verifier::external_body]
pub(crate) fn hex_decode(s: &str) -> (r: Result<Vec<u8>, hex::FromHexError>)
    requires
        s@.len() % 2 == 0,
    ensures
        r is Ok <==> all_hex_digits(s@),
        r matches Ok(b) ==> b@ == bytes_of_hex(s@),
{
    hex::decode(s)
}

/// Relies on `hex::encode`: two lowercase hexadecimal digits per input byte,
/// high nibble first.
#[verifier::external_body]
pub(crate) fn hex_encode(b: &Vec<u8>) -> (r: String)
    ensures
        r@ == hex_chars_of_bytes(b@),
{
    hex::encode(b)
}

} // verus!
