//! Specification-level vocabulary for hexadecimal text: which characters are
//! hex digits, their numeric values, and the canonical lowercase digit for
//! each nibble.

use vstd::prelude::*;

verus! {

/// The characters accepted as hexadecimal digits.
pub open spec fn is_hex_digit(c: char) -> bool {
    ('0' <= c && c <= '9') || ('a' <= c && c <= 'f') || ('A' <= c && c <= 'F')
}

/// Numeric value of a hexadecimal digit character.
pub open spec fn hex_digit_val(c: char) -> u8 {
    if '0' <= c && c <= '9' {
        (c as int - 48) as u8
    } else if 'a' <= c && c <= 'f' {
        (c as int - 87) as u8
    } else if 'A' <= c && c <= 'F' {
        (c as int - 55) as u8
    } else {
        0
    }
}

/// The canonical lowercase hexadecimal digit for a nibble value below 16.
pub open spec fn hex_char_of_nibble(n: u8) -> char {
    if n < 10 {
        (48 + n as int) as char
    } else {
        (87 + n as int) as char
    }
}

/// Lowercasing of a single character, restricted to what matters for
/// hexadecimal digits: `'A'..='F'` map to `'a'..='f'`, all else is unchanged.
pub open spec fn lower_hex_char(c: char) -> char {
    if 'A' <= c && c <= 'F' {
        (c as int + 32) as char
    } else {
        c
    }
}

/// Characterwise lowercasing of a hexadecimal string.
pub open spec fn lower_hex(s: Seq<char>) -> Seq<char> {
    Seq::new(s.len(), |i: int| lower_hex_char(s[i]))
}

/// True when every character of `s` is a hexadecimal digit.
pub open spec fn all_hex_digits(s: Seq<char>) -> bool {
    forall|i: int| 0 <= i < s.len() ==> is_hex_digit(#[trigger] s[i])
}

/// The bytes that an even-length hexadecimal string denotes: each pair of
/// digits gives one byte, high nibble first.
pub open spec fn bytes_of_hex(s: Seq<char>) -> Seq<u8>
    recommends
        s.len() % 2 == 0,
{
    Seq::new((s.len() / 2) as nat, |i: int|
        (16 * hex_digit_val(s[2 * i]) + hex_digit_val(s[2 * i + 1])) as u8)
}

/// The lowercase hexadecimal rendering of a byte sequence: two digits per
/// byte, high nibble first.
pub open spec fn hex_chars_of_bytes(b: Seq<u8>) -> Seq<char> {
    Seq::new(2 * b.len(), |i: int|
        if i % 2 == 0 {
            hex_char_of_nibble((b[i / 2] / 16) as u8)
        } else {
            hex_char_of_nibble((b[i / 2] % 16) as u8)
        })
}

/// A string with its leading `'0'` characters removed.
pub open spec fn strip_leading_zeros(s: Seq<char>) -> Seq<char>
    decreases s.len(),
{
    if s.len() > 0 && s[0] == '0' {
        strip_leading_zeros(s.subrange(1, s.len() as int))
    } else {
        s
    }
}

/// A hexadecimal digit's value is a nibble, and rendering that nibble gives
/// back the digit, lowercased.
pub proof fn lemma_hex_digit_round_trip(c: char)
    requires
        is_hex_digit(c),
    ensures
        hex_digit_val(c) < 16,
        hex_char_of_nibble(hex_digit_val(c)) == lower_hex_char(c),
{
}

/// Every canonical hexadecimal digit is an ASCII character.
pub proof fn lemma_hex_char_of_nibble_ascii(n: u8)
    requires
        n < 16,
    ensures
        '\0' <= hex_char_of_nibble(n) <= '\u{7f}',
{
}

} // verus!
