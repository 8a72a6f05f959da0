use biguint::BigUint;
use biguint::ParseError;

#[test]
fn test_from_hex_str_and_to_hex_string() {
    let hex_str = "123456789abcdef0";
    let big_uint = BigUint::<24>::from_hex_str(hex_str).unwrap();
    assert_eq!(big_uint.to_hex_string(), hex_str.to_lowercase());
}

#[test]
fn test_addition() {
    let num1 = BigUint::<12>::from_hex_str("1234").unwrap();
    let num2 = BigUint::<12>::from_hex_str("5678").unwrap();
    let result = num1.add(&num2);
    assert_eq!(result.to_hex_string(), "68ac");
}

#[test]
fn test_subtraction() {
    let num1 = BigUint::<5>::from_hex_str("5678").unwrap();
    let num2 = BigUint::<5>::from_hex_str("1234").unwrap();
    let result = num1.sub(&num2);
    assert_eq!(result.to_hex_string(), "4444");
}

#[test]
fn test_parse_then_render_width_12() {
    let parsed = BigUint::<12>::from_hex_str("1234").unwrap();
    assert_eq!(parsed.to_hex_string(), "1234");
}

#[test]
fn test_uppercase_input_renders_lowercase() {
    let parsed = BigUint::<4>::from_hex_str("AbCdEf").unwrap();
    assert_eq!(parsed.to_hex_string(), "abcdef");
}

#[test]
fn test_empty_string_is_zero() {
    let parsed = BigUint::<4>::from_hex_str("").unwrap();
    assert_eq!(parsed.to_hex_string(), "");
}

#[test]
fn test_zero_digits_render_empty() {
    let parsed = BigUint::<4>::from_hex_str("000000").unwrap();
    assert_eq!(parsed.to_hex_string(), "");
}

#[test]
fn test_new_is_zero() {
    let zero = BigUint::<6>::new();
    assert_eq!(zero.to_hex_string(), "");
}

#[test]
fn test_default_is_zero() {
    let zero = BigUint::<6>::default();
    assert_eq!(zero.to_hex_string(), "");
}

#[test]
fn test_odd_length_input_is_left_padded() {
    let parsed = BigUint::<8>::from_hex_str("505").unwrap();
    assert_eq!(parsed.to_hex_string(), "505");
}

#[test]
fn test_invalid_character_fails_decode() {
    let result = BigUint::<4>::from_hex_str("12g4");
    assert_eq!(result.unwrap_err(), ParseError::Decode);
}

#[test]
fn test_too_long_input_fails_overflow() {
    // 17 digits pad to 9 bytes, then to 16: more than one word of storage.
    let result = BigUint::<1>::from_hex_str("11111111111111111");
    assert_eq!(result.unwrap_err(), ParseError::Overflow);
}

#[test]
fn test_full_single_word_fits() {
    let parsed = BigUint::<1>::from_hex_str("ffffffffffffffff").unwrap();
    assert_eq!(parsed.to_hex_string(), "ffffffffffffffff");
}

#[test]
fn test_from_str_trait() {
    let parsed: BigUint<8> = "ff".parse().unwrap();
    assert_eq!(parsed.to_hex_string(), "ff");
}

#[test]
fn test_add_zero_identity() {
    let x = BigUint::<3>::from_hex_str("abc123").unwrap();
    let z = BigUint::<3>::new();
    assert_eq!(x.add(&z).to_hex_string(), "abc123");
}

#[test]
fn test_add_commutes() {
    let a = BigUint::<3>::from_hex_str("deadbeef").unwrap();
    let b = BigUint::<3>::from_hex_str("12345").unwrap();
    assert_eq!(a.add(&b).to_hex_string(), b.add(&a).to_hex_string());
}

#[test]
fn test_sub_zero_identity() {
    let x = BigUint::<3>::from_hex_str("abc123").unwrap();
    let z = BigUint::<3>::new();
    assert_eq!(x.sub(&z).to_hex_string(), "abc123");
}

#[test]
fn test_sub_of_sum_restores() {
    let a = BigUint::<2>::from_hex_str("123456").unwrap();
    let b = BigUint::<2>::from_hex_str("abcdef").unwrap();
    assert_eq!(a.add(&b).sub(&b).to_hex_string(), "123456");
}

#[test]
fn test_subtraction_wraps_below_zero() {
    let zero = BigUint::<1>::new();
    let one = BigUint::<1>::from_hex_str("1").unwrap();
    assert_eq!(zero.sub(&one).to_hex_string(), "ffffffffffffffff");
}

#[test]
fn test_carry_recorded_on_max_word() {
    // The carry rule records a carry out of a word that is exactly
    // u64::MAX, even when adding zero to it.
    let x = BigUint::<2>::from_hex_str("ffffffffffffffff").unwrap();
    let z = BigUint::<2>::new();
    assert_eq!(x.add(&z).to_hex_string(), "1ffffffffffffffff");
}

#[test]
fn test_parse_reverses_chunk_order() {
    // Chunk 0 (the most significant eight bytes) fills the last word, so an
    // input longer than sixteen significant digits renders chunk-reversed.
    let parsed = BigUint::<3>::from_hex_str("1000000000000000f").unwrap();
    assert_eq!(parsed.to_hex_string(), "f0000000000000001");
}

#[test]
fn test_nonzero_word_keeps_full_digit_group() {
    // The second word renders as a full sixteen-digit group; only the
    // leading zeros of the whole rendering are stripped.
    let parsed = BigUint::<3>::from_hex_str("f000000000000000f").unwrap();
    assert_eq!(parsed.to_hex_string(), "f000000000000000f");
}
