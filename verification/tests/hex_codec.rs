//! Hexadecimal digest encoding and decoding.

use xxhash_verify::{hex_to_u128, u128_to_hex};

#[test]
fn encodes_zero_as_one_digit() {
    assert_eq!(u128_to_hex(0), b"0".to_vec());
}

#[test]
fn encodes_lowercase_without_padding() {
    assert_eq!(u128_to_hex(0xdeadbeef), b"deadbeef".to_vec());
    assert_eq!(u128_to_hex(255), b"ff".to_vec());
    assert_eq!(u128_to_hex(16), b"10".to_vec());
}

#[test]
fn encodes_the_largest_value() {
    assert_eq!(u128_to_hex(u128::MAX), b"ffffffffffffffffffffffffffffffff".to_vec());
}

#[test]
fn decodes_what_it_encodes() {
    for v in [0u128, 1, 9, 10, 15, 16, 255, 0xdeadbeef, u128::MAX, u128::MAX - 1, 1 << 127] {
        let hex = u128_to_hex(v);
        assert_eq!(hex_to_u128(&hex), Some(v));
    }
}

#[test]
fn decodes_either_case() {
    assert_eq!(hex_to_u128(b"ff"), Some(255));
    assert_eq!(hex_to_u128(b"FF"), Some(255));
    assert_eq!(hex_to_u128(b"DeAdBeEf"), Some(0xdeadbeef));
}

#[test]
fn accepts_leading_zeros() {
    assert_eq!(hex_to_u128(b"000a"), Some(10));
}

#[test]
fn rejects_the_empty_token() {
    assert_eq!(hex_to_u128(b""), None);
}

#[test]
fn rejects_non_digits() {
    assert_eq!(hex_to_u128(b"12g4"), None);
    assert_eq!(hex_to_u128(b" ff"), None);
    assert_eq!(hex_to_u128(b"-1"), None);
    assert_eq!(hex_to_u128(b"0x1f"), None);
}

#[test]
fn rejects_values_past_128_bits() {
    // 33 digits: one bit too many however they spell it.
    assert_eq!(hex_to_u128(b"100000000000000000000000000000000"), None);
    assert_eq!(hex_to_u128(b"ffffffffffffffffffffffffffffffff0"), None);
    // 32 digits still fit.
    assert_eq!(hex_to_u128(b"ffffffffffffffffffffffffffffffff"), Some(u128::MAX));
}
