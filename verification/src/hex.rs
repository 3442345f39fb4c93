//! Lowercase hexadecimal encoding and decoding of 128-bit digests.
//!
//! A digest is written in a manifest as its hexadecimal digits, lowercase,
//! without leading zeros (zero itself is the single digit `0`). Decoding
//! accepts upper- and lowercase digits and rejects everything else, the
//! empty token, and values that do not fit in 128 bits.

use vstd::prelude::*;
use vstd::arithmetic::div_mod::lemma_fundamental_div_mod;

verus! {

/// One more than the largest 128-bit value.
pub open spec fn u128_bound() -> nat {
    0x100000000000000000000000000000000nat
}

/// The ASCII code of the lowercase hexadecimal digit for a value below 16.
pub open spec fn spec_hex_digit(v: u8) -> u8
    recommends
        v < 16,
{
    if v < 10 {
        (48 + v) as u8
    } else {
        (87 + v) as u8
    }
}

/// The lowercase hexadecimal digits of `v`, most significant first, with no
/// leading zeros.
pub open spec fn spec_hex_of(v: u128) -> Seq<u8>
    decreases v,
{
    if v < 16 {
        seq![spec_hex_digit(v as u8)]
    } else {
        spec_hex_of(v / 16) + seq![spec_hex_digit((v % 16) as u8)]
    }
}

/// The numeric value of an ASCII hexadecimal digit, either case, or 16 for
/// any byte that is not one.
pub open spec fn spec_digit_val(c: u8) -> u8 {
    if 48 <= c && c <= 57 {
        (c - 48) as u8
    } else if 97 <= c && c <= 102 {
        (c - 87) as u8
    } else if 65 <= c && c <= 70 {
        (c - 55) as u8
    } else {
        16
    }
}

/// Whether a byte is an ASCII hexadecimal digit, either case.
pub open spec fn is_hex_digit(c: u8) -> bool {
    spec_digit_val(c) < 16
}

/// The value of a sequence of hexadecimal digits, most significant first.
pub open spec fn spec_hex_value(s: Seq<u8>) -> nat
    decreases s.len(),
{
    if s.len() == 0 {
        0
    } else {
        (spec_hex_value(s.drop_last()) * 16 + spec_digit_val(s.last())) as nat
    }
}

/// Whether a byte sequence is a hexadecimal spelling of a 128-bit value:
/// at least one digit, every byte a digit, and a value below 2^128.
pub open spec fn valid_hex_u128(s: Seq<u8>) -> bool {
    &&& s.len() >= 1
    &&& (forall|i: int| 0 <= i < s.len() ==> is_hex_digit(s[i]))
    &&& spec_hex_value(s) < u128_bound()
}

/// The ASCII code of the lowercase hexadecimal digit for `v`.
fn hex_digit(v: u8) -> (c: u8)
    requires
        v < 16,
    ensures
        c == spec_hex_digit(v),
{
    if v < 10 {
        48 + v
    } else {
        87 + v
    }
}

/// Encodes `v` as its lowercase hexadecimal digits, most significant first,
/// without leading zeros.
pub fn u128_to_hex(v: u128) -> (digits: Vec<u8>)
    ensures
        digits@ == spec_hex_of(v),
    decreases v,
{
    if v < 16 {
        let mut out: Vec<u8> = Vec::new();
        out.push(hex_digit(v as u8));
        assert(out@ =~= spec_hex_of(v));
        out
    } else {
        let mut out = u128_to_hex(v / 16);
        out.push(hex_digit((v % 16) as u8));
        assert(out@ =~= spec_hex_of(v));
        out
    }
}

/// The numeric value of a hexadecimal digit byte, or 16 for any other byte.
fn digit_val(c: u8) -> (v: u8)
    ensures
        v == spec_digit_val(c),
{
    if 48 <= c && c <= 57 {
        c - 48
    } else if 97 <= c && c <= 102 {
        c - 87
    } else if 65 <= c && c <= 70 {
        c - 55
    } else {
        16
    }
}

/// The value of every prefix is at most the value of the whole sequence of
/// digits: appending digits never shrinks the value.
proof fn lemma_hex_value_prefix_le(s: Seq<u8>, i: int, j: int)
    requires
        0 <= i <= j <= s.len(),
    ensures
        spec_hex_value(s.take(i)) <= spec_hex_value(s.take(j)),
    decreases j - i,
{
    if i < j {
        lemma_hex_value_prefix_le(s, i, j - 1);
        assert(s.take(j).drop_last() =~= s.take(j - 1));
        assert(spec_hex_value(s.take(j)) == spec_hex_value(s.take(j - 1)) * 16 + spec_digit_val(
            s.take(j).last(),
        ));
        assert(spec_hex_value(s.take(j - 1)) * 16 >= spec_hex_value(s.take(j - 1)));
    }
}

/// Decodes a hexadecimal token into a 128-bit value.
///
/// Returns `Some` exactly when the token is non-empty, all of its bytes are
/// hexadecimal digits of either case, and the spelled value fits in 128
/// bits; the returned value is then the spelled value.
pub fn hex_to_u128(s: &[u8]) -> (r: Option<u128>)
    ensures
        r is Some <==> valid_hex_u128(s@),
        r is Some ==> r->0 as nat == spec_hex_value(s@),
{
    if s.len() == 0 {
        return None;
    }
    let mut acc: u128 = 0;
    let mut i: usize = 0;
    while i < s.len()
        invariant
            i <= s@.len(),
            s@.len() >= 1,
            forall|j: int| 0 <= j < i ==> is_hex_digit(s@[j]),
            acc as nat == spec_hex_value(s@.take(i as int)),
        decreases s@.len() - i,
    {
        let c = s[i];
        let d = digit_val(c);
        if d >= 16 {
            // The byte at index i is not a digit, so the token is invalid.
            return None;
        }
        proof {
            assert(s@.take(i + 1).drop_last() =~= s@.take(i as int));
            assert(s@.take(i + 1).last() == s@[i as int]);
        }
        if acc >= 0x10000000000000000000000000000000u128 {
            // 16 * acc no longer fits, so the value spelled by the digits up
            // to and including index i is at least 2^128, and every longer
            // prefix spells at least as much.
            proof {
                assert(spec_hex_value(s@.take(i + 1)) >= acc as nat * 16);
                assert(acc as nat * 16 >= u128_bound());
                lemma_hex_value_prefix_le(s@, i + 1, s@.len() as int);
                assert(s@.take(s@.len() as int) =~= s@);
            }
            return None;
        }
        acc = acc * 16 + d as u128;
        i = i + 1;
    }
    proof {
        assert(s@.take(i as int) =~= s@);
    }
    Some(acc)
}

/// Round trip: the lowercase hexadecimal encoding of any 128-bit value is a
/// valid token, and decoding it yields the value back.
pub proof fn lemma_hex_round_trip(v: u128)
    ensures
        valid_hex_u128(spec_hex_of(v)),
        spec_hex_value(spec_hex_of(v)) == v,
    decreases v,
{
    if v < 16 {
        let digits = spec_hex_of(v);
        assert(digits == seq![spec_hex_digit(v as u8)]);
        assert(digits.drop_last() =~= Seq::<u8>::empty());
        assert(digits.last() == spec_hex_digit(v as u8));
        assert(spec_hex_value(Seq::<u8>::empty()) == 0);
        assert(spec_hex_value(digits) == spec_digit_val(spec_hex_digit(v as u8)));
        assert(spec_digit_val(spec_hex_digit(v as u8)) == v);
    } else {
        lemma_hex_round_trip(v / 16);
        let digits = spec_hex_of(v);
        let prefix = spec_hex_of(v / 16);
        assert(digits.drop_last() =~= prefix);
        assert(digits.last() == spec_hex_digit((v % 16) as u8));
        assert(spec_digit_val(spec_hex_digit((v % 16) as u8)) == v % 16);
        lemma_fundamental_div_mod(v as int, 16);
        assert(forall|i: int|
            0 <= i < digits.len() ==> is_hex_digit(#[trigger] digits[i])) by {
            assert(forall|i: int|
                0 <= i < prefix.len() ==> is_hex_digit(#[trigger] prefix[i]));
            assert(forall|i: int| 0 <= i < digits.len() - 1 ==> digits[i] == prefix[i]);
            assert(is_hex_digit(digits[digits.len() - 1]));
        }
    }
}

} // verus!
