//! The line format of a manifest.
//!
//! A manifest records one file per line as `[<relative path> | <digest>]`,
//! the digest in lowercase hexadecimal. Decoding a line first strips every
//! leading and trailing `[`, `]` and space, then splits the rest on the
//! three-byte separator `" | "`, scanning left to right. A line that does
//! not yield exactly two fields is malformed (and skipped by the manifest
//! decoder); a second field that is not a 128-bit hexadecimal number is a
//! hard error that names the offending token.

use vstd::prelude::*;
use vstd::slice::{slice_subrange, slice_to_vec};
use crate::hex::{hex_to_u128, spec_hex_value, u128_to_hex, valid_hex_u128};

verus! {

/// The field separator of a manifest line.
pub open spec fn sep() -> Seq<u8> {
    seq![32u8, 124u8, 32u8]
}

/// The bytes stripped from both ends of a line before it is split:
/// `[`, `]` and space.
pub open spec fn is_trim_byte(c: u8) -> bool {
    c == 91 || c == 93 || c == 32
}

/// `s` without its leading trim bytes.
pub open spec fn trim_start(s: Seq<u8>) -> Seq<u8>
    decreases s.len(),
{
    if s.len() > 0 && is_trim_byte(s.first()) {
        trim_start(s.drop_first())
    } else {
        s
    }
}

/// `s` without its trailing trim bytes.
pub open spec fn trim_end(s: Seq<u8>) -> Seq<u8>
    decreases s.len(),
{
    if s.len() > 0 && is_trim_byte(s.last()) {
        trim_end(s.drop_last())
    } else {
        s
    }
}

/// `s` without leading and trailing trim bytes.
pub open spec fn spec_trim(s: Seq<u8>) -> Seq<u8> {
    trim_end(trim_start(s))
}

/// When the first `a` bytes are trim bytes and the byte at `a` (if any) is
/// not, trimming the start drops exactly those `a` bytes.
proof fn lemma_trim_start_skip(s: Seq<u8>, a: int)
    requires
        0 <= a <= s.len(),
        forall|j: int| 0 <= j < a ==> is_trim_byte(s[j]),
        a == s.len() || !is_trim_byte(s[a]),
    ensures
        trim_start(s) == s.skip(a),
    decreases a,
{
    if a == 0 {
        assert(s.skip(0) =~= s);
    } else {
        assert(is_trim_byte(s.first()));
        lemma_trim_start_skip(s.drop_first(), a - 1);
        assert(s.drop_first().skip(a - 1) =~= s.skip(a));
    }
}

/// When every byte from `b` on is a trim byte and the byte before `b` (if
/// any) is not, trimming the end keeps exactly the first `b` bytes.
proof fn lemma_trim_end_take(s: Seq<u8>, b: int)
    requires
        0 <= b <= s.len(),
        forall|j: int| b <= j < s.len() ==> is_trim_byte(s[j]),
        b == 0 || !is_trim_byte(s[b - 1]),
    ensures
        trim_end(s) == s.take(b),
    decreases s.len(),
{
    if b == s.len() {
        if s.len() == 0 {
            assert(s.take(0) =~= s);
        } else {
            assert(!is_trim_byte(s.last()));
            assert(s.take(b) =~= s);
        }
    } else {
        assert(is_trim_byte(s.last()));
        lemma_trim_end_take(s.drop_last(), b);
        assert(s.drop_last().take(b) =~= s.take(b));
    }
}

/// Strips every leading and trailing `[`, `]` and space from `s`.
pub fn trim_brackets(s: &[u8]) -> (t: Vec<u8>)
    ensures
        t@ == spec_trim(s@),
{
    let mut a: usize = 0;
    while a < s.len() && (s[a] == 91 || s[a] == 93 || s[a] == 32)
        invariant
            a <= s@.len(),
            forall|j: int| 0 <= j < a ==> is_trim_byte(s@[j]),
        decreases s@.len() - a,
    {
        a = a + 1;
    }
    proof {
        lemma_trim_start_skip(s@, a as int);
    }
    let mut b: usize = s.len();
    while b > a && (s[b - 1] == 91 || s[b - 1] == 93 || s[b - 1] == 32)
        invariant
            a <= b <= s@.len(),
            forall|j: int| b <= j < s@.len() ==> is_trim_byte(s@[j]),
        decreases b,
    {
        b = b - 1;
    }
    proof {
        let rest = s@.skip(a as int);
        assert(forall|j: int| b - a <= j < rest.len() ==> is_trim_byte(#[trigger] rest[j]));
        assert(b - a == 0 || !is_trim_byte(rest[b - a - 1]));
        lemma_trim_end_take(rest, b - a);
        assert(rest.take(b - a) =~= s@.subrange(a as int, b as int));
    }
    slice_to_vec(slice_subrange(s, a, b))
}

/// The fields of `s` split on the separator, scanning left to right from
/// `cur`, the current field having begun at `start`.
pub open spec fn spec_split_at(s: Seq<u8>, start: int, cur: int) -> Seq<Seq<u8>>
    recommends
        0 <= start <= cur <= s.len(),
    decreases s.len() - cur,
{
    if cur + 3 <= s.len() {
        if s.subrange(cur, cur + 3) == sep() {
            seq![s.subrange(start, cur)] + spec_split_at(s, cur + 3, cur + 3)
        } else {
            spec_split_at(s, start, cur + 1)
        }
    } else {
        seq![s.subrange(start, s.len() as int)]
    }
}

/// The fields of `s`: the parts between non-overlapping occurrences of the
/// separator, found scanning left to right. A sequence without a separator
/// is one field, possibly empty.
pub open spec fn spec_split(s: Seq<u8>) -> Seq<Seq<u8>> {
    spec_split_at(s, 0, 0)
}

/// Splits `s` into its fields on the separator.
pub fn split_fields(s: &[u8]) -> (parts: Vec<Vec<u8>>)
    ensures
        parts.deep_view() == spec_split(s@),
{
    let mut parts: Vec<Vec<u8>> = Vec::new();
    let mut start: usize = 0;
    let mut cur: usize = 0;
    proof {
        assert(parts.deep_view() + spec_split_at(s@, 0, 0) =~= spec_split_at(s@, 0, 0));
    }
    while s.len() >= 3 && cur <= s.len() - 3
        invariant
            0 <= start <= cur <= s@.len(),
            spec_split(s@) == parts.deep_view() + spec_split_at(s@, start as int, cur as int),
        decreases s@.len() - cur,
    {
        if s[cur] == 32 && s[cur + 1] == 124 && s[cur + 2] == 32 {
            proof {
                assert(s@.subrange(cur as int, cur + 3) =~= sep());
            }
            let ghost pre = parts.deep_view();
            parts.push(slice_to_vec(slice_subrange(s, start, cur)));
            proof {
                assert(parts.deep_view() =~~= pre + seq![s@.subrange(start as int, cur as int)]);
                assert(pre + seq![s@.subrange(start as int, cur as int)] + spec_split_at(
                    s@,
                    cur + 3,
                    cur + 3,
                ) =~= pre + (seq![s@.subrange(start as int, cur as int)] + spec_split_at(
                    s@,
                    cur + 3,
                    cur + 3,
                )));
            }
            start = cur + 3;
            cur = cur + 3;
        } else {
            proof {
                if s@.subrange(cur as int, cur + 3) == sep() {
                    assert(s@.subrange(cur as int, cur + 3)[0] == 32u8);
                    assert(s@.subrange(cur as int, cur + 3)[1] == 124u8);
                    assert(s@.subrange(cur as int, cur + 3)[2] == 32u8);
                }
            }
            cur = cur + 1;
        }
    }
    let ghost pre = parts.deep_view();
    parts.push(slice_to_vec(slice_subrange(s, start, s.len())));
    proof {
        assert(parts.deep_view() =~~= pre + seq![s@.subrange(start as int, s@.len() as int)]);
    }
    parts
}

/// The fields of a line: strip the trim bytes, then split on the separator.
pub open spec fn spec_line_fields(line: Seq<u8>) -> Seq<Seq<u8>> {
    spec_split(spec_trim(line))
}

/// A line that does not yield exactly two fields; the manifest decoder
/// skips such a line.
pub open spec fn line_is_malformed(line: Seq<u8>) -> bool {
    spec_line_fields(line).len() != 2
}

/// A line with two fields whose second is a valid 128-bit hexadecimal
/// token.
pub open spec fn line_is_entry(line: Seq<u8>) -> bool {
    &&& spec_line_fields(line).len() == 2
    &&& valid_hex_u128(spec_line_fields(line)[1])
}

/// A line with two fields whose second is not a valid hexadecimal token;
/// the manifest decoder aborts on such a line.
pub open spec fn line_is_bad_digest(line: Seq<u8>) -> bool {
    &&& spec_line_fields(line).len() == 2
    &&& !valid_hex_u128(spec_line_fields(line)[1])
}

/// The relative path recorded on an entry line.
pub open spec fn spec_line_path(line: Seq<u8>) -> Seq<u8> {
    spec_line_fields(line)[0]
}

/// The digest recorded on an entry line.
pub open spec fn spec_line_digest(line: Seq<u8>) -> u128 {
    spec_hex_value(spec_line_fields(line)[1]) as u128
}

/// The parse of one manifest line.
pub enum LineParse {
    /// The line recorded `path` with `digest`.
    Entry(Vec<u8>, u128),
    /// The line did not yield exactly two fields.
    Malformed,
    /// The second field, carried here, was not a hexadecimal 128-bit value.
    BadDigest(Vec<u8>),
}

/// Parses one manifest line into its relative path and digest.
pub fn decode_line(line: &[u8]) -> (r: LineParse)
    ensures
        match r {
            LineParse::Entry(p, d) => line_is_entry(line@) && p@ == spec_line_path(line@) && d
                == spec_line_digest(line@),
            LineParse::Malformed => line_is_malformed(line@),
            LineParse::BadDigest(t) => line_is_bad_digest(line@) && t@ == spec_line_fields(
                line@,
            )[1],
        },
{
    let trimmed = trim_brackets(line);
    let mut parts = split_fields(trimmed.as_slice());
    if parts.len() != 2 {
        return LineParse::Malformed;
    }
    let digest_field = match parts.pop() {
        Some(f) => f,
        None => {
            return LineParse::Malformed;
        },
    };
    let path_field = match parts.pop() {
        Some(f) => f,
        None => {
            return LineParse::Malformed;
        },
    };
    proof {
        assert(path_field@ == spec_line_fields(line@)[0]);
        assert(digest_field@ == spec_line_fields(line@)[1]);
    }
    match hex_to_u128(digest_field.as_slice()) {
        Some(d) => LineParse::Entry(path_field, d),
        None => LineParse::BadDigest(digest_field),
    }
}

/// The encoding of one manifest entry: `[`, the relative path, the
/// separator, the digest in lowercase hexadecimal, `]`.
pub open spec fn spec_encode_line(rel: Seq<u8>, digest: u128) -> Seq<u8> {
    seq![91u8] + rel + sep() + crate::hex::spec_hex_of(digest) + seq![93u8]
}

/// Encodes one manifest entry as a line (without the trailing newline).
pub fn encode_line(rel: &[u8], digest: u128) -> (out: Vec<u8>)
    ensures
        out@ == spec_encode_line(rel@, digest),
{
    let mut out: Vec<u8> = Vec::new();
    out.push(91);
    crate::bytes::push_all(&mut out, rel);
    out.push(32);
    out.push(124);
    out.push(32);
    let hex = u128_to_hex(digest);
    crate::bytes::push_all(&mut out, hex.as_slice());
    out.push(93);
    proof {
        assert(out@ =~= spec_encode_line(rel@, digest));
    }
    out
}

/// Whether the separator occurs at position `q` of `s`.
pub open spec fn sep_at(s: Seq<u8>, q: int) -> bool {
    0 <= q && q + 3 <= s.len() && s.subrange(q, q + 3) == sep()
}

/// Scanning over a region without a separator occurrence does not change
/// the split.
proof fn lemma_split_skip_to(s: Seq<u8>, start: int, cur: int, p: int)
    requires
        0 <= start <= cur <= p <= s.len(),
        forall|q: int| cur <= q < p ==> !sep_at(s, q),
    ensures
        spec_split_at(s, start, cur) == spec_split_at(s, start, p),
    decreases p - cur,
{
    if cur < p {
        if cur + 3 <= s.len() {
            assert(!sep_at(s, cur));
            lemma_split_skip_to(s, start, cur + 1, p);
        } else {
        }
    }
}

/// A region without any separator occurrence is one single field.
proof fn lemma_split_no_sep(s: Seq<u8>, start: int, cur: int)
    requires
        0 <= start <= cur <= s.len(),
        forall|q: int| cur <= q ==> !sep_at(s, q),
    ensures
        spec_split_at(s, start, cur) == seq![s.subrange(start, s.len() as int)],
    decreases s.len() - cur,
{
    if cur + 3 <= s.len() {
        assert(!sep_at(s, cur));
        lemma_split_no_sep(s, start, cur + 1);
    }
}

/// A sequence with exactly one separator occurrence splits into the part
/// before it and the part after it.
proof fn lemma_split_one_sep(t: Seq<u8>, k: int)
    requires
        sep_at(t, k),
        forall|q: int| 0 <= q < k ==> !sep_at(t, q),
        forall|q: int| q > k ==> !sep_at(t, q),
    ensures
        spec_split(t) == seq![t.take(k), t.skip(k + 3)],
    decreases t.len(),
{
    lemma_split_skip_to(t, 0, 0, k);
    assert(spec_split_at(t, 0, k) == seq![t.subrange(0, k)] + spec_split_at(t, k + 3, k + 3));
    lemma_split_no_sep(t, k + 3, k + 3);
    assert(seq![t.subrange(0, k)] + seq![t.subrange(k + 3, t.len() as int)] =~= seq![
        t.take(k),
        t.skip(k + 3),
    ]);
}

/// A relative path that survives the codec unchanged: non-empty, no
/// newline, not beginning or ending in a stripped byte, no separator
/// occurrence inside it, and not ending in a space and a bar (which would
/// complete a separator with the encoder's own space).
pub open spec fn rel_path_encodable(rel: Seq<u8>) -> bool {
    &&& rel.len() >= 1
    &&& !is_trim_byte(rel.first())
    &&& !is_trim_byte(rel.last())
    &&& (forall|i: int| 0 <= i < rel.len() ==> rel[i] != 10)
    &&& (forall|q: int| 0 <= q && q + 3 <= rel.len() ==> #[trigger] rel.subrange(q, q + 3) != sep())
    &&& !(rel.len() >= 2 && rel[rel.len() - 2] == 32 && rel[rel.len() - 1] == 124)
}

/// Round trip of one line: an encodable path and any digest come back
/// unchanged from parsing their encoded line.
#[verifier::rlimit(60)]
pub proof fn lemma_line_round_trip(rel: Seq<u8>, digest: u128)
    requires
        rel_path_encodable(rel),
    ensures
        line_is_entry(spec_encode_line(rel, digest)),
        spec_line_path(spec_encode_line(rel, digest)) == rel,
        spec_line_digest(spec_encode_line(rel, digest)) == digest,
{
    let hex = crate::hex::spec_hex_of(digest);
    crate::hex::lemma_hex_round_trip(digest);
    let enc = spec_encode_line(rel, digest);
    let t = rel + sep() + hex;

    // Trimming strips exactly the opening bracket and the closing one.
    assert(enc[0] == 91u8);
    assert(enc[1] == rel[0]);
    lemma_trim_start_skip(enc, 1);
    assert(enc.skip(1) =~= t + seq![93u8]);
    let u = enc.skip(1);
    assert(forall|i: int| 0 <= i < hex.len() ==> crate::hex::is_hex_digit(#[trigger] hex[i]));
    assert(!is_trim_byte(u[u.len() - 2])) by {
        assert(u[u.len() - 2] == hex.last());
        assert(crate::hex::is_hex_digit(hex.last()));
    }
    lemma_trim_end_take(u, u.len() - 1);
    assert(u.take(u.len() - 1) =~= t);
    assert(spec_trim(enc) == t);

    // The only separator occurrence in the trimmed line is the encoder's
    // own, right after the path.
    let k = rel.len() as int;
    assert(t.subrange(k, k + 3) =~= sep());
    assert(forall|q: int| 0 <= q < k ==> !sep_at(t, q)) by {
        assert forall|q: int| 0 <= q < k implies !sep_at(t, q) by {
            if q + 3 <= t.len() {
                if q + 3 <= k {
                    assert(t.subrange(q, q + 3) =~= rel.subrange(q, q + 3));
                    assert(rel.subrange(q, q + 3) != sep());
                } else if q == k - 2 {
                    // The last two path bytes would have to be a space and
                    // a bar.
                    if t.subrange(q, q + 3) == sep() {
                        assert(t.subrange(q, q + 3)[0] == rel[rel.len() - 2]);
                        assert(t.subrange(q, q + 3)[1] == rel[rel.len() - 1]);
                        assert(rel[rel.len() - 2] == 32u8 && rel[rel.len() - 1] == 124u8);
                    }
                } else {
                    // q == k - 1: the last path byte would have to be a
                    // space, a stripped byte.
                    if t.subrange(q, q + 3) == sep() {
                        assert(t.subrange(q, q + 3)[0] == rel[rel.len() - 1]);
                        assert(rel[rel.len() - 1] == 32u8);
                        assert(is_trim_byte(rel.last()));
                    }
                }
            }
        }
    }
    assert(forall|q: int| q > k ==> !sep_at(t, q)) by {
        assert forall|q: int| q > k implies !sep_at(t, q) by {
            if q + 3 <= t.len() {
                if q == k + 1 {
                    assert(t.subrange(q, q + 3)[0] == 124u8);
                } else if q == k + 2 {
                    assert(t.subrange(q, q + 3)[1] == hex[0]);
                    assert(crate::hex::is_hex_digit(hex[0]));
                    if t.subrange(q, q + 3) == sep() {
                        assert(hex[0] == 124u8);
                    }
                } else {
                    assert(t.subrange(q, q + 3)[0] == hex[q - k - 3]);
                    assert(crate::hex::is_hex_digit(hex[q - k - 3]));
                    if t.subrange(q, q + 3) == sep() {
                        assert(hex[q - k - 3] == 32u8);
                    }
                }
            }
        }
    }
    lemma_split_one_sep(t, k);
    assert(t.take(k) =~= rel);
    assert(t.skip(k + 3) =~= hex);
    assert(spec_line_fields(enc) == seq![rel, hex]);
}

} // verus!
