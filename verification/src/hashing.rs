//! Content hashes: SHA-256 digests and their lowercase hexadecimal spelling.

use vstd::prelude::*;
use vstd::utf8::encode_utf8;

verus! {

/// The value of a hexadecimal digit (either case), for a byte that is one.
pub open spec fn hex_digit_value(c: u8) -> int {
    if 48 <= c <= 57 {
        c - 48
    } else if 97 <= c <= 102 {
        c - 87
    } else {
        c - 55
    }
}

/// Whether `c` is an ASCII hexadecimal digit, upper or lower case.
pub open spec fn is_hex_digit(c: u8) -> bool {
    (48 <= c <= 57) || (97 <= c <= 102) || (65 <= c <= 70)
}

/// The lowercase ASCII hex digit for a value below 16.
pub open spec fn lower_hex_digit(v: int) -> u8 {
    if v < 10 {
        (48 + v) as u8
    } else {
        (87 + v) as u8
    }
}

/// Lowercase hex spelling of a byte string: two digits per byte, high nibble first.
pub open spec fn spec_hex_encode(bytes: Seq<u8>) -> Seq<char> {
    Seq::new(
        2 * bytes.len(),
        |i: int|
            (if i % 2 == 0 {
                lower_hex_digit((bytes[i / 2] / 16) as int)
            } else {
                lower_hex_digit((bytes[i / 2] % 16) as int)
            }) as char,
    )
}

/// Whether a byte string is an accepted hex spelling: even length, only hex digits.
pub open spec fn hex_decodable(s: Seq<u8>) -> bool {
    &&& s.len() % 2 == 0
    &&& forall|i: int| 0 <= i < s.len() ==> is_hex_digit(#[trigger] s[i])
}

/// The bytes that a hex spelling stands for.
pub open spec fn spec_hex_decode(s: Seq<u8>) -> Seq<u8> {
    Seq::new(
        s.len() / 2,
        |i: int| (hex_digit_value(s[2 * i]) * 16 + hex_digit_value(s[2 * i + 1])) as u8,
    )
}

/// Whether a character is an ASCII hexadecimal digit.
pub open spec fn is_hex_char(c: char) -> bool {
    ('0' <= c <= '9') || ('a' <= c <= 'f') || ('A' <= c <= 'F')
}

/// The SHA-256 digest of a byte string.
pub uninterp spec fn spec_sha256(data: Seq<u8>) -> Seq<u8>;

/// Computes SHA-256 with the `sha2` crate (`Sha256::digest`).
/// Trusted: the result is the digest of `data`, which is 32 bytes long.
#[verifier::external_body]
pub(crate) fn sha256(data: &[u8]) -> (digest: Vec<u8>)
    ensures
        digest@ == spec_sha256(data@),
        digest@.len() == 32,
{
    <sha2::Sha256 as sha2::Digest>::digest(data).to_vec()
}

/// Spells bytes in lowercase hex with `hex::encode`.
/// Trusted: two lowercase digits per byte, high nibble first.
#[verifier::external_body]
pub(crate) fn hex_encode(data: &[u8]) -> (text: String)
    ensures
        text@ == spec_hex_encode(data@),
{
    hex::encode(data)
}

#[verifier::external_type_specification]
#[verifier::external_body]
pub struct ExFromHexError(hex::FromHexError);

/// Reads a hex spelling with `hex::decode`.
/// Trusted: succeeds exactly on even-length strings of hex digits (either case),
/// and then gives one byte per digit pair.
#[verifier::external_body]
pub(crate) fn hex_decode(text: &str) -> (res: Result<Vec<u8>, hex::FromHexError>)
    ensures
        res is Ok <==> hex_decodable(encode_utf8(text@)),
        res matches Ok(v) ==> v@ == spec_hex_decode(encode_utf8(text@)),
{
    hex::decode(text)
}

/// Lowercase hex spelling of bytes, as object names and key files use.
pub fn hex_string(bytes: &[u8]) -> (text: String)
    ensures
        text@ == spec_hex_encode(bytes@),
{
    hex_encode(bytes)
}

/// Hex spelling of the SHA-256 digest of `data`, as used to name objects.
pub fn sha256_hex(data: &[u8]) -> (hash: String)
    ensures
        hash@ == spec_hex_encode(spec_sha256(data@)),
        hash@.len() == 64,
{
    let digest = sha256(data);
    hex_encode(digest.as_slice())
}

/// The digit for a value below 16 reads back as that value, and is a hex digit.
pub proof fn lemma_hex_digit_roundtrip(v: int)
    requires
        0 <= v < 16,
    ensures
        is_hex_digit(lower_hex_digit(v)),
        hex_digit_value(lower_hex_digit(v)) == v,
        lower_hex_digit(v) < 128,
{
}

/// Spelling bytes in hex and reading the spelling back gives the bytes.
pub proof fn lemma_hex_encode_decode(b: Seq<u8>)
    ensures
        encode_utf8(spec_hex_encode(b)).len() == 2 * b.len(),
        hex_decodable(encode_utf8(spec_hex_encode(b))),
        spec_hex_decode(encode_utf8(spec_hex_encode(b))) == b,
{
    let h = spec_hex_encode(b);
    assert forall|i: int| 0 <= i < h.len() implies '\0' <= #[trigger] h[i] <= '\u{7f}' by {
        let j = i / 2;
        assert(0 <= b[j] / 16 < 16 && 0 <= b[j] % 16 < 16);
        lemma_hex_digit_roundtrip((b[j] / 16) as int);
        lemma_hex_digit_roundtrip((b[j] % 16) as int);
    }
    assert(vstd::utf8::is_ascii_chars(h));
    vstd::utf8::is_ascii_chars_encode_utf8(h);
    let e = encode_utf8(h);
    assert forall|i: int| 0 <= i < e.len() implies is_hex_digit(#[trigger] e[i]) by {
        let j = i / 2;
        assert(h[i] as u8 == e[i]);
        lemma_hex_digit_roundtrip((b[j] / 16) as int);
        lemma_hex_digit_roundtrip((b[j] % 16) as int);
    }
    let d = spec_hex_decode(e);
    assert forall|j: int| 0 <= j < b.len() implies #[trigger] d[j] == b[j] by {
        assert(h[2 * j] as u8 == e[2 * j]);
        assert(h[2 * j + 1] as u8 == e[2 * j + 1]);
        assert((2 * j) / 2 == j && (2 * j) % 2 == 0);
        assert((2 * j + 1) / 2 == j && (2 * j + 1) % 2 == 1);
        let hi = (b[j] / 16) as int;
        let lo = (b[j] % 16) as int;
        lemma_hex_digit_roundtrip(hi);
        lemma_hex_digit_roundtrip(lo);
        assert(hex_digit_value(e[2 * j]) == hi);
        assert(hex_digit_value(e[2 * j + 1]) == lo);
        assert(hi * 16 + lo == b[j]);
    }
    assert(d =~= b);
}

} // verus!
