//! SHA3-256 digests rendered as lower-case hexadecimal text.

use vstd::prelude::*;
use sha3::Digest;

verus! {

/// The SHA3-256 digest of a byte string (the value that `sha3::Sha3_256`
/// computes; a pure function of its input).
pub uninterp spec fn sha3_256_digest(data: Seq<u8>) -> Seq<u8>;

/// The lower-case hexadecimal digit of a value in `0..16`.
pub open spec fn hex_digit(v: int) -> char {
    seq!['0', '1', '2', '3', '4', '5', '6', '7', '8', '9', 'a', 'b', 'c', 'd', 'e', 'f'][v]
}

/// Two lower-case hexadecimal digits per byte, high nibble first.
pub open spec fn hex_lower(bytes: Seq<u8>) -> Seq<char> {
    Seq::new(
        2 * bytes.len(),
        |i: int|
            if i % 2 == 0 {
                hex_digit(bytes[i / 2] as int / 16)
            } else {
                hex_digit(bytes[i / 2] as int % 16)
            },
    )
}

/// The text that `calculate_hash` returns for `data`.
pub open spec fn spec_hash(data: Seq<u8>) -> Seq<char> {
    hex_lower(sha3_256_digest(data))
}

/// A lower-case hexadecimal digit: `0`-`9` or `a`-`f`.
pub open spec fn is_hex_char(c: char) -> bool {
    ('0' <= c <= '9') || ('a' <= c <= 'f')
}

/// The text of a SHA3-256 digest in hex: 64 lower-case hexadecimal digits.
pub open spec fn is_hex_hash(s: Seq<char>) -> bool {
    &&& s.len() == 64
    &&& forall|i: int| 0 <= i < s.len() ==> is_hex_char(#[trigger] s[i])
}

/// Hex text is made of lower-case hexadecimal digits.
pub proof fn lemma_hex_lower_digits(bytes: Seq<u8>)
    ensures
        forall|i: int| 0 <= i < hex_lower(bytes).len() ==> is_hex_char(#[trigger] hex_lower(bytes)[i]),
{
    let s = seq!['0', '1', '2', '3', '4', '5', '6', '7', '8', '9', 'a', 'b', 'c', 'd', 'e', 'f'];
    assert(forall|v: int| 0 <= v < 16 ==> #[trigger] s[v] == hex_digit(v));
    assert(forall|v: int| 0 <= v < 16 ==> is_hex_char(#[trigger] s[v]));
    let h = hex_lower(bytes);
    assert forall|i: int| 0 <= i < h.len() implies is_hex_char(#[trigger] h[i]) by {
        let b = bytes[i / 2] as int;
        if i % 2 == 0 {
            assert(is_hex_char(s[b / 16]));
        } else {
            assert(is_hex_char(s[b % 16]));
        }
    }
}

/// Every hexadecimal digit is an ASCII character.
pub proof fn lemma_hex_digit_ascii(v: int)
    requires
        0 <= v < 16,
    ensures
        '\0' <= hex_digit(v) <= '\u{7f}',
{
    let s = seq!['0', '1', '2', '3', '4', '5', '6', '7', '8', '9', 'a', 'b', 'c', 'd', 'e', 'f'];
    assert(s[v] == hex_digit(v));
    assert(forall|i: int| 0 <= i < 16 ==> '\0' <= #[trigger] s[i] <= '\u{7f}');
}

/// Hex text is ASCII.
pub proof fn lemma_hex_lower_ascii(bytes: Seq<u8>)
    ensures
        vstd::utf8::is_ascii_chars(hex_lower(bytes)),
{
    let h = hex_lower(bytes);
    assert forall|i: int| 0 <= i < h.len() implies '\0' <= #[trigger] h[i] <= '\u{7f}' by {
        let b = bytes[i / 2] as int;
        if i % 2 == 0 {
            lemma_hex_digit_ascii(b / 16);
        } else {
            lemma_hex_digit_ascii(b % 16);
        }
    }
}

/// Calls `sha3::Sha3_256::digest` (the `Digest` trait of the `digest`
/// crate: a fresh hasher, one `update`, `finalize`). Trusted: the result is
/// the SHA3-256 digest of `data`, named `sha3_256_digest`, and it is 32 bytes
/// long (the output size of `Sha3_256`).
#[verifier::external_body]
fn sha3_256(data: &[u8]) -> (res: Vec<u8>)
    ensures
        res@ == sha3_256_digest(data@),
        res@.len() == 32,
{
    sha3::Sha3_256::digest(data).to_vec()
}

/// Calls `hex::encode`. Trusted: the result holds, for each byte in order,
/// the characters of `0123456789abcdef` at the byte's high and low nibble.
#[verifier::external_body]
fn hex_encode(bytes: &[u8]) -> (res: String)
    ensures
        res@ == hex_lower(bytes@),
{
    hex::encode(bytes)
}

/// Hashes `data` with SHA3-256 and returns the digest as lower-case hex.
pub fn calculate_hash(data: &[u8]) -> (res: String)
    ensures
        res@ == spec_hash(data@),
        is_hex_hash(res@),
{
    let digest = sha3_256(data);
    proof {
        lemma_hex_lower_digits(digest@);
    }
    hex_encode(digest.as_slice())
}

} // verus!
