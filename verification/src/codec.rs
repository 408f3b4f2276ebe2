//! Byte codecs used on the wire and for content addresses: base64 (through the
//! `base64` crate), SHA-256 (through the `sha2` crate), lower-case hex and
//! Unicode lower-casing.

use base64::engine::general_purpose;
use base64::Engine;
use sha2::Digest;
use sha2::Sha256;
use vstd::prelude::*;

verus! {

/// The error type of `base64`'s decoding, carried through as it is.
#[verifier::external_type_specification]
#[verifier::external_body]
pub struct ExDecodeError(base64::DecodeError);

/// The text that the standard, padded base64 alphabet gives for `data`.
pub uninterp spec fn base64_encoding(data: Seq<u8>) -> Seq<char>;

/// The bytes that standard, padded base64 `text` stands for, or `None` where
/// `text` is not such an encoding.
pub uninterp spec fn base64_decoding(text: Seq<char>) -> Option<Seq<u8>>;

/// The SHA-256 digest of `data`.
pub uninterp spec fn sha256_digest(data: Seq<u8>) -> Seq<u8>;

/// The Unicode lower-case form of `text`.
pub uninterp spec fn lowercase(text: Seq<char>) -> Seq<char>;

/// Whether encoding `len` bytes as padded base64 has a length that fits in `usize`.
pub open spec fn base64_len_fits(len: nat) -> bool {
    (len / 3) * 4 + (if len % 3 == 0 { 0int } else { 4int }) <= usize::MAX
}

/// `base64::engine::general_purpose::STANDARD.encode`: the padded base64 text of
/// `data`. The crate panics when the length of the text does not fit in `usize`;
/// decoding the text gives `data` back.
#[verifier::external_body]
pub(crate) fn base64_encode(data: &[u8]) -> (text: String)
    requires
        base64_len_fits(data@.len()),
    ensures
        text@ == base64_encoding(data@),
        base64_decoding(text@) == Some(data@),
{
    general_purpose::STANDARD.encode(data)
}

/// `base64::engine::general_purpose::STANDARD.decode`: the bytes that `text`
/// encodes, or the crate's error where it is not padded standard base64.
#[verifier::external_body]
fn base64_decode_raw(text: &str) -> (bytes: Result<Vec<u8>, base64::DecodeError>)
    ensures
        bytes is Ok <==> base64_decoding(text@) is Some,
        bytes matches Ok(b) ==> Some(b@) == base64_decoding(text@),
{
    general_purpose::STANDARD.decode(text)
}

/// The bytes that `text` encodes in padded standard base64, or `None`.
pub fn base64_decode(text: &str) -> (bytes: Option<Vec<u8>>)
    ensures
        bytes is Some <==> base64_decoding(text@) is Some,
        bytes matches Some(b) ==> Some(b@) == base64_decoding(text@),
{
    match base64_decode_raw(text) {
        Ok(b) => Some(b),
        Err(_) => None,
    }
}

/// `sha2::Sha256::digest`: the 32-byte SHA-256 digest of `data`.
#[verifier::external_body]
pub(crate) fn sha256(data: &[u8]) -> (digest: Vec<u8>)
    ensures
        digest@ == sha256_digest(data@),
        digest@.len() == 32,
{
    Sha256::digest(data).to_vec()
}

/// `str::to_lowercase` of std: the Unicode lower-case form of `text`.
#[verifier::external_body]
pub(crate) fn to_lowercase(text: &str) -> (lower: String)
    ensures
        lower@ == lowercase(text@),
{
    text.to_lowercase()
}

/// The lower-case hexadecimal digit for `n`, which is below 16.
pub open spec fn hex_digit(n: int) -> char {
    if n < 10 {
        (n + 48) as char
    } else {
        (n + 87) as char
    }
}

/// Two lower-case hexadecimal digits per byte, high half first.
pub open spec fn hex_lower(bytes: Seq<u8>) -> Seq<char> {
    Seq::new(
        2 * bytes.len(),
        |k: int| if k % 2 == 0 { hex_digit(bytes[k / 2] as int / 16) } else { hex_digit(bytes[k / 2] as int % 16) },
    )
}

fn digit(n: u8) -> (c: char)
    requires
        n < 16,
    ensures
        c == hex_digit(n as int),
{
    if n < 10 {
        (n + 48) as char
    } else {
        (n + 87) as char
    }
}

/// The lower-case hexadecimal text of `bytes`, as the `{:x}` format of a digest
/// writes it.
pub fn hex(bytes: &Vec<u8>) -> (text: Vec<char>)
    requires
        bytes@.len() <= usize::MAX / 2,
    ensures
        text@ == hex_lower(bytes@),
{
    let mut text: Vec<char> = Vec::new();
    let n = bytes.len();
    for i in 0..n
        invariant
            n == bytes@.len(),
            n <= usize::MAX / 2,
            text@.len() == 2 * i,
            forall|k: int| 0 <= k < 2 * i ==> text@[k] == hex_lower(bytes@)[k],
    {
        let b = bytes[i];
        text.push(digit(b / 16));
        text.push(digit(b % 16));
    }
    assert(text@ == hex_lower(bytes@));
    text
}

} // verus!
