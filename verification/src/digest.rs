//! The content digest of an era, and how a digest is shown in a diagnostic.

use hex_slice::AsHex;
use vstd::prelude::*;

verus! {

/// The number of bytes in a digest.
pub const CHECKSUM_SIZE: usize = 32;

/// The SHA3-256 digest of `data`.
pub uninterp spec fn sha3_256_digest(data: Seq<u8>) -> Seq<u8>;

/// Calls `tiny_keccak::sha3_256`. Believed, not proved: the 32 bytes that
/// come back are the SHA3-256 digest of `data`, a function of `data` alone.
#[verifier::external_body]
pub(crate) fn sha3_256(data: &[u8]) -> (digest: [u8; 32])
    ensures
        digest@ == sha3_256_digest(data@),
{
    tiny_keccak::sha3_256(data)
}

/// The lower-case hexadecimal digit for `d`, which is below 16.
pub open spec fn hex_digit(d: int) -> char {
    "0123456789abcdef"@[d]
}

/// A byte in lower-case hexadecimal, without a leading zero.
pub open spec fn hex_byte(b: u8) -> Seq<char> {
    if b < 16 {
        seq![hex_digit(b as int)]
    } else {
        seq![hex_digit(b as int / 16), hex_digit(b as int % 16)]
    }
}

/// The bytes in hexadecimal, one space between neighbours.
pub open spec fn hex_list(bytes: Seq<u8>) -> Seq<char>
    decreases bytes.len(),
{
    if bytes.len() == 0 {
        Seq::empty()
    } else if bytes.len() == 1 {
        hex_byte(bytes[0])
    } else {
        hex_list(bytes.drop_last()) + seq![' '] + hex_byte(bytes.last())
    }
}

/// The bytes as a diagnostic shows them: `[56 63 c1 a]`.
pub open spec fn hex_text(bytes: Seq<u8>) -> Seq<char> {
    seq!['['] + hex_list(bytes) + seq![']']
}

/// Formats `bytes` through `hex_slice::AsHex::as_hex` with `{:x}`. Believed,
/// not proved: the text is an opening bracket, each byte as std's `LowerHex`
/// writes a `u8` (lower case, no padding), single spaces between them, and a
/// closing bracket.
#[verifier::external_body]
pub(crate) fn hex(bytes: &[u8]) -> (text: String)
    ensures
        text@ == hex_text(bytes@),
{
    format!("{:x}", bytes.as_hex())
}

} // verus!
