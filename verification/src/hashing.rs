//! Content digests: SHA-256, rendered as lowercase hex.
//!
//! The digest of a blob is both its storage key and its public handle, so
//! everything stated about the media store rests on the digest being a
//! function of the content bytes alone.

use crate::text::ascii_chars_of;
use crate::text::ascii_to_string;
use vstd::prelude::*;

verus! {

/// The SHA-256 digest of a byte sequence: a function of the bytes alone.
pub uninterp spec fn sha256_of(data: Seq<u8>) -> Seq<u8>;

/// The lowercase hex digit for a value below 16.
pub open spec fn hex_digit(n: u8) -> u8 {
    if n < 10 {
        (48 + n) as u8
    } else {
        (87 + n) as u8
    }
}

/// Lowercase hex rendering of a byte sequence: two digits per byte, high
/// nibble first.
pub open spec fn hex_bytes_of(s: Seq<u8>) -> Seq<u8> {
    Seq::new(
        2 * s.len(),
        |i: int|
            if i % 2 == 0 {
                hex_digit(s[i / 2] / 16)
            } else {
                hex_digit(s[i / 2] % 16)
            },
    )
}

/// The public handle of a blob: the lowercase hex characters of its
/// SHA-256 digest.
pub open spec fn digest_of(data: Seq<u8>) -> Seq<char> {
    ascii_chars_of(hex_bytes_of(sha256_of(data)))
}

/// Relies on `sha2::Sha256` through `Digest::digest`: the SHA-256 digest of
/// the input, 32 bytes long and a function of the input bytes alone.
#[verifier::external_body]
fn sha256_bytes(data: &[u8]) -> (r: Vec<u8>)
    ensures
        r@ == sha256_of(data@),
        r@.len() == 32,
{
    <sha2::Sha256 as sha2::Digest>::digest(data).to_vec()
}

/// Renders `bytes` as lowercase hex, two digits per byte.
pub fn hex_lower(bytes: &[u8]) -> (v: Vec<u8>)
    requires
        bytes@.len() <= 0x7fff_ffff,
    ensures
        v@ == hex_bytes_of(bytes@),
{
    let mut v: Vec<u8> = Vec::new();
    let mut i: usize = 0;
    while i < bytes.len()
        invariant
            0 <= i <= bytes@.len() <= 0x7fff_ffff,
            v@.len() == 2 * i,
            forall|j: int| 0 <= j < v@.len() ==> v@[j] == hex_bytes_of(bytes@)[j],
        decreases bytes@.len() - i,
    {
        let b = bytes[i];
        let hi = b / 16;
        let lo = b % 16;
        v.push(if hi < 10 {
            48 + hi
        } else {
            87 + hi
        });
        v.push(if lo < 10 {
            48 + lo
        } else {
            87 + lo
        });
        proof {
            assert((2 * i as int) % 2 == 0 && (2 * i as int) / 2 == i as int);
            assert((2 * i as int + 1) % 2 == 1 && (2 * i as int + 1) / 2 == i as int);
        }
        i = i + 1;
    }
    proof {
        assert(v@ =~= hex_bytes_of(bytes@));
    }
    v
}

/// Every lowercase hex digit is printable ASCII.
pub proof fn lemma_hex_bytes_ascii(s: Seq<u8>)
    ensures
        forall|j: int| 0 <= j < hex_bytes_of(s).len() ==> #[trigger] hex_bytes_of(s)[j] < 128,
{
}

/// Computes the content digest of `data`: the 64-character lowercase hex
/// form of its SHA-256 digest.
pub fn hash_data(data: &[u8]) -> (r: String)
    ensures
        r@ == digest_of(data@),
        r@.len() == 64,
{
    let d = sha256_bytes(data);
    let h = hex_lower(d.as_slice());
    proof {
        lemma_hex_bytes_ascii(d@);
    }
    ascii_to_string(h)
}

} // verus!
