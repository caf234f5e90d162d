//! Conversion between ASCII byte sequences and `String` values.
//!
//! The stores compute on bytes; strings appear only at the public surface
//! (submitted keys, digest handles, record fields). Every string built here
//! is pure ASCII, one character per byte.

use vstd::prelude::*;

verus! {

/// The characters of a sequence of ASCII bytes, one character per byte.
pub open spec fn ascii_chars_of(s: Seq<u8>) -> Seq<char> {
    s.map_values(|b: u8| b as char)
}

/// Relies on `String::from_utf8`: ASCII bytes are valid UTF-8, so the call
/// succeeds and returns a string holding exactly the given bytes, decoded
/// one character per byte.
#[verifier::external_body]
pub fn ascii_to_string(b: Vec<u8>) -> (r: String)
    requires
        forall|i: int| 0 <= i < b@.len() ==> b@[i] < 128,
    ensures
        r@ == ascii_chars_of(b@),
        vstd::utf8::encode_utf8(r@) == b@,
{
    String::from_utf8(b).unwrap()
}

} // verus!
