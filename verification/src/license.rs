//! License-key format and checksum validation.
//!
//! A canonical key is 29 bytes: five groups of five ASCII alphanumerics
//! joined by `-`. Its checksum is the sum of the code points of the
//! alphanumeric characters, modulo 256; a key is valid when the checksum
//! lies in the inclusive range 100..=255. The checksum is a lightweight
//! anti-typo filter, not a cryptographic measure.

use vstd::prelude::*;
use vstd::string::StringSliceAdditionalSpecFns;

verus! {

/// The `-` separator byte.
pub open spec fn is_dash_byte(b: u8) -> bool {
    b == 45
}

/// ASCII alphanumeric: `0`..`9`, `A`..`Z`, `a`..`z`.
pub open spec fn is_key_byte(b: u8) -> bool {
    (48 <= b <= 57) || (65 <= b <= 90) || (97 <= b <= 122)
}

/// Five groups of five alphanumerics joined by `-`: 29 bytes, with the
/// separator exactly at indices 5, 11, 17 and 23.
pub open spec fn key_well_formed(s: Seq<u8>) -> bool {
    &&& s.len() == 29
    &&& forall|i: int|
        0 <= i < 29 ==> (if i % 6 == 5 {
            is_dash_byte(#[trigger] s[i])
        } else {
            is_key_byte(s[i])
        })
}

/// Sum of the code points of all non-separator bytes of `s`.
pub open spec fn key_code_sum(s: Seq<u8>) -> int
    decreases s.len(),
{
    if s.len() == 0 {
        0
    } else {
        key_code_sum(s.drop_last()) + (if is_dash_byte(s.last()) {
            0
        } else {
            s.last() as int
        })
    }
}

/// The key checksum: code-point sum of the alphanumeric bytes, modulo 256.
pub open spec fn key_checksum(s: Seq<u8>) -> int {
    key_code_sum(s) % 256
}

/// A key is valid when it is well formed and its checksum lies in 100..=255.
pub open spec fn valid_key(s: Seq<u8>) -> bool {
    key_well_formed(s) && 100 <= key_checksum(s) <= 255
}

proof fn lemma_key_code_sum_nonneg(s: Seq<u8>)
    ensures
        key_code_sum(s) >= 0,
    decreases s.len(),
{
    if s.len() > 0 {
        lemma_key_code_sum_nonneg(s.drop_last());
    }
}

/// Every string that is not five groups of five alphanumerics joined by `-`
/// is an invalid key, whatever its checksum would be.
pub proof fn lemma_malformed_key_invalid(s: Seq<u8>)
    requires
        !key_well_formed(s),
    ensures
        !valid_key(s),
{
}

/// On well-formed keys, validity is decided by the checksum alone:
/// valid exactly when the code-point sum modulo 256 lies in 100..=255.
pub proof fn lemma_checksum_decides_validity(s: Seq<u8>)
    requires
        key_well_formed(s),
    ensures
        valid_key(s) <==> 100 <= key_code_sum(s) % 256 <= 255,
{
}

/// Byte-level validity check over the key's UTF-8 bytes.
pub fn valid_key_bytes(s: &[u8]) -> (r: bool)
    ensures
        r == valid_key(s@),
{
    if s.len() != 29 {
        return false;
    }
    let mut i: usize = 0;
    while i < 29
        invariant
            0 <= i <= 29,
            s@.len() == 29,
            forall|j: int|
                0 <= j < i ==> (if j % 6 == 5 {
                    is_dash_byte(#[trigger] s@[j])
                } else {
                    is_key_byte(s@[j])
                }),
        decreases 29 - i,
    {
        let b = s[i];
        if i % 6 == 5 {
            if b != 45 {
                return false;
            }
        } else {
            let alnum = (48 <= b && b <= 57) || (65 <= b && b <= 90) || (97 <= b && b <= 122);
            if !alnum {
                return false;
            }
        }
        i = i + 1;
    }
    let mut sum: u32 = 0;
    let mut k: usize = 0;
    while k < 29
        invariant
            0 <= k <= 29,
            s@.len() == 29,
            sum == key_code_sum(s@.take(k as int)),
            sum <= 255 * k,
        decreases 29 - k,
    {
        let b = s[k];
        proof {
            assert(s@.take(k + 1).drop_last() =~= s@.take(k as int));
            assert(s@.take(k + 1).last() == s@[k as int]);
        }
        if b != 45 {
            sum = sum + b as u32;
        }
        k = k + 1;
    }
    proof {
        assert(s@.take(29) =~= s@);
        lemma_key_code_sum_nonneg(s@);
    }
    let checksum = sum % 256;
    100 <= checksum && checksum <= 255
}

/// Checks a license key: exactly 29 characters, five `-`-joined groups of
/// five ASCII alphanumerics, and a code-point checksum (mod 256) in 100..=255.
pub fn validate_license_key(key: &str) -> (r: bool)
    ensures
        r == valid_key(key.spec_bytes()),
{
    valid_key_bytes(key.as_bytes())
}

/// ASCII whitespace: space, tab, line feed, vertical tab, form feed,
/// carriage return.
pub open spec fn is_ascii_space(b: u8) -> bool {
    b == 32 || (9 <= b <= 13)
}

/// `s` without its leading whitespace.
pub open spec fn trim_front(s: Seq<u8>) -> Seq<u8>
    decreases s.len(),
{
    if s.len() > 0 && is_ascii_space(s[0]) {
        trim_front(s.subrange(1, s.len() as int))
    } else {
        s
    }
}

/// `s` without its trailing whitespace.
pub open spec fn trim_back(s: Seq<u8>) -> Seq<u8>
    decreases s.len(),
{
    if s.len() > 0 && is_ascii_space(s.last()) {
        trim_back(s.drop_last())
    } else {
        s
    }
}

/// `s` without leading and trailing whitespace.
pub open spec fn trimmed(s: Seq<u8>) -> Seq<u8> {
    trim_back(trim_front(s))
}

/// ASCII lower-case letters mapped to upper case; all other bytes unchanged.
pub open spec fn upper_byte(b: u8) -> u8 {
    if 97 <= b <= 122 {
        (b - 32) as u8
    } else {
        b
    }
}

/// The canonical form of a submitted key: trimmed, then upper-cased.
pub open spec fn normalized_key(s: Seq<u8>) -> Seq<u8> {
    trimmed(s).map_values(|b: u8| upper_byte(b))
}

proof fn lemma_trim_front_at(s: Seq<u8>, lo: int)
    requires
        0 <= lo <= s.len(),
        forall|j: int| 0 <= j < lo ==> is_ascii_space(#[trigger] s[j]),
        lo < s.len() ==> !is_ascii_space(s[lo]),
    ensures
        trim_front(s) =~= s.subrange(lo, s.len() as int),
    decreases lo,
{
    if lo == 0 {
        assert(s.subrange(0, s.len() as int) =~= s);
    } else {
        let t = s.subrange(1, s.len() as int);
        lemma_trim_front_at(t, lo - 1);
        assert(t.subrange(lo - 1, t.len() as int) =~= s.subrange(lo, s.len() as int));
    }
}

proof fn lemma_trim_back_at(s: Seq<u8>, hi: int)
    requires
        0 <= hi <= s.len(),
        forall|j: int| hi <= j < s.len() ==> is_ascii_space(#[trigger] s[j]),
        hi > 0 ==> !is_ascii_space(s[hi - 1]),
    ensures
        trim_back(s) =~= s.subrange(0, hi),
    decreases s.len(),
{
    if s.len() == 0 {
    } else if hi == s.len() {
        assert(s.subrange(0, hi) =~= s);
    } else {
        lemma_trim_back_at(s.drop_last(), hi);
        assert(s.drop_last().subrange(0, hi) =~= s.subrange(0, hi));
    }
}

/// A key that is empty or all whitespace normalizes to the empty key.
pub proof fn lemma_whitespace_key_normalizes_empty(s: Seq<u8>)
    requires
        forall|j: int| 0 <= j < s.len() ==> is_ascii_space(#[trigger] s[j]),
    ensures
        normalized_key(s).len() == 0,
{
    lemma_trim_front_at(s, s.len() as int);
    assert(trim_front(s).len() == 0);
}

fn is_space_byte(b: u8) -> (r: bool)
    ensures
        r == is_ascii_space(b),
{
    b == 32 || (9 <= b && b <= 13)
}

/// Trims ASCII whitespace from both ends of `s` and upper-cases ASCII
/// lower-case letters, yielding the canonical form of a submitted key.
pub fn normalize_key_bytes(s: &[u8]) -> (v: Vec<u8>)
    ensures
        v@ == normalized_key(s@),
{
    let mut lo: usize = 0;
    while lo < s.len() && is_space_byte(s[lo])
        invariant
            0 <= lo <= s@.len(),
            forall|j: int| 0 <= j < lo ==> is_ascii_space(#[trigger] s@[j]),
        decreases s@.len() - lo,
    {
        lo = lo + 1;
    }
    let mut hi: usize = s.len();
    while hi > lo && is_space_byte(s[hi - 1])
        invariant
            lo <= hi <= s@.len(),
            forall|j: int| hi <= j < s@.len() ==> is_ascii_space(#[trigger] s@[j]),
        decreases hi,
    {
        hi = hi - 1;
    }
    proof {
        lemma_trim_front_at(s@, lo as int);
        let t = s@.subrange(lo as int, s@.len() as int);
        lemma_trim_back_at(t, hi - lo);
        assert(t.subrange(0, hi - lo) =~= s@.subrange(lo as int, hi as int));
    }
    let mut v: Vec<u8> = Vec::new();
    let mut i: usize = lo;
    while i < hi
        invariant
            lo <= i <= hi <= s@.len(),
            v@.len() == i - lo,
            forall|j: int| 0 <= j < i - lo ==> v@[j] == upper_byte(#[trigger] s@[lo + j]),
        decreases hi - i,
    {
        let b = s[i];
        if 97 <= b && b <= 122 {
            v.push(b - 32);
        } else {
            v.push(b);
        }
        i = i + 1;
    }
    proof {
        assert(trimmed(s@) =~= s@.subrange(lo as int, hi as int));
        assert(normalized_key(s@).len() == hi - lo);
        assert forall|j: int| 0 <= j < hi - lo implies v@[j] == normalized_key(s@)[j] by {
            assert(v@[j] == upper_byte(s@[lo + j]));
            assert(trimmed(s@)[j] == s@[lo + j]);
            assert(normalized_key(s@)[j] == upper_byte(trimmed(s@)[j]));
        }
        assert(v@ =~= normalized_key(s@));
    }
    v
}

/// Every byte of a well-formed key is printable ASCII and is neither a
/// quotation mark nor a backslash, so a valid key can be embedded verbatim
/// in the persisted record.
pub proof fn lemma_well_formed_key_bytes_plain(s: Seq<u8>)
    requires
        key_well_formed(s),
    ensures
        forall|j: int|
            0 <= j < s.len() ==> 32 <= #[trigger] s[j] < 127 && s[j] != 34 && s[j] != 92,
{
}

} // verus!
