//! The persisted license record and its canonical on-disk form.
//!
//! A record is stored as a small pretty-printed JSON object with exactly two
//! fields, `key` and `activated_at`. The store is the only writer of this
//! file, so the codec commits to that canonical layout: `encode_record` is
//! the layout itself, and `parse_record` accepts a byte sequence exactly
//! when it is the canonical encoding of some record. Any other content is
//! treated as corrupt by the license store.

use crate::text::ascii_chars_of;
use crate::text::ascii_to_string;
use vstd::prelude::*;
use vstd::utf8::encode_utf8;

verus! {

/// A license activation record: the canonical key and the activation time
/// in seconds since the Unix epoch.
#[derive(Debug)]
pub struct LicenseData {
    pub key: String,
    pub activated_at: u64,
}

impl LicenseData {
    /// The UTF-8 bytes of the stored key.
    pub open spec fn key_bytes(&self) -> Seq<u8> {
        encode_utf8(self.key@)
    }
}

/// An ASCII decimal digit.
pub open spec fn is_digit(b: u8) -> bool {
    48 <= b <= 57
}

/// A byte that may stand verbatim inside the record's quoted key: printable
/// ASCII, but neither `"` nor `\`.
pub open spec fn is_plain_byte(b: u8) -> bool {
    32 <= b < 127 && b != 34 && b != 92
}

/// The canonical decimal digits of `n`, most significant first.
pub open spec fn dec_digits(n: nat) -> Seq<u8>
    decreases n,
{
    if n < 10 {
        seq![(48 + n) as u8]
    } else {
        dec_digits(n / 10).push((48 + n % 10) as u8)
    }
}

/// The value of a sequence of decimal digits, most significant first.
pub open spec fn digits_val(s: Seq<u8>) -> int
    decreases s.len(),
{
    if s.len() == 0 {
        0
    } else {
        digits_val(s.drop_last()) * 10 + (s.last() - 48)
    }
}

/// A canonical decimal number: at least one digit, no redundant leading
/// zero, and a value that fits in 64 bits.
pub open spec fn is_canonical_number(s: Seq<u8>) -> bool {
    &&& s.len() >= 1
    &&& forall|j: int| 0 <= j < s.len() ==> is_digit(#[trigger] s[j])
    &&& (s[0] != 48 || s.len() == 1)
    &&& digits_val(s) <= u64::MAX
}

/// The bytes before the key value: `{`, a newline, two spaces, `"key": "`.
pub open spec fn rec_prefix() -> Seq<u8> {
    seq![123u8, 10u8, 32u8, 32u8, 34u8, 107u8, 101u8, 121u8, 34u8, 58u8, 32u8, 34u8]
}

/// The bytes between the key value and the timestamp: the closing quote, a
/// comma, a newline, two spaces, `"activated_at": `.
pub open spec fn rec_mid() -> Seq<u8> {
    seq![
        34u8,
        44u8,
        10u8,
        32u8,
        32u8,
        34u8,
        97u8,
        99u8,
        116u8,
        105u8,
        118u8,
        97u8,
        116u8,
        101u8,
        100u8,
        95u8,
        97u8,
        116u8,
        34u8,
        58u8,
        32u8,
    ]
}

/// The bytes after the timestamp: a newline and the closing brace.
pub open spec fn rec_suffix() -> Seq<u8> {
    seq![10u8, 125u8]
}

/// The canonical encoding of a record with key bytes `key` activated at
/// `at`.
pub open spec fn encode_record(key: Seq<u8>, at: u64) -> Seq<u8> {
    rec_prefix() + key + rec_mid() + dec_digits(at as nat) + rec_suffix()
}

/// The first index at or after `i` holding a byte that may not stand inside
/// the quoted key (or the end of `s`).
pub open spec fn scan_plain_end(s: Seq<u8>, i: int) -> int
    decreases s.len() - i,
{
    if 0 <= i < s.len() && is_plain_byte(s[i]) {
        scan_plain_end(s, i + 1)
    } else {
        i
    }
}

/// The first index at or after `i` holding a non-digit (or the end of `s`).
pub open spec fn scan_digits_end(s: Seq<u8>, i: int) -> int
    decreases s.len() - i,
{
    if 0 <= i < s.len() && is_digit(s[i]) {
        scan_digits_end(s, i + 1)
    } else {
        i
    }
}

/// The record denoted by `s`, as its key bytes and timestamp, or `None`
/// when `s` is not the canonical encoding of any record.
pub open spec fn parse_record(s: Seq<u8>) -> Option<(Seq<u8>, u64)> {
    if s.len() >= 12 && s.subrange(0, 12) == rec_prefix() {
        let j = scan_plain_end(s, 12);
        if j + 21 <= s.len() && s.subrange(j, j + 21) == rec_mid() {
            let m = scan_digits_end(s, j + 21);
            let num = s.subrange(j + 21, m);
            if is_canonical_number(num) && m + 2 == s.len() && s.subrange(m, s.len() as int)
                == rec_suffix() {
                Some((s.subrange(12, j), digits_val(num) as u64))
            } else {
                None
            }
        } else {
            None
        }
    } else {
        None
    }
}

proof fn lemma_scan_plain_end_at(s: Seq<u8>, i: int, j: int)
    requires
        0 <= i <= j <= s.len(),
        forall|x: int| i <= x < j ==> is_plain_byte(#[trigger] s[x]),
        j < s.len() ==> !is_plain_byte(s[j]),
    ensures
        scan_plain_end(s, i) == j,
    decreases j - i,
{
    if i < j {
        lemma_scan_plain_end_at(s, i + 1, j);
    }
}

proof fn lemma_scan_digits_end_at(s: Seq<u8>, i: int, j: int)
    requires
        0 <= i <= j <= s.len(),
        forall|x: int| i <= x < j ==> is_digit(#[trigger] s[x]),
        j < s.len() ==> !is_digit(s[j]),
    ensures
        scan_digits_end(s, i) == j,
    decreases j - i,
{
    if i < j {
        lemma_scan_digits_end_at(s, i + 1, j);
    }
}

proof fn lemma_dec_digits_shape(n: nat)
    ensures
        dec_digits(n).len() >= 1,
        forall|j: int| 0 <= j < dec_digits(n).len() ==> is_digit(#[trigger] dec_digits(n)[j]),
        dec_digits(n)[0] != 48 || n < 10,
        digits_val(dec_digits(n)) == n,
    decreases n,
{
    if n < 10 {
        let s = dec_digits(n);
        assert(s =~= seq![(48 + n) as u8]);
        assert(s.len() == 1);
        assert(s.last() == (48 + n) as u8);
        assert(s.drop_last() =~= Seq::<u8>::empty());
        assert(digits_val(s.drop_last()) == 0);
        assert(digits_val(s) == 0 * 10 + ((48 + n) as u8 - 48));
    } else {
        lemma_dec_digits_shape(n / 10);
        let d = dec_digits(n / 10);
        let s = dec_digits(n);
        assert(s == d.push((48 + n % 10) as u8));
        assert(s.drop_last() =~= d);
        assert(s.last() == (48 + n % 10) as u8);
        assert(s[0] == d[0]);
        assert(digits_val(s) == digits_val(d) * 10 + ((48 + n % 10) as u8 - 48));
        assert(digits_val(s) == (n / 10) * 10 + n % 10);
        assert(n / 10 * 10 + n % 10 == n) by (nonlinear_arith);
    }
}

/// The canonical encoding of a record parses back to exactly that record:
/// for every key made of plain bytes and every timestamp, the codec is a
/// round trip.
pub proof fn lemma_parse_encode_record(key: Seq<u8>, at: u64)
    requires
        forall|j: int| 0 <= j < key.len() ==> is_plain_byte(#[trigger] key[j]),
    ensures
        parse_record(encode_record(key, at)) == Some((key, at)),
{
    let e = encode_record(key, at);
    let num = dec_digits(at as nat);
    lemma_dec_digits_shape(at as nat);
    let kl = key.len() as int;
    let dl = num.len() as int;
    assert(e.len() == 12 + kl + 21 + dl + 2);
    assert(e.subrange(0, 12) =~= rec_prefix());
    // the key region holds plain bytes and ends at the quote that opens
    // `rec_mid`
    assert(forall|x: int| 12 <= x < 12 + kl ==> is_plain_byte(#[trigger] e[x]));
    assert(e[12 + kl] == 34);
    assert(!is_plain_byte(e[12 + kl]));
    lemma_scan_plain_end_at(e, 12, 12 + kl);
    assert(e.subrange(12 + kl, 12 + kl + 21) =~= rec_mid());
    // the digit region ends at the newline that opens `rec_suffix`
    let k0 = 12 + kl + 21;
    assert(forall|x: int| k0 <= x < k0 + dl ==> is_digit(#[trigger] e[x]));
    assert(e[k0 + dl] == 10);
    assert(!is_digit(e[k0 + dl]));
    lemma_scan_digits_end_at(e, k0, k0 + dl);
    assert(e.subrange(k0, k0 + dl) =~= num);
    assert(is_canonical_number(num));
    assert(e.subrange(k0 + dl, e.len() as int) =~= rec_suffix());
    assert(e.subrange(12, 12 + kl) =~= key);
}

proof fn lemma_digits_val_nonneg(s: Seq<u8>)
    requires
        forall|j: int| 0 <= j < s.len() ==> is_digit(#[trigger] s[j]),
    ensures
        digits_val(s) >= 0,
    decreases s.len(),
{
    if s.len() > 0 {
        lemma_digits_val_nonneg(s.drop_last());
    }
}

proof fn lemma_digits_val_pos(s: Seq<u8>)
    requires
        s.len() >= 1,
        forall|j: int| 0 <= j < s.len() ==> is_digit(#[trigger] s[j]),
        s[0] != 48,
    ensures
        digits_val(s) >= 1,
    decreases s.len(),
{
    if s.len() == 1 {
        assert(s.drop_last() =~= Seq::<u8>::empty());
        assert(digits_val(Seq::<u8>::empty()) == 0);
        assert(digits_val(s) == s[0] - 48);
    } else {
        let p = s.drop_last();
        assert(forall|j: int| 0 <= j < p.len() ==> is_digit(#[trigger] p[j]));
        lemma_digits_val_pos(p);
        assert(is_digit(s[s.len() - 1]));
        assert(digits_val(s) == digits_val(p) * 10 + (s.last() - 48));
    }
}

proof fn lemma_canonical_digits_roundtrip(s: Seq<u8>)
    requires
        s.len() >= 1,
        forall|j: int| 0 <= j < s.len() ==> is_digit(#[trigger] s[j]),
        s[0] != 48 || s.len() == 1,
    ensures
        digits_val(s) >= 0,
        dec_digits(digits_val(s) as nat) == s,
    decreases s.len(),
{
    lemma_digits_val_nonneg(s);
    if s.len() == 1 {
        assert(s.drop_last() =~= Seq::<u8>::empty());
        assert(digits_val(Seq::<u8>::empty()) == 0);
        assert(digits_val(s) == s[0] - 48);
        assert(is_digit(s[0]));
        assert(dec_digits(digits_val(s) as nat) =~= s);
    } else {
        let p = s.drop_last();
        let d = (s.last() - 48) as int;
        assert(forall|j: int| 0 <= j < p.len() ==> is_digit(#[trigger] p[j]));
        assert(is_digit(s[s.len() - 1]));
        lemma_canonical_digits_roundtrip(p);
        lemma_digits_val_pos(p);
        let vp = digits_val(p);
        let v = digits_val(s);
        assert(v == vp * 10 + d);
        assert(v >= 10);
        assert(v / 10 == vp && v % 10 == d) by (nonlinear_arith)
            requires
                v == vp * 10 + d,
                0 <= d <= 9,
                vp >= 0,
        ;
        assert(dec_digits(v as nat) == dec_digits(vp as nat).push((48 + (v as nat) % 10) as u8));
        assert(dec_digits(v as nat) =~= s);
    }
}

proof fn lemma_scan_plain_region(s: Seq<u8>, i: int)
    requires
        0 <= i <= s.len(),
    ensures
        i <= scan_plain_end(s, i) <= s.len(),
        forall|x: int| i <= x < scan_plain_end(s, i) ==> is_plain_byte(#[trigger] s[x]),
        scan_plain_end(s, i) < s.len() ==> !is_plain_byte(s[scan_plain_end(s, i)]),
    decreases s.len() - i,
{
    if i < s.len() && is_plain_byte(s[i]) {
        lemma_scan_plain_region(s, i + 1);
    }
}

proof fn lemma_scan_digits_region(s: Seq<u8>, i: int)
    requires
        0 <= i <= s.len(),
    ensures
        i <= scan_digits_end(s, i) <= s.len(),
        forall|x: int| i <= x < scan_digits_end(s, i) ==> is_digit(#[trigger] s[x]),
        scan_digits_end(s, i) < s.len() ==> !is_digit(s[scan_digits_end(s, i)]),
    decreases s.len() - i,
{
    if i < s.len() && is_digit(s[i]) {
        lemma_scan_digits_region(s, i + 1);
    }
}

/// The converse of the round trip: a byte sequence that parses to a record
/// is the canonical encoding of that record, and the record's key is made
/// of plain bytes. Together with `lemma_parse_encode_record` this pins the
/// codec down: `parse_record` accepts exactly the canonical encodings.
pub proof fn lemma_parse_record_canonical(s: Seq<u8>, key: Seq<u8>, at: u64)
    requires
        parse_record(s) == Some((key, at)),
    ensures
        s == encode_record(key, at),
        forall|j: int| 0 <= j < key.len() ==> is_plain_byte(#[trigger] key[j]),
{
    let j = scan_plain_end(s, 12);
    lemma_scan_plain_region(s, 12);
    let k0 = j + 21;
    let m = scan_digits_end(s, k0);
    lemma_scan_digits_region(s, k0);
    let num = s.subrange(k0, m);
    assert(key == s.subrange(12, j));
    assert(at == digits_val(num) as u64);
    lemma_digits_val_nonneg(num);
    lemma_canonical_digits_roundtrip(num);
    assert(dec_digits(at as nat) == num);
    let e = encode_record(key, at);
    assert(e.len() == 12 + (j - 12) + 21 + (m - k0) + 2);
    assert(s.len() == m + 2);
    assert forall|i: int| 0 <= i < s.len() implies s[i] == e[i] by {
        if i < 12 {
            assert(s.subrange(0, 12)[i] == s[i]);
            assert(e[i] == rec_prefix()[i]);
        } else if i < j {
            assert(e[i] == key[i - 12]);
            assert(key[i - 12] == s[i]);
        } else if i < k0 {
            assert(e[i] == rec_mid()[i - j]);
            assert(s.subrange(j, j + 21)[i - j] == s[i]);
        } else if i < m {
            assert(e[i] == num[i - k0]);
            assert(num[i - k0] == s[i]);
        } else {
            assert(e[i] == rec_suffix()[i - m]);
            assert(s.subrange(m, s.len() as int)[i - m] == s[i]);
        }
    }
    assert(s =~= e);
}

fn rec_prefix_vec() -> (v: Vec<u8>)
    ensures
        v@ == rec_prefix(),
{
    let mut v: Vec<u8> = Vec::new();
    v.push(123);
    v.push(10);
    v.push(32);
    v.push(32);
    v.push(34);
    v.push(107);
    v.push(101);
    v.push(121);
    v.push(34);
    v.push(58);
    v.push(32);
    v.push(34);
    proof {
        assert(v@ =~= rec_prefix());
    }
    v
}

fn rec_mid_vec() -> (v: Vec<u8>)
    ensures
        v@ == rec_mid(),
{
    let mut v: Vec<u8> = Vec::new();
    v.push(34);
    v.push(44);
    v.push(10);
    v.push(32);
    v.push(32);
    v.push(34);
    v.push(97);
    v.push(99);
    v.push(116);
    v.push(105);
    v.push(118);
    v.push(97);
    v.push(116);
    v.push(101);
    v.push(100);
    v.push(95);
    v.push(97);
    v.push(116);
    v.push(34);
    v.push(58);
    v.push(32);
    proof {
        assert(v@ =~= rec_mid());
    }
    v
}

/// The canonical decimal digits of `n`.
pub fn u64_to_dec(n: u64) -> (v: Vec<u8>)
    ensures
        v@ == dec_digits(n as nat),
    decreases n,
{
    if n < 10 {
        let mut v: Vec<u8> = Vec::new();
        v.push(48 + n as u8);
        proof {
            assert(v@ =~= dec_digits(n as nat));
        }
        v
    } else {
        let mut v = u64_to_dec(n / 10);
        v.push(48 + (n % 10) as u8);
        proof {
            assert(v@ =~= dec_digits(n as nat));
        }
        v
    }
}

fn bytes_match_at(s: &[u8], off: usize, pat: &Vec<u8>) -> (r: bool)
    requires
        off + pat@.len() <= s@.len(),
    ensures
        r == (s@.subrange(off as int, off + pat@.len()) == pat@),
{
    let slen = s.len();
    let mut i: usize = 0;
    while i < pat.len()
        invariant
            0 <= i <= pat@.len(),
            slen == s@.len(),
            off + pat@.len() <= s@.len(),
            forall|j: int| 0 <= j < i ==> s@[off + j] == pat@[j],
        decreases pat@.len() - i,
    {
        if s[off + i] != pat[i] {
            proof {
                assert(s@.subrange(off as int, off + pat@.len())[i as int] != pat@[i as int]);
            }
            return false;
        }
        i = i + 1;
    }
    proof {
        assert(s@.subrange(off as int, off + pat@.len()) =~= pat@);
    }
    true
}

/// Serializes a record in the canonical layout.
pub fn encode_license(d: &LicenseData) -> (v: Vec<u8>)
    requires
        forall|j: int| 0 <= j < d.key_bytes().len() ==> is_plain_byte(#[trigger] d.key_bytes()[j]),
    ensures
        v@ == encode_record(d.key_bytes(), d.activated_at),
{
    let mut v = rec_prefix_vec();
    let kb = d.key.as_str().as_bytes();
    let mut i: usize = 0;
    while i < kb.len()
        invariant
            0 <= i <= kb@.len(),
            kb@ == d.key_bytes(),
            v@ =~= rec_prefix() + kb@.subrange(0, i as int),
        decreases kb@.len() - i,
    {
        v.push(kb[i]);
        proof {
            assert(v@ =~= rec_prefix() + kb@.subrange(0, i + 1));
        }
        i = i + 1;
    }
    let mut mid = rec_mid_vec();
    v.append(&mut mid);
    let mut digits = u64_to_dec(d.activated_at);
    v.append(&mut digits);
    v.push(10);
    v.push(125);
    proof {
        assert(kb@.subrange(0, kb@.len() as int) =~= kb@);
        assert(v@ =~= encode_record(d.key_bytes(), d.activated_at));
    }
    v
}

fn is_plain_byte_exec(b: u8) -> (r: bool)
    ensures
        r == is_plain_byte(b),
{
    32 <= b && b < 127 && b != 34 && b != 92
}

fn is_digit_exec(b: u8) -> (r: bool)
    ensures
        r == is_digit(b),
{
    48 <= b && b <= 57
}

/// Parses the canonical record layout. Returns the record exactly when the
/// input is the canonical encoding of one; everything else is `None`.
pub fn parse_license(s: &[u8]) -> (r: Option<LicenseData>)
    ensures
        match r {
            Some(d) => parse_record(s@) == Some((d.key_bytes(), d.activated_at)),
            None => parse_record(s@) is None,
        },
{
    let prefix = rec_prefix_vec();
    if s.len() < 12 {
        return None;
    }
    if !bytes_match_at(s, 0, &prefix) {
        return None;
    }
    let mut j: usize = 12;
    while j < s.len() && is_plain_byte_exec(s[j])
        invariant
            12 <= j <= s@.len(),
            forall|x: int| 12 <= x < j ==> is_plain_byte(#[trigger] s@[x]),
        decreases s@.len() - j,
    {
        j = j + 1;
    }
    proof {
        lemma_scan_plain_end_at(s@, 12, j as int);
    }
    if s.len() - j < 21 {
        return None;
    }
    let mid = rec_mid_vec();
    if !bytes_match_at(s, j, &mid) {
        return None;
    }
    let k0 = j + 21;
    let mut k: usize = k0;
    let mut n: u64 = 0;
    let mut overflow = false;
    while k < s.len() && is_digit_exec(s[k])
        invariant
            k0 == j + 21,
            k0 <= k <= s@.len(),
            forall|x: int| k0 <= x < k ==> is_digit(#[trigger] s@[x]),
            !overflow ==> n == digits_val(s@.subrange(k0 as int, k as int)),
            overflow ==> digits_val(s@.subrange(k0 as int, k as int)) > u64::MAX,
        decreases s@.len() - k,
    {
        let d = s[k] - 48;
        proof {
            assert(s@.subrange(k0 as int, k + 1).drop_last() =~= s@.subrange(
                k0 as int,
                k as int,
            ));
            assert(s@.subrange(k0 as int, k + 1).last() == s@[k as int]);
        }
        if !overflow {
            if n > (u64::MAX - d as u64) / 10 {
                proof {
                    assert(n * 10 + d > u64::MAX) by (nonlinear_arith)
                        requires
                            n > (u64::MAX - d as u64) / 10,
                            d <= 9,
                    ;
                }
                overflow = true;
            } else {
                proof {
                    assert(n * 10 + d <= u64::MAX) by (nonlinear_arith)
                        requires
                            n <= (u64::MAX - d as u64) / 10,
                            d <= 9,
                    ;
                }
                n = n * 10 + d as u64;
            }
        } else {
            proof {
                let old_val = digits_val(s@.subrange(k0 as int, k as int));
                assert(old_val * 10 + d > u64::MAX) by (nonlinear_arith)
                    requires
                        old_val > u64::MAX,
                        d >= 0,
                ;
            }
        }
        k = k + 1;
    }
    proof {
        lemma_scan_digits_end_at(s@, k0 as int, k as int);
    }
    if k == k0 {
        return None;
    }
    if overflow {
        return None;
    }
    if s[k0] == 48 && k - k0 > 1 {
        return None;
    }
    if s.len() - k != 2 {
        return None;
    }
    let suffix_ok = s[k] == 10 && s[k + 1] == 125;
    proof {
        let tail = s@.subrange(k as int, s@.len() as int);
        assert(tail.len() == 2);
        assert(tail[0] == s@[k as int] && tail[1] == s@[k + 1]);
        if suffix_ok {
            assert(tail =~= rec_suffix());
        } else {
            assert(tail != rec_suffix());
        }
    }
    if !suffix_ok {
        return None;
    }
    let mut kb: Vec<u8> = Vec::new();
    let mut x: usize = 12;
    while x < j
        invariant
            12 <= x <= j <= s@.len(),
            forall|y: int| 12 <= y < j ==> is_plain_byte(#[trigger] s@[y]),
            kb@ =~= s@.subrange(12, x as int),
        decreases j - x,
    {
        kb.push(s[x]);
        proof {
            assert(kb@ =~= s@.subrange(12, x + 1));
        }
        x = x + 1;
    }
    let key = ascii_to_string(kb);
    Some(LicenseData { key, activated_at: n })
}

} // verus!
