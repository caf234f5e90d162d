//! The license store and the media store.
//!
//! Both operate on a [`Disk`], the model of the application's data
//! directory. The license store keeps at most one record, at
//! `license.json`; an on-disk record that fails to parse or whose key fails
//! validation is treated as absent and deleted on detection. The media
//! store keeps one file per content digest under `media/images/` and
//! `media/sounds/`, two disjoint namespaces.

use crate::disk::Disk;
use crate::hashing::digest_of;
use crate::hashing::hash_data;
use crate::license::lemma_well_formed_key_bytes_plain;
use crate::license::lemma_whitespace_key_normalizes_empty;
use crate::license::is_ascii_space;
use crate::license::normalize_key_bytes;
use crate::license::normalized_key;
use crate::license::valid_key;
use crate::license::valid_key_bytes;
use crate::license::validate_license_key;
use crate::record::encode_license;
use crate::record::encode_record;
use crate::record::parse_license;
use crate::record::parse_record;
use crate::record::lemma_parse_encode_record;
use crate::record::LicenseData;
use crate::text::ascii_to_string;
use vstd::prelude::*;
use vstd::string::StringExecFns;
use vstd::string::StringSliceAdditionalSpecFns;

verus! {

/// How a store operation fails: a malformed or checksum-failing key, a
/// filesystem error (carrying a description), or an absent media blob.
#[derive(Debug)]
pub enum StoreError {
    InvalidKey,
    IoFailure(String),
    NotFound,
}

/// The relative path of the license record.
pub open spec fn license_path() -> Seq<char> {
    "license.json"@
}

/// The `license.json` path as a string.
pub fn license_path_string() -> (s: String)
    ensures
        s@ == license_path(),
{
    String::from_str("license.json")
}

/// The two media namespaces.
#[derive(Clone, Copy, Debug, PartialEq, Eq, Structural)]
pub enum MediaCategory {
    Images,
    Sounds,
}

/// The relative directory of a category, with its trailing separator.
pub open spec fn media_prefix(category: MediaCategory) -> Seq<char> {
    match category {
        MediaCategory::Images => "media/images/"@,
        MediaCategory::Sounds => "media/sounds/"@,
    }
}

/// The relative path of the blob with handle `handle` in `category`.
pub open spec fn media_path(category: MediaCategory, handle: Seq<char>) -> Seq<char> {
    media_prefix(category) + handle
}

/// The media path as a string.
pub fn media_path_string(category: MediaCategory, handle: &str) -> (s: String)
    ensures
        s@ == media_path(category, handle@),
{
    match category {
        MediaCategory::Images => String::from_str("media/images/").concat(handle),
        MediaCategory::Sounds => String::from_str("media/sounds/").concat(handle),
    }
}

/// Whether `content` is a parsable license record with a valid key.
pub open spec fn content_ok(content: Seq<u8>) -> bool {
    match parse_record(content) {
        Some(r) => valid_key(r.0),
        None => false,
    }
}

/// Whether `m` holds a license record that parses and carries a valid key.
pub open spec fn license_ok(m: Map<Seq<char>, Seq<u8>>) -> bool {
    m.contains_key(license_path()) && content_ok(m[license_path()])
}

/// The disk after a license check: a present record that is corrupt or
/// invalid is deleted, anything else is left as it is.
pub open spec fn check_cleanup(m: Map<Seq<char>, Seq<u8>>) -> Map<Seq<char>, Seq<u8>> {
    if m.contains_key(license_path()) && !license_ok(m) {
        m.remove(license_path())
    } else {
        m
    }
}

/// Decides whether stored license bytes are a parsable record with a valid
/// key.
pub fn license_content_valid(content: &[u8]) -> (r: bool)
    ensures
        r == content_ok(content@),
{
    match parse_license(content) {
        Some(d) => validate_license_key(d.key.as_str()),
        None => false,
    }
}

/// Checks the stored license. Returns `true` exactly when a record is
/// present, parses, and carries a valid key; a present record that is
/// corrupt or invalid is deleted and reported as absent. Never fails.
pub fn check_license(disk: &mut Disk) -> (r: bool)
    ensures
        r == license_ok(old(disk).contents()),
        final(disk).contents() == check_cleanup(old(disk).contents()),
{
    let lp = license_path_string();
    match disk.read(lp.as_str()) {
        None => false,
        Some(content) => {
            if license_content_valid(content.as_slice()) {
                true
            } else {
                disk.delete(lp.as_str());
                false
            }
        },
    }
}

/// Builds the record bytes that activating `key` at time `now` persists:
/// the canonical encoding of the normalized key, owed exactly when the
/// normalized key is valid.
pub fn license_payload(key: &str, now: u64) -> (r: Result<Vec<u8>, StoreError>)
    ensures
        match r {
            Ok(v) => valid_key(normalized_key(key.spec_bytes())) && v@ == encode_record(
                normalized_key(key.spec_bytes()),
                now,
            ),
            Err(e) => e is InvalidKey && !valid_key(normalized_key(key.spec_bytes())),
        },
{
    let norm = normalize_key_bytes(key.as_bytes());
    if norm.len() == 0 {
        return Err(StoreError::InvalidKey);
    }
    if !valid_key_bytes(norm.as_slice()) {
        return Err(StoreError::InvalidKey);
    }
    let ghost nb = norm@;
    proof {
        lemma_well_formed_key_bytes_plain(nb);
    }
    let key_string = ascii_to_string(norm);
    let data = LicenseData { key: key_string, activated_at: now };
    Ok(encode_license(&data))
}

/// Activates a license: trims and upper-cases `key`, rejects it with
/// `InvalidKey` when the result is empty or fails validation (leaving the
/// disk untouched), and otherwise overwrites the stored record with the
/// normalized key and the activation time `now`.
pub fn activate_license(disk: &mut Disk, key: &str, now: u64) -> (r: Result<bool, StoreError>)
    ensures
        match r {
            Ok(b) => b && valid_key(normalized_key(key.spec_bytes())) && final(disk).contents()
                == old(disk).contents().insert(
                license_path(),
                encode_record(normalized_key(key.spec_bytes()), now),
            ),
            Err(e) => e is InvalidKey && !valid_key(normalized_key(key.spec_bytes())) && final(disk).contents() == old(disk).contents(),
        },
{
    match license_payload(key, now) {
        Ok(bytes) => {
            let lp = license_path_string();
            disk.write(lp, bytes);
            Ok(true)
        },
        Err(e) => Err(e),
    }
}

/// Removes the stored license. Succeeds whether or not a record was
/// present: removal of an absent record is a no-op, not an error.
pub fn remove_license(disk: &mut Disk) -> (r: Result<bool, StoreError>)
    ensures
        (r matches Ok(b) && b),
        final(disk).contents() == old(disk).contents().remove(license_path()),
{
    let lp = license_path_string();
    disk.delete(lp.as_str());
    Ok(true)
}

/// Stores `data` in `category` under its content digest and returns the
/// digest as the blob's handle. Two uploads of the same bytes yield the
/// same handle and overwrite the same file.
pub fn upload_media(disk: &mut Disk, category: MediaCategory, data: Vec<u8>) -> (r: Result<
    String,
    StoreError,
>)
    ensures
        match r {
            Ok(h) => h@ == digest_of(data@) && final(disk).contents() == old(disk).contents().insert(media_path(category, digest_of(data@)), data@),
            Err(_) => false,
        },
{
    let h = hash_data(data.as_slice());
    let p = media_path_string(category, h.as_str());
    disk.write(p, data);
    Ok(h)
}

/// Reads the blob with handle `hash` from `category`. Fails with
/// `NotFound` exactly when no blob with that handle was stored there.
pub fn get_media(disk: &Disk, category: MediaCategory, hash: &str) -> (r: Result<
    Vec<u8>,
    StoreError,
>)
    ensures
        match r {
            Ok(v) => disk.contents().contains_key(media_path(category, hash@)) && v@
                == disk.contents()[media_path(category, hash@)],
            Err(e) => e is NotFound && !disk.contents().contains_key(
                media_path(category, hash@),
            ),
        },
{
    let p = media_path_string(category, hash);
    match disk.read(p.as_str()) {
        Some(v) => Ok(v),
        None => Err(StoreError::NotFound),
    }
}

/// Stores an image blob under its content digest.
pub fn upload_image(disk: &mut Disk, data: Vec<u8>) -> (r: Result<String, StoreError>)
    ensures
        match r {
            Ok(h) => h@ == digest_of(data@) && final(disk).contents() == old(disk).contents().insert(media_path(MediaCategory::Images, digest_of(data@)), data@),
            Err(_) => false,
        },
{
    upload_media(disk, MediaCategory::Images, data)
}

/// Stores a sound blob under its content digest.
pub fn upload_sound(disk: &mut Disk, data: Vec<u8>) -> (r: Result<String, StoreError>)
    ensures
        match r {
            Ok(h) => h@ == digest_of(data@) && final(disk).contents() == old(disk).contents().insert(media_path(MediaCategory::Sounds, digest_of(data@)), data@),
            Err(_) => false,
        },
{
    upload_media(disk, MediaCategory::Sounds, data)
}

/// Reads an image blob by its handle.
pub fn get_image(disk: &Disk, hash: &str) -> (r: Result<Vec<u8>, StoreError>)
    ensures
        match r {
            Ok(v) => disk.contents().contains_key(media_path(MediaCategory::Images, hash@)) && v@
                == disk.contents()[media_path(MediaCategory::Images, hash@)],
            Err(e) => e is NotFound && !disk.contents().contains_key(
                media_path(MediaCategory::Images, hash@),
            ),
        },
{
    get_media(disk, MediaCategory::Images, hash)
}

/// Reads a sound blob by its handle.
pub fn get_sound(disk: &Disk, hash: &str) -> (r: Result<Vec<u8>, StoreError>)
    ensures
        match r {
            Ok(v) => disk.contents().contains_key(media_path(MediaCategory::Sounds, hash@)) && v@
                == disk.contents()[media_path(MediaCategory::Sounds, hash@)],
            Err(e) => e is NotFound && !disk.contents().contains_key(
                media_path(MediaCategory::Sounds, hash@),
            ),
        },
{
    get_media(disk, MediaCategory::Sounds, hash)
}

/// Activation followed by a check succeeds: after a valid key is stored at
/// time `now`, the disk holds a record that parses back to that key, the
/// check reports the license present, and deletes nothing.
pub proof fn lemma_activate_then_check(m: Map<Seq<char>, Seq<u8>>, key: Seq<u8>, now: u64)
    requires
        valid_key(normalized_key(key)),
    ensures
        license_ok(m.insert(license_path(), encode_record(normalized_key(key), now))),
        check_cleanup(m.insert(license_path(), encode_record(normalized_key(key), now)))
            == m.insert(license_path(), encode_record(normalized_key(key), now)),
{
    let nk = normalized_key(key);
    lemma_well_formed_key_bytes_plain(nk);
    lemma_parse_encode_record(nk, now);
}

/// An empty or whitespace-only key never activates: it normalizes to the
/// empty key, which is invalid, so activation fails with `InvalidKey` and
/// the disk is unchanged.
pub proof fn lemma_whitespace_key_rejected(key: Seq<u8>)
    requires
        forall|j: int| 0 <= j < key.len() ==> is_ascii_space(#[trigger] key[j]),
    ensures
        !valid_key(normalized_key(key)),
{
    lemma_whitespace_key_normalizes_empty(key);
}

/// Uploading bytes and reading them back by the returned handle yields
/// exactly those bytes, for any byte sequence including the empty one.
pub proof fn lemma_upload_then_get(m: Map<Seq<char>, Seq<u8>>, category: MediaCategory, data: Seq<
    u8,
>)
    ensures
        m.insert(media_path(category, digest_of(data)), data).contains_key(
            media_path(category, digest_of(data)),
        ),
        m.insert(media_path(category, digest_of(data)), data)[media_path(
            category,
            digest_of(data),
        )] == data,
{
}

/// Uploading the same bytes twice yields the same handle both times and a
/// single stored file: the second upload overwrites the first, leaving the
/// disk exactly as after one upload.
pub proof fn lemma_upload_idempotent(m: Map<Seq<char>, Seq<u8>>, category: MediaCategory, data: Seq<
    u8,
>)
    ensures
        m.insert(media_path(category, digest_of(data)), data).insert(
            media_path(category, digest_of(data)),
            data,
        ) == m.insert(media_path(category, digest_of(data)), data),
{
    let p = media_path(category, digest_of(data));
    assert(m.insert(p, data).insert(p, data) =~= m.insert(p, data));
}

/// The image and sound namespaces are disjoint: the same handle names
/// different paths in the two categories.
pub proof fn lemma_categories_disjoint(handle: Seq<char>)
    ensures
        media_path(MediaCategory::Images, handle) != media_path(MediaCategory::Sounds, handle),
{
    reveal_strlit("media/images/");
    reveal_strlit("media/sounds/");
    assert(media_path(MediaCategory::Images, handle)[6] == 'i');
    assert(media_path(MediaCategory::Sounds, handle)[6] == 's');
}

/// Identical content uploaded as an image and as a sound carries the same
/// digest handle but is stored as two independent entries: after both
/// uploads, each category holds the bytes under that one handle.
pub proof fn lemma_cross_category_independent(m: Map<Seq<char>, Seq<u8>>, data: Seq<u8>)
    ensures
        ({
            let h = digest_of(data);
            let m2 = m.insert(media_path(MediaCategory::Images, h), data).insert(
                media_path(MediaCategory::Sounds, h),
                data,
            );
            &&& m2.contains_key(media_path(MediaCategory::Images, h))
            &&& m2.contains_key(media_path(MediaCategory::Sounds, h))
            &&& m2[media_path(MediaCategory::Images, h)] == data
            &&& m2[media_path(MediaCategory::Sounds, h)] == data
        }),
{
    lemma_categories_disjoint(digest_of(data));
}

} // verus!
