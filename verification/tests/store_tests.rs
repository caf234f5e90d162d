use license_media::disk::Disk;
use license_media::record::parse_license;
use license_media::store::activate_license;
use license_media::store::check_license;
use license_media::store::get_image;
use license_media::store::get_media;
use license_media::store::get_sound;
use license_media::store::remove_license;
use license_media::store::upload_image;
use license_media::store::upload_media;
use license_media::store::upload_sound;
use license_media::store::MediaCategory;
use license_media::store::StoreError;

const LICENSE_FILE: &str = "license.json";

#[test]
fn activate_then_check_succeeds() {
    // the example key's code-point sum is congruent to 150 modulo 256
    let mut disk = Disk::new();
    let r = activate_license(&mut disk, "AAAAA-AAAAA-AAAAA-AAAAA-AAAEz", 1700000000);
    assert!(matches!(r, Ok(true)));
    assert!(check_license(&mut disk));
    assert!(disk.has_file(LICENSE_FILE));
}

#[test]
fn activate_normalizes_key() {
    let mut disk = Disk::new();
    let r = activate_license(&mut disk, "  aaaaa-aaaaa-aaaaa-aaaaa-aaaal\t\n", 42);
    assert!(matches!(r, Ok(true)));
    let stored = disk.read(LICENSE_FILE).unwrap();
    let record = parse_license(&stored).unwrap();
    assert_eq!(record.key, "AAAAA-AAAAA-AAAAA-AAAAA-AAAAL");
    assert_eq!(record.activated_at, 42);
    assert!(check_license(&mut disk));
}

#[test]
fn activate_empty_or_whitespace_rejected() {
    let mut disk = Disk::new();
    assert!(matches!(
        activate_license(&mut disk, "", 1),
        Err(StoreError::InvalidKey)
    ));
    assert!(matches!(
        activate_license(&mut disk, " \t\r\n  ", 1),
        Err(StoreError::InvalidKey)
    ));
    assert!(!disk.has_file(LICENSE_FILE));
    assert_eq!(disk.file_count(), 0);
}

#[test]
fn activate_bad_checksum_rejected() {
    let mut disk = Disk::new();
    // code-point sum congruent to 99: below the accepted range
    assert!(matches!(
        activate_license(&mut disk, "AAAAA-AAAAA-AAAAA-AAAAA-AAAAK", 1),
        Err(StoreError::InvalidKey)
    ));
    assert!(!disk.has_file(LICENSE_FILE));
}

#[test]
fn check_missing_record_is_false() {
    let mut disk = Disk::new();
    assert!(!check_license(&mut disk));
}

#[test]
fn check_deletes_malformed_record() {
    let mut disk = Disk::new();
    disk.write(LICENSE_FILE.to_string(), "not json at all".as_bytes().to_vec());
    assert!(!check_license(&mut disk));
    assert!(!disk.has_file(LICENSE_FILE));
}

#[test]
fn check_deletes_record_with_invalid_key() {
    let mut disk = Disk::new();
    let text = "{\n  \"key\": \"AAAAA-AAAAA-AAAAA-AAAAA-AAAAK\",\n  \"activated_at\": 9\n}";
    disk.write(LICENSE_FILE.to_string(), text.as_bytes().to_vec());
    assert!(!check_license(&mut disk));
    assert!(!disk.has_file(LICENSE_FILE));
}

#[test]
fn remove_absent_license_is_ok() {
    let mut disk = Disk::new();
    assert!(matches!(remove_license(&mut disk), Ok(true)));
}

#[test]
fn remove_after_activate_clears_record() {
    let mut disk = Disk::new();
    activate_license(&mut disk, "AAAAA-AAAAA-AAAAA-AAAAA-AAAAL", 7).unwrap();
    assert!(matches!(remove_license(&mut disk), Ok(true)));
    assert!(!disk.has_file(LICENSE_FILE));
    assert!(!check_license(&mut disk));
}

#[test]
fn upload_then_get_roundtrip() {
    let mut disk = Disk::new();
    let data = vec![0u8, 1, 2, 255, 128, 7];
    let hash = upload_media(&mut disk, MediaCategory::Images, data.clone()).unwrap();
    assert_eq!(hash.len(), 64);
    let back = get_media(&disk, MediaCategory::Images, &hash).unwrap();
    assert_eq!(back, data);
}

#[test]
fn upload_empty_bytes_roundtrip() {
    let mut disk = Disk::new();
    let hash = upload_media(&mut disk, MediaCategory::Sounds, Vec::new()).unwrap();
    assert_eq!(
        hash,
        "e3b0c44298fc1c149afbf4c8996fb92427ae41e4649b934ca495991b7852b855"
    );
    let back = get_media(&disk, MediaCategory::Sounds, &hash).unwrap();
    assert!(back.is_empty());
}

#[test]
fn upload_twice_is_idempotent() {
    let mut disk = Disk::new();
    let data = "same bytes".as_bytes().to_vec();
    let h1 = upload_image(&mut disk, data.clone()).unwrap();
    let h2 = upload_image(&mut disk, data.clone()).unwrap();
    assert_eq!(h1, h2);
    assert_eq!(disk.file_count(), 1);
    assert_eq!(get_image(&disk, &h1).unwrap(), data);
}

#[test]
fn get_unknown_hash_is_not_found() {
    let disk = Disk::new();
    let missing = "0000000000000000000000000000000000000000000000000000000000000000";
    assert!(matches!(
        get_image(&disk, missing),
        Err(StoreError::NotFound)
    ));
    assert!(matches!(
        get_sound(&disk, missing),
        Err(StoreError::NotFound)
    ));
}

#[test]
fn image_and_sound_namespaces_are_independent() {
    let mut disk = Disk::new();
    let data = "shared content".as_bytes().to_vec();
    let hi = upload_image(&mut disk, data.clone()).unwrap();
    let hs = upload_sound(&mut disk, data.clone()).unwrap();
    assert_eq!(hi, hs);
    assert_eq!(disk.file_count(), 2);
    assert_eq!(get_image(&disk, &hi).unwrap(), data);
    assert_eq!(get_sound(&disk, &hs).unwrap(), data);
}

#[test]
fn upload_returns_content_digest() {
    let mut disk = Disk::new();
    let hash = upload_image(&mut disk, "abc".as_bytes().to_vec()).unwrap();
    assert_eq!(
        hash,
        "ba7816bf8f01cfea414140de5dae2223b00361a396177a9cb410ff61f20015ad"
    );
}
