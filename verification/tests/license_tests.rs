use license_media::hashing::hash_data;
use license_media::record::parse_license;
use license_media::record::u64_to_dec;
use license_media::license::validate_license_key;
use license_media::store::license_payload;
use license_media::store::StoreError;

#[test]
fn validate_rejects_wrong_length() {
    assert!(!validate_license_key(""));
    assert!(!validate_license_key("SHORT"));
    assert!(!validate_license_key("AAAAA-AAAAA-AAAAA-AAAAA-AAAA"));
    assert!(!validate_license_key("AAAAA-AAAAA-AAAAA-AAAAA-AAAALX"));
}

#[test]
fn validate_rejects_bad_separators() {
    // 29 characters, but the separators sit in the wrong places
    assert!(!validate_license_key("AAAA-AAAAAA-AAAAA-AAAAA-AAAAL"));
    assert!(!validate_license_key("AAAAAAAAAAAAAAAAAAAAAAAAAAAAA"));
    assert!(!validate_license_key("-AAAA-AAAAA-AAAAA-AAAAA-AAAAL"));
}

#[test]
fn validate_rejects_non_alphanumeric() {
    assert!(!validate_license_key("AAAA!-AAAAA-AAAAA-AAAAA-AAAAL"));
    assert!(!validate_license_key("AAAAA-AAAAA-AAAAA-AAAAA-AAAA "));
    assert!(!validate_license_key("AAAAA_AAAAA-AAAAA-AAAAA-AAAAL"));
}

#[test]
fn validate_checksum_boundaries() {
    // code-point sums: 99, 100, 255 and 0 modulo 256
    assert!(!validate_license_key("AAAAA-AAAAA-AAAAA-AAAAA-AAAAK"));
    assert!(validate_license_key("AAAAA-AAAAA-AAAAA-AAAAA-AAAAL"));
    assert!(validate_license_key("zzzzz-zzzzz-zzzzz-zzzzz-KKKKK"));
    assert!(!validate_license_key("zzzzz-zzzzz-zzzzz-zzzzz-KKKKL"));
}

#[test]
fn validate_accepts_lowercase_and_digits() {
    // lowercase alphanumerics are legal key characters as such; this key's
    // checksum is 132
    assert!(validate_license_key("aaaaa-aaaaa-aaaaa-aaaaa-aaaal"));
    // checksum 251
    assert!(validate_license_key("11111-22222-33333-44444-55555"));
}

#[test]
fn decimal_digits_exact() {
    assert_eq!(u64_to_dec(0), "0".as_bytes().to_vec());
    assert_eq!(u64_to_dec(7), "7".as_bytes().to_vec());
    assert_eq!(u64_to_dec(1234567890), "1234567890".as_bytes().to_vec());
    assert_eq!(u64_to_dec(u64::MAX), "18446744073709551615".as_bytes().to_vec());
}

#[test]
fn hash_data_known_digests() {
    assert_eq!(
        hash_data(&[]),
        "e3b0c44298fc1c149afbf4c8996fb92427ae41e4649b934ca495991b7852b855"
    );
    assert_eq!(
        hash_data("abc".as_bytes()),
        "ba7816bf8f01cfea414140de5dae2223b00361a396177a9cb410ff61f20015ad"
    );
    assert_eq!(
        hash_data("hello world".as_bytes()),
        "b94d27b9934d3e08a52e52d7da7dabfac484efe37a5380ee9088f7ace2efcde9"
    );
}

#[test]
fn payload_is_canonical_pretty_json() {
    let payload = license_payload("AAAAA-AAAAA-AAAAA-AAAAA-AAAAL", 123).unwrap();
    let expected = "{\n  \"key\": \"AAAAA-AAAAA-AAAAA-AAAAA-AAAAL\",\n  \"activated_at\": 123\n}";
    assert_eq!(payload, expected.as_bytes().to_vec());
}

#[test]
fn payload_rejects_invalid_key() {
    assert!(matches!(
        license_payload("AAAAA-AAAAA-AAAAA-AAAAA-AAAAK", 123),
        Err(StoreError::InvalidKey)
    ));
}

#[test]
fn parse_accepts_canonical_record() {
    let text = "{\n  \"key\": \"AAAAA-AAAAA-AAAAA-AAAAA-AAAAL\",\n  \"activated_at\": 456\n}";
    let d = parse_license(text.as_bytes()).unwrap();
    assert_eq!(d.key, "AAAAA-AAAAA-AAAAA-AAAAA-AAAAL");
    assert_eq!(d.activated_at, 456);
}

#[test]
fn parse_rejects_malformed_records() {
    assert!(parse_license("".as_bytes()).is_none());
    assert!(parse_license("not json".as_bytes()).is_none());
    assert!(parse_license("{\"key\": \"A\", \"activated_at\": 1}".as_bytes()).is_none());
    // redundant leading zero in the timestamp
    assert!(
        parse_license("{\n  \"key\": \"AB\",\n  \"activated_at\": 007\n}".as_bytes()).is_none()
    );
    // timestamp too large for 64 bits
    assert!(parse_license(
        "{\n  \"key\": \"AB\",\n  \"activated_at\": 18446744073709551616\n}".as_bytes()
    )
    .is_none());
    // trailing garbage
    assert!(parse_license(
        "{\n  \"key\": \"AB\",\n  \"activated_at\": 1\n}x".as_bytes()
    )
    .is_none());
}

#[test]
fn parse_timestamp_fits_at_max() {
    let text = "{\n  \"key\": \"AB\",\n  \"activated_at\": 18446744073709551615\n}";
    let d = parse_license(text.as_bytes()).unwrap();
    assert_eq!(d.key, "AB");
    assert_eq!(d.activated_at, u64::MAX);
}
