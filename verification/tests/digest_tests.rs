use uspm::package::PackageFile;

#[test]
fn md5_known_answer() {
    let bytes: Vec<u8> = b"abc".to_vec();
    assert!(PackageFile::check_hash(
        &bytes,
        &"900150983cd24fb0d6963f7d28e17f72".to_string()
    ));
}

#[test]
fn md5_empty_input() {
    let bytes: Vec<u8> = Vec::new();
    assert!(PackageFile::check_hash(
        &bytes,
        &"d41d8cd98f00b204e9800998ecf8427e".to_string()
    ));
}

#[test]
fn md5_mismatch_rejected() {
    let bytes: Vec<u8> = b"abc".to_vec();
    assert!(!PackageFile::check_hash(
        &bytes,
        &"00000000000000000000000000000000".to_string()
    ));
    // The digest of the input itself is not accepted either: the comparison
    // is against the hex digest, not the raw bytes.
    assert!(!PackageFile::check_hash(&bytes, &"abc".to_string()));
}
