use uspm::version::{compare_versions, is_valid_version};

#[test]
fn compare_equal() {
    assert_eq!(compare_versions("1.2.3".to_string(), "1.2.3".to_string()), 0);
}

#[test]
fn compare_greater() {
    assert_eq!(compare_versions("2.0.0".to_string(), "1.9.9".to_string()), 1);
}

#[test]
fn compare_less_numeric_not_lexicographic() {
    assert_eq!(compare_versions("1.2.3".to_string(), "1.10.0".to_string()), -1);
}

#[test]
fn compare_patch_decides() {
    assert_eq!(compare_versions("1.2.4".to_string(), "1.2.3".to_string()), 1);
}

#[test]
fn compare_antisymmetric_samples() {
    let pairs = [
        ("1.2.3", "1.10.0"),
        ("2.0.0", "1.9.9"),
        ("0.0.1", "0.0.1"),
        ("10.0.0", "9.99.99"),
    ];
    for (a, b) in pairs {
        let ab = compare_versions(a.to_string(), b.to_string());
        let ba = compare_versions(b.to_string(), a.to_string());
        assert_eq!(ab, -ba);
    }
}

#[test]
fn compare_ignores_leading_zeros() {
    assert_eq!(compare_versions("01.002.3".to_string(), "1.2.3".to_string()), 0);
}

#[test]
fn compare_components_beyond_machine_integers() {
    assert_eq!(
        compare_versions(
            "1.2.123456789012345678901234567890".to_string(),
            "1.2.9".to_string()
        ),
        1
    );
}

#[test]
fn validity_accepts_three_numeric_components() {
    assert!(is_valid_version("1.2.3"));
    assert!(is_valid_version("0.0.0"));
    assert!(is_valid_version("10.200.3000"));
}

#[test]
fn validity_rejects_malformed() {
    assert!(!is_valid_version(""));
    assert!(!is_valid_version("1.2"));
    assert!(!is_valid_version("1.2.3.4"));
    assert!(!is_valid_version("a.b.c"));
    assert!(!is_valid_version("1..3"));
    assert!(!is_valid_version(".2.3"));
    assert!(!is_valid_version("1.2."));
    assert!(!is_valid_version("1.2.3-rc1"));
}

#[test]
fn compare_transitive_samples() {
    let triples = [("3.0.0", "2.5.0", "2.4.9"), ("1.2.3", "1.2.3", "1.2.3")];
    for (a, b, c) in triples {
        let ab = compare_versions(a.to_string(), b.to_string());
        let bc = compare_versions(b.to_string(), c.to_string());
        let ac = compare_versions(a.to_string(), c.to_string());
        assert!(ab >= 0 && bc >= 0);
        assert!(ac >= 0);
        if ab == 0 && bc == 0 {
            assert_eq!(ac, 0);
        }
    }
}
