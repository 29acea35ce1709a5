use uspm::package::{Packages, PackageFile, PackageEntry, Dependency};
use uspm::repo::Repo;

fn manifest(name: &str, version: &str, deps: &[(&str, &str)]) -> PackageFile {
    PackageFile {
        name: name.to_string(),
        version: version.to_string(),
        dependencies: deps
            .iter()
            .map(|(n, v)| Dependency { name: n.to_string(), min_version: v.to_string() })
            .collect(),
        checksum: String::new(),
    }
}

#[test]
fn manifest_exact_encoding() {
    let pf = manifest("a", "1.2.3", &[]);
    assert_eq!(pf.encode(), "1:a5:1.2.30;0:");
}

#[test]
fn manifest_round_trip() {
    let pf = manifest("pkg", "1.2.3", &[("dep1", "1.0.0"), ("dep2", "0.4.2")]);
    let text = pf.encode();
    let back = PackageFile::decode(&text).expect("decodes");
    assert_eq!(back.name, "pkg");
    assert_eq!(back.version, "1.2.3");
    assert_eq!(back.checksum, "");
    assert_eq!(back.dependencies.len(), 2);
    assert_eq!(back.dependencies[0].name, "dep1");
    assert_eq!(back.dependencies[0].min_version, "1.0.0");
    assert_eq!(back.dependencies[1].name, "dep2");
    assert_eq!(back.dependencies[1].min_version, "0.4.2");
}

#[test]
fn registry_round_trip_non_empty() {
    let mut reg = Packages::new();
    reg.add_package("alpha".to_string(), manifest("alpha", "1.0.0", &[("beta", "2.0.0")]));
    reg.add_package("beta".to_string(), manifest("beta", "2.0.0", &[]));
    let text = reg.encode();
    let back = Packages::decode(&text).expect("decodes");
    let entries = back.get_packages();
    assert_eq!(entries.len(), 2);
    assert_eq!(entries[0].name, "alpha");
    assert_eq!(entries[0].dependencies[0].name, "beta");
    assert_eq!(entries[1].name, "beta");
    assert_eq!(entries[1].version, "2.0.0");
}

#[test]
fn registry_round_trip_empty() {
    let reg = Packages::new();
    let text = reg.encode();
    let back = Packages::decode(&text).expect("decodes");
    assert!(back.get_packages().is_empty());
}

#[test]
fn repo_round_trip() {
    let repo = Repo {
        packages: vec![PackageEntry {
            name: "tool".to_string(),
            file: manifest("tool", "0.9.1", &[]),
        }],
    };
    let text = repo.encode();
    let back = Repo::decode(&text).expect("decodes");
    assert_eq!(back.packages.len(), 1);
    assert_eq!(back.packages[0].name, "tool");
    assert_eq!(back.packages[0].file.version, "0.9.1");
}

#[test]
fn decode_rejects_garbage() {
    assert!(Packages::decode("hello world").is_none());
    assert!(Packages::decode("").is_none());
    assert!(PackageFile::decode("1:a").is_none());
}

#[test]
fn decode_rejects_trailing_data() {
    let pf = manifest("a", "1.2.3", &[]);
    let mut text = pf.encode();
    text.push('x');
    assert!(PackageFile::decode(&text).is_none());
}

#[test]
fn decode_rejects_truncation() {
    let mut reg = Packages::new();
    reg.add_package("alpha".to_string(), manifest("alpha", "1.0.0", &[]));
    let text = reg.encode();
    let cut = &text[..text.len() - 1];
    assert!(Packages::decode(cut).is_none());
}

#[test]
fn decode_rejects_duplicate_names() {
    let repo = Repo {
        packages: vec![
            PackageEntry { name: "dup".to_string(), file: manifest("dup", "1.0.0", &[]) },
            PackageEntry { name: "dup".to_string(), file: manifest("dup", "2.0.0", &[]) },
        ],
    };
    let text = repo.encode();
    // The same framing parses as a catalog, which tolerates repeats...
    assert!(Repo::decode(&text).is_some());
    // ...but not as the local registry, which never holds a name twice.
    assert!(Packages::decode(&text).is_none());
}

#[test]
fn field_content_with_separators_survives() {
    let pf = manifest("we:ird;3:name", "1.0.0", &[("a:b", "9.9.9")]);
    let text = pf.encode();
    let back = PackageFile::decode(&text).expect("decodes");
    assert_eq!(back.name, "we:ird;3:name");
    assert_eq!(back.dependencies[0].name, "a:b");
}
