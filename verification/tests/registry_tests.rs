use uspm::package::{Packages, PackageFile, Dependency};

fn manifest(name: &str, version: &str) -> PackageFile {
    PackageFile {
        name: name.to_string(),
        version: version.to_string(),
        dependencies: Vec::new(),
        checksum: String::new(),
    }
}

#[test]
fn new_registry_is_empty() {
    let mut reg = Packages::new();
    assert!(!reg.has_package("anything".to_string()));
    assert!(reg.get_packages().is_empty());
}

#[test]
fn add_then_get() {
    let mut reg = Packages::new();
    reg.add_package("alpha".to_string(), manifest("alpha", "1.0.0"));
    assert!(reg.has_package("alpha".to_string()));
    let got = reg.get_package("alpha".to_string()).expect("entry");
    assert_eq!(got.name, "alpha");
    assert_eq!(got.version, "1.0.0");
}

#[test]
fn add_same_name_replaces() {
    let mut reg = Packages::new();
    reg.add_package("alpha".to_string(), manifest("alpha", "1.0.0"));
    reg.add_package("alpha".to_string(), manifest("alpha", "2.0.0"));
    assert_eq!(reg.get_packages().len(), 1);
    assert_eq!(reg.get_package("alpha".to_string()).unwrap().version, "2.0.0");
}

#[test]
fn replace_package_updates() {
    let mut reg = Packages::new();
    reg.add_package("beta".to_string(), manifest("beta", "0.1.0"));
    reg.replace_package("beta".to_string(), manifest("beta", "0.2.0"));
    assert_eq!(reg.get_package("beta".to_string()).unwrap().version, "0.2.0");
}

#[test]
fn remove_package_deletes_entry() {
    let mut reg = Packages::new();
    reg.add_package("a".to_string(), manifest("a", "1.0.0"));
    reg.add_package("b".to_string(), manifest("b", "1.0.0"));
    reg.remove_package("a".to_string());
    assert!(!reg.has_package("a".to_string()));
    assert!(reg.has_package("b".to_string()));
    assert_eq!(reg.get_packages().len(), 1);
}

#[test]
fn remove_absent_is_noop() {
    let mut reg = Packages::new();
    reg.add_package("a".to_string(), manifest("a", "1.0.0"));
    reg.remove_package("zzz".to_string());
    assert_eq!(reg.get_packages().len(), 1);
}

#[test]
fn get_packages_preserves_fields() {
    let mut reg = Packages::new();
    let mut pf = manifest("gamma", "3.1.4");
    pf.dependencies.push(Dependency {
        name: "delta".to_string(),
        min_version: "1.0.0".to_string(),
    });
    reg.add_package("gamma".to_string(), pf);
    let all = reg.get_packages();
    assert_eq!(all.len(), 1);
    assert_eq!(all[0].name, "gamma");
    assert_eq!(all[0].version, "3.1.4");
    assert_eq!(all[0].dependencies.len(), 1);
    assert_eq!(all[0].dependencies[0].name, "delta");
}

#[test]
fn manifest_check_rules() {
    let mut pf = manifest("ok", "1.0.0");
    assert!(pf.check());
    pf.dependencies.push(Dependency {
        name: "dep".to_string(),
        min_version: "1.2.3".to_string(),
    });
    assert!(pf.check());
    pf.checksum = "leave_blank_in_package_file".to_string();
    assert!(pf.check());
    pf.checksum = "deadbeef".to_string();
    assert!(!pf.check());
    pf.checksum = String::new();
    pf.dependencies[0].min_version = "not-a-version".to_string();
    assert!(!pf.check());
    pf.dependencies[0].min_version = "1.2.3".to_string();
    pf.name = String::new();
    assert!(!pf.check());
}

#[test]
fn default_manifest_shape() {
    let pf = PackageFile::default();
    assert_eq!(pf.name, "test");
    assert_eq!(pf.version, "0.0.0");
    assert_eq!(pf.checksum, "");
    assert_eq!(pf.dependencies.len(), 1);
    assert_eq!(pf.dependencies[0].name, "uspm");
    assert_eq!(pf.dependencies[0].min_version, "1.0.0");
}
