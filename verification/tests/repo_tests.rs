use uspm::repo::{Repo, check_repo_for_package};
use uspm::package::{Packages, PackageEntry, PackageFile, Dependency};
use uspm::dephandle::check_dependency;

fn entry(name: &str, version: &str) -> PackageEntry {
    PackageEntry {
        name: name.to_string(),
        file: PackageFile {
            name: name.to_string(),
            version: version.to_string(),
            dependencies: Vec::new(),
            checksum: String::new(),
        },
    }
}

#[test]
fn repo_lookup() {
    let repo = Repo { packages: vec![entry("a", "1.0.0"), entry("b", "2.0.0")] };
    assert!(check_repo_for_package(repo, &"b".to_string()));
    let repo2 = Repo { packages: vec![entry("a", "1.0.0")] };
    assert!(!check_repo_for_package(repo2, &"b".to_string()));
}

#[test]
fn repo_get_package() {
    let repo = Repo { packages: vec![entry("a", "1.0.0")] };
    assert_eq!(repo.get_package("a".to_string()).unwrap().version, "1.0.0");
    assert!(repo.get_package("missing".to_string()).is_none());
}

#[test]
fn repo_default_holds_sample() {
    let repo = Repo::default();
    let pf = repo.get_package("test".to_string()).expect("sample entry");
    assert_eq!(pf.name, "test");
    assert_eq!(pf.version, "0.0.0");
}

#[test]
fn dependency_check_against_registry() {
    let mut reg = Packages::new();
    reg.add_package(
        "b".to_string(),
        PackageFile {
            name: "b".to_string(),
            version: "1.5.0".to_string(),
            dependencies: vec![Dependency {
                name: "c".to_string(),
                min_version: "0.1.0".to_string(),
            }],
            checksum: String::new(),
        },
    );
    assert!(check_dependency(&reg, "b".to_string(), "1.0.0".to_string()));
    assert!(check_dependency(&reg, "b".to_string(), "1.5.0".to_string()));
    assert!(!check_dependency(&reg, "b".to_string(), "1.6.0".to_string()));
    assert!(!check_dependency(&reg, "absent".to_string(), "1.0.0".to_string()));
}
