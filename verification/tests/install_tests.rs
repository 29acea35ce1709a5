use uspm::install::{Installer, InstallAction, InstallEvent, InstallState, InstallError};
use uspm::package::{Packages, PackageFile, PackageEntry, Dependency};
use uspm::repo::Repo;

fn manifest(name: &str, version: &str, deps: &[(&str, &str)]) -> PackageFile {
    PackageFile {
        name: name.to_string(),
        version: version.to_string(),
        dependencies: deps
            .iter()
            .map(|(n, v)| Dependency { name: n.to_string(), min_version: v.to_string() })
            .collect(),
        checksum: String::new(),
    }
}

fn catalog(entries: &[(&str, &str, &str)]) -> Repo {
    Repo {
        packages: entries
            .iter()
            .map(|(name, version, checksum)| PackageEntry {
                name: name.to_string(),
                file: PackageFile {
                    name: name.to_string(),
                    version: version.to_string(),
                    dependencies: Vec::new(),
                    checksum: checksum.to_string(),
                },
            })
            .collect(),
    }
}

fn registry(entries: &[(&str, &str)]) -> Packages {
    let mut reg = Packages::new();
    for (name, version) in entries {
        reg.add_package(name.to_string(), manifest(name, version, &[]));
    }
    reg
}

fn installer(package: &str, mirrors: &[&str], reg: Packages) -> Installer {
    Installer::new(
        package.to_string(),
        "/var/storage".to_string(),
        mirrors.iter().map(|m| m.to_string()).collect(),
        reg,
        Vec::new(),
    )
}

#[test]
fn begin_asks_for_archive_check() {
    let inst = installer("pkg", &["http://m1"], Packages::new());
    match inst.begin() {
        InstallAction::CheckArchive(p) => assert_eq!(p, "/var/storage/pkg.uspm"),
        _ => panic!("expected archive check"),
    }
}

#[test]
fn absent_archive_fetches_catalogs() {
    let mut inst = installer("pkg", &["http://m1", "http://m2"], Packages::new());
    match inst.step(InstallEvent::ArchivePresent(false)) {
        Some(InstallAction::FetchCatalogs(urls)) => {
            assert_eq!(urls, vec!["http://m1/repo.json", "http://m2/repo.json"]);
        }
        _ => panic!("expected catalog fetch"),
    }
    assert_eq!(inst.state, InstallState::AwaitingCatalogs);
}

#[test]
fn already_installed_skips_fetch_hook_and_registry_write() {
    // The registry holds 1.5.0; the catalog offers 1.0.0: nothing to do.
    let reg = registry(&[("pkg", "1.5.0")]);
    let mut inst = installer("pkg", &["http://m1"], reg);
    assert!(matches!(
        inst.step(InstallEvent::ArchivePresent(false)),
        Some(InstallAction::FetchCatalogs(_))
    ));
    let a = inst.step(InstallEvent::Catalogs(vec![Some(catalog(&[(
        "pkg", "1.0.0", "ff",
    )]))]));
    assert!(a.is_none());
    assert_eq!(inst.state, InstallState::AlreadyCurrent);
    // The registry is untouched.
    assert_eq!(
        inst.registry.get_package("pkg".to_string()).unwrap().version,
        "1.5.0"
    );
    assert_eq!(inst.registry.get_packages().len(), 1);
}

#[test]
fn outdated_entry_downloads_from_resolved_mirror() {
    let reg = registry(&[("pkg", "1.0.0")]);
    let mut inst = installer("pkg", &["http://m1"], reg);
    inst.step(InstallEvent::ArchivePresent(false));
    let a = inst.step(InstallEvent::Catalogs(vec![Some(catalog(&[(
        "pkg", "2.0.0", "ff",
    )]))]));
    match a {
        Some(InstallAction::DownloadArchive(u)) => assert_eq!(u, "http://m1/pkg.uspm"),
        _ => panic!("expected download"),
    }
    assert_eq!(inst.state, InstallState::AwaitingDownload);
}

#[test]
fn mirror_fallback_uses_second_mirror() {
    // Mirror 1's catalog fetch failed; mirror 2 serves the package.
    let mut inst = installer("pkg", &["http://m1", "http://m2"], Packages::new());
    inst.step(InstallEvent::ArchivePresent(false));
    let a = inst.step(InstallEvent::Catalogs(vec![
        None,
        Some(catalog(&[("pkg", "1.0.0", "ff")])),
    ]));
    match a {
        Some(InstallAction::DownloadArchive(u)) => assert_eq!(u, "http://m2/pkg.uspm"),
        _ => panic!("expected download from the second mirror"),
    }
}

#[test]
fn package_absent_from_all_catalogs_is_not_found() {
    let mut inst = installer("pkg", &["http://m1", "http://m2"], Packages::new());
    inst.step(InstallEvent::ArchivePresent(false));
    let a = inst.step(InstallEvent::Catalogs(vec![
        None,
        Some(catalog(&[("other", "1.0.0", "ff")])),
    ]));
    assert!(a.is_none());
    assert_eq!(inst.state, InstallState::Failed(InstallError::NotFound));
}

#[test]
fn digest_mismatch_is_integrity_error_and_stops() {
    let good: Vec<u8> = b"archive contents".to_vec();
    let checksum = format!("{:x}", md5::compute(&good));
    let mut inst = installer("pkg", &["http://m1"], Packages::new());
    inst.step(InstallEvent::ArchivePresent(false));
    inst.step(InstallEvent::Catalogs(vec![Some(catalog(&[(
        "pkg", "1.0.0", &checksum,
    )]))]));
    let tampered: Vec<u8> = b"evil contents".to_vec();
    let a = inst.step(InstallEvent::Downloaded(Some(tampered)));
    assert!(a.is_none());
    assert_eq!(inst.state, InstallState::Failed(InstallError::IntegrityError));
    // No extraction was requested and nothing was registered.
    assert!(!inst.registry.has_package("pkg".to_string()));
}

#[test]
fn matching_digest_stores_then_extracts() {
    let bytes: Vec<u8> = b"archive contents".to_vec();
    let checksum = format!("{:x}", md5::compute(&bytes));
    let mut inst = installer("pkg", &["http://m1"], Packages::new());
    inst.step(InstallEvent::ArchivePresent(false));
    inst.step(InstallEvent::Catalogs(vec![Some(catalog(&[(
        "pkg", "1.0.0", &checksum,
    )]))]));
    match inst.step(InstallEvent::Downloaded(Some(bytes.clone()))) {
        Some(InstallAction::StoreArchive(b, p)) => {
            assert_eq!(b, bytes);
            assert_eq!(p, "/var/storage/pkg.uspm");
        }
        _ => panic!("expected store"),
    }
    match inst.step(InstallEvent::Stored) {
        Some(InstallAction::ExtractArchive(p, d)) => {
            assert_eq!(p, "/var/storage/pkg.uspm");
            assert_eq!(d, "/var/storage");
        }
        _ => panic!("expected extract"),
    }
}

#[test]
fn missing_dependency_installs_before_hook() {
    let mut inst = installer("a", &["http://m1"], Packages::new());
    inst.step(InstallEvent::ArchivePresent(true));
    inst.step(InstallEvent::Extracted);
    let text = manifest("a", "1.0.0", &[("b", "1.0.0")]).encode();
    // The dependency is absent: its install is requested before any hook.
    match inst.step(InstallEvent::ManifestRead(Some(text))) {
        Some(InstallAction::InstallDependency(n, in_progress)) => {
            assert_eq!(n, "b");
            assert_eq!(in_progress, vec!["a"]);
        }
        _ => panic!("expected dependency install"),
    }
    // Once the dependency is in, the hook runs.
    let reg_after_dep = registry(&[("b", "1.0.0")]);
    match inst.step(InstallEvent::DepInstalled(Some(reg_after_dep))) {
        Some(InstallAction::RunInstallHook(script, dir)) => {
            assert_eq!(script, "/var/storage/a/install.sh");
            assert_eq!(dir, "/var/storage");
        }
        _ => panic!("expected hook"),
    }
    // Hook success commits the package and saves the registry.
    assert!(matches!(
        inst.step(InstallEvent::HookFinished(true)),
        Some(InstallAction::SaveRegistry)
    ));
    assert!(inst.registry.has_package("a".to_string()));
    assert!(inst.registry.has_package("b".to_string()));
    assert!(inst.step(InstallEvent::RegistrySaved(true)).is_none());
    assert_eq!(inst.state, InstallState::Completed);
}

#[test]
fn satisfied_dependency_is_not_reinstalled() {
    // b@1.5.0 is registered and a needs b>=1.0.0: no reinstall of b.
    let reg = registry(&[("b", "1.5.0")]);
    let mut inst = installer("a", &["http://m1"], reg);
    inst.step(InstallEvent::ArchivePresent(true));
    inst.step(InstallEvent::Extracted);
    let text = manifest("a", "1.0.0", &[("b", "1.0.0")]).encode();
    match inst.step(InstallEvent::ManifestRead(Some(text))) {
        Some(InstallAction::RunInstallHook(_, _)) => {}
        _ => panic!("expected the hook directly, without reinstalling b"),
    }
}

#[test]
fn dependency_cycle_fails_fast() {
    let mut inst = Installer::new(
        "a".to_string(),
        "/var/storage".to_string(),
        vec!["http://m1".to_string()],
        Packages::new(),
        vec!["b".to_string()],
    );
    inst.step(InstallEvent::ArchivePresent(true));
    inst.step(InstallEvent::Extracted);
    // a depends on b, but b is already being installed above us.
    let text = manifest("a", "1.0.0", &[("b", "1.0.0")]).encode();
    let a = inst.step(InstallEvent::ManifestRead(Some(text)));
    assert!(a.is_none());
    assert_eq!(inst.state, InstallState::Failed(InstallError::CycleDetected));
}

#[test]
fn unparsable_manifest_is_corrupt_local_state() {
    let mut inst = installer("a", &["http://m1"], Packages::new());
    inst.step(InstallEvent::ArchivePresent(true));
    inst.step(InstallEvent::Extracted);
    let a = inst.step(InstallEvent::ManifestRead(Some("not a manifest".to_string())));
    assert!(a.is_none());
    assert_eq!(
        inst.state,
        InstallState::Failed(InstallError::CorruptLocalState)
    );
}

#[test]
fn unreadable_manifest_is_corrupt_local_state() {
    let mut inst = installer("a", &["http://m1"], Packages::new());
    inst.step(InstallEvent::ArchivePresent(true));
    inst.step(InstallEvent::Extracted);
    let a = inst.step(InstallEvent::ManifestRead(None));
    assert!(a.is_none());
    assert_eq!(
        inst.state,
        InstallState::Failed(InstallError::CorruptLocalState)
    );
}

#[test]
fn manifest_version_not_newer_is_already_current() {
    let reg = registry(&[("a", "1.0.0")]);
    let mut inst = installer("a", &["http://m1"], reg);
    inst.step(InstallEvent::ArchivePresent(true));
    inst.step(InstallEvent::Extracted);
    let text = manifest("a", "1.0.0", &[]).encode();
    let a = inst.step(InstallEvent::ManifestRead(Some(text)));
    assert!(a.is_none());
    assert_eq!(inst.state, InstallState::AlreadyCurrent);
}

#[test]
fn failed_dependency_install_is_not_found() {
    let mut inst = installer("a", &["http://m1"], Packages::new());
    inst.step(InstallEvent::ArchivePresent(true));
    inst.step(InstallEvent::Extracted);
    let text = manifest("a", "1.0.0", &[("b", "1.0.0")]).encode();
    inst.step(InstallEvent::ManifestRead(Some(text)));
    let a = inst.step(InstallEvent::DepInstalled(None));
    assert!(a.is_none());
    assert_eq!(inst.state, InstallState::Failed(InstallError::NotFound));
}

#[test]
fn hook_failure_is_fatal() {
    let mut inst = installer("a", &["http://m1"], Packages::new());
    inst.step(InstallEvent::ArchivePresent(true));
    inst.step(InstallEvent::Extracted);
    let text = manifest("a", "1.0.0", &[]).encode();
    inst.step(InstallEvent::ManifestRead(Some(text)));
    let a = inst.step(InstallEvent::HookFinished(false));
    assert!(a.is_none());
    assert_eq!(inst.state, InstallState::Failed(InstallError::HookFailure));
    assert!(!inst.registry.has_package("a".to_string()));
}

#[test]
fn registry_save_failure_is_fatal() {
    let mut inst = installer("a", &["http://m1"], Packages::new());
    inst.step(InstallEvent::ArchivePresent(true));
    inst.step(InstallEvent::Extracted);
    let text = manifest("a", "1.0.0", &[]).encode();
    inst.step(InstallEvent::ManifestRead(Some(text)));
    inst.step(InstallEvent::HookFinished(true));
    let a = inst.step(InstallEvent::RegistrySaved(false));
    assert!(a.is_none());
    assert_eq!(
        inst.state,
        InstallState::Failed(InstallError::RegistryIOError)
    );
}

#[test]
fn failed_download_is_not_found() {
    let mut inst = installer("pkg", &["http://m1"], Packages::new());
    inst.step(InstallEvent::ArchivePresent(false));
    inst.step(InstallEvent::Catalogs(vec![Some(catalog(&[(
        "pkg", "1.0.0", "ff",
    )]))]));
    let a = inst.step(InstallEvent::Downloaded(None));
    assert!(a.is_none());
    assert_eq!(inst.state, InstallState::Failed(InstallError::NotFound));
}
