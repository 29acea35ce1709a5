use vstd::prelude::*;
use crate::package::{
    Packages, PackageFile, PackageEntryModel, DepModel, has_name, entry_at, spec_insert,
};
use crate::repo::{Repo, serves, spec_resolve, resolve_mirror, lemma_spec_resolve};
use crate::version::{valid_version, spec_compare_versions, compare_versions, is_valid_version};
use crate::package::spec_check;
use crate::digest::md5_hex;
use crate::codec::dec_manifest;
use vstd::string::{StringExecFns, StrSliceExecFns};

verus! {

/// Why an install or uninstall stopped.
#[derive(Clone, Copy, PartialEq, Eq, Debug)]
pub enum InstallError {
    /// The package is absent from every reachable catalog, or its archive
    /// could not be downloaded.
    NotFound,
    /// The downloaded archive's digest does not match the catalog checksum.
    IntegrityError,
    /// The extracted manifest is missing, unreadable or malformed; local
    /// storage must be cleaned by hand.
    CorruptLocalState,
    /// The install hook failed.
    HookFailure,
    /// The registry could not be persisted, or a dependency install handed
    /// back a registry that breaks its invariant.
    RegistryIOError,
    /// The dependency graph loops back onto a package already being
    /// installed.
    CycleDetected,
}

/// Where one install stands. The happy path runs top to bottom; `Failed`
/// is terminal from anywhere, and `AlreadyCurrent` ends an install whose
/// registry entry is at least as new as what the source offers.
#[derive(Clone, Copy, PartialEq, Eq, Debug)]
pub enum InstallState {
    AwaitingArchiveCheck,
    AwaitingCatalogs,
    AwaitingDownload,
    AwaitingStore,
    AwaitingExtract,
    AwaitingManifest,
    AwaitingDep,
    AwaitingHook,
    AwaitingSave,
    AlreadyCurrent,
    Completed,
    Failed(InstallError),
}

/// What the surrounding program reports back to the installer.
pub enum InstallEvent {
    /// Whether the archive file already sits in storage.
    ArchivePresent(bool),
    /// Each mirror's catalog in mirror order; `None` for a failed fetch.
    Catalogs(Vec<Option<Repo>>),
    /// The downloaded archive bytes, or `None` when the download failed.
    Downloaded(Option<Vec<u8>>),
    /// The archive bytes were written to storage.
    Stored,
    /// The archive was unpacked into its package directory.
    Extracted,
    /// The manifest file's text, or `None` when it could not be read.
    ManifestRead(Option<String>),
    /// The registry after a recursive dependency install, or `None` when
    /// that install failed.
    DepInstalled(Option<Packages>),
    /// Whether the install hook succeeded.
    HookFinished(bool),
    /// Whether the registry was persisted.
    RegistrySaved(bool),
}

/// What the installer asks the surrounding program to do next.
pub enum InstallAction {
    /// Test whether this file exists.
    CheckArchive(String),
    /// Fetch each of these catalog resources.
    FetchCatalogs(Vec<String>),
    /// Download the archive at this address.
    DownloadArchive(String),
    /// Write these bytes to this file.
    StoreArchive(Vec<u8>, String),
    /// Unpack this archive inside this directory.
    ExtractArchive(String, String),
    /// Read this manifest file.
    ReadManifest(String),
    /// Install this package first, with this in-progress set.
    InstallDependency(String, Vec<String>),
    /// Run this script inside this directory.
    RunInstallHook(String, String),
    /// Persist the installer's registry.
    SaveRegistry,
}

pub open spec fn spec_archive_path(storage: Seq<char>, package: Seq<char>) -> Seq<char> {
    storage + "/"@ + package + ".uspm"@
}

pub open spec fn spec_archive_url(mirror: Seq<char>, package: Seq<char>) -> Seq<char> {
    mirror + "/"@ + package + ".uspm"@
}

pub open spec fn spec_catalog_url(mirror: Seq<char>) -> Seq<char> {
    mirror + "/repo.json"@
}

pub open spec fn spec_manifest_path(storage: Seq<char>, package: Seq<char>) -> Seq<char> {
    storage + "/"@ + package + "/package.json"@
}

pub open spec fn spec_install_script(storage: Seq<char>, package: Seq<char>) -> Seq<char> {
    storage + "/"@ + package + "/install.sh"@
}

pub open spec fn spec_uninstall_script(storage: Seq<char>, package: Seq<char>) -> Seq<char> {
    storage + "/"@ + package + "/uninstall.sh"@
}

/// `<storage>/<package>.uspm`, where the archive is kept.
pub fn archive_path(storage: &String, package: &String) -> (r: String)
    ensures
        r@ == spec_archive_path(storage@, package@),
{
    let mut s = storage.clone();
    s.append("/");
    s.append(package.as_str());
    s.append(".uspm");
    proof {
        assert(s@ =~= spec_archive_path(storage@, package@));
    }
    s
}

/// `<mirror>/<package>.uspm`, where a mirror serves the archive.
pub fn archive_url(mirror: &String, package: &String) -> (r: String)
    ensures
        r@ == spec_archive_url(mirror@, package@),
{
    let mut s = mirror.clone();
    s.append("/");
    s.append(package.as_str());
    s.append(".uspm");
    proof {
        assert(s@ =~= spec_archive_url(mirror@, package@));
    }
    s
}

/// `<mirror>/repo.json`, where a mirror serves its catalog.
pub fn catalog_url(mirror: &String) -> (r: String)
    ensures
        r@ == spec_catalog_url(mirror@),
{
    let mut s = mirror.clone();
    s.append("/repo.json");
    proof {
        assert(s@ =~= spec_catalog_url(mirror@));
    }
    s
}

/// `<storage>/<package>/package.json`, the extracted manifest.
pub fn manifest_path(storage: &String, package: &String) -> (r: String)
    ensures
        r@ == spec_manifest_path(storage@, package@),
{
    let mut s = storage.clone();
    s.append("/");
    s.append(package.as_str());
    s.append("/package.json");
    proof {
        assert(s@ =~= spec_manifest_path(storage@, package@));
    }
    s
}

/// `<storage>/<package>/install.sh`, the install hook.
pub fn install_script_path(storage: &String, package: &String) -> (r: String)
    ensures
        r@ == spec_install_script(storage@, package@),
{
    let mut s = storage.clone();
    s.append("/");
    s.append(package.as_str());
    s.append("/install.sh");
    proof {
        assert(s@ =~= spec_install_script(storage@, package@));
    }
    s
}

/// `<storage>/<package>/uninstall.sh`, the uninstall hook.
pub fn uninstall_script_path(storage: &String, package: &String) -> (r: String)
    ensures
        r@ == spec_uninstall_script(storage@, package@),
{
    let mut s = storage.clone();
    s.append("/");
    s.append(package.as_str());
    s.append("/uninstall.sh");
    proof {
        assert(s@ =~= spec_uninstall_script(storage@, package@));
    }
    s
}

/// The views of a list of strings.
pub open spec fn names_of(v: Seq<String>) -> Seq<Seq<char>> {
    v.map_values(|s: String| s@)
}

/// Whether `n` occurs in `v`.
pub open spec fn in_list(v: Seq<Seq<char>>, n: Seq<char>) -> bool {
    exists|i: int| 0 <= i < v.len() && v[i] == n
}

fn name_in(v: &Vec<String>, name: &String) -> (r: bool)
    ensures
        r == in_list(names_of(v@), name@),
{
    let ghost ns = names_of(v@);
    proof {
        assert(forall|i: int| 0 <= i < v@.len() ==> #[trigger] ns[i] == v@[i]@);
    }
    let mut i: usize = 0;
    while i < v.len()
        invariant
            i <= v.len(),
            ns == names_of(v@),
            ns.len() == v@.len(),
            forall|x: int| 0 <= x < i ==> ns[x] != name@,
            forall|x: int| 0 <= x < v@.len() ==> #[trigger] ns[x] == v@[x]@,
        decreases v.len() - i,
    {
        if v[i].eq(name) {
            proof {
                assert(ns[i as int] == name@);
            }
            return true;
        }
        i = i + 1;
    }
    false
}

fn clone_names(v: &Vec<String>) -> (r: Vec<String>)
    ensures
        names_of(r@) == names_of(v@),
{
    let mut out: Vec<String> = Vec::new();
    let mut i: usize = 0;
    while i < v.len()
        invariant
            i <= v.len(),
            out@.len() == i,
            forall|x: int| 0 <= x < i ==> #[trigger] out@[x]@ == v@[x]@,
        decreases v.len() - i,
    {
        out.push(v[i].clone());
        i = i + 1;
    }
    proof {
        assert(names_of(out@) =~= names_of(v@));
    }
    out
}

/// The catalog address of each mirror, in mirror order.
fn catalog_urls(mirrors: &Vec<String>) -> (r: Vec<String>)
    ensures
        r@.len() == mirrors@.len(),
        forall|i: int| 0 <= i < r@.len() ==> #[trigger] r@[i]@ == spec_catalog_url(mirrors@[i]@),
{
    let mut out: Vec<String> = Vec::new();
    let mut i: usize = 0;
    while i < mirrors.len()
        invariant
            i <= mirrors.len(),
            out@.len() == i,
            forall|x: int| 0 <= x < i ==> #[trigger] out@[x]@ == spec_catalog_url(mirrors@[x]@),
        decreases mirrors.len() - i,
    {
        out.push(catalog_url(&mirrors[i]));
        i = i + 1;
    }
    out
}

/// The registry entry for `name` is at least as new as `candidate`: both
/// versions are well-formed and the installed one compares greater or equal.
pub open spec fn spec_up_to_date(
    reg: Seq<PackageEntryModel>,
    name: Seq<char>,
    candidate: Seq<char>,
) -> bool {
    has_name(reg, name) && valid_version(entry_at(reg, name).version) && valid_version(candidate)
        && spec_compare_versions(entry_at(reg, name).version, candidate) >= 0
}

fn up_to_date(reg: &Packages, name: &String, candidate: &String) -> (r: bool)
    ensures
        r == spec_up_to_date(reg@, name@, candidate@),
{
    match reg.get_package(name.clone()) {
        Some(p) => {
            if !is_valid_version(p.version.as_str()) {
                false
            } else if !is_valid_version(candidate.as_str()) {
                false
            } else {
                let v = p.version.clone();
                compare_versions(v, candidate.clone()) >= 0
            }
        },
        None => false,
    }
}

/// The registry satisfies dependency `d`: it is installed, its installed
/// version is well-formed, and that version meets the minimum.
pub open spec fn dep_satisfied(reg: Seq<PackageEntryModel>, d: DepModel) -> bool {
    has_name(reg, d.name) && valid_version(entry_at(reg, d.name).version)
        && spec_compare_versions(entry_at(reg, d.name).version, d.min_version) >= 0
}

fn dep_ok(reg: &Packages, d: &crate::package::Dependency) -> (r: bool)
    requires
        valid_version(d@.min_version),
    ensures
        r == dep_satisfied(reg@, d@),
{
    match reg.get_package(d.name.clone()) {
        Some(p) => {
            if !is_valid_version(p.version.as_str()) {
                false
            } else {
                let v = p.version.clone();
                compare_versions(v, d.min_version.clone()) >= 0
            }
        },
        None => false,
    }
}

/// One package install, driven as a state machine. The surrounding program
/// performs each returned action and reports its result as the next event;
/// the installer makes every decision and never touches the outside world
/// itself.
pub struct Installer {
    pub package: String,
    pub storage: String,
    pub mirrors: Vec<String>,
    /// Working copy of the registry; persisted only by the final
    /// `SaveRegistry` action.
    pub registry: Packages,
    /// Packages currently being installed, this one included: re-entering
    /// one of these is a dependency cycle.
    pub in_progress: Vec<String>,
    pub state: InstallState,
    pub expected_checksum: Option<String>,
    pub manifest: Option<PackageFile>,
    pub dep_idx: usize,
}

impl Installer {
    pub open spec fn wf(&self) -> bool {
        &&& self.registry.wf()
        &&& (self.state is AwaitingDownload || self.state is AwaitingStore
            ==> self.expected_checksum is Some)
        &&& (self.state is AwaitingDep || self.state is AwaitingHook || self.state is AwaitingSave
            ==> self.manifest is Some && spec_check(self.manifest.unwrap()@) && valid_version(
            self.manifest.unwrap()@.version,
        ) && self.dep_idx <= self.manifest.unwrap()@.dependencies.len())
        &&& (self.state is AwaitingDep ==> self.dep_idx
            < self.manifest.unwrap()@.dependencies.len())
    }

    /// Which event the installer is waiting for.
    pub open spec fn expects(&self, event: &InstallEvent) -> bool {
        match event {
            InstallEvent::ArchivePresent(_) => self.state is AwaitingArchiveCheck,
            InstallEvent::Catalogs(results) => self.state is AwaitingCatalogs && results@.len()
                == self.mirrors@.len(),
            InstallEvent::Downloaded(_) => self.state is AwaitingDownload,
            InstallEvent::Stored => self.state is AwaitingStore,
            InstallEvent::Extracted => self.state is AwaitingExtract,
            InstallEvent::ManifestRead(_) => self.state is AwaitingManifest,
            InstallEvent::DepInstalled(_) => self.state is AwaitingDep,
            InstallEvent::HookFinished(_) => self.state is AwaitingHook,
            InstallEvent::RegistrySaved(_) => self.state is AwaitingSave,
        }
    }

    /// Start an install of `package` under the given configuration, with
    /// `ancestors` naming the installs already in progress above this one.
    pub fn new(
        package: String,
        storage: String,
        mirrors: Vec<String>,
        registry: Packages,
        ancestors: Vec<String>,
    ) -> (r: Installer)
        requires
            registry.wf(),
        ensures
            r.wf(),
            r.state == InstallState::AwaitingArchiveCheck,
            r.package@ == package@,
            r.storage@ == storage@,
            r.mirrors == mirrors,
            r.registry == registry,
            names_of(r.in_progress@) == names_of(ancestors@).push(package@),
    {
        let ghost anc0 = ancestors@;
        let ghost gpkg = package@;
        let cloned = package.clone();
        let mut in_progress = ancestors;
        in_progress.push(cloned);
        let r = Installer {
            package,
            storage,
            mirrors,
            registry,
            in_progress,
            state: InstallState::AwaitingArchiveCheck,
            expected_checksum: None,
            manifest: None,
            dep_idx: 0,
        };
        proof {
            assert(names_of(r.in_progress@) =~= names_of(anc0).push(gpkg));
        }
        r
    }

    /// The first request: find out whether the archive is already present.
    pub fn begin(&self) -> (a: InstallAction)
        requires
            self.state is AwaitingArchiveCheck,
        ensures
            a matches InstallAction::CheckArchive(p) && p@ == spec_archive_path(
                self.storage@,
                self.package@,
            ),
    {
        InstallAction::CheckArchive(archive_path(&self.storage, &self.package))
    }
}

/// What one dependency scan leaves behind: every dependency it stepped past
/// is satisfied by `reg`; it stops either waiting on one that is not (asking
/// for its install), on a cycle, or at the end, asking for the install hook.
/// The hook is never requested before the scan has covered every dependency.
pub open spec fn scan_outcome(
    reg: Seq<PackageEntryModel>,
    deps: Seq<DepModel>,
    inprog: Seq<Seq<char>>,
    storage: Seq<char>,
    package: Seq<char>,
    start: int,
    fin: Installer,
    a: Option<InstallAction>,
) -> bool {
    &&& start <= fin.dep_idx
    &&& (forall|x: int| start <= x < fin.dep_idx ==> dep_satisfied(reg, #[trigger] deps[x]))
    &&& (fin.state is AwaitingDep ==> fin.dep_idx < deps.len() && !dep_satisfied(
        reg,
        deps[fin.dep_idx as int],
    ) && !in_list(inprog, deps[fin.dep_idx as int].name) && (a matches Some(
        InstallAction::InstallDependency(n, anc),
    ) && n@ == deps[fin.dep_idx as int].name && names_of(anc@) == inprog))
    &&& (fin.state == InstallState::Failed(InstallError::CycleDetected) ==> fin.dep_idx
        < deps.len() && !dep_satisfied(reg, deps[fin.dep_idx as int]) && in_list(
        inprog,
        deps[fin.dep_idx as int].name,
    ) && a is None)
    &&& (fin.state is AwaitingHook ==> fin.dep_idx == deps.len() && (a matches Some(
        InstallAction::RunInstallHook(p, d),
    ) && p@ == spec_install_script(storage, package) && d@ == storage))
    &&& (fin.state is AwaitingDep || fin.state is AwaitingHook || fin.state
        == InstallState::Failed(InstallError::CycleDetected))
}

impl Installer {
    /// Walk the dependency list from `dep_idx`, skipping satisfied entries.
    fn advance_deps(&mut self) -> (a: Option<InstallAction>)
        requires
            old(self).state is AwaitingDep,
            old(self).registry.wf(),
            old(self).manifest is Some,
            spec_check(old(self).manifest.unwrap()@),
            valid_version(old(self).manifest.unwrap()@.version),
            old(self).dep_idx <= old(self).manifest.unwrap()@.dependencies.len(),
        ensures
            final(self).wf(),
            final(self).package == old(self).package,
            final(self).storage == old(self).storage,
            final(self).mirrors == old(self).mirrors,
            final(self).in_progress == old(self).in_progress,
            final(self).registry == old(self).registry,
            final(self).manifest == old(self).manifest,
            final(self).expected_checksum == old(self).expected_checksum,
            scan_outcome(
                old(self).registry@,
                old(self).manifest.unwrap()@.dependencies,
                names_of(old(self).in_progress@),
                old(self).storage@,
                old(self).package@,
                old(self).dep_idx as int,
                *final(self),
                a,
            ),
    {
        let deps_len = match &self.manifest {
            Some(m) => m.dependencies.len(),
            None => {
                proof {
                    assert(false);
                }
                unreached()
            },
        };
        while self.dep_idx < deps_len
            invariant
                self.state is AwaitingDep,
                self.package == old(self).package,
                self.storage == old(self).storage,
                self.mirrors == old(self).mirrors,
                self.in_progress == old(self).in_progress,
                self.registry == old(self).registry,
                self.manifest == old(self).manifest,
                self.expected_checksum == old(self).expected_checksum,
                self.registry.wf(),
                self.manifest is Some,
                spec_check(self.manifest.unwrap()@),
                valid_version(self.manifest.unwrap()@.version),
                deps_len == self.manifest.unwrap()@.dependencies.len(),
                old(self).dep_idx <= self.dep_idx <= deps_len,
                forall|x: int|
                    old(self).dep_idx <= x < self.dep_idx ==> dep_satisfied(
                        self.registry@,
                        #[trigger] self.manifest.unwrap()@.dependencies[x],
                    ),
            decreases deps_len - self.dep_idx,
        {
            let (sat, cyc, dname) = match &self.manifest {
                Some(m) => {
                    proof {
                        assert(self.manifest.unwrap()@.dependencies[self.dep_idx as int]
                            == m.dependencies@[self.dep_idx as int]@);
                        assert(valid_version(
                            self.manifest.unwrap()@.dependencies[self.dep_idx as int].min_version,
                        ));
                    }
                    let d = &m.dependencies[self.dep_idx];
                    let sat = dep_ok(&self.registry, d);
                    if sat {
                        (true, false, String::new())
                    } else {
                        let cyc = name_in(&self.in_progress, &d.name);
                        (false, cyc, d.name.clone())
                    }
                },
                None => {
                    proof {
                        assert(false);
                    }
                    unreached()
                },
            };
            if sat {
                self.dep_idx = self.dep_idx + 1;
            } else if cyc {
                self.state = InstallState::Failed(InstallError::CycleDetected);
                return None;
            } else {
                let anc = clone_names(&self.in_progress);
                return Some(InstallAction::InstallDependency(dname, anc));
            }
        }
        self.state = InstallState::AwaitingHook;
        let script = install_script_path(&self.storage, &self.package);
        Some(InstallAction::RunInstallHook(script, self.storage.clone()))
    }

    /// Feed the installer the result of its last request; it updates its
    /// state and returns the next request, or `None` once it is terminal.
    ///
    /// The contract pins each transition. In particular: a registry entry at
    /// least as new as what the source offers ends the install with
    /// `AlreadyCurrent`, before any archive download and with the registry
    /// untouched; a digest mismatch ends it with `IntegrityError` before any
    /// extraction; and the install hook is only ever requested after the
    /// dependency scan has covered the whole list.
    pub fn step(&mut self, event: InstallEvent) -> (a: Option<InstallAction>)
        requires
            old(self).wf(),
            old(self).expects(&event),
        ensures
            final(self).wf(),
            final(self).package == old(self).package,
            final(self).storage == old(self).storage,
            final(self).mirrors == old(self).mirrors,
            final(self).in_progress == old(self).in_progress,
            (event matches InstallEvent::ArchivePresent(present) ==> final(self).registry
                == old(self).registry && (present ==> final(self).state
                is AwaitingExtract && (a matches Some(InstallAction::ExtractArchive(p, d)) && p@
                == spec_archive_path(old(self).storage@, old(self).package@) && d@
                == old(self).storage@)) && (!present ==> final(self).state is AwaitingCatalogs && (
            a matches Some(InstallAction::FetchCatalogs(urls)) && urls@.len()
                == old(self).mirrors@.len() && (forall|i: int|
                0 <= i < urls@.len() ==> #[trigger] urls@[i]@ == spec_catalog_url(
                    old(self).mirrors@[i]@,
                ))))),
            (event matches InstallEvent::Catalogs(results) ==> ({
                let ri = spec_resolve(results@, old(self).package@);
                &&& (ri < 0 ==> final(self).state == InstallState::Failed(InstallError::NotFound)
                    && a is None && final(self).registry == old(self).registry)
                &&& (ri >= 0 ==> ({
                    let entry = entry_at(results@[ri].unwrap()@, old(self).package@);
                    &&& (spec_up_to_date(old(self).registry@, old(self).package@, entry.version)
                        ==> final(self).state is AlreadyCurrent && a is None && final(self).registry == old(self).registry)
                    &&& (!spec_up_to_date(old(self).registry@, old(self).package@, entry.version)
                        ==> final(self).state is AwaitingDownload && (final(self).expected_checksum matches Some(c) && c@ == entry.checksum) && (a matches Some(
                        InstallAction::DownloadArchive(u),
                    ) && u@ == spec_archive_url(old(self).mirrors@[ri]@, old(self).package@))
                        && final(self).registry == old(self).registry)
                }))
            })),
            (event matches InstallEvent::Downloaded(ob) ==> final(self).registry == old(self).registry && (ob is None ==> final(self).state == InstallState::Failed(
                InstallError::NotFound,
            ) && a is None) && (ob matches Some(bytes) ==> (md5_hex(bytes@) != old(self).expected_checksum.unwrap()@ ==> final(self).state == InstallState::Failed(
                InstallError::IntegrityError,
            ) && a is None) && (md5_hex(bytes@) == old(self).expected_checksum.unwrap()@ ==> final(self).state is AwaitingStore && (a matches Some(InstallAction::StoreArchive(b, p)) && b@
                == bytes@ && p@ == spec_archive_path(old(self).storage@, old(self).package@))))),
            (event matches InstallEvent::Stored ==> final(self).registry == old(self).registry
                && final(self).state is AwaitingExtract && (a matches Some(
                InstallAction::ExtractArchive(p, d),
            ) && p@ == spec_archive_path(old(self).storage@, old(self).package@) && d@ == old(self).storage@)),
            (event matches InstallEvent::Extracted ==> final(self).registry == old(self).registry
                && final(self).state is AwaitingManifest && (a matches Some(
                InstallAction::ReadManifest(p),
            ) && p@ == spec_manifest_path(old(self).storage@, old(self).package@))),
            (event matches InstallEvent::ManifestRead(ot) ==> final(self).registry == old(self).registry && (ot is None ==> final(self).state == InstallState::Failed(
                InstallError::CorruptLocalState,
            ) && a is None) && (ot matches Some(text) ==> ({
                let dm = dec_manifest(text@);
                &&& (dm is None ==> final(self).state == InstallState::Failed(
                    InstallError::CorruptLocalState,
                ) && a is None)
                &&& (dm matches Some(m) ==> (!(spec_check(m) && valid_version(m.version))
                    ==> final(self).state == InstallState::Failed(
                    InstallError::CorruptLocalState,
                ) && a is None) && ((spec_check(m) && valid_version(m.version)) ==> (
                spec_up_to_date(old(self).registry@, old(self).package@, m.version) ==> final(self).state is AlreadyCurrent && a is None) && (!spec_up_to_date(
                    old(self).registry@,
                    old(self).package@,
                    m.version,
                ) ==> (final(self).manifest matches Some(pf) && pf@ == m) && scan_outcome(
                    old(self).registry@,
                    m.dependencies,
                    names_of(old(self).in_progress@),
                    old(self).storage@,
                    old(self).package@,
                    0,
                    *final(self),
                    a,
                ))))
            }))),
            (event matches InstallEvent::DepInstalled(or) ==> (or is None ==> final(self).state
                == InstallState::Failed(InstallError::NotFound) && a is None && final(self).registry == old(self).registry) && (or matches Some(reg) ==> (!reg.wf() ==> final(self).state == InstallState::Failed(InstallError::RegistryIOError) && a is None && final(self).registry == old(self).registry) && (reg.wf() ==> final(self).registry == reg
                && final(self).manifest == old(self).manifest && scan_outcome(
                reg@,
                old(self).manifest.unwrap()@.dependencies,
                names_of(old(self).in_progress@),
                old(self).storage@,
                old(self).package@,
                old(self).dep_idx + 1,
                *final(self),
                a,
            )))),
            (event matches InstallEvent::HookFinished(ok) ==> (!ok ==> final(self).state
                == InstallState::Failed(InstallError::HookFailure) && a is None && final(self).registry == old(self).registry) && (ok ==> final(self).state is AwaitingSave
                && final(self).registry@ == spec_insert(
                old(self).registry@,
                old(self).package@,
                old(self).manifest.unwrap()@,
            ) && (a matches Some(InstallAction::SaveRegistry)))),
            (event matches InstallEvent::RegistrySaved(ok) ==> final(self).registry == old(self).registry && (!ok ==> final(self).state == InstallState::Failed(
                InstallError::RegistryIOError,
            ) && a is None) && (ok ==> final(self).state is Completed && a is None)),
    {
        match event {
            InstallEvent::ArchivePresent(present) => {
                if present {
                    self.state = InstallState::AwaitingExtract;
                    let p = archive_path(&self.storage, &self.package);
                    Some(InstallAction::ExtractArchive(p, self.storage.clone()))
                } else {
                    self.state = InstallState::AwaitingCatalogs;
                    Some(InstallAction::FetchCatalogs(catalog_urls(&self.mirrors)))
                }
            },
            InstallEvent::Catalogs(results) => {
                match resolve_mirror(&results, &self.package) {
                    None => {
                        self.state = InstallState::Failed(InstallError::NotFound);
                        None
                    },
                    Some(k) => {
                        proof {
                            lemma_spec_resolve(results@, self.package@);
                            assert(serves(results@[k as int], self.package@));
                        }
                        match &results[k] {
                            Some(repo) => {
                                match repo.get_package(self.package.clone()) {
                                    Some(file) => {
                                        if up_to_date(&self.registry, &self.package, &file.version)
                                            {
                                            self.state = InstallState::AlreadyCurrent;
                                            None
                                        } else {
                                            self.expected_checksum = Some(file.checksum.clone());
                                            self.state = InstallState::AwaitingDownload;
                                            let u = archive_url(&self.mirrors[k], &self.package);
                                            Some(InstallAction::DownloadArchive(u))
                                        }
                                    },
                                    None => {
                                        proof {
                                            assert(false);
                                        }
                                        unreached()
                                    },
                                }
                            },
                            None => {
                                proof {
                                    assert(false);
                                }
                                unreached()
                            },
                        }
                    },
                }
            },
            InstallEvent::Downloaded(ob) => {
                match ob {
                    None => {
                        self.state = InstallState::Failed(InstallError::NotFound);
                        None
                    },
                    Some(bytes) => {
                        let digest = crate::digest::md5_hex_exec(&bytes);
                        let matched = match &self.expected_checksum {
                            Some(c) => digest.eq(c),
                            None => {
                                proof {
                                    assert(false);
                                }
                                unreached()
                            },
                        };
                        if matched {
                            self.state = InstallState::AwaitingStore;
                            let p = archive_path(&self.storage, &self.package);
                            Some(InstallAction::StoreArchive(bytes, p))
                        } else {
                            self.state = InstallState::Failed(InstallError::IntegrityError);
                            None
                        }
                    },
                }
            },
            InstallEvent::Stored => {
                self.state = InstallState::AwaitingExtract;
                let p = archive_path(&self.storage, &self.package);
                Some(InstallAction::ExtractArchive(p, self.storage.clone()))
            },
            InstallEvent::Extracted => {
                self.state = InstallState::AwaitingManifest;
                Some(InstallAction::ReadManifest(manifest_path(&self.storage, &self.package)))
            },
            InstallEvent::ManifestRead(ot) => {
                match ot {
                    None => {
                        self.state = InstallState::Failed(InstallError::CorruptLocalState);
                        None
                    },
                    Some(text) => {
                        match PackageFile::decode(text.as_str()) {
                            None => {
                                self.state = InstallState::Failed(
                                    InstallError::CorruptLocalState,
                                );
                                None
                            },
                            Some(pf) => {
                                let well_formed = pf.check();
                                let version_ok = is_valid_version(pf.version.as_str());
                                if !well_formed || !version_ok {
                                    self.state = InstallState::Failed(
                                        InstallError::CorruptLocalState,
                                    );
                                    None
                                } else if up_to_date(&self.registry, &self.package, &pf.version) {
                                    self.state = InstallState::AlreadyCurrent;
                                    None
                                } else {
                                    self.manifest = Some(pf);
                                    self.dep_idx = 0;
                                    self.state = InstallState::AwaitingDep;
                                    self.advance_deps()
                                }
                            },
                        }
                    },
                }
            },
            InstallEvent::DepInstalled(or) => {
                match or {
                    None => {
                        self.state = InstallState::Failed(InstallError::NotFound);
                        None
                    },
                    Some(reg) => {
                        if reg.is_wf() {
                            self.registry = reg;
                            let dlen = match &self.manifest {
                                Some(m) => m.dependencies.len(),
                                None => {
                                    proof {
                                        assert(false);
                                    }
                                    unreached()
                                },
                            };
                            proof {
                                assert(self.dep_idx < dlen);
                            }
                            self.dep_idx = self.dep_idx + 1;
                            self.advance_deps()
                        } else {
                            self.state = InstallState::Failed(InstallError::RegistryIOError);
                            None
                        }
                    },
                }
            },
            InstallEvent::HookFinished(ok) => {
                if ok {
                    let pf = match &self.manifest {
                        Some(pf) => pf.clone(),
                        None => {
                            proof {
                                assert(false);
                            }
                            unreached()
                        },
                    };
                    self.registry.add_package(self.package.clone(), pf);
                    self.state = InstallState::AwaitingSave;
                    Some(InstallAction::SaveRegistry)
                } else {
                    self.state = InstallState::Failed(InstallError::HookFailure);
                    None
                }
            },
            InstallEvent::RegistrySaved(ok) => {
                if ok {
                    self.state = InstallState::Completed;
                } else {
                    self.state = InstallState::Failed(InstallError::RegistryIOError);
                }
                None
            },
        }
    }
}

} // verus!
