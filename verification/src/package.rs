use vstd::prelude::*;
use crate::version::valid_version;
use vstd::string::StringExecFns;

verus! {

/// One declared dependency: the package required and the minimum version.
pub struct Dependency {
    pub name: String,
    pub min_version: String,
}

/// Mathematical model of a dependency.
pub struct DepModel {
    pub name: Seq<char>,
    pub min_version: Seq<char>,
}

impl View for Dependency {
    type V = DepModel;

    open spec fn view(&self) -> DepModel {
        DepModel { name: self.name@, min_version: self.min_version@ }
    }
}

impl Clone for Dependency {
    fn clone(&self) -> (r: Self)
        ensures
            r@ == self@,
    {
        Dependency { name: self.name.clone(), min_version: self.min_version.clone() }
    }
}

/// The manifest embedded in a package archive, and the record kept in the
/// local registry after an install.
pub struct PackageFile {
    pub name: String,
    pub version: String,
    pub dependencies: Vec<Dependency>,
    pub checksum: String,
}

/// Mathematical model of a manifest.
pub struct PackageFileModel {
    pub name: Seq<char>,
    pub version: Seq<char>,
    pub dependencies: Seq<DepModel>,
    pub checksum: Seq<char>,
}

impl View for PackageFile {
    type V = PackageFileModel;

    open spec fn view(&self) -> PackageFileModel {
        PackageFileModel {
            name: self.name@,
            version: self.version@,
            dependencies: self.dependencies@.map_values(|d: Dependency| d@),
            checksum: self.checksum@,
        }
    }
}

impl Clone for PackageFile {
    fn clone(&self) -> (r: Self)
        ensures
            r@ == self@,
    {
        let mut deps: Vec<Dependency> = Vec::new();
        let mut i: usize = 0;
        while i < self.dependencies.len()
            invariant
                i <= self.dependencies.len(),
                deps@.len() == i,
                forall|x: int| 0 <= x < i ==> deps@[x]@ == self.dependencies@[x]@,
            decreases self.dependencies.len() - i,
        {
            deps.push(self.dependencies[i].clone());
            i = i + 1;
        }
        let r = PackageFile {
            name: self.name.clone(),
            version: self.version.clone(),
            dependencies: deps,
            checksum: self.checksum.clone(),
        };
        proof {
            assert(r@.dependencies =~= self@.dependencies);
        }
        r
    }
}

/// A named registry or catalog entry: the key and the manifest stored for it.
pub struct PackageEntry {
    pub name: String,
    pub file: PackageFile,
}

/// Mathematical model of an entry.
pub struct PackageEntryModel {
    pub name: Seq<char>,
    pub file: PackageFileModel,
}

impl View for PackageEntry {
    type V = PackageEntryModel;

    open spec fn view(&self) -> PackageEntryModel {
        PackageEntryModel { name: self.name@, file: self.file@ }
    }
}

impl Clone for PackageEntry {
    fn clone(&self) -> (r: Self)
        ensures
            r@ == self@,
    {
        PackageEntry { name: self.name.clone(), file: self.file.clone() }
    }
}

/// Index of the first entry named `name`, or a negative value when none is.
pub open spec fn entry_index(s: Seq<PackageEntryModel>, name: Seq<char>) -> int
    decreases s.len(),
{
    if s.len() == 0 {
        -1
    } else if s[0].name == name {
        0
    } else if entry_index(s.drop_first(), name) < 0 {
        -1
    } else {
        entry_index(s.drop_first(), name) + 1
    }
}

/// Whether some entry is named `name`.
pub open spec fn has_name(s: Seq<PackageEntryModel>, name: Seq<char>) -> bool {
    entry_index(s, name) >= 0
}

/// The manifest stored under `name` (meaningful only when `has_name`).
pub open spec fn entry_at(s: Seq<PackageEntryModel>, name: Seq<char>) -> PackageFileModel {
    s[entry_index(s, name)].file
}

pub proof fn lemma_entry_index(s: Seq<PackageEntryModel>, name: Seq<char>)
    ensures
        entry_index(s, name) >= 0 ==> entry_index(s, name) < s.len()
            && s[entry_index(s, name)].name == name && (forall|i: int|
            0 <= i < entry_index(s, name) ==> s[i].name != name),
        entry_index(s, name) < 0 ==> forall|i: int| 0 <= i < s.len() ==> s[i].name != name,
    decreases s.len(),
{
    if s.len() > 0 && s[0].name != name {
        let t = s.drop_first();
        lemma_entry_index(t, name);
        assert(forall|i: int| 0 <= i < t.len() ==> #[trigger] t[i] == s[i + 1]);
        if entry_index(t, name) < 0 {
            assert forall|i: int| 0 <= i < s.len() implies s[i].name != name by {
                if i > 0 {
                    assert(t[i - 1] == s[i]);
                }
            }
        } else {
            let r = entry_index(t, name) + 1;
            assert(s[r] == t[r - 1]);
            assert forall|i: int| 0 <= i < r implies s[i].name != name by {
                if i > 0 {
                    assert(t[i - 1] == s[i]);
                }
            }
        }
    }
}

pub proof fn lemma_entry_index_at(s: Seq<PackageEntryModel>, name: Seq<char>, k: int)
    requires
        0 <= k < s.len(),
        s[k].name == name,
        forall|i: int| 0 <= i < k ==> s[i].name != name,
    ensures
        entry_index(s, name) == k,
{
    lemma_entry_index(s, name);
}

/// Insert-or-replace: the stored mapping after putting `f` under `name`.
pub open spec fn spec_insert(
    s: Seq<PackageEntryModel>,
    name: Seq<char>,
    f: PackageFileModel,
) -> Seq<PackageEntryModel> {
    let k = entry_index(s, name);
    if k >= 0 {
        s.update(k, PackageEntryModel { name: name, file: f })
    } else {
        s.push(PackageEntryModel { name: name, file: f })
    }
}

/// The local registry: the installed packages, at most one entry per name.
pub struct Packages {
    pub packages: Vec<PackageEntry>,
}

impl View for Packages {
    type V = Seq<PackageEntryModel>;

    open spec fn view(&self) -> Seq<PackageEntryModel> {
        self.packages@.map_values(|e: PackageEntry| e@)
    }
}


impl Clone for Packages {
    fn clone(&self) -> (r: Self)
        ensures
            r@ == self@,
    {
        let mut entries: Vec<PackageEntry> = Vec::new();
        let mut i: usize = 0;
        while i < self.packages.len()
            invariant
                i <= self.packages.len(),
                entries@.len() == i,
                forall|x: int| 0 <= x < i ==> entries@[x]@ == self.packages@[x]@,
            decreases self.packages.len() - i,
        {
            entries.push(self.packages[i].clone());
            i = i + 1;
        }
        let r = Packages { packages: entries };
        proof {
            assert(r@ =~= self@);
        }
        r
    }
}

/// Find the first entry of `v` named `name`.
pub(crate) fn find_in(v: &Vec<PackageEntry>, name: &String) -> (r: Option<usize>)
    ensures
        ({
            let s = v@.map_values(|e: PackageEntry| e@);
            match r {
                Some(k) => k < v.len() && entry_index(s, name@) == k as int,
                None => entry_index(s, name@) < 0,
            }
        }),
{
    let ghost s = v@.map_values(|e: PackageEntry| e@);
    proof {
        assert(forall|i: int| 0 <= i < v@.len() ==> #[trigger] s[i] == v@[i]@);
    }
    let mut i: usize = 0;
    while i < v.len()
        invariant
            i <= v.len(),
            s == v@.map_values(|e: PackageEntry| e@),
            forall|x: int| 0 <= x < i ==> s[x].name != name@,
            forall|x: int| 0 <= x < v@.len() ==> #[trigger] s[x] == v@[x]@,
        decreases v.len() - i,
    {
        if v[i].name.eq(name) {
            proof {
                lemma_entry_index_at(s, name@, i as int);
            }
            return Some(i);
        }
        i = i + 1;
    }
    proof {
        lemma_entry_index(s, name@);
        if entry_index(s, name@) >= 0 {
            assert(s[entry_index(s, name@)].name == name@);
        }
    }
    None
}

/// No two entries share a name.
pub open spec fn unique_names(s: Seq<PackageEntryModel>) -> bool {
    forall|i: int, j: int| 0 <= i < j < s.len() ==> s[i].name != s[j].name
}

/// Whether all entry names are distinct.
pub(crate) fn names_unique(v: &Vec<PackageEntry>) -> (r: bool)
    ensures
        r == unique_names(v@.map_values(|e: PackageEntry| e@)),
{
    let ghost es = v@.map_values(|e: PackageEntry| e@);
    proof {
        assert(forall|x: int| 0 <= x < v@.len() ==> #[trigger] es[x] == v@[x]@);
    }
    let mut i: usize = 0;
    while i < v.len()
        invariant
            i <= v.len(),
            es == v@.map_values(|e: PackageEntry| e@),
            es.len() == v@.len(),
            forall|x: int, y: int| 0 <= x < y < es.len() && x < i ==> es[x].name != es[y].name,
            forall|x: int| 0 <= x < v@.len() ==> #[trigger] es[x] == v@[x]@,
        decreases v.len() - i,
    {
        let mut j = i + 1;
        while j < v.len()
            invariant
                i < j <= v.len() || (i + 1 == j && j > v.len()),
                i < v.len(),
                es == v@.map_values(|e: PackageEntry| e@),
                es.len() == v@.len(),
                forall|y: int| i < y < j ==> es[i as int].name != es[y].name,
                forall|x: int| 0 <= x < v@.len() ==> #[trigger] es[x] == v@[x]@,
            decreases v.len() - j,
        {
            if v[i].name.eq(&v[j].name) {
                proof {
                    assert(es[i as int].name == es[j as int].name);
                }
                return false;
            }
            j = j + 1;
        }
        i = i + 1;
    }
    true
}

impl Packages {
    /// The registry never holds two entries with the same name.
    pub open spec fn wf(&self) -> bool {
        unique_names(self@)
    }

    /// Whether the well-formedness invariant holds: no repeated names.
    pub fn is_wf(&self) -> (r: bool)
        ensures
            r == self.wf(),
    {
        names_unique(&self.packages)
    }

    /// An empty registry.
    pub fn new() -> (r: Packages)
        ensures
            r@ =~= Seq::<PackageEntryModel>::empty(),
            r.wf(),
    {
        let r = Packages { packages: Vec::new() };
        proof {
            assert(r@.len() == 0);
        }
        r
    }

    /// Whether `name` is installed.
    pub fn has_package(&mut self, name: String) -> (r: bool)
        ensures
            *final(self) == *old(self),
            r == has_name(old(self)@, name@),
    {
        match find_in(&self.packages, &name) {
            Some(_) => true,
            None => false,
        }
    }

    /// The manifest installed under `name`, if any.
    pub fn get_package(&self, name: String) -> (r: Option<&PackageFile>)
        ensures
            match r {
                Some(p) => has_name(self@, name@) && p@ == entry_at(self@, name@),
                None => !has_name(self@, name@),
            },
    {
        match find_in(&self.packages, &name) {
            Some(k) => {
                proof {
                    assert(self@[k as int] == self.packages@[k as int]@);
                }
                Some(&self.packages[k].file)
            },
            None => None,
        }
    }

    /// Insert-or-replace `package` under `name`.
    pub fn add_package(&mut self, name: String, package: PackageFile)
        requires
            old(self).wf(),
        ensures
            final(self)@ == spec_insert(old(self)@, name@, package@),
            final(self).wf(),
    {
        let ghost s0 = self@;
        match find_in(&self.packages, &name) {
            Some(k) => {
                let entry = PackageEntry { name: name, file: package };
                self.packages.set(k, entry);
                proof {
                    assert(forall|i: int|
                        0 <= i < self@.len() ==> #[trigger] self@[i] == self.packages@[i]@);
                    assert(self@ =~= spec_insert(s0, entry@.name, entry@.file));
                    lemma_entry_index(s0, entry@.name);
                }
            },
            None => {
                let entry = PackageEntry { name: name, file: package };
                self.packages.push(entry);
                proof {
                    assert(forall|i: int|
                        0 <= i < self@.len() ==> #[trigger] self@[i] == self.packages@[i]@);
                    assert(self@ =~= spec_insert(s0, entry@.name, entry@.file));
                    lemma_entry_index(s0, entry@.name);
                }
            },
        }
    }

    /// Insert-or-replace, as `add_package`; kept as its own entry point because
    /// callers distinguish the two intents.
    pub fn replace_package(&mut self, name: String, package: PackageFile)
        requires
            old(self).wf(),
        ensures
            final(self)@ == spec_insert(old(self)@, name@, package@),
            final(self).wf(),
    {
        self.add_package(name, package);
    }

    /// Remove the entry named `name`, when present.
    pub fn remove_package(&mut self, name: String)
        requires
            old(self).wf(),
        ensures
            final(self)@ == if has_name(old(self)@, name@) {
                old(self)@.remove(entry_index(old(self)@, name@))
            } else {
                old(self)@
            },
            final(self).wf(),
            !has_name(final(self)@, name@),
    {
        let ghost s0 = self@;
        match find_in(&self.packages, &name) {
            Some(k) => {
                self.packages.remove(k);
                proof {
                    assert(forall|i: int|
                        0 <= i < self@.len() ==> #[trigger] self@[i] == self.packages@[i]@);
                    assert(self@ =~= s0.remove(k as int));
                    lemma_entry_index(s0, name@);
                    lemma_entry_index(self@, name@);
                    if has_name(self@, name@) {
                        let j = entry_index(self@, name@);
                        assert(self@[j].name == name@);
                        if j < k as int {
                            assert(self@[j] == s0[j]);
                        } else {
                            assert(self@[j] == s0[j + 1]);
                        }
                    }
                }
            },
            None => {
                proof {
                    lemma_entry_index(self@, name@);
                }
            },
        }
    }

    /// Clones of all installed manifests, in registry order.
    pub fn get_packages(&self) -> (r: Vec<PackageFile>)
        ensures
            r@.len() == self@.len(),
            forall|i: int| 0 <= i < r@.len() ==> r@[i]@ == self@[i].file,
    {
        let mut out: Vec<PackageFile> = Vec::new();
        let mut i: usize = 0;
        while i < self.packages.len()
            invariant
                i <= self.packages.len(),
                out@.len() == i,
                forall|x: int| 0 <= x < i ==> out@[x]@ == self@[x].file,
                forall|x: int|
                    0 <= x < self@.len() ==> #[trigger] self@[x] == self.packages@[x]@,
            decreases self.packages.len() - i,
        {
            out.push(self.packages[i].file.clone());
            i = i + 1;
        }
        out
    }
}

/// What a well-formed manifest satisfies: a name, a version, each dependency
/// named and carrying a well-formed minimum version, and no checksum beyond
/// the placeholder allowed in package files.
pub open spec fn spec_check(m: PackageFileModel) -> bool {
    m.name.len() > 0 && m.version.len() > 0 && (forall|i: int|
        0 <= i < m.dependencies.len() ==> (#[trigger] m.dependencies[i]).name.len() > 0
            && valid_version(m.dependencies[i].min_version)) && (m.checksum.len() == 0
        || m.checksum == "leave_blank_in_package_file"@)
}

impl PackageFile {
    /// A sample manifest: the shape every test starts from.
    pub fn default() -> (r: Self)
        ensures
            r@.name == "test"@,
            r@.version == "0.0.0"@,
            r@.checksum == ""@,
            r@.dependencies.len() == 1,
            r@.dependencies[0].name == "uspm"@,
            r@.dependencies[0].min_version == "1.0.0"@,
    {
        let mut dependencies: Vec<Dependency> = Vec::new();
        dependencies.push(
            Dependency {
                name: String::from_str("uspm"),
                min_version: String::from_str("1.0.0"),
            },
        );
        PackageFile {
            name: String::from_str("test"),
            version: String::from_str("0.0.0"),
            dependencies,
            checksum: String::from_str(""),
        }
    }

    /// Whether this manifest is well-formed, exactly as `spec_check` states.
    pub fn check(&self) -> (r: bool)
        ensures
            r == spec_check(self@),
    {
        if self.name.as_str().is_empty() {
            return false;
        }
        if self.version.as_str().is_empty() {
            return false;
        }
        let mut i: usize = 0;
        while i < self.dependencies.len()
            invariant
                i <= self.dependencies.len(),
                forall|x: int|
                    0 <= x < i ==> (#[trigger] self@.dependencies[x]).name.len() > 0
                        && valid_version(self@.dependencies[x].min_version),
                forall|x: int|
                    0 <= x < self@.dependencies.len() ==> #[trigger] self@.dependencies[x]
                        == self.dependencies@[x]@,
            decreases self.dependencies.len() - i,
        {
            proof {
                assert(self@.dependencies.len() == self.dependencies@.len());
                assert(self@.dependencies[i as int] == self.dependencies@[i as int]@);
            }
            if self.dependencies[i].name.as_str().is_empty() {
                proof {
                    assert(self@.dependencies[i as int].name.len() == 0);
                    assert(!spec_check(self@));
                }
                return false;
            }
            if !crate::version::is_valid_version(self.dependencies[i].min_version.as_str()) {
                proof {
                    assert(!valid_version(self@.dependencies[i as int].min_version));
                    assert(!spec_check(self@));
                }
                return false;
            }
            i = i + 1;
        }
        if !self.checksum.as_str().is_empty() {
            let placeholder = String::from_str("leave_blank_in_package_file");
            if !self.checksum.eq(&placeholder) {
                return false;
            }
        }
        true
    }
}

} // verus!
