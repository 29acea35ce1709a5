use vstd::prelude::*;
use crate::package::{
    PackageEntry, PackageEntryModel, PackageFile, has_name, entry_at, find_in,
};
use vstd::string::StringExecFns;

verus! {

/// A mirror's catalog: the packages it advertises, with version, checksum and
/// dependency requirements for each.
pub struct Repo {
    pub packages: Vec<PackageEntry>,
}

impl View for Repo {
    type V = Seq<PackageEntryModel>;

    open spec fn view(&self) -> Seq<PackageEntryModel> {
        self.packages@.map_values(|e: PackageEntry| e@)
    }
}

impl Clone for Repo {
    fn clone(&self) -> (r: Self)
        ensures
            r@ == self@,
    {
        let mut entries: Vec<PackageEntry> = Vec::new();
        let mut i: usize = 0;
        while i < self.packages.len()
            invariant
                i <= self.packages.len(),
                entries@.len() == i,
                forall|x: int| 0 <= x < i ==> entries@[x]@ == self.packages@[x]@,
            decreases self.packages.len() - i,
        {
            entries.push(self.packages[i].clone());
            i = i + 1;
        }
        let r = Repo { packages: entries };
        proof {
            assert(r@ =~= self@);
        }
        r
    }
}

/// Whether the catalog advertises `package`.
pub fn check_repo_for_package(repo_file: Repo, package: &String) -> (r: bool)
    ensures
        r == has_name(repo_file@, package@),
{
    proof {
        crate::package::lemma_entry_index(repo_file@, package@);
    }
    match find_in(&repo_file.packages, package) {
        Some(k) => {
            proof {
                assert(repo_file@[k as int].name == package@);
            }
            true
        },
        None => false,
    }
}

impl Repo {
    /// The catalog entry advertised for `name`, if any.
    pub fn get_package(&self, name: String) -> (r: Option<&PackageFile>)
        ensures
            match r {
                Some(p) => has_name(self@, name@) && p@ == entry_at(self@, name@),
                None => !has_name(self@, name@),
            },
    {
        match find_in(&self.packages, &name) {
            Some(k) => {
                proof {
                    assert(self@[k as int] == self.packages@[k as int]@);
                }
                Some(&self.packages[k].file)
            },
            None => None,
        }
    }

    /// A sample catalog carrying the sample manifest under its own name.
    pub fn default() -> (r: Self)
        ensures
            r@.len() == 1,
            r@[0].name == "test"@,
            r@[0].file.name == "test"@,
            r@[0].file.version == "0.0.0"@,
    {
        let package_file = PackageFile::default();
        let mut packages: Vec<PackageEntry> = Vec::new();
        packages.push(PackageEntry { name: String::from_str("test"), file: package_file });
        let r = Repo { packages };
        proof {
            assert(r@[0] == r.packages@[0]@);
        }
        r
    }
}

/// Whether a mirror's catalog fetch succeeded and lists `package`.
pub open spec fn serves(r: Option<Repo>, package: Seq<char>) -> bool {
    match r {
        Some(repo) => has_name(repo@, package),
        None => false,
    }
}

/// The first mirror whose catalog was fetched and lists `package`, or a
/// negative value when none does. First match wins: earlier mirrors take
/// precedence over later ones.
pub open spec fn spec_resolve(results: Seq<Option<Repo>>, package: Seq<char>) -> int
    decreases results.len(),
{
    if results.len() == 0 {
        -1
    } else if serves(results[0], package) {
        0
    } else if spec_resolve(results.drop_first(), package) < 0 {
        -1
    } else {
        spec_resolve(results.drop_first(), package) + 1
    }
}

pub proof fn lemma_spec_resolve(results: Seq<Option<Repo>>, package: Seq<char>)
    ensures
        spec_resolve(results, package) >= 0 ==> spec_resolve(results, package) < results.len()
            && serves(results[spec_resolve(results, package)], package) && (forall|i: int|
            0 <= i < spec_resolve(results, package) ==> !serves(results[i], package)),
        spec_resolve(results, package) < 0 ==> forall|i: int|
            0 <= i < results.len() ==> !serves(results[i], package),
    decreases results.len(),
{
    if results.len() > 0 && !serves(results[0], package) {
        let t = results.drop_first();
        lemma_spec_resolve(t, package);
        assert(forall|i: int| 0 <= i < t.len() ==> #[trigger] t[i] == results[i + 1]);
        if spec_resolve(t, package) < 0 {
            assert forall|i: int| 0 <= i < results.len() implies !serves(results[i], package) by {
                if i > 0 {
                    assert(t[i - 1] == results[i]);
                }
            }
        } else {
            let r = spec_resolve(t, package) + 1;
            assert(results[r] == t[r - 1]);
            assert forall|i: int| 0 <= i < r implies !serves(results[i], package) by {
                if i > 0 {
                    assert(t[i - 1] == results[i]);
                }
            }
        }
    }
}

pub proof fn lemma_spec_resolve_at(results: Seq<Option<Repo>>, package: Seq<char>, k: int)
    requires
        0 <= k < results.len(),
        serves(results[k], package),
        forall|i: int| 0 <= i < k ==> !serves(results[i], package),
    ensures
        spec_resolve(results, package) == k,
{
    lemma_spec_resolve(results, package);
}

/// Mirror fallback: a mirror whose catalog fetch failed never masks a later
/// mirror that serves the package; with the first mirror down and the second
/// serving it, the second is resolved.
pub proof fn lemma_mirror_fallback(results: Seq<Option<Repo>>, package: Seq<char>)
    requires
        results.len() >= 2,
        results[0] is None,
        serves(results[1], package),
    ensures
        spec_resolve(results, package) == 1,
{
    lemma_spec_resolve_at(results, package, 1);
}

/// Pick the mirror that serves `package`: the catalogs come in mirror order,
/// a failed fetch recorded as `None`, and the first match wins.
pub fn resolve_mirror(results: &Vec<Option<Repo>>, package: &String) -> (r: Option<usize>)
    ensures
        match r {
            Some(k) => (k as int) < results@.len() && spec_resolve(results@, package@)
                == k as int,
            None => spec_resolve(results@, package@) < 0,
        },
{
    let mut i: usize = 0;
    while i < results.len()
        invariant
            i <= results@.len(),
            forall|x: int| 0 <= x < i ==> !serves(results@[x], package@),
        decreases results@.len() - i,
    {
        let hit = match &results[i] {
            Some(repo) => {
                proof {
                    crate::package::lemma_entry_index(repo@, package@);
                }
                let found = find_in(&repo.packages, package);
                match found {
                    Some(k) => {
                        proof {
                            assert(repo@[k as int].name == package@);
                        }
                        true
                    },
                    None => false,
                }
            },
            None => false,
        };
        if hit {
            proof {
                lemma_spec_resolve_at(results@, package@, i as int);
            }
            return Some(i);
        }
        i = i + 1;
    }
    proof {
        lemma_spec_resolve(results@, package@);
        if spec_resolve(results@, package@) >= 0 {
            assert(serves(results@[spec_resolve(results@, package@)], package@));
        }
    }
    None
}

} // verus!
