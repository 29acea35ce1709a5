use vstd::prelude::*;
use crate::package::{Packages, has_name, entry_at};
use crate::version::{valid_version, spec_compare_versions, compare_versions};

verus! {

/// Whether the registry already satisfies `dependency` at `min_ver` or newer:
/// the dependency is installed and its installed version compares at least
/// equal to the minimum.
pub fn check_dependency(packages: &Packages, dependency: String, min_ver: String) -> (r: bool)
    requires
        valid_version(min_ver@),
        has_name(packages@, dependency@) ==> valid_version(
            entry_at(packages@, dependency@).version,
        ),
    ensures
        r == (has_name(packages@, dependency@) && spec_compare_versions(
            entry_at(packages@, dependency@).version,
            min_ver@,
        ) >= 0),
{
    match packages.get_package(dependency) {
        Some(package) => {
            let version = package.version.clone();
            compare_versions(version, min_ver) >= 0
        },
        None => false,
    }
}

} // verus!
