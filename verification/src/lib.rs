//! A minimal client-side package manager: mirrors serve a catalog and
//! package archives; installing a package resolves a mirror, downloads and
//! integrity-checks the archive, satisfies declared dependencies
//! recursively, runs the package's install hook, and records the result in
//! a persisted local registry.
//!
//! Every decision lives here, verified: version comparison, catalog
//! resolution, dependency satisfaction, the install state machine, the
//! registry's map semantics, and the file framing that persists registry,
//! catalog, manifest and configuration. The surrounding program only
//! performs the filesystem, network and process work the installer asks
//! for, and hands back plain values.
use vstd::prelude::*;

verus! {

pub mod digits;
pub mod version;
pub mod package;
pub mod repo;
pub mod dephandle;
pub mod digest;
pub mod config;
pub mod codec;
pub mod install;

} // verus!
