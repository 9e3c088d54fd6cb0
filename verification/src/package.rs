//! Package records as a repository index publishes them.

use vstd::prelude::*;

verus! {

/// One build of one package version, as a repository index describes it.
#[derive(Debug, Clone)]
pub struct RepodataPackage {
    pub name: String,
    pub version: String,
    pub license: String,
    pub sha256: String,
    pub build: String,
}

/// The package records of one repository index.
#[derive(Debug, Clone)]
pub struct RepodataPackages {
    pub packages: Vec<RepodataPackage>,
}

} // verus!
