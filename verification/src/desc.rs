//! Package descriptors, dependency specifications, and package identity.

use crate::util::str_eq;
use vstd::prelude::*;

verus! {

/// Comparison operator of a version constraint in a dependency
/// specification.
#[derive(Clone, Copy, Debug, PartialEq, Eq, Structural)]
pub enum DepVerOp {
    Equal,
    Less,
    LessEq,
    Greater,
    GreaterEq,
}

/// A version constraint: the candidate version must compare against
/// `ver` as `op` demands.
#[derive(Clone, Debug)]
pub struct DependVersion {
    pub op: DepVerOp,
    pub ver: String,
}

/// A dependency specification: a name plus an optional version
/// constraint; no constraint means any version satisfies.
#[derive(Clone, Debug)]
pub struct Depend {
    pub name: String,
    pub ver: Option<DependVersion>,
}

/// An optional dependency: a specification plus the reason it is
/// suggested.
#[derive(Clone, Debug)]
pub struct OptDepend {
    pub dep: Depend,
    pub reason: Option<String>,
}

/// Why a local package is installed.
#[derive(Clone, Copy, Debug, PartialEq, Eq, Structural)]
pub enum InstallReason {
    Explicit,
    Dep,
}

/// Immutable per-package metadata.
#[derive(Clone, Debug)]
pub struct PkgDesc {
    pub name: String,
    pub version: String,
    pub desc: Option<String>,
    pub url: Option<String>,
    pub size: u64,
    pub arch: String,
    pub install_reason: InstallReason,
    pub depends: Vec<Depend>,
    pub opt_depends: Vec<OptDepend>,
    pub provides: Vec<Depend>,
}

/// A package: its descriptor plus its sorted file list.
#[derive(Clone, Debug)]
pub struct Pkg {
    pub desc: PkgDesc,
    pub files: Vec<String>,
}

/// A unique identifier for a package: its database's name plus its own.
#[derive(Debug)]
pub struct PkgId {
    pub db: String,
    pub name: String,
}

impl PkgId {
    /// An identifier in the local database.
    pub fn local(name: &str) -> (r: Self)
        ensures
            r.db@ == "local"@,
            r.name@ == name@,
    {
        PkgId { db: "local".to_owned(), name: name.to_owned() }
    }

    /// An identifier in a named database.
    pub fn qualified(db: &str, name: &str) -> (r: Self)
        ensures
            r.db@ == db@,
            r.name@ == name@,
    {
        PkgId { db: db.to_owned(), name: name.to_owned() }
    }

    /// The identifier names a package outside the local database.
    pub fn is_remote(&self) -> (r: bool)
        ensures
            r == (self.db@ != "local"@),
    {
        !str_eq(self.db.as_str(), "local")
    }

    /// The identifier names exactly this package of this database.
    pub fn matches_pkg(&self, pkg: &PkgDesc, pkg_db_name: &str) -> (r: bool)
        ensures
            r == (self.db@ == pkg_db_name@ && self.name@ == pkg.name@),
    {
        str_eq(self.db.as_str(), pkg_db_name) && str_eq(self.name.as_str(), pkg.name.as_str())
    }

    /// The `database/name` form of the identifier.
    pub fn display(&self) -> (r: String)
        ensures
            r@ == self.db@ + "/"@ + self.name@,
    {
        let mut out = self.db.clone();
        out.append("/");
        out.append(self.name.as_str());
        out
    }
}

impl PartialEq for PkgId {
    fn eq(&self, other: &PkgId) -> (r: bool) {
        str_eq(self.db.as_str(), other.db.as_str()) && str_eq(
            self.name.as_str(),
            other.name.as_str(),
        )
    }
}

impl vstd::std_specs::cmp::PartialEqSpecImpl for PkgId {
    open spec fn obeys_eq_spec() -> bool {
        true
    }

    open spec fn eq_spec(&self, other: &PkgId) -> bool {
        self.db@ == other.db@ && self.name@ == other.name@
    }
}

} // verus!
