//! Candidates and solutions: a candidate is one selectable version together
//! with the repository it came from and its dependency map; a package is one
//! entry of a resolved solution.

use vstd::prelude::*;

use crate::name::{name_wf, PackageName};
use crate::requirement::{requirement_wf, Requirement};
use crate::version::{key_of, VerKey, Version};

verus! {

/// One dependency declaration: a package name and the requirement on it.
#[derive(Debug)]
pub struct Dep {
    pub name: PackageName,
    pub req: Requirement,
}

/// A sound dependency declaration.
pub open spec fn dep_wf(d: Dep) -> bool {
    name_wf(d.name@) && requirement_wf(d.req)
}

pub open spec fn deps_wf(ds: Seq<Dep>) -> bool {
    forall|i: int| 0 <= i < ds.len() ==> dep_wf(#[trigger] ds[i])
}

impl Dep {
    /// A fresh copy with the same name and meaning.
    pub fn duplicate(&self) -> (r: Dep)
        ensures
            r.name@ == self.name@,
            forall|k: VerKey|
                crate::requirement::req_sem(r.req, k) == crate::requirement::req_sem(self.req, k),
            dep_wf(*self) ==> dep_wf(r),
            r.req.comparators@.len() == self.req.comparators@.len(),
    {
        Dep { name: self.name.duplicate(), req: self.req.duplicate() }
    }
}

/// The dependency map a candidate carries: a materialised list, or a marker
/// that the list is not known, which sends the solver to another candidate.
#[derive(Debug)]
pub enum Dependencies {
    Known(Vec<Dep>),
    Unknown,
}

/// A selectable (version, origin) pair with its dependency list.
#[derive(Debug)]
pub struct Candidate {
    pub version: Version,
    pub deps: Dependencies,
}

impl Candidate {
    /// The model of the carried version, origin marks included.
    pub open spec fn key(self) -> VerKey {
        key_of(self.version)
    }

    /// Builds a candidate: the version is tagged with its origin.
    pub fn new(version: Version, source_id: u64, source_discriminator: u64, deps: Dependencies) -> (r:
        Candidate)
        ensures
            r.key() == (crate::version::VerKey {
                source_id: source_id as int,
                source_discriminator: source_discriminator as int,
                ..key_of(version)
            }),
            r.deps == deps,
            r.version.patch == version.patch,
    {
        let v = version.with_source_id(source_id).with_source_discriminator(source_discriminator);
        let r = Candidate { version: v, deps };
        proof {
            assert(r.key() =~~= crate::version::VerKey {
                source_id: source_id as int,
                source_discriminator: source_discriminator as int,
                ..key_of(version)
            });
        }
        r
    }

    /// The synthetic root candidate: version zero with its display
    /// suppressed, origin zero, carrying the requested map as its
    /// dependencies.
    pub fn root(reqs: Vec<Dep>) -> (r: Candidate)
        ensures
            r.deps matches Dependencies::Known(ds) && ds == reqs,
            r.version.major == 0 && r.version.minor == 0 && r.version.patch == 0,
            r.key().pre.len() == 0,
            r.version.source_id == 0 && r.version.source_discriminator == 0,
            r.version.suppress,
    {
        Candidate {
            version: Version::new(0, 0, 0).suppress_display(),
            deps: Dependencies::Known(reqs),
        }
    }

    /// The carried version.
    pub fn version(&self) -> (r: &Version)
        ensures
            r == self.version,
    {
        &self.version
    }

    /// The origin marks of this candidate.
    pub fn source(&self) -> (r: (u64, u64))
        ensures
            r.0 == self.version.source_id,
            r.1 == self.version.source_discriminator,
    {
        (self.version.source_id, self.version.source_discriminator)
    }

    /// The dependency list, where it is known.
    pub fn dependencies(&self) -> (r: &Dependencies)
        ensures
            r == self.deps,
    {
        &self.deps
    }
}

/// One entry of a resolved solution: a package pinned to a version, with the
/// origin that offered it.
#[derive(Debug)]
pub struct Package {
    pub name: PackageName,
    pub version: Version,
    pub source_id: u64,
    pub source_discriminator: u64,
}

impl Package {
    /// Builds a solution entry.
    pub fn new(name: PackageName, version: Version, source_id: u64, source_discriminator: u64) -> (r:
        Package)
        ensures
            r.name@ == name@,
            r.version == version,
            r.source_id == source_id,
            r.source_discriminator == source_discriminator,
    {
        Package { name, version, source_id, source_discriminator }
    }

    /// The origin marks.
    pub fn source(&self) -> (r: (u64, u64))
        ensures
            r.0 == self.source_id,
            r.1 == self.source_discriminator,
    {
        (self.source_id, self.source_discriminator)
    }
}

} // verus!
