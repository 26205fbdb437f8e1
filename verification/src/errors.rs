//! The error taxonomy of the library.

use vstd::prelude::*;

verus! {

/// Why a string was rejected as a package name.
#[derive(Debug)]
pub enum PackageNameError {
    /// Names must have at least one character.
    TooShort,
    /// Names must begin with an alpha character.
    NoStartingAlpha { name: String, character: String },
    /// Names must contain only alphanumeric characters.
    InvalidCharacter { name: String, character: String },
}

impl PackageNameError {
    /// A short description, in the words the command line shows.
    pub fn message(&self) -> (r: String)
        ensures
            r@.len() > 0,
    {
        let r = match self {
            PackageNameError::TooShort => "names must have at least one character",
            PackageNameError::NoStartingAlpha { .. } => "names must begin with an alpha character",
            PackageNameError::InvalidCharacter { .. } => {
                "names must contain only alphanumeric characters"
            },
        };
        proof {
            reveal_strlit("names must have at least one character");
            reveal_strlit("names must begin with an alpha character");
            reveal_strlit("names must contain only alphanumeric characters");
        }
        r.to_owned()
    }
}

} // verus!

use crate::name::PackageName;
use crate::version::Version;

verus! {

/// One dead end the search ran into: a package none of whose candidates
/// fit, and the packages whose constraints ruled them out.
#[derive(Debug)]
pub struct Conflict {
    pub package: PackageName,
    pub requirers: Vec<PackageName>,
}

/// The structured explanation the solver emits when no solution exists.
#[derive(Debug)]
pub struct DerivationTree {
    pub conflicts: Vec<Conflict>,
}

/// Why a version or version requirement failed to parse.
#[derive(Debug)]
pub enum VersionError {
    /// The text does not follow the version grammar.
    ParseError,
}

/// Why a package specifier failed to parse.
#[derive(Debug)]
pub enum PackageSpecifierError {
    /// The specifier has no package name part.
    NoPackageName,
    /// The name part is not a valid package name.
    InvalidPackageName(PackageNameError),
    /// The version part is not a valid requirement.
    InvalidVersionRequirement,
}

/// How resolution failed.
#[derive(Debug)]
pub enum SolverError {
    /// No assignment satisfies the requested packages.
    NoSolution(DerivationTree),
    /// A package at a version declared a dependency nothing can satisfy.
    DependencyOnTheEmptySet { package: PackageName, version: Version, dependent: PackageName },
    /// A package at a version depends on itself.
    SelfDependency { package: PackageName, version: Version },
    /// An internal solver invariant failed.
    Failure(String),
    /// An error path the provider promises never occurs.
    Impossible,
}

/// Why the state store failed.
#[derive(Debug)]
pub enum DBError {
    /// The store was read or written outside a transaction.
    NoTransaction,
    /// The persisted state could not be read back.
    InvalidState,
}

/// Why a transaction could not begin.
#[derive(Debug)]
pub enum TransactionError {
    /// The cross-process lock could not be taken.
    LockError,
}

/// What the installer surfaces.
#[derive(Debug)]
pub enum InstallerError {
    DBError(DBError),
    ResolverError(SolverError),
}

} // verus!
