//! High-level operations over an environment of requested packages.

use vstd::prelude::*;

use crate::name::PackageName;

verus! {

/// Why an environment refused a request.
#[derive(Debug)]
pub enum EnvironmentError {
    /// The environment cannot take further requests.
    RequestRejected,
}

/// Why an install operation failed.
#[derive(Debug)]
pub enum InstallError {
    /// A package could not be added to the environment.
    CannotAddPackage { source: EnvironmentError },
}

/// The set of packages an environment has been asked to hold.
pub struct Environment {
    pub requested: Vec<PackageName>,
}

impl Environment {
    /// An environment with nothing requested.
    pub fn new() -> (r: Environment)
        ensures
            r.requested@.len() == 0,
    {
        Environment { requested: Vec::new() }
    }

    /// Records one request.
    pub fn request(&mut self, package: &PackageName) -> (r: Result<(), EnvironmentError>)
        ensures
            r is Ok,
            final (self).requested@.len() == old(self).requested@.len() + 1,
            final (self).requested@.last()@ == package@,
            forall|i: int|
                0 <= i < old(self).requested@.len() ==> #[trigger] final (self).requested@[i]
                    == old(self).requested@[i],
    {
        self.requested.push(package.duplicate());
        Ok(())
    }
}

/// Requests every named package in order; an environment that refuses one
/// fails the whole operation.
pub fn install(env: &mut Environment, packages: &Vec<PackageName>) -> (r: Result<
    (),
    InstallError,
>)
    ensures
        r is Ok,
        final (env).requested@.len() == old(env).requested@.len() + packages@.len(),
        forall|i: int|
            0 <= i < packages@.len() ==> (#[trigger] final (env).requested@[old(
                env,
            ).requested@.len() + i])@ == packages@[i]@,
{
    let n = packages.len();
    let mut i: usize = 0;
    while i < n
        invariant
            i <= n == packages@.len(),
            env.requested@.len() == old(env).requested@.len() + i,
            forall|j: int|
                0 <= j < i ==> (#[trigger] env.requested@[old(env).requested@.len() + j])@
                    == packages@[j]@,
        decreases n - i,
    {
        match env.request(&packages[i]) {
            Ok(_) => {},
            Err(source) => {
                return Err(InstallError::CannotAddPackage { source });
            },
        }
        i = i + 1;
    }
    Ok(())
}

} // verus!
