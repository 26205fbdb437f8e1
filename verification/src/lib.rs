//! A package manager core: a SemVer constraint algebra, a multi-repository
//! candidate model, and a conflict-driven dependency resolver, together with
//! the transactional store of requested packages.

use vstd::prelude::*;

pub mod candidates;
pub mod errors;
pub mod name;
pub mod numbers;
pub mod operations;
pub mod pkgdb;
pub mod progress;
pub mod range;
pub mod repository;
pub mod reqtext;
pub mod requirement;
pub mod resolver;
pub mod semver;
pub mod types;
pub mod versionset;
pub mod version;
pub mod vertext;
mod strutil;

use crate::candidates::{Dep, Package};
use crate::errors::InstallerError;
use crate::pkgdb::{db_wf, find_req, md5_hex, state_entries_wf, state_wf, Database, State};
use crate::progress::Progress;
use crate::repository::{all_deps, last_dep, offered, repos_wf, Repository};
use crate::requirement::{req_sem, requirement_wf};
use crate::resolver::sol_satisfies;
use crate::types::PackageSpecifier;
use crate::version::{key_of, VerKey};

verus! {

/// The front door of the library: owns the store model and the progress
/// recorder, and drives a resolution over a fetched repository snapshot.
pub struct Installer {
    pub db: Database,
    pub progress: Progress,
    pub console_enabled: bool,
    pub console_lines: Vec<String>,
}

impl Installer {
    /// An installer for the target root identified by `rid`; the store's
    /// lock identity is a stable digest of it.
    pub fn new(rid: &str) -> (r: Installer)
        ensures
            r.db.id@ == md5_hex(rid@),
            !r.db.in_txn,
            db_wf(r.db),
            r.console_lines@.len() == 0,
            !r.console_enabled,
            !r.progress.start_enabled && !r.progress.spinner_enabled
                && !r.progress.update_enabled && !r.progress.finish_enabled,
            r.progress.events@.len() == 0,
    {
        Installer {
            db: Database::new(crate::pkgdb::lock_id(rid)),
            progress: Progress::new(),
            console_enabled: false,
            console_lines: Vec::new(),
        }
    }

    /// Switches console reporting on.
    pub fn with_console(&mut self)
        ensures
            final (self).console_enabled,
            final (self).db == old(self).db,
            final (self).progress == old(self).progress,
            final (self).console_lines@ == old(self).console_lines@,
    {
        self.console_enabled = true;
    }

    /// Switches on the recording of started bars.
    pub fn with_progress_start(&mut self)
        ensures
            final (self).db == old(self).db,
            final (self).progress.start_enabled,
    {
        self.progress.with_progress_start();
    }

    /// Switches on the recording of started spinners.
    pub fn with_progress_spinner(&mut self)
        ensures
            final (self).db == old(self).db,
            final (self).progress.spinner_enabled,
    {
        self.progress.with_progress_spinner();
    }

    /// Switches on the recording of advances.
    pub fn with_progress_update(&mut self)
        ensures
            final (self).db == old(self).db,
            final (self).progress.update_enabled,
    {
        self.progress.with_progress_update();
    }

    /// Switches on the recording of completions.
    pub fn with_progress_finish(&mut self)
        ensures
            final (self).db == old(self).db,
            final (self).progress.finish_enabled,
    {
        self.progress.with_progress_finish();
    }

    /// Records one console line, where the console is on.
    fn console(&mut self, msg: String)
        ensures
            final (self).db == old(self).db,
            final (self).progress == old(self).progress,
            final (self).console_enabled == old(self).console_enabled,
            old(self).console_enabled ==> final (self).console_lines@ == old(
                self,
            ).console_lines@.push(msg),
            !old(self).console_enabled ==> final (self).console_lines@ == old(
                self,
            ).console_lines@,
    {
        if self.console_enabled {
            self.console_lines.push(msg);
        }
    }

    /// Requests the given packages on top of what the state already asks
    /// for, and resolves the whole requested set against the snapshot. On
    /// success the new state, which the caller must now persist, records the
    /// requests, and the returned pins satisfy every one of them together
    /// with every dependency the repositories declare for a pin.
    pub fn install(
        &mut self,
        packages: &Vec<PackageSpecifier>,
        repository: &Repository,
        loaded: Option<State>,
    ) -> (r: Result<(Vec<Package>, State), InstallerError>)
        requires
            repos_wf(repository.repos@),
            !old(self).db.in_txn,
            db_wf(old(self).db),
            forall|i: int|
                0 <= i < packages@.len() ==> crate::name::name_wf(
                    (#[trigger] packages@[i]).name@,
                ) && requirement_wf(packages@[i].version),
            loaded matches Some(st) ==> state_wf(st) && state_entries_wf(st),
        ensures
            !final (self).db.in_txn && db_wf(final (self).db),
            r matches Ok((sol, st)) ==> {
                &&& forall|i: int, j: int|
                    0 <= i < j < sol@.len() ==> (#[trigger] sol@[i]).name@ != (
                    #[trigger] sol@[j]).name@
                &&& forall|j: int|
                    0 <= j < sol@.len() ==> offered(
                        repository.repos@,
                        (#[trigger] sol@[j]).name@,
                        key_of(sol@[j].version),
                    )
                &&& forall|j: int, dn: Seq<char>|
                    0 <= j < sol@.len() && (#[trigger] last_dep(
                        all_deps(repository.repos@, (#[trigger] sol@[j]).name@, sol@[j].version),
                        dn,
                    )) is Some ==> sol_satisfies(
                        sol@,
                        last_dep(
                            all_deps(repository.repos@, sol@[j].name@, sol@[j].version),
                            dn,
                        ).unwrap(),
                    )
                &&& forall|a: int|
                    0 <= a < st.requested@.len() ==> exists|j: int|
                        0 <= j < sol@.len() && (#[trigger] sol@[j]).name@ == (
                        #[trigger] st.requested@[a]).name@ && req_sem(
                            st.requested@[a].version,
                            key_of(sol@[j].version),
                        )
                &&& forall|i: int|
                    0 <= i < packages@.len() ==> #[trigger] find_req(
                        st.requested@,
                        packages@[i].name@,
                    ) is Some
            },
            r matches Ok((sol, st)) ==> (forall|dn: Seq<char>|
                (forall|i: int| 0 <= i < packages@.len() ==> (#[trigger] packages@[i]).name@ != dn)
                    ==> #[trigger] find_req(st.requested@, dn) == (match loaded {
                    Some(l) => find_req(l.requested@, dn),
                    None => None,
                })),
            r matches Err(e) ==> (e matches InstallerError::ResolverError(se) && (se
                is NoSolution || se is Failure)),
            packages@.len() == 0 && loaded is None ==> r is Ok,
            !old(self).console_enabled ==> (final (self).console_lines@
                == old(self).console_lines@),
            (old(self).console_enabled && r is Ok) ==> (final (self).console_lines@.len()
                == old(self).console_lines@.len() + 2
                && final (self).console_lines@[old(self).console_lines@.len() as int]@
                    == "[1/2] Fetched package metadata"@
                && final (self).console_lines@.last()@ == "[2/2] Resolved dependencies"@),
            (old(self).console_enabled && r is Err) ==> (final (self).console_lines@.len()
                == old(self).console_lines@.len() + 1
                && final (self).console_lines@.last()@ == "[1/2] Fetched package metadata"@),
    {
        self.db.begin(loaded);
        let ghost db_after_begin = self.db;
        let n = packages.len();
        let mut i: usize = 0;
        while i < n
            invariant
                i <= n == packages@.len(),
                self.db.in_txn,
                db_wf(self.db),
                i == 0 ==> self.db == db_after_begin,
                self.console_enabled == old(self).console_enabled,
                self.console_lines@ == old(self).console_lines@,
                self.progress == old(self).progress,
                self.db.state matches Some(st) && state_wf(st) && state_entries_wf(st),
                forall|a: int|
                    0 <= a < packages@.len() ==> crate::name::name_wf(
                        (#[trigger] packages@[a]).name@,
                    ) && requirement_wf(packages@[a].version),
                forall|a: int|
                    0 <= a < i ==> #[trigger] find_req(
                        self.db.state.unwrap().requested@,
                        packages@[a].name@,
                    ) is Some,
                forall|dn: Seq<char>|
                    (forall|a: int| 0 <= a < i ==> (#[trigger] packages@[a]).name@ != dn)
                        ==> #[trigger] find_req(self.db.state.unwrap().requested@, dn) == find_req(
                        db_after_begin.state.unwrap().requested@,
                        dn,
                    ),
            decreases n - i,
        {
            let ghost old_db = self.db;
            match self.db.add(&packages[i]) {
                Ok(_) => {},
                Err(_) => {
                    proof {
                        assert(false);
                    }
                    self.db.rollback();
                    return Err(InstallerError::DBError(crate::errors::DBError::NoTransaction));
                },
            }
            proof {
                let news = self.db.state.unwrap();
                let olds = old_db.state.unwrap();
                assert(state_entries_wf(news)) by {
                    crate::pkgdb::lemma_state_entries(olds, news, packages@[i as int]);
                }
                assert forall|a: int|
                    0 <= a < i + 1 implies #[trigger] find_req(
                    news.requested@,
                    packages@[a].name@,
                ) is Some by {
                    if a < i && packages@[a].name@ != packages@[i as int].name@ {
                        assert(find_req(news.requested@, packages@[a].name@) == find_req(
                            olds.requested@,
                            packages@[a].name@,
                        ));
                    }
                }
            }
            i = i + 1;
        }
        // the full requested set, as the solver's request
        let requested = match self.db.requested() {
            Ok(v) => v,
            Err(_) => {
                proof {
                    assert(false);
                }
                self.db.rollback();
                return Err(InstallerError::DBError(crate::errors::DBError::NoTransaction));
            },
        };
        let m = requested.len();
        let mut reqs: Vec<Dep> = Vec::new();
        let mut a: usize = 0;
        while a < m
            invariant
                a <= m == requested@.len(),
                self.db.in_txn,
                db_wf(self.db),
                self.db.state matches Some(st) && st.requested@ == requested@,
                state_entries_wf(self.db.state.unwrap()),
                reqs@.len() == a,
                forall|b: int|
                    0 <= b < a ==> {
                        &&& (#[trigger] reqs@[b]).name@ == requested@[b].name@
                        &&& crate::candidates::dep_wf(reqs@[b])
                        &&& forall|k: VerKey|
                            req_sem(reqs@[b].req, k) == req_sem(requested@[b].version, k)
                    },
            decreases m - a,
        {
            proof {
                assert(crate::name::name_wf(requested@[a as int].name@) && requirement_wf(
                    requested@[a as int].version,
                ));
            }
            reqs.push(
                Dep {
                    name: requested[a].name.duplicate(),
                    req: requested[a].version.duplicate(),
                },
            );
            a = a + 1;
        }
        proof {
            reveal_strlit("[1/2] Fetched package metadata");
            reveal_strlit("[2/2] Resolved dependencies");
            reveal_strlit("Resolving dependencies");
        }
        self.console("[1/2] Fetched package metadata".to_owned());
        let spinner = self.progress.spinner("Resolving dependencies");
        let outcome = crate::resolver::resolve_snapshot(repository, &reqs);
        self.progress.update(&spinner, 1);
        self.progress.finish(&spinner);
        match outcome {
            Err(e) => {
                self.db.rollback();
                Err(InstallerError::ResolverError(e))
            },
            Ok(sol) => {
                self.console("[2/2] Resolved dependencies".to_owned());
                let ghost pre_commit = self.db;
                let st = match self.db.commit() {
                    Ok(st) => st,
                    Err(_) => {
                        proof {
                            assert(false);
                        }
                        self.db.rollback();
                        return Err(
                            InstallerError::DBError(crate::errors::DBError::NoTransaction),
                        );
                    },
                };
                proof {
                    assert forall|b: int|
                        0 <= b < st.requested@.len() implies exists|j: int|
                        0 <= j < sol@.len() && (#[trigger] sol@[j]).name@ == (
                        #[trigger] st.requested@[b]).name@ && req_sem(
                            st.requested@[b].version,
                            key_of(sol@[j].version),
                        ) by {
                        assert(sol_satisfies(sol@, reqs@[b]));
                        let j = choose|j: int|
                            0 <= j < sol@.len() && (#[trigger] sol@[j]).name@ == reqs@[b].name@
                                && req_sem(reqs@[b].req, key_of(sol@[j].version));
                        assert(sol@[j].name@ == st.requested@[b].name@ && req_sem(
                            st.requested@[b].version,
                            key_of(sol@[j].version),
                        ));
                    }
                }
                Ok((sol, st))
            },
        }
    }
}

} // verus!

