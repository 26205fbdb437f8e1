//! The requested-package store, the installer shell around it, progress
//! recording, and the lock-key digest.

use mqpkg::candidates::Dep;
use mqpkg::errors::DBError;
use mqpkg::name::PackageName;
use mqpkg::pkgdb::{lock_id, transaction_active, Database, LockProbe, State};
use mqpkg::progress::{Progress, ProgressEvent};
use mqpkg::reqtext::{display_requirement, parse_requirement};
use mqpkg::repository::{PackageEntry, Release, RepoData, Repository};
use mqpkg::types::PackageSpecifier;
use mqpkg::vertext::{display_version, parse_version};
use mqpkg::Installer;

fn pkg(n: &str) -> PackageName {
    PackageName::from_str(n).unwrap()
}

#[test]
fn lock_key_digest() {
    // the well-known digest of "test"; fails if the digest were the input
    let id = lock_id("test");
    assert_eq!(id, "098f6bcd4621d373cade4e832627b4f6");
    assert_eq!(id.len(), 32);
    let db = Database::new(id);
    assert_eq!(db.lock_name(), "mqpkg.098f6bcd4621d373cade4e832627b4f6");
}

#[test]
fn transaction_probe() {
    assert!(matches!(transaction_active(LockProbe::Acquired), Ok(false)));
    assert!(matches!(transaction_active(LockProbe::WouldBlock), Ok(true)));
    assert!(transaction_active(LockProbe::Failed).is_err());
}

#[test]
fn store_requires_transaction() {
    let mut db = Database::new(lock_id("root"));
    let sp = PackageSpecifier::from_str("foo>=1.0").unwrap();
    assert!(matches!(db.add(&sp), Err(DBError::NoTransaction)));
    assert!(db.requested().is_err());
    assert!(db.commit().is_err());
}

#[test]
fn store_records_adds_and_commits() {
    let mut db = Database::new(lock_id("root"));
    db.begin(None);
    assert!(db.in_transaction());
    db.add(&PackageSpecifier::from_str("foo>=1.0").unwrap()).unwrap();
    db.add(&PackageSpecifier::from_str("bar").unwrap()).unwrap();
    // replacing an entry keeps one request per name
    db.add(&PackageSpecifier::from_str("foo>=2.0").unwrap()).unwrap();
    assert_eq!(db.requested().unwrap().len(), 2);
    let st = db.commit().unwrap();
    assert!(!db.in_transaction());
    assert_eq!(st.requested.len(), 2);
    let foo = st.requested.iter().find(|r| r.name.as_str() == "foo").unwrap();
    assert_eq!(display_requirement(&foo.version), ">=2.0");
}

#[test]
fn store_rollback_discards_work() {
    let mut db = Database::new(lock_id("root"));
    db.begin(None);
    db.add(&PackageSpecifier::from_str("foo").unwrap()).unwrap();
    db.rollback();
    assert!(!db.in_transaction());
    // nothing was handed out to persist, and a fresh transaction starts clean
    db.begin(None);
    assert_eq!(db.requested().unwrap().len(), 0);
}

#[test]
fn progress_records_only_enabled_channels() {
    let mut p = Progress::new();
    let bar = p.bar(10);
    p.update(&bar, 1);
    p.finish(&bar);
    assert_eq!(p.drain().len(), 0);

    p.with_progress_start();
    p.with_progress_update();
    p.with_progress_finish();
    let bar = p.bar(3);
    p.update(&bar, 2);
    p.finish(&bar);
    let events = p.drain();
    assert_eq!(events.len(), 3);
    assert!(matches!(events[0], ProgressEvent::Started(3)));
    assert!(matches!(events[1], ProgressEvent::Update(2)));
    assert!(matches!(events[2], ProgressEvent::Finished));
}

#[test]
fn environment_install_records_requests() {
    let mut env = mqpkg::operations::Environment::new();
    let packages = vec![pkg("alpha"), pkg("beta")];
    mqpkg::operations::install(&mut env, &packages).unwrap();
    assert_eq!(env.requested.len(), 2);
    assert_eq!(env.requested[0].as_str(), "alpha");
    assert_eq!(env.requested[1].as_str(), "beta");
}

fn sample_repository() -> Repository {
    let mut repository = Repository::new();
    repository.insert(RepoData {
        packages: vec![
            PackageEntry {
                name: pkg("a"),
                releases: vec![
                    Release {
                        version: parse_version("1.0.0").unwrap(),
                        dependencies: vec![Dep {
                            name: pkg("b"),
                            req: parse_requirement(">=1.0.0").unwrap(),
                        }],
                    },
                    Release { version: parse_version("1.1.0").unwrap(), dependencies: vec![] },
                ],
            },
            PackageEntry {
                name: pkg("b"),
                releases: vec![Release {
                    version: parse_version("1.2.0").unwrap(),
                    dependencies: vec![],
                }],
            },
        ],
    });
    repository
}

#[test]
fn installer_installs_and_persists() {
    let repository = sample_repository();
    assert!(repository.check_wf());
    let mut installer = Installer::new("/tmp/target");
    installer.with_console();
    installer.with_progress_spinner();
    installer.with_progress_update();
    installer.with_progress_finish();
    let packages = vec![PackageSpecifier::from_str("a=1.0.0").unwrap()];
    let (sol, st) = installer.install(&packages, &repository, None).unwrap();
    let a = sol.iter().find(|p| p.name.as_str() == "a").unwrap();
    assert_eq!(display_version(&a.version), "1.0.0");
    let b = sol.iter().find(|p| p.name.as_str() == "b").unwrap();
    assert_eq!(display_version(&b.version), "1.2.0");
    // the console saw both steps of the run
    assert_eq!(installer.console_lines.len(), 2);
    assert!(installer.console_lines[0].contains("Fetched package metadata"));
    assert!(installer.console_lines[1].contains("Resolved dependencies"));
    // the request is recorded for the next run
    assert_eq!(st.requested.len(), 1);
    assert_eq!(st.requested[0].name.as_str(), "a");
    // and the recorded state drives the next resolution even without new adds
    let mut installer = Installer::new("/tmp/target");
    let (sol2, st2) = installer.install(&vec![], &repository, Some(st)).unwrap();
    assert_eq!(sol2.len(), 2);
    assert_eq!(st2.requested.len(), 1);
}

#[test]
fn installer_surfaces_no_solution() {
    let repository = sample_repository();
    let mut installer = Installer::new("/tmp/target");
    let packages = vec![PackageSpecifier::from_str("a=9.9.9").unwrap()];
    assert!(installer.install(&packages, &repository, None).is_err());
    // the failed transaction left the store closed
    assert!(!installer.db.in_transaction());
}

#[test]
fn fresh_state_is_empty() {
    let st = State::new();
    assert_eq!(st.requested.len(), 0);
}
