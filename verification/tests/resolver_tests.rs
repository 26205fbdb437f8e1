//! End-to-end resolution scenarios over in-memory repository snapshots.

use mqpkg::candidates::{Dep, Package};
use mqpkg::errors::SolverError;
use mqpkg::name::PackageName;
use mqpkg::repository::{PackageEntry, Release, RepoData, Repository};
use mqpkg::reqtext::parse_requirement;
use mqpkg::resolver::resolve_snapshot;
use mqpkg::vertext::{display_version, parse_version};

fn pkg(n: &str) -> PackageName {
    PackageName::from_str(n).unwrap()
}

fn dep(n: &str, r: &str) -> Dep {
    Dep { name: pkg(n), req: parse_requirement(r).unwrap() }
}

fn release(v: &str, deps: Vec<Dep>) -> Release {
    Release { version: parse_version(v).unwrap(), dependencies: deps }
}

fn entry(n: &str, releases: Vec<Release>) -> PackageEntry {
    PackageEntry { name: pkg(n), releases }
}

fn repo(entries: Vec<PackageEntry>) -> RepoData {
    RepoData { packages: entries }
}

fn find<'a>(sol: &'a [Package], name: &str) -> Option<&'a Package> {
    sol.iter().find(|p| p.name.as_str() == name)
}

#[test]
fn single_package_single_repo() {
    let mut repository = Repository::new();
    repository.insert(repo(vec![entry(
        "a",
        vec![release("1.0.0", vec![]), release("1.1.0", vec![])],
    )]));
    assert!(repository.check_wf());
    let reqs = vec![dep("a", "*")];
    let sol = resolve_snapshot(&repository, &reqs).unwrap();
    assert_eq!(sol.len(), 1);
    let a = find(&sol, "a").unwrap();
    assert_eq!(display_version(&a.version), "1.1.0");
    assert_eq!(a.source_id, 1);
}

#[test]
fn transitive_dependency() {
    let mut repository = Repository::new();
    repository.insert(repo(vec![
        entry("a", vec![release("1.0.0", vec![dep("b", ">=1.0.0")])]),
        entry("b", vec![release("1.0.0", vec![]), release("2.0.0", vec![])]),
    ]));
    assert!(repository.check_wf());
    let reqs = vec![dep("a", "*")];
    let sol = resolve_snapshot(&repository, &reqs).unwrap();
    assert_eq!(display_version(&find(&sol, "a").unwrap().version), "1.0.0");
    assert_eq!(display_version(&find(&sol, "b").unwrap().version), "2.0.0");
}

#[test]
fn conflicting_requirements() {
    let mut repository = Repository::new();
    repository.insert(repo(vec![
        entry("a", vec![release("1.0.0", vec![dep("c", "=1.0.0")])]),
        entry("b", vec![release("1.0.0", vec![dep("c", "=2.0.0")])]),
        entry("c", vec![release("1.0.0", vec![]), release("2.0.0", vec![])]),
    ]));
    assert!(repository.check_wf());
    let reqs = vec![dep("a", "*"), dep("b", "*")];
    match resolve_snapshot(&repository, &reqs) {
        Err(SolverError::NoSolution(dt)) => {
            let rendered = SolverError::humanized("resolution failed", dt).message();
            assert!(rendered.contains("c"));
            assert!(rendered.contains("a") || rendered.contains("b"));
        }
        other => panic!("expected no solution, got {:?}", other.is_ok()),
    }
}

#[test]
fn multi_repo_precedence() {
    let mut repository = Repository::new();
    repository.insert(repo(vec![entry("a", vec![release("1.0.0", vec![])])]));
    repository.insert(repo(vec![entry(
        "a",
        vec![release("1.0.0", vec![]), release("1.1.0", vec![])],
    )]));
    assert!(repository.check_wf());
    let reqs = vec![dep("a", "=1.0.0")];
    let sol = resolve_snapshot(&repository, &reqs).unwrap();
    let a = find(&sol, "a").unwrap();
    assert_eq!(display_version(&a.version), "1.0.0");
    assert_eq!(a.source_id, 1, "the earlier-declared repository wins the tie");
}

#[test]
fn prerelease_opt_in() {
    let mut repository = Repository::new();
    repository.insert(repo(vec![entry(
        "a",
        vec![release("1.0.0-rc1", vec![]), release("1.0.0", vec![])],
    )]));
    assert!(repository.check_wf());

    let sol = resolve_snapshot(&repository, &vec![dep("a", "*")]).unwrap();
    assert_eq!(display_version(&find(&sol, "a").unwrap().version), "1.0.0");

    let sol = resolve_snapshot(&repository, &vec![dep("a", ">=1.0.0-rc1")]).unwrap();
    assert_eq!(display_version(&find(&sol, "a").unwrap().version), "1.0.0");

    let sol = resolve_snapshot(&repository, &vec![dep("a", "=1.0.0-rc1")]).unwrap();
    assert_eq!(display_version(&find(&sol, "a").unwrap().version), "1.0.0-rc1");
}

#[test]
fn missing_dependency() {
    let mut repository = Repository::new();
    repository.insert(repo(vec![entry(
        "a",
        vec![release("1.0.0", vec![dep("z", ">=1")])],
    )]));
    assert!(repository.check_wf());
    match resolve_snapshot(&repository, &vec![dep("a", "*")]) {
        Err(SolverError::NoSolution(dt)) => {
            let rendered = SolverError::humanized("resolution failed", dt).message();
            assert!(rendered.contains("z"));
        }
        other => panic!("expected no solution, got {:?}", other.is_ok()),
    }
}

#[test]
fn resolution_is_deterministic() {
    let build = || {
        let mut repository = Repository::new();
        repository.insert(repo(vec![
            entry("a", vec![release("1.0.0", vec![dep("b", "*")]), release("2.0.0", vec![dep("b", "*")])]),
            entry("b", vec![release("1.0.0", vec![]), release("1.5.0", vec![])]),
        ]));
        repository
    };
    let reqs = vec![dep("a", "*")];
    let one = resolve_snapshot(&build(), &reqs).unwrap();
    let two = resolve_snapshot(&build(), &reqs).unwrap();
    assert_eq!(one.len(), two.len());
    for p in &one {
        let q = find(&two, p.name.as_str()).unwrap();
        assert_eq!(display_version(&p.version), display_version(&q.version));
        assert_eq!(p.source_id, q.source_id);
        assert_ne!(p.name.as_str(), "requested packages");
    }
}

#[test]
fn later_repository_overrides_dependencies() {
    let mut repository = Repository::new();
    repository.insert(repo(vec![
        entry("a", vec![release("1.0.0", vec![dep("b", "=1.0.0")])]),
        entry("b", vec![release("1.0.0", vec![]), release("2.0.0", vec![])]),
    ]));
    repository.insert(repo(vec![entry(
        "a",
        vec![release("1.0.0", vec![dep("b", "=2.0.0")])],
    )]));
    assert!(repository.check_wf());
    let deps = repository.dependencies(&pkg("a"), &parse_version("1.0.0").unwrap());
    assert_eq!(deps.len(), 1);
    assert_eq!(
        mqpkg::reqtext::display_requirement(&deps[0].req),
        "=2.0.0",
        "the later-declared repository wins the contested key"
    );
}

#[test]
fn candidates_newest_first_ties_to_earlier_repo() {
    let mut repository = Repository::new();
    repository.insert(repo(vec![entry("a", vec![release("1.0.0", vec![])])]));
    repository.insert(repo(vec![entry(
        "a",
        vec![release("1.0.0", vec![]), release("0.9.0", vec![])],
    )]));
    assert!(repository.check_wf());
    let cands = repository.candidates(&pkg("a"));
    assert_eq!(cands.len(), 3);
    assert_eq!(display_version(cands[0].version()), "1.0.0");
    assert_eq!(cands[0].source().0, 1, "earlier repository first at an equal version");
    assert_eq!(cands[1].source().0, 2);
    assert_eq!(display_version(&cands[2].version), "0.9.0");
}

#[test]
fn solver_front_door() {
    let mut repository = Repository::new();
    repository.insert(repo(vec![entry("a", vec![release("1.0.0", vec![])])]));
    let solver = mqpkg::resolver::Solver::new(repository);
    let sol = solver.resolve(&vec![dep("a", "*")]).unwrap();
    assert_eq!(sol.len(), 1);
    assert_eq!(display_version(&find(&sol, "a").unwrap().version), "1.0.0");
}
